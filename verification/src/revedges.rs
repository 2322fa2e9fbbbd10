//! The incoming-edge index of a snapshot, in preorder space: for each
//! preorder number `w`, the preorder numbers of the nodes with an edge into
//! the node numbered `w`.

use vstd::prelude::*;
use crate::graph::SnapshotGraph;
use crate::reach::{all_reachable, Preorder, reachable, lemma_distinct_bound};

verus! {

/// Edge `e` points to the node numbered `w` by `pre`.
pub open spec fn hits(g: SnapshotGraph, pre: Seq<u32>, w: int, e: int) -> bool {
    g.target(e) < g.node_count && pre[g.target(e)] as int == w
}

/// Number of edge records before `e` that point to the node numbered `w`.
pub open spec fn count_into(g: SnapshotGraph, pre: Seq<u32>, w: int, e: int) -> nat
    decreases e,
{
    if e <= 0 {
        0
    } else {
        count_into(g, pre, w, e - 1) + if hits(g, pre, w, e - 1) {
            1nat
        } else {
            0nat
        }
    }
}

/// Number of edge records before `e` whose target is a node.
pub open spec fn valid_upto(g: SnapshotGraph, e: int) -> nat
    decreases e,
{
    if e <= 0 {
        0
    } else {
        valid_upto(g, e - 1) + if g.target(e - 1) < g.node_count {
            1nat
        } else {
            0nat
        }
    }
}

/// Every edge record `f < bound` into a node is filed: the preorder number
/// of its owner sits in the slice `starts[w]..cursor[w]` of its target's
/// number `w`.
pub open spec fn filed_upto(g: SnapshotGraph, pre: Seq<u32>, starts: Seq<u32>, cursor: Seq<u32>, sources: Seq<u32>, bound: int) -> bool {
    forall|u: int, f: int|
        #![trigger g.owns(u, f)]
        g.owns(u, f) && f < bound && g.target(f) < g.node_count ==> exists|q: int|
            starts[pre[g.target(f)] as int] <= q < cursor[pre[g.target(f)] as int] && #[trigger] sources[q] == pre[u]
}

/// Sum of the first `k` entries of `c`.
pub open spec fn sum_prefix(c: Seq<u32>, k: int) -> nat
    decreases k,
{
    if k <= 0 {
        0
    } else {
        sum_prefix(c, k - 1) + c[k - 1] as nat
    }
}

proof fn lemma_valid_upto_le(g: SnapshotGraph, e: int)
    requires
        e >= 0,
    ensures
        valid_upto(g, e) <= e,
    decreases e,
{
    if e > 0 {
        lemma_valid_upto_le(g, e - 1);
    }
}

proof fn lemma_count_into_mono(g: SnapshotGraph, pre: Seq<u32>, w: int, a: int, b: int)
    requires
        a <= b,
    ensures
        count_into(g, pre, w, a) <= count_into(g, pre, w, b),
    decreases b - a,
{
    if a < b {
        lemma_count_into_mono(g, pre, w, a, b - 1);
    }
}

proof fn lemma_sum_mono(c: Seq<u32>, a: int, b: int)
    requires
        a <= b,
    ensures
        sum_prefix(c, a) <= sum_prefix(c, b),
    decreases b - a,
{
    if a < b {
        lemma_sum_mono(c, a, b - 1);
    }
}

proof fn lemma_elem_le_sum(c: Seq<u32>, w: int, k: int)
    requires
        0 <= w < k,
    ensures
        c[w] as nat + sum_prefix(c, w) <= sum_prefix(c, k),
{
    lemma_sum_mono(c, w + 1, k);
}

proof fn lemma_sum_bump(c: Seq<u32>, w: int, k: int, v: u32)
    requires
        0 <= w,
        w < c.len(),
        k <= c.len(),
        v == c[w] + 1,
    ensures
        sum_prefix(c.update(w, v), k) == sum_prefix(c, k) + if w < k {
            1nat
        } else {
            0nat
        },
    decreases k,
{
    if k > 0 {
        lemma_sum_bump(c, w, k - 1, v);
        if k - 1 < c.len() {
            assert(c.update(w, v)[k - 1] == if k - 1 == w {
                v
            } else {
                c[k - 1]
            });
        }
    }
}

/// Every node is numbered when all are reachable, so the numbering is onto.
pub proof fn lemma_all_numbered(g: SnapshotGraph, p: Preorder)
    requires
        p.of(g),
        all_reachable(g),
    ensures
        p.vertex@.len() == g.node_count,
        forall|m: int| 0 <= m < g.node_count ==> (#[trigger] p.preorder@[m] as int) < g.node_count,
{
    let n = g.node_count as int;
    assert forall|m: int| 0 <= m < n implies (#[trigger] p.preorder@[m] as int) < p.vertex@.len() by {
        assert(reachable(g, m));
    }
    assert forall|a: int, b: int| 0 <= a < b < n implies #[trigger] p.preorder@[a] != #[trigger] p.preorder@[b] by {
        assert(reachable(g, a));
        assert(reachable(g, b));
        assert(p.vertex@[p.preorder@[a] as int] == a);
        assert(p.vertex@[p.preorder@[b] as int] == b);
    }
    lemma_distinct_bound(p.preorder@, p.vertex@.len() as int);
}

/// Incoming-edge index in preorder space.
pub struct ReverseEdges {
    /// `starts[w]..starts[w + 1]` is the slice of `sources` for preorder number `w`
    pub starts: Vec<u32>,
    /// preorder numbers of the sources of incoming edges
    pub sources: Vec<u32>,
}

impl ReverseEdges {
    /// Every listed source of preorder number `w` has an edge into the node numbered `w`,
    /// and the slice of `w` holds one entry per such edge record.
    pub open spec fn of(self, g: SnapshotGraph, pre: Seq<u32>, vertex: Seq<u32>) -> bool {
        let n = g.node_count as int;
        &&& self.starts@.len() == n + 1
        &&& self.starts@[0] == 0
        &&& self.starts@[n] == self.sources@.len()
        &&& forall|w: int| 0 <= w < n ==> #[trigger] self.starts@[w] <= self.starts@[w + 1]
        &&& forall|w: int|
            0 <= w < n ==> self.starts@[w + 1] - self.starts@[w] == #[trigger] count_into(
                g,
                pre,
                w,
                g.total_edges(),
            )
        &&& forall|w: int, j: int|
            #![trigger self.starts@[w], self.sources@[j]]
            0 <= w < n && self.starts@[w] <= j < self.starts@[w + 1] ==> (self.sources@[j] as int) < n
                && g.succ(vertex[self.sources@[j] as int] as int, vertex[w] as int)
        &&& filed_upto(g, pre, self.starts@, self.starts@.subrange(1, self.starts@.len() as int), self.sources@, g.total_edges())
    }
}

/// Number of incoming edge records of every preorder number.
fn count_incoming(g: &SnapshotGraph, p: &Preorder) -> (counts: Vec<u32>)
    requires
        g.wf(),
        p.of(*g),
        all_reachable(*g),
    ensures
        counts@.len() == g.node_count,
        forall|w: int| 0 <= w < g.node_count ==> #[trigger] counts@[w] == count_into(*g, p.preorder@, w, g.total_edges()),
        sum_prefix(counts@, g.node_count as int) <= u32::MAX,
{
    proof {
        lemma_all_numbered(*g, *p);
        g.lemma_first_edge_mono(0, g.node_count as int);
        lemma_valid_upto_le(*g, g.total_edges());
    }
    let n = g.node_count;
    let ghost pre = p.preorder@;
    let mut counts: Vec<u32> = Vec::new();
    let mut i: usize = 0;
    while i < n
        invariant
            i <= n,
            counts@.len() == i,
            forall|w: int| 0 <= w < i ==> #[trigger] counts@[w] == 0,
        decreases n - i,
    {
        counts.push(0);
        i += 1;
    }
    proof {
        lemma_sum_zero(counts@, n as int);
    }
    let mut v: usize = 0;
    while v < n
        invariant
            g.wf(),
            p.of(*g),
            n == g.node_count,
            pre == p.preorder@,
            v <= n,
            counts@.len() == n,
            forall|m: int| 0 <= m < n ==> (#[trigger] pre[m] as int) < n,
            valid_upto(*g, g.total_edges()) <= g.total_edges(),
            g.total_edges() <= u32::MAX,
            forall|w: int| 0 <= w < n ==> #[trigger] counts@[w] == count_into(*g, pre, w, g.first_edge(v as int)),
            sum_prefix(counts@, n as int) == valid_upto(*g, g.first_edge(v as int)),
        decreases n - v,
    {
        let (start, end) = g.edge_range(v);
        let mut e = start;
        while e < end
            invariant
                g.wf(),
                n == g.node_count,
                pre == p.preorder@,
                p.preorder@.len() == n,
                start <= e <= end,
                end <= g.total_edges(),
                g.total_edges() <= u32::MAX,
                counts@.len() == n,
                forall|m: int| 0 <= m < n ==> (#[trigger] pre[m] as int) < n,
                forall|w: int| 0 <= w < n ==> #[trigger] counts@[w] == count_into(*g, pre, w, e as int),
                sum_prefix(counts@, n as int) == valid_upto(*g, e as int),
            decreases end - e,
        {
            let t = g.edge_target(e);
            proof {
                lemma_valid_upto_le(*g, e as int);
            }
            if t < n {
                let w = p.preorder[t] as usize;
                proof {
                    lemma_elem_le_sum(counts@, w as int, n as int);
                    lemma_sum_bump(counts@, w as int, n as int, (counts@[w as int] + 1) as u32);
                }
                let c = counts[w] + 1;
                counts.set(w, c);
            }
            proof {
                assert forall|w2: int| 0 <= w2 < n implies #[trigger] counts@[w2] == count_into(*g, pre, w2, e + 1) by {
                    assert(count_into(*g, pre, w2, e + 1) == count_into(*g, pre, w2, e as int) + if hits(*g, pre, w2, e as int) { 1nat } else { 0nat });
                }
            }
            e += 1;
        }
        proof {
            g.lemma_first_edge_step(v as int);
        }
        v += 1;
    }
    counts
}

/// Files the source of every edge under its target's slice, in edge order.
#[verifier::rlimit(50)]
fn fill_sources(g: &SnapshotGraph, p: &Preorder, counts: &Vec<u32>, starts: &Vec<u32>) -> (sources: Vec<u32>)
    requires
        g.wf(),
        p.of(*g),
        all_reachable(*g),
        counts@.len() == g.node_count,
        starts@.len() == g.node_count + 1,
        starts@[0] == 0,
        forall|k: int| 0 <= k < g.node_count ==> #[trigger] starts@[k] <= starts@[k + 1],
        forall|k: int| 0 <= k < g.node_count ==> starts@[k + 1] - starts@[k] == #[trigger] counts@[k] as int,
        forall|k: int| 0 <= k < g.node_count ==> #[trigger] counts@[k] == count_into(*g, p.preorder@, k, g.total_edges()),
    ensures
        sources@.len() == starts@[g.node_count as int],
        forall|k: int, q: int|
            #![trigger starts@[k], sources@[q]]
            0 <= k < g.node_count && starts@[k] <= q < starts@[k + 1] ==> (sources@[q] as int) < g.node_count
                && g.succ(p.vertex@[sources@[q] as int] as int, p.vertex@[k] as int),
        filed_upto(*g, p.preorder@, starts@, starts@.subrange(1, starts@.len() as int), sources@, g.total_edges()),
{
    proof {
        lemma_all_numbered(*g, *p);
        lemma_sources_disjoint(starts@, g.node_count as int);
    }
    let n = g.node_count;
    let ghost pre = p.preorder@;
    let mut cursor: Vec<u32> = Vec::new();
    let mut i: usize = 0;
    while i < n
        invariant
            i <= n,
            n == g.node_count,
            starts@.len() == n + 1,
            cursor@ == starts@.take(i as int),
        decreases n - i,
    {
        cursor.push(starts[i]);
        assert(cursor@ =~= starts@.take(i + 1));
        i += 1;
    }
    let total = starts[n] as usize;
    let mut sources: Vec<u32> = Vec::new();
    let mut j: usize = 0;
    while j < total
        invariant
            j <= total,
            sources@.len() == j,
        decreases total - j,
    {
        sources.push(0);
        j += 1;
    }
    proof {
        assert forall|u: int, f: int|
            #![trigger g.owns(u, f)]
            g.owns(u, f) && f < g.first_edge(0) && g.target(f) < g.node_count implies exists|q: int|
                starts@[pre[g.target(f)] as int] <= q < cursor@[pre[g.target(f)] as int] && #[trigger] sources@[q] == pre[u] by {
            g.lemma_first_edge_mono(0, u);
        }
    }
    let mut v: usize = 0;
    while v < n
        invariant
            g.wf(),
            p.of(*g),
            n == g.node_count,
            pre == p.preorder@,
            v <= n,
            counts@.len() == n,
            starts@.len() == n + 1,
            cursor@.len() == n,
            sources@.len() == starts@[n as int],
            forall|m: int| 0 <= m < n ==> (#[trigger] pre[m] as int) < n,
            forall|a: int, b: int| 0 <= a < b <= n ==> #[trigger] starts@[a] <= #[trigger] starts@[b],
            forall|k: int| 0 <= k < n ==> starts@[k + 1] - starts@[k] == #[trigger] counts@[k] as int,
            forall|k: int| 0 <= k < n ==> #[trigger] counts@[k] == count_into(*g, pre, k, g.total_edges()),
            forall|k: int| 0 <= k < n ==> #[trigger] cursor@[k] == starts@[k] + count_into(*g, pre, k, g.first_edge(v as int)),
            forall|k: int, q: int|
                #![trigger starts@[k], sources@[q]]
                0 <= k < n && starts@[k] <= q < cursor@[k] ==> (sources@[q] as int) < n
                    && g.succ(p.vertex@[sources@[q] as int] as int, p.vertex@[k] as int),
            filed_upto(*g, pre, starts@, cursor@, sources@, g.first_edge(v as int)),
        decreases n - v,
    {
        let (start, end) = g.edge_range(v);
        let mut e = start;
        while e < end
            invariant
                g.wf(),
                p.of(*g),
                n == g.node_count,
                pre == p.preorder@,
                v < n,
                g.first_edge(v as int) == start,
                start <= e <= end,
                end == g.first_edge(v + 1),
                end <= g.total_edges(),
                counts@.len() == n,
                starts@.len() == n + 1,
                cursor@.len() == n,
                sources@.len() == starts@[n as int],
                forall|m: int| 0 <= m < n ==> (#[trigger] pre[m] as int) < n,
                forall|a: int, b: int| 0 <= a < b <= n ==> #[trigger] starts@[a] <= #[trigger] starts@[b],
                forall|k: int| 0 <= k < n ==> starts@[k + 1] - starts@[k] == #[trigger] counts@[k] as int,
                forall|k: int| 0 <= k < n ==> #[trigger] counts@[k] == count_into(*g, pre, k, g.total_edges()),
                forall|k: int| 0 <= k < n ==> #[trigger] cursor@[k] == starts@[k] + count_into(*g, pre, k, e as int),
                forall|k: int, q: int|
                    #![trigger starts@[k], sources@[q]]
                    0 <= k < n && starts@[k] <= q < cursor@[k] ==> (sources@[q] as int) < n
                        && g.succ(p.vertex@[sources@[q] as int] as int, p.vertex@[k] as int),
                filed_upto(*g, pre, starts@, cursor@, sources@, e as int),
            decreases end - e,
        {
            let t = g.edge_target(e);
            let ghost old_cursor = cursor@;
            let ghost old_sources = sources@;
            if t < n {
                let wt = p.preorder[t] as usize;
                let slot = cursor[wt];
                proof {
                    assert(hits(*g, pre, wt as int, e as int));
                    assert(count_into(*g, pre, wt as int, e + 1) == count_into(*g, pre, wt as int, e as int) + 1);
                    lemma_count_into_mono(*g, pre, wt as int, e + 1, g.total_edges());
                    assert(counts@[wt as int] == count_into(*g, pre, wt as int, g.total_edges()));
                    assert(slot < starts@[wt + 1]);
                    if wt + 1 < n {
                        assert(starts@[wt + 1] <= starts@[n as int]);
                    }
                    assert(g.owns(v as int, e as int));
                    assert(p.vertex@[pre[t as int] as int] == t);
                    assert(p.vertex@[pre[v as int] as int] == v);
                    assert(g.succ(v as int, t as int));
                }
                sources.set(slot as usize, p.preorder[v]);
                cursor.set(wt, slot + 1);
                proof {
                    assert forall|u: int, f: int|
                        #![trigger g.owns(u, f)]
                        g.owns(u, f) && f < e + 1 && g.target(f) < g.node_count implies exists|q: int|
                            starts@[pre[g.target(f)] as int] <= q < cursor@[pre[g.target(f)] as int] && #[trigger] sources@[q] == pre[u] by {
                        if f == e as int {
                            if u < v as int {
                                g.lemma_first_edge_mono(u + 1, v as int);
                            } else if u > v as int {
                                g.lemma_first_edge_mono(v + 1, u);
                            }
                            assert(u == v as int);
                            assert(sources@[slot as int] == pre[u]);
                        } else {
                            let k = pre[g.target(f)] as int;
                            let q = choose|q: int| starts@[k] <= q < old_cursor[k] && #[trigger] old_sources[q] == pre[u];
                            if k != wt as int {
                                if k < wt {
                                    assert(starts@[k + 1] <= starts@[wt as int]);
                                } else {
                                    assert(starts@[wt + 1] <= starts@[k]);
                                }
                                lemma_count_into_mono(*g, pre, k, e as int, g.total_edges());
                                assert(counts@[k] == count_into(*g, pre, k, g.total_edges()));
                                assert(old_cursor[k] <= starts@[k + 1]);
                            }
                            assert(q != slot as int);
                            assert(sources@[q] == old_sources[q]);
                        }
                    }

                    assert forall|k: int, q: int|
                        #![trigger starts@[k], sources@[q]]
                        0 <= k < n && starts@[k] <= q < cursor@[k] implies (sources@[q] as int) < n
                            && g.succ(p.vertex@[sources@[q] as int] as int, p.vertex@[k] as int) by {
                        if q == slot as int {
                            if k != wt as int {
                                if k < wt {
                                    assert(starts@[k + 1] <= starts@[wt as int]);
                                } else {
                                    assert(starts@[wt + 1] <= starts@[k]);
                                }
                                lemma_count_into_mono(*g, pre, k, e as int, g.total_edges());
                                assert(counts@[k] == count_into(*g, pre, k, g.total_edges()));
                                assert(cursor@[k] <= starts@[k + 1]);
                            }
                        } else {
                            lemma_count_into_mono(*g, pre, k, e as int, g.total_edges());
                            assert(counts@[k] == count_into(*g, pre, k, g.total_edges()));
                            if k + 1 < n {
                                assert(starts@[k + 1] <= starts@[n as int]);
                            }
                            assert(old_sources[q] == sources@[q]);
                            assert(starts@[k] <= q < old_cursor[k]) by {
                                if k == wt as int {
                                    assert(old_cursor[k] == slot);
                                }
                            }
                        }
                    }
                }
            }
            proof {
                if t >= n {
                    assert forall|u: int, f: int|
                        #![trigger g.owns(u, f)]
                        g.owns(u, f) && f < e + 1 && g.target(f) < g.node_count implies exists|q: int|
                            starts@[pre[g.target(f)] as int] <= q < cursor@[pre[g.target(f)] as int] && #[trigger] sources@[q] == pre[u] by {
                        assert(f != e as int);
                    }
                }
                assert forall|k: int| 0 <= k < n implies #[trigger] cursor@[k] == starts@[k] + count_into(*g, pre, k, e + 1) by {
                    assert(count_into(*g, pre, k, e + 1) == count_into(*g, pre, k, e as int) + if hits(*g, pre, k, e as int) { 1nat } else { 0nat });
                }
            }
            e += 1;
        }
        v += 1;
    }
    proof {
        assert forall|k: int| 0 <= k < n implies #[trigger] cursor@[k] == starts@[k + 1] by {
            assert(g.first_edge(n as int) == g.total_edges());
            assert(counts@[k] == count_into(*g, pre, k, g.total_edges()));
            assert(starts@[k + 1] - starts@[k] == counts@[k] as int);
        }
        assert(cursor@ =~= starts@.subrange(1, starts@.len() as int));
        assert(g.first_edge(n as int) == g.total_edges());
    }
    sources
}

/// Builds the incoming-edge index: one counting pass over the edges, a
/// prefix sum, and a second pass that files each edge's source under its
/// target, in edge order.
pub fn reverse_edges(g: &SnapshotGraph, p: &Preorder) -> (r: ReverseEdges)
    requires
        g.wf(),
        p.of(*g),
        all_reachable(*g),
    ensures
        r.of(*g, p.preorder@, p.vertex@),
{
    let n = g.node_count;
    let counts = count_incoming(g, p);
    let mut starts: Vec<u32> = Vec::new();
    let mut acc: u32 = 0;
    starts.push(0);
    let mut w: usize = 0;
    while w < n
        invariant
            w <= n,
            n == g.node_count,
            counts@.len() == n,
            starts@.len() == w + 1,
            acc == starts@[w as int],
            sum_prefix(counts@, n as int) <= u32::MAX,
            forall|k: int| 0 <= k <= w ==> #[trigger] starts@[k] == sum_prefix(counts@, k),
        decreases n - w,
    {
        proof {
            lemma_sum_mono(counts@, w + 1, n as int);
        }
        acc = acc + counts[w];
        starts.push(acc);
        w += 1;
    }
    proof {
        assert forall|k: int| 0 <= k < n implies #[trigger] starts@[k] <= starts@[k + 1] by {
            lemma_sum_mono(counts@, k, k + 1);
        }
        assert forall|k: int| 0 <= k < n implies starts@[k + 1] - starts@[k] == #[trigger] counts@[k] as int by {
            assert(starts@[k + 1] == sum_prefix(counts@, k + 1));
        }
    }
    let sources = fill_sources(g, p, &counts, &starts);
    ReverseEdges { starts, sources }
}

proof fn lemma_sum_zero(c: Seq<u32>, k: int)
    requires
        k <= c.len(),
        forall|w: int| 0 <= w < c.len() ==> #[trigger] c[w] == 0,
    ensures
        sum_prefix(c, k) == 0,
    decreases k,
{
    if k > 0 {
        lemma_sum_zero(c, k - 1);
    }
}

proof fn lemma_sources_disjoint(starts: Seq<u32>, n: int)
    requires
        starts.len() == n + 1,
        forall|k: int| 0 <= k < n ==> #[trigger] starts[k] <= starts[k + 1],
    ensures
        forall|a: int, b: int| 0 <= a < b <= n ==> #[trigger] starts[a] <= #[trigger] starts[b],
{
    assert forall|a: int, b: int| 0 <= a < b <= n implies #[trigger] starts[a] <= #[trigger] starts[b] by {
        lemma_starts_mono(starts, n, a, b);
    }
}

proof fn lemma_starts_mono(starts: Seq<u32>, n: int, a: int, b: int)
    requires
        starts.len() == n + 1,
        forall|k: int| 0 <= k < n ==> #[trigger] starts[k] <= starts[k + 1],
        0 <= a <= b <= n,
    ensures
        starts[a] <= starts[b],
    decreases b - a,
{
    if a < b {
        lemma_starts_mono(starts, n, a, b - 1);
    }
}

} // verus!
