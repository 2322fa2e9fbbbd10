//! Retained sizes: each node's self size plus the retained sizes of the
//! nodes it immediately dominates, with the incoming-edge index kept for
//! path queries.

use vstd::prelude::*;
use crate::dominators::lengauer_tarjan;
use crate::graph::SnapshotGraph;
use crate::reach::{all_reachable, dfs_preorder, Preorder};
use crate::revedges::{count_into, lemma_all_numbered, reverse_edges, ReverseEdges};

verus! {

/// Cached dominator-tree analysis of a snapshot.
pub struct RetainedData {
    /// retained (self + dominated subtree) size per node, node space
    pub retained: Vec<u64>,
    /// incoming-edge index: slice `rev_starts[w]..rev_starts[w + 1]` of
    /// `rev_sources` belongs to preorder number `w`
    pub rev_starts: Vec<u32>,
    /// preorder numbers of the sources of incoming edges
    pub rev_sources: Vec<u32>,
    /// immediate dominator per node (node space); the root's is itself
    pub idoms: Vec<u32>,
    /// node index -> preorder number
    pub preorder: Vec<u32>,
    /// preorder number -> node index
    pub vertex: Vec<u32>,
}

/// Sum of `r[k]` over `lo <= k < hi` with `idom[k] == x` (preorder space).
pub open spec fn child_sum(idom: Seq<u32>, r: Seq<u64>, x: int, lo: int, hi: int) -> int
    decreases hi - lo,
{
    if hi <= lo {
        0
    } else {
        child_sum(idom, r, x, lo, hi - 1) + if idom[hi - 1] as int == x {
            r[hi - 1] as int
        } else {
            0
        }
    }
}

/// Sum of the retained sizes of the nodes whose immediate dominator is `m`,
/// over the nodes with preorder numbers in `1..hi`.
pub open spec fn dominated_sum(rd: RetainedData, m: int, hi: int) -> int
    decreases hi,
{
    if hi <= 1 {
        0
    } else {
        dominated_sum(rd, m, hi - 1) + if rd.idoms@[rd.vertex@[hi - 1] as int] as int == m {
            rd.retained@[rd.vertex@[hi - 1] as int] as int
        } else {
            0
        }
    }
}

/// Sum of the first `k` entries.
pub open spec fn sum64(r: Seq<u64>, k: int) -> int
    decreases k,
{
    if k <= 0 {
        0
    } else {
        sum64(r, k - 1) + r[k - 1] as int
    }
}

impl RetainedData {
    /// The analysis of `g`: a numbering of all nodes in depth-first
    /// preorder from the root, the incoming-edge index over it, immediate
    /// dominators that come earlier in the numbering, and retained sizes
    /// that add up over the dominator tree.
    pub open spec fn of(self, g: SnapshotGraph) -> bool {
        let n = g.node_count as int;
        &&& self.preorder@.len() == n
        &&& self.vertex@.len() == n
        &&& self.preorder@[0] == 0
        &&& forall|m: int| 0 <= m < n ==> (#[trigger] self.preorder@[m] as int) < n && self.vertex@[self.preorder@[m] as int] == m
        &&& forall|k: int| 0 <= k < n ==> (#[trigger] self.vertex@[k] as int) < n && self.preorder@[self.vertex@[k] as int] == k
        &&& (ReverseEdges { starts: self.rev_starts, sources: self.rev_sources }).of(g, self.preorder@, self.vertex@)
        &&& self.idoms@.len() == n
        &&& self.idoms@[0] == 0
        &&& forall|m: int| 1 <= m < n ==> #[trigger] self.idoms@[m] == u32::MAX || ((self.idoms@[m] as int) < n
            && self.preorder@[self.idoms@[m] as int] < self.preorder@[m])
        &&& self.retained@.len() == n
        &&& forall|m: int| 0 <= m < n ==> #[trigger] self.retained@[m] as int == g.self_size(m) as int + dominated_sum(self, m, n)
    }
}

proof fn lemma_child_sum_frame(idom: Seq<u32>, r: Seq<u64>, r2: Seq<u64>, x: int, lo: int, hi: int)
    requires
        forall|k: int| lo <= k < hi ==> r[k] == r2[k],
    ensures
        child_sum(idom, r, x, lo, hi) == child_sum(idom, r2, x, lo, hi),
    decreases hi - lo,
{
    if hi > lo {
        lemma_child_sum_frame(idom, r, r2, x, lo, hi - 1);
    }
}

proof fn lemma_child_sum_front(idom: Seq<u32>, r: Seq<u64>, x: int, lo: int, hi: int)
    requires
        lo < hi,
    ensures
        child_sum(idom, r, x, lo, hi) == child_sum(idom, r, x, lo + 1, hi) + if idom[lo] as int == x {
            r[lo] as int
        } else {
            0
        },
    decreases hi - lo,
{
    if hi - 1 > lo {
        lemma_child_sum_front(idom, r, x, lo, hi - 1);
        assert(child_sum(idom, r, x, lo + 1, hi) == child_sum(idom, r, x, lo + 1, hi - 1) + if idom[hi - 1] as int == x {
            r[hi - 1] as int
        } else {
            0
        });
    } else {
        assert(child_sum(idom, r, x, lo + 1, hi) == 0);
        assert(child_sum(idom, r, x, lo, hi - 1) == 0);
    }
}

proof fn lemma_sum64_le(r: Seq<u64>, a: int, k: int)
    requires
        0 <= a < k,
    ensures
        sum64(r, a) + r[a] as int <= sum64(r, k),
        sum64(r, a) >= 0,
    decreases k,
{
    lemma_sum64_nonneg(r, a);
    if a + 1 < k {
        lemma_sum64_le(r, a, k - 1);
    }
}

proof fn lemma_sum64_nonneg(r: Seq<u64>, k: int)
    ensures
        sum64(r, k) >= 0,
    decreases k,
{
    if k > 0 {
        lemma_sum64_nonneg(r, k - 1);
    }
}

proof fn lemma_sum64_update(r: Seq<u64>, a: int, v: u64, k: int)
    requires
        0 <= a < r.len(),
        k <= r.len(),
    ensures
        sum64(r.update(a, v), k) == sum64(r, k) + if a < k {
            v as int - r[a] as int
        } else {
            0
        },
    decreases k,
{
    if k > 0 {
        lemma_sum64_update(r, a, v, k - 1);
    }
}

/// Accumulates retained sizes over the dominator tree: in reverse preorder,
/// each vertex's total is added to its immediate dominator.
fn accumulate(g: &SnapshotGraph, vertex: &Vec<u32>, idom: &Vec<u32>) -> (r: Vec<u64>)
    requires
        g.wf(),
        vertex@.len() == g.node_count,
        idom@.len() == g.node_count,
        g.node_count >= 1,
        forall|k: int| 0 <= k < g.node_count ==> (#[trigger] vertex@[k] as int) < g.node_count,
        forall|w: int| 1 <= w < g.node_count ==> #[trigger] idom@[w] == u32::MAX || idom@[w] < w,
    ensures
        r@.len() == g.node_count,
        forall|x: int| 0 <= x < g.node_count ==> #[trigger] r@[x] as int == g.self_size(vertex@[x] as int) as int
            + child_sum(idom@, r@, x, 1, g.node_count as int),
{
    let n = g.node_count;
    let mut r: Vec<u64> = Vec::new();
    let mut i: usize = 0;
    while i < n
        invariant
            g.wf(),
            n == g.node_count,
            i <= n,
            vertex@.len() == n,
            forall|k: int| 0 <= k < n ==> (#[trigger] vertex@[k] as int) < n,
            r@.len() == i,
            forall|x: int| 0 <= x < i ==> #[trigger] r@[x] as int == g.self_size(vertex@[x] as int) as int,
            sum64(r@, i as int) <= i * 0xffff_ffff,
        decreases n - i,
    {
        let s = g.node_field(vertex[i] as usize, g.node_offsets.self_size);
        let ghost old_r = r@;
        r.push(s as u64);
        proof {
            lemma_sum64_frame(r@, old_r, i as int);
            assert(sum64(r@, i + 1) == sum64(r@, i as int) + r@[i as int] as int);
            assert((i + 1) * 0xffff_ffff == i * 0xffff_ffff + 0xffff_ffff) by (nonlinear_arith);
        }
        i += 1;
    }
    let mut k: usize = n - 1;
    proof {
        assert forall|x: int| 0 <= x < n implies #[trigger] r@[x] as int == g.self_size(vertex@[x] as int) as int
            + child_sum(idom@, r@, x, k + 1, n as int) by {
        }
        assert(n * 0xffff_ffff <= u64::MAX) by (nonlinear_arith)
            requires n < 0xffff_ffff;
    }
    while k >= 1
        invariant
            g.wf(),
            n == g.node_count,
            k < n,
            idom@.len() == n,
            forall|w: int| 1 <= w < n ==> #[trigger] idom@[w] == u32::MAX || idom@[w] < w,
            r@.len() == n,
            sum64(r@, k + 1) <= u64::MAX,
            forall|x: int| 0 <= x < n ==> #[trigger] r@[x] as int == g.self_size(vertex@[x] as int) as int
                + child_sum(idom@, r@, x, k + 1, n as int),
        decreases k,
    {
        let d = idom[k];
        let ghost old_r = r@;
        if d != u32::MAX {
            proof {
                lemma_sum64_le(r@, d as int, k as int);
                lemma_sum64_le(r@, k as int, k + 1);
            }
            let v = r[d as usize] + r[k];
            r.set(d as usize, v);
            proof {
                lemma_sum64_update(old_r, d as int, v, k as int);
                lemma_sum64_le(old_r, k as int, k + 1);
            }
        }
        proof {
            assert forall|x: int| 0 <= x < n implies #[trigger] r@[x] as int == g.self_size(vertex@[x] as int) as int
                + child_sum(idom@, r@, x, k as int, n as int) by {
                lemma_child_sum_front(idom@, r@, x, k as int, n as int);
                lemma_child_sum_frame(idom@, r@, old_r, x, k + 1, n as int);
                assert(r@[k as int] == old_r[k as int]);
            }
            if d == u32::MAX {
                lemma_sum64_le(r@, k as int, k + 1);
            }
        }
        k -= 1;
    }
    r
}

/// The dominator-tree analysis of `g` (`ensure_retained`): depth-first
/// preorder from the root, the incoming-edge index, immediate dominators by
/// Lengauer–Tarjan, and retained sizes accumulated over the dominator tree.
pub fn compute_retained(g: &SnapshotGraph) -> (rd: RetainedData)
    requires
        g.wf(),
        all_reachable(*g),
    ensures
        rd.of(*g),
{
    let n = g.node_count;
    let p = dfs_preorder(g);
    proof {
        lemma_all_numbered(*g, p);
    }
    let rev = reverse_edges(g, &p);
    proof {
        assert forall|j: int| 0 <= j < rev.sources@.len() implies (#[trigger] rev.sources@[j] as int) < n by {
            let w = lemma_segment_of(rev.starts@, n as int, j);
            assert(rev.starts@[w] <= j < rev.starts@[w + 1]);
        }
    }
    let idom_pre = lengauer_tarjan(n, &p.parent, &rev.starts, &rev.sources);
    let r = accumulate(g, &p.vertex, &idom_pre);
    let mut retained: Vec<u64> = Vec::new();
    let mut idoms: Vec<u32> = Vec::new();
    let mut i: usize = 0;
    while i < n
        invariant
            i <= n,
            retained@.len() == i,
            idoms@.len() == i,
        decreases n - i,
    {
        retained.push(0);
        idoms.push(u32::MAX);
        i += 1;
    }
    let ghost vx = p.vertex@;
    let ghost pr = p.preorder@;
    proof {
        assert forall|a: int, b: int| 0 <= a < n && 0 <= b < n && #[trigger] vx[a] == #[trigger] vx[b] implies a == b by {
            assert(pr[vx[a] as int] == a);
            assert(pr[vx[b] as int] == b);
        }
    }
    let mut w: usize = 0;
    while w < n
        invariant
            w <= n,
            n == g.node_count,
            vx == p.vertex@,
            pr == p.preorder@,
            vx.len() == n,
            pr.len() == n,
            r@.len() == n,
            idom_pre@.len() == n,
            retained@.len() == n,
            idoms@.len() == n,
            forall|k: int| 0 <= k < n ==> (#[trigger] vx[k] as int) < n && pr[vx[k] as int] == k,
            forall|a: int, b: int| 0 <= a < n && 0 <= b < n && #[trigger] vx[a] == #[trigger] vx[b] ==> a == b,
            forall|k: int| 0 <= k < w ==> #[trigger] retained@[vx[k] as int] == r@[k],
            forall|k: int| 0 <= k < w ==> #[trigger] idoms@[vx[k] as int] == if idom_pre@[k] == u32::MAX {
                u32::MAX
            } else {
                vx[idom_pre@[k] as int]
            },
            forall|k: int| 0 <= k < n ==> #[trigger] idom_pre@[k] == u32::MAX || (idom_pre@[k] as int) < n,
        decreases n - w,
    {
        let node = p.vertex[w] as usize;
        retained.set(node, r[w]);
        let d = idom_pre[w];
        if d != u32::MAX {
            let dn = p.vertex[d as usize];
            idoms.set(node, dn);
        } else {
            idoms.set(node, u32::MAX);
        }
        proof {
            assert forall|k: int| 0 <= k < w + 1 implies #[trigger] retained@[vx[k] as int] == r@[k] by {
                if k < w {
                    assert(vx[k] != vx[w as int]);
                }
            }
            assert forall|k: int| 0 <= k < w + 1 implies #[trigger] idoms@[vx[k] as int] == if idom_pre@[k] == u32::MAX {
                u32::MAX
            } else {
                vx[idom_pre@[k] as int]
            } by {
                if k < w {
                    assert(vx[k] != vx[w as int]);
                }
            }
        }
        w += 1;
    }
    let rd = RetainedData {
        retained,
        rev_starts: rev.starts,
        rev_sources: rev.sources,
        idoms,
        preorder: p.preorder,
        vertex: p.vertex,
    };
    proof {
        assert forall|m: int| 0 <= m < n implies #[trigger] rd.retained@[m] as int == g.self_size(m) as int + dominated_sum(rd, m, n as int) by {
            let x = pr[m] as int;
            assert(vx[x] == m);
            assert(rd.retained@[m] == r@[x]);
            lemma_dominated_matches(rd, idom_pre@, r@, x, m, n as int);
        }
        assert forall|m: int| 1 <= m < n implies #[trigger] rd.idoms@[m] == u32::MAX || ((rd.idoms@[m] as int) < n
            && rd.preorder@[rd.idoms@[m] as int] < rd.preorder@[m]) by {
            let k = pr[m] as int;
            assert(vx[k] == m);
            if k == 0 {
                assert(vx[0] == 0);
            }
            assert(rd.idoms@[vx[k] as int] == if idom_pre@[k] == u32::MAX { u32::MAX } else { vx[idom_pre@[k] as int] });
        }
        assert(rd.idoms@[vx[0] as int] == vx[idom_pre@[0] as int]);
    }
    rd
}

proof fn lemma_dominated_matches(rd: RetainedData, idom: Seq<u32>, r: Seq<u64>, x: int, m: int, hi: int)
    requires
        0 <= x < rd.vertex@.len(),
        rd.vertex@[x] == m,
        0 <= hi <= rd.vertex@.len(),
        idom.len() == rd.vertex@.len(),
        r.len() == rd.vertex@.len(),
        forall|k: int| 0 <= k < rd.vertex@.len() ==> (#[trigger] rd.vertex@[k] as int) < rd.vertex@.len(),
        forall|a: int, b: int| 0 <= a < rd.vertex@.len() && 0 <= b < rd.vertex@.len() && #[trigger] rd.vertex@[a] == #[trigger] rd.vertex@[b] ==> a == b,
        forall|k: int| 0 <= k < rd.vertex@.len() ==> #[trigger] rd.retained@[rd.vertex@[k] as int] == r[k],
        forall|k: int| 0 <= k < rd.vertex@.len() ==> #[trigger] rd.idoms@[rd.vertex@[k] as int] == if idom[k] == u32::MAX {
            u32::MAX
        } else {
            rd.vertex@[idom[k] as int]
        },
        forall|k: int| 0 <= k < rd.vertex@.len() ==> #[trigger] idom[k] == u32::MAX || (idom[k] as int) < rd.vertex@.len(),
        rd.vertex@.len() < u32::MAX,
    ensures
        child_sum(idom, r, x, 1, hi) == dominated_sum(rd, m, hi),
    decreases hi,
{
    if hi > 1 {
        lemma_dominated_matches(rd, idom, r, x, m, hi - 1);
        let k = hi - 1;
        assert(rd.retained@[rd.vertex@[k] as int] == r[k]);
        assert(rd.idoms@[rd.vertex@[k] as int] == if idom[k] == u32::MAX { u32::MAX } else { rd.vertex@[idom[k] as int] });
        if idom[k] != u32::MAX && idom[k] as int != x {
            assert(rd.vertex@[idom[k] as int] != rd.vertex@[x]);
        }
    }
}

/// Every position below `starts[n]` lies in one slice `starts[w]..starts[w + 1]`.
pub proof fn lemma_segment_of(starts: Seq<u32>, n: int, j: int) -> (w: int)
    requires
        n >= 0,
        starts.len() == n + 1,
        starts[0] == 0,
        forall|k: int| 0 <= k < n ==> #[trigger] starts[k] <= starts[k + 1],
        0 <= j < starts[n],
    ensures
        0 <= w < n,
        starts[w] <= j < starts[w + 1],
    decreases n,
{
    if n <= 0 {
        assert(false);
        0
    } else if j < starts[n - 1] {
        let t = starts.take(n);
        assert forall|k: int| 0 <= k < n - 1 implies #[trigger] t[k] <= t[k + 1] by {
            assert(starts[k] <= starts[k + 1]);
        }
        let w = lemma_segment_of(t, n - 1, j);
        assert(t[w] == starts[w] && t[w + 1] == starts[w + 1]);
        w
    } else {
        n - 1
    }
}

proof fn lemma_sum64_frame(r: Seq<u64>, r2: Seq<u64>, k: int)
    requires
        k <= r2.len(),
        k <= r.len(),
        forall|x: int| 0 <= x < k ==> r[x] == r2[x],
    ensures
        sum64(r, k) == sum64(r2, k),
    decreases k,
{
    if k > 0 {
        lemma_sum64_frame(r, r2, k - 1);
    }
}

proof fn lemma_dominated_sum_nonneg(rd: RetainedData, m: int, hi: int)
    ensures
        dominated_sum(rd, m, hi) >= 0,
    decreases hi,
{
    if hi > 1 {
        lemma_dominated_sum_nonneg(rd, m, hi - 1);
    }
}

/// A node retains at least its own size.
pub proof fn lemma_retained_covers_self(g: SnapshotGraph, rd: RetainedData, m: int)
    requires
        rd.of(g),
        0 <= m < g.node_count,
    ensures
        rd.retained@[m] >= g.self_size(m),
{
    lemma_dominated_sum_nonneg(rd, m, g.node_count as int);
}

proof fn lemma_dominated_sum_term(rd: RetainedData, m: int, hi: int, k: int)
    requires
        1 <= k < hi,
        rd.idoms@[rd.vertex@[k] as int] as int == m,
    ensures
        dominated_sum(rd, m, hi) >= rd.retained@[rd.vertex@[k] as int],
    decreases hi,
{
    if k < hi - 1 {
        lemma_dominated_sum_term(rd, m, hi - 1, k);
    } else {
        lemma_dominated_sum_nonneg(rd, m, hi - 1);
    }
}

/// A node retains at least what each node it immediately dominates
/// retains.
pub proof fn lemma_dominator_retains_more(g: SnapshotGraph, rd: RetainedData, x: int)
    requires
        rd.of(g),
        1 <= x < g.node_count,
        rd.idoms@[x] != u32::MAX,
    ensures
        rd.retained@[rd.idoms@[x] as int] >= rd.retained@[x],
{
    let n = g.node_count as int;
    let m = rd.idoms@[x] as int;
    let k = rd.preorder@[x] as int;
    assert(rd.vertex@[k] == x);
    assert(k >= 1) by {
        assert(rd.preorder@[m] < rd.preorder@[x]);
    }
    lemma_dominated_sum_term(rd, m, n, k);
}

} // verus!
