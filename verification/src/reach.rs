//! Reachability from the snapshot's root (node 0) and the depth-first
//! preorder that numbers the reachable nodes.

use vstd::prelude::*;
use crate::graph::SnapshotGraph;

verus! {

/// `p` is a walk from the root along edges of `g`.
pub open spec fn is_walk(g: SnapshotGraph, p: Seq<int>) -> bool {
    &&& p.len() >= 1
    &&& p[0] == 0
    &&& forall|i: int| 0 <= i < p.len() - 1 ==> #[trigger] g.succ(p[i], p[i + 1])
}

/// Node `n` can be reached from the root.
pub open spec fn reachable(g: SnapshotGraph, n: int) -> bool {
    exists|p: Seq<int>| #[trigger] is_walk(g, p) && p.last() == n
}

/// Every node can be reached from the root (the snapshot has at least one node).
pub open spec fn all_reachable(g: SnapshotGraph) -> bool {
    &&& g.node_count >= 1
    &&& forall|n: int| 0 <= n < g.node_count ==> #[trigger] reachable(g, n)
}

/// Distinct values below `bound` are at most `bound` many.
pub proof fn lemma_distinct_bound(s: Seq<u32>, bound: int)
    requires
        bound >= 0,
        forall|i: int| 0 <= i < s.len() ==> (#[trigger] s[i] as int) < bound,
        forall|i: int, j: int| 0 <= i < j < s.len() ==> #[trigger] s[i] != #[trigger] s[j],
    ensures
        s.len() <= bound,
    decreases bound,
{
    if s.len() > 0 {
        assert(s[0] < bound);
        if exists|i: int| 0 <= i < s.len() && s[i] as int == bound - 1 {
            let i = choose|i: int| 0 <= i < s.len() && s[i] as int == bound - 1;
            let t = s.remove(i);
            assert forall|k: int| 0 <= k < t.len() implies (#[trigger] t[k] as int) < bound - 1 by {
                if k < i {
                    assert(t[k] == s[k]);
                } else {
                    assert(t[k] == s[k + 1]);
                }
            }
            assert forall|a: int, b: int| 0 <= a < b < t.len() implies #[trigger] t[a]
                != #[trigger] t[b] by {
                if b < i {
                } else if a < i {
                    assert(t[b] == s[b + 1]);
                } else {
                    assert(t[a] == s[a + 1]);
                    assert(t[b] == s[b + 1]);
                }
            }
            lemma_distinct_bound(t, bound - 1);
        } else {
            assert forall|k: int| 0 <= k < s.len() implies (#[trigger] s[k] as int) < bound - 1 by {
                assert(s[k] as int != bound - 1);
            }
            lemma_distinct_bound(s, bound - 1);
        }
    }
}

/// A set of nodes that holds the root and is closed under edges holds every
/// reachable node.
pub proof fn lemma_closed_holds_reachable(g: SnapshotGraph, seen: Seq<u32>, n: int)
    requires
        seen.len() == g.node_count,
        g.node_count >= 1,
        seen[0] != u32::MAX,
        forall|a: int, b: int|
            0 <= a < g.node_count && seen[a] != u32::MAX && #[trigger] g.succ(a, b) ==> seen[b]
                != u32::MAX,
        reachable(g, n),
    ensures
        0 <= n < g.node_count,
        seen[n] != u32::MAX,
{
    let p = choose|p: Seq<int>| #[trigger] is_walk(g, p) && p.last() == n;
    lemma_walk_prefix_seen(g, seen, p, p.len() - 1);
}

proof fn lemma_walk_prefix_seen(g: SnapshotGraph, seen: Seq<u32>, p: Seq<int>, i: int)
    requires
        seen.len() == g.node_count,
        g.node_count >= 1,
        seen[0] != u32::MAX,
        forall|a: int, b: int|
            0 <= a < g.node_count && seen[a] != u32::MAX && #[trigger] g.succ(a, b) ==> seen[b]
                != u32::MAX,
        is_walk(g, p),
        0 <= i < p.len(),
    ensures
        0 <= p[i] < g.node_count,
        seen[p[i]] != u32::MAX,
    decreases i,
{
    if i > 0 {
        lemma_walk_prefix_seen(g, seen, p, i - 1);
        let j = i - 1;
        assert(g.succ(p[j], p[j + 1]));
    }
}

/// Extends a walk to `n` by one edge.
pub proof fn lemma_reachable_step(g: SnapshotGraph, a: int, b: int)
    requires
        reachable(g, a),
        g.succ(a, b),
    ensures
        reachable(g, b),
{
    let p = choose|p: Seq<int>| #[trigger] is_walk(g, p) && p.last() == a;
    let q = p.push(b);
    assert forall|i: int| 0 <= i < q.len() - 1 implies #[trigger] g.succ(q[i], q[i + 1]) by {
        if i < p.len() - 1 {
            assert(q[i] == p[i] && q[i + 1] == p[i + 1]);
        }
    }
    assert(is_walk(g, q));
}

/// The root is reachable.
pub proof fn lemma_root_reachable(g: SnapshotGraph)
    ensures
        reachable(g, 0),
{
    let p = seq![0int];
    assert(is_walk(g, p));
}

/// Result of the depth-first numbering of the reachable nodes.
pub struct Preorder {
    /// node index -> preorder number (`u32::MAX` when unreachable)
    pub preorder: Vec<u32>,
    /// preorder number -> node index
    pub vertex: Vec<u32>,
    /// preorder number -> preorder number of the tree parent (the root's is 0)
    pub parent: Vec<u32>,
}

impl Preorder {
    /// `preorder` and `vertex` are inverse numberings of the visited nodes.
    pub open spec fn numbering(self, n: int) -> bool {
        &&& self.preorder@.len() == n
        &&& 1 <= self.vertex@.len() <= n
        &&& forall|k: int|
            0 <= k < self.vertex@.len() ==> (#[trigger] self.vertex@[k] as int) < n
                && self.preorder@[self.vertex@[k] as int] == k
        &&& forall|m: int|
            0 <= m < n ==> #[trigger] self.preorder@[m] == u32::MAX || (self.preorder@[m]
                < self.vertex@.len() && self.vertex@[self.preorder@[m] as int] == m)
    }

    /// The numbering of `g` from a depth-first walk from the root.
    pub open spec fn of(self, g: SnapshotGraph) -> bool {
        let n = g.node_count as int;
        &&& self.numbering(n)
        &&& self.vertex@[0] == 0
        &&& self.parent@.len() == self.vertex@.len()
        &&& self.parent@[0] == 0
        &&& forall|k: int|
            1 <= k < self.vertex@.len() ==> #[trigger] self.parent@[k] < k && g.succ(
                self.vertex@[self.parent@[k] as int] as int,
                self.vertex@[k] as int,
            )
        &&& forall|m: int|
            0 <= m < n ==> (self.preorder@[m] != u32::MAX <==> #[trigger] reachable(g, m))
    }
}

/// Numbers the nodes reachable from the root in depth-first preorder,
/// following each node's edges in order and descending into the first
/// edge whose target (below the node count) is not yet numbered.
pub fn dfs_preorder(g: &SnapshotGraph) -> (res: Preorder)
    requires
        g.wf(),
        g.node_count >= 1,
    ensures
        res.of(*g),
{
    let n = g.node_count;
    let mut preorder: Vec<u32> = Vec::new();
    let mut next_edge: Vec<u32> = Vec::new();
    let mut i: usize = 0;
    while i < n
        invariant
            g.wf(),
            n == g.node_count,
            i <= n,
            preorder@.len() == i,
            next_edge@.len() == i,
            forall|m: int| 0 <= m < i ==> #[trigger] preorder@[m] == u32::MAX,
            forall|m: int| 0 <= m < i ==> #[trigger] next_edge@[m] == g.first_edge(m),
        decreases n - i,
    {
        preorder.push(u32::MAX);
        next_edge.push(g.edge_starts[i]);
        i += 1;
    }
    let mut vertex: Vec<u32> = Vec::new();
    let mut parent: Vec<u32> = Vec::new();
    preorder.set(0, 0);
    vertex.push(0);
    parent.push(0);
    let mut stack: Vec<u32> = Vec::new();
    stack.push(0);
    proof {
        lemma_root_reachable(*g);
        assert(stack@[0] == 0u32);
        assert(stack@.contains(0u32));
    }
    while stack.len() > 0
        invariant
            g.wf(),
            n == g.node_count,
            n >= 1,
            preorder@.len() == n,
            next_edge@.len() == n,
            1 <= vertex@.len() <= n,
            parent@.len() == vertex@.len(),
            vertex@[0] == 0,
            parent@[0] == 0,
            preorder@[0] != u32::MAX,
            forall|k: int|
                0 <= k < vertex@.len() ==> (#[trigger] vertex@[k] as int) < n && preorder@[vertex@[k] as int] == k,
            forall|m: int|
                0 <= m < n ==> #[trigger] preorder@[m] == u32::MAX || (preorder@[m] < vertex@.len()
                    && vertex@[preorder@[m] as int] == m),
            forall|k: int|
                1 <= k < vertex@.len() ==> #[trigger] parent@[k] < k && g.succ(
                    vertex@[parent@[k] as int] as int,
                    vertex@[k] as int,
                ),
            forall|k: int| 0 <= k < vertex@.len() ==> reachable(*g, #[trigger] vertex@[k] as int),
            forall|s: int|
                0 <= s < stack@.len() ==> (#[trigger] stack@[s] as int) < n && preorder@[stack@[s] as int]
                    != u32::MAX,
            forall|m: int|
                0 <= m < n ==> g.first_edge(m) <= #[trigger] next_edge@[m] <= g.first_edge(m + 1),
            forall|m: int, e: int|
                #![trigger next_edge@[m], g.target(e)]
                0 <= m < n && g.first_edge(m) <= e < next_edge@[m] && 0 <= g.target(e) < n
                    ==> preorder@[g.target(e)] != u32::MAX,
            forall|m: int|
                0 <= m < n && preorder@[m] != u32::MAX && !stack@.contains(m as u32) ==> forall|e: int|
                    #[trigger] g.owns(m, e) && g.target(e) < n ==> preorder@[g.target(e)] != u32::MAX,
        decreases 2 * (n - vertex@.len()) + stack@.len(),
    {
        let v = stack[stack.len() - 1];
        let vu = v as usize;
        let (_, end) = g.edge_range(vu);
        let mut e = next_edge[vu] as usize;
        let ghost ne0 = next_edge@[vu as int] as int;
        while e < end
            invariant
                g.wf(),
                n == g.node_count,
                vu < n,
                end == g.first_edge(vu + 1),
                end <= g.total_edges(),
                ne0 <= e <= end,
                preorder@.len() == n,
                forall|f: int|
                    ne0 <= f < e && 0 <= #[trigger] g.target(f) < n ==> preorder@[g.target(f)]
                        != u32::MAX,
            ensures
                ne0 <= e <= end,
                e < end ==> g.target(e as int) < n && preorder@[g.target(e as int)] == u32::MAX,
                forall|f: int|
                    ne0 <= f < e && 0 <= #[trigger] g.target(f) < n ==> preorder@[g.target(f)]
                        != u32::MAX,
            decreases end - e,
        {
            let t = g.edge_target(e);
            if t < n && preorder[t] == u32::MAX {
                break;
            }
            e += 1;
        }
        if e < end {
            // descend into the target of edge `e`
            let t = g.edge_target(e);
            let pre = vertex.len() as u32;
            let ghost old_pre = preorder@;
            let ghost old_vertex = vertex@;
            let ghost old_stack = stack@;
            proof {
                assert(g.owns(vu as int, e as int));
                assert(g.succ(vu as int, t as int));
                lemma_reachable_step(*g, vu as int, t as int);
                let k = preorder@[vu as int] as int;
                assert(vertex@[k] == vu);
            }
            next_edge.set(vu, (e + 1) as u32);
            preorder.set(t, pre);
            vertex.push(t as u32);
            parent.push(preorder[vu]);
            stack.push(t as u32);
            proof {
                assert forall|a: int, b: int| 0 <= a < b < vertex@.len() implies #[trigger] vertex@[a]
                    != #[trigger] vertex@[b] by {
                    if b < old_vertex.len() {
                        assert(old_pre[old_vertex[a] as int] == a);
                        assert(old_pre[old_vertex[b] as int] == b);
                    } else {
                        assert(old_pre[old_vertex[a] as int] == a);
                        assert(vertex@[b] == t);
                    }
                }
                lemma_distinct_bound(vertex@, n as int);
                assert(stack@ == old_stack.push(t as u32));
                assert forall|m: int|
                    0 <= m < n && preorder@[m] != u32::MAX && !stack@.contains(m as u32) implies forall|f: int|
                        #[trigger] g.owns(m, f) && g.target(f) < n ==> preorder@[g.target(f)] != u32::MAX by {
                    assert(stack@[stack@.len() - 1] == t as u32);
                    assert(m != t);
                    assert(!old_stack.contains(m as u32)) by {
                        if old_stack.contains(m as u32) {
                            let q = choose|q: int| 0 <= q < old_stack.len() && old_stack[q] == m as u32;
                            assert(stack@[q] == m as u32);
                        }
                    }
                    assert(old_pre[m] != u32::MAX);
                    assert forall|f: int| #[trigger] g.owns(m, f) && g.target(f) < n implies preorder@[g.target(f)] != u32::MAX by {
                        assert(old_pre[g.target(f)] != u32::MAX);
                    }
                }
            }
        } else {
            let ghost old_stack = stack@;
            stack.pop();
            proof {
                assert(old_stack == stack@.push(v));
                assert forall|m: int|
                    0 <= m < n && preorder@[m] != u32::MAX && !stack@.contains(m as u32) implies forall|f: int|
                        #[trigger] g.owns(m, f) && g.target(f) < n ==> preorder@[g.target(f)] != u32::MAX by {
                    if m == vu as int {
                        assert forall|f: int| #[trigger] g.owns(m, f) && g.target(f) < n implies preorder@[g.target(f)] != u32::MAX by {
                            assert(g.first_edge(m) <= next_edge@[m]);
                            if f < ne0 {
                                assert(0 <= g.target(f));
                            } else {
                                assert(0 <= g.target(f));
                            }
                        }
                    } else {
                        assert(!old_stack.contains(m as u32)) by {
                            if old_stack.contains(m as u32) {
                                let q = choose|q: int| 0 <= q < old_stack.len() && old_stack[q] == m as u32;
                                if q < stack@.len() {
                                    assert(stack@[q] == m as u32);
                                }
                            }
                        }
                    }
                }
            }
        }
    }
    proof {
        assert forall|a: int, b: int|
            0 <= a < n && preorder@[a] != u32::MAX && #[trigger] g.succ(a, b) implies preorder@[b]
                != u32::MAX by {
            let f = choose|f: int| #[trigger] g.owns(a, f) && g.target(f) == b;
            assert(!stack@.contains(a as u32));
        }
        assert forall|m: int| 0 <= m < n implies (preorder@[m] != u32::MAX <==> #[trigger] reachable(*g, m)) by {
            if reachable(*g, m) {
                lemma_closed_holds_reachable(*g, preorder@, m);
            }
            if preorder@[m] != u32::MAX {
                assert(vertex@[preorder@[m] as int] == m);
            }
        }
    }
    Preorder { preorder, vertex, parent }
}

} // verus!
