//! Retention paths: the shortest chain of references from the GC root to a
//! node, found by a breadth-first search over incoming edges.

use vstd::prelude::*;
use crate::graph::SnapshotGraph;
use crate::labels::{edge_type, node_name, node_type, path_label};
use crate::retained::{lemma_segment_of, RetainedData};
use crate::reach::lemma_distinct_bound;
use crate::types::Error;

verus! {

/// One node of a retention path.
#[derive(Debug, Clone)]
pub struct PathNode {
    pub index: usize,
    pub id: usize,
    pub name: String,
    pub type_: String,
    pub self_size: usize,
}

/// The reference between two consecutive nodes of a retention path.
#[derive(Debug, Clone)]
pub struct PathEdge {
    pub type_: String,
    pub name: String,
}

/// A retention path from the root (`nodes[0]`) to the target (last node).
#[derive(Debug, Clone)]
pub struct ShortestPath {
    pub found: bool,
    pub nodes: Vec<PathNode>,
    pub edges: Vec<PathEdge>,
}

/// `p` describes node `n` of `g`.
pub open spec fn describes(g: SnapshotGraph, n: int, p: PathNode) -> bool {
    &&& p.index == n
    &&& p.id == g.id(n)
    &&& p.name@ == node_name(g, n)
    &&& p.type_@ == node_type(g, n)
    &&& p.self_size == g.self_size(n)
}

/// `e` is the first edge of node `from` that points to `to`.
pub open spec fn first_edge_to(g: SnapshotGraph, from: int, to: int, e: int) -> bool {
    &&& g.owns(from, e)
    &&& g.target(e) == to
    &&& forall|f: int| g.first_edge(from) <= f < e ==> #[trigger] g.target(f) != to
}

/// `pe` labels the first edge of `from` that points to `to`.
pub open spec fn labels_edge(g: SnapshotGraph, from: int, to: int, pe: PathEdge) -> bool {
    exists|e: int| #[trigger] first_edge_to(g, from, to, e) && pe.type_@ == edge_type(g, e) && pe.name@ == path_label(g, e)
}

/// The first edge from `from` to `to`, as (edge type, label).
pub fn path_edge(g: &SnapshotGraph, from: usize, to: usize) -> (r: Option<PathEdge>)
    requires
        g.wf(),
        from < g.node_count,
    ensures
        match r {
            Some(pe) => labels_edge(*g, from as int, to as int, pe),
            None => forall|f: int| #[trigger] g.owns(from as int, f) ==> g.target(f) != to,
        },
{
    let (start, end) = g.edge_range(from);
    let mut e = start;
    while e < end
        invariant
            g.wf(),
            from < g.node_count,
            start == g.first_edge(from as int),
            end == g.first_edge(from + 1),
            start <= e <= end,
            end <= g.total_edges(),
            forall|f: int| start <= f < e ==> #[trigger] g.target(f) != to,
        decreases end - e,
    {
        if g.edge_target(e) == to {
            let pe = PathEdge { type_: g.edge_type_of(e), name: g.path_label_of(e) };
            assert(first_edge_to(*g, from as int, to as int, e as int));
            return Some(pe);
        }
        e += 1;
    }
    None
}

/// Node `n` as a path entry.
pub fn path_node(g: &SnapshotGraph, n: usize) -> (p: PathNode)
    requires
        g.wf(),
        n < g.node_count,
    ensures
        describes(*g, n as int, p),
{
    PathNode {
        index: n,
        id: g.node_field(n, g.node_offsets.id) as usize,
        name: g.name_of(n),
        type_: g.type_of(n),
        self_size: g.node_field(n, g.node_offsets.self_size) as usize,
    }
}

/// Node `from` reaches node `to` along at most `k` edges.
pub open spec fn reaches_within(g: SnapshotGraph, from: int, to: int, k: int) -> bool
    decreases k,
{
    if from == to {
        0 <= k
    } else if k <= 0 {
        false
    } else {
        exists|y: int| #[trigger] g.succ(from, y) && reaches_within(g, y, to, k - 1)
    }
}

/// Reaching within `k` edges is reaching within any larger bound.
pub proof fn lemma_reaches_mono(g: SnapshotGraph, from: int, to: int, k: int, k2: int)
    requires
        reaches_within(g, from, to, k),
        k <= k2,
    ensures
        reaches_within(g, from, to, k2),
    decreases k,
{
    if from != to {
        let y = choose|y: int| #[trigger] g.succ(from, y) && reaches_within(g, y, to, k - 1);
        lemma_reaches_mono(g, y, to, k - 1, k2 - 1);
    }
}

/// A walk `p` (consecutive nodes joined by edges) reaches its last node
/// from position `i` within its remaining length.
proof fn lemma_walk_reaches(g: SnapshotGraph, p: Seq<int>, i: int)
    requires
        0 <= i < p.len(),
        forall|x: int| 0 <= x < p.len() - 1 ==> #[trigger] g.succ(p[x], p[x + 1]),
    ensures
        reaches_within(g, p[i], p.last(), p.len() - 1 - i),
    decreases p.len() - i,
{
    if i < p.len() - 1 {
        lemma_walk_reaches(g, p, i + 1);
        if p[i] != p.last() {
            assert(g.succ(p[i], p[i + 1]));
        }
    }
}

/// Along the queue, the depths never decrease.
spec fn sorted_depths(queue: Seq<u32>, depth: Seq<u32>) -> bool {
    forall|a: int, b: int| 0 <= a <= b < queue.len() ==> depth[#[trigger] queue[a] as int] <= depth[#[trigger] queue[b] as int]
}

/// The first `head` queued numbers below depth `limit` have all their
/// predecessors found, at most one level deeper.
spec fn expanded(g: SnapshotGraph, vx: Seq<u32>, queue: Seq<u32>, parent: Seq<u32>, depth: Seq<u32>, head: int, limit: u32) -> bool {
    forall|a: int, s: int|
        0 <= a < head && depth[queue[a] as int] < limit && 0 <= s < g.node_count && #[trigger] g.succ(
            vx[s] as int,
            vx[queue[a] as int] as int,
        ) ==> parent[s] != u32::MAX && depth[s] <= depth[queue[a] as int] + 1
}

/// Every predecessor of the node numbered `w` is listed under `w`.
proof fn lemma_listed_source(g: SnapshotGraph, rd: RetainedData, s: int, w: int)
    requires
        g.wf(),
        rd.of(g),
        0 <= s < g.node_count,
        0 <= w < g.node_count,
        g.succ(rd.vertex@[s] as int, rd.vertex@[w] as int),
    ensures
        exists|j: int| rd.rev_starts@[w] <= j < rd.rev_starts@[w + 1] && #[trigger] rd.rev_sources@[j] == s,
{
    let pre = rd.preorder@;
    let vx = rd.vertex@;
    let u = vx[s] as int;
    let f = choose|f: int| #[trigger] g.owns(u, f) && g.target(f) == vx[w] as int;
    g.lemma_first_edge_mono(u + 1, g.node_count as int);
    let starts = rd.rev_starts@;
    assert(crate::revedges::filed_upto(g, pre, starts, starts.subrange(1, starts.len() as int), rd.rev_sources@, g.total_edges()));
    assert(g.owns(u, f) && f < g.total_edges() && g.target(f) < g.node_count);
    assert(pre[g.target(f)] == w);
    assert(pre[u] == s);
    let q = choose|q: int| starts[w] <= q < starts.subrange(1, starts.len() as int)[w] && #[trigger] rd.rev_sources@[q] == pre[u];
    assert(starts.subrange(1, starts.len() as int)[w] == starts[w + 1]);
}

/// What the search has found reaches the target no faster than its depth:
/// every node that reaches the target within `m < cap` edges has been found
/// at depth at most `m`, provided every queued number above depth `cap` ...
proof fn lemma_found_layers(
    g: SnapshotGraph,
    rd: RetainedData,
    target: u32,
    limit: u32,
    queue: Seq<u32>,
    parent: Seq<u32>,
    depth: Seq<u32>,
    head: int,
    cap: int,
    x: int,
    m: int,
)
    requires
        g.wf(),
        rd.of(g),
        (target as int) < g.node_count,
        parent.len() == g.node_count,
        depth.len() == g.node_count,
        parent[target as int] != u32::MAX,
        depth[target as int] == 0,
        forall|q: int| 0 <= q < queue.len() ==> (#[trigger] queue[q] as int) < g.node_count,
        forall|s: int| 0 <= s < g.node_count ==> (#[trigger] parent[s] != u32::MAX <==> queue.contains(s as u32)),
        expanded(g, rd.vertex@, queue, parent, depth, head, limit),
        forall|b: int| 0 <= b < queue.len() && depth[#[trigger] queue[b] as int] < cap ==> b < head,
        cap <= limit + 1,
        0 <= x < g.node_count,
        0 <= m < cap,
        reaches_within(g, x, rd.vertex@[target as int] as int, m),
    ensures
        parent[rd.preorder@[x] as int] != u32::MAX,
        depth[rd.preorder@[x] as int] <= m,
    decreases m,
{
    let pre = rd.preorder@;
    let vx = rd.vertex@;
    let t = vx[target as int] as int;
    if x == t {
        assert(pre[x] == target);
    } else {
        let y = choose|y: int| #[trigger] g.succ(x, y) && reaches_within(g, y, t, m - 1);
        lemma_found_layers(g, rd, target, limit, queue, parent, depth, head, cap, y, m - 1);
        let py = pre[y] as int;
        assert(queue.contains(py as u32));
        let b = choose|b: int| 0 <= b < queue.len() && queue[b] == py as u32;
        assert(depth[queue[b] as int] < cap);
        assert(b < head);
        assert(vx[py] == y);
        assert(vx[pre[x] as int] == x);
        assert(g.succ(vx[pre[x] as int] as int, vx[queue[b] as int] as int));
    }
}

/// The search state: parents and depths of the found numbers, which are
/// exactly the queued ones.
#[verifier::opaque]
spec fn bfs_state(g: SnapshotGraph, rd: RetainedData, target: u32, limit: u32, queue: Seq<u32>, parent: Seq<u32>, depth: Seq<u32>) -> bool {
    let n = g.node_count as int;
    let vx = rd.vertex@;
    &&& (target as int) < n
    &&& parent.len() == n
    &&& depth.len() == n
    &&& queue.len() <= n
    &&& parent[target as int] == target
    &&& depth[target as int] == 0
    &&& forall|q: int| 0 <= q < queue.len() ==> (#[trigger] queue[q] as int) < n
    &&& forall|a: int, b: int| 0 <= a < b < queue.len() ==> #[trigger] queue[a] != #[trigger] queue[b]
    &&& forall|s: int| 0 <= s < n ==> (#[trigger] parent[s] != u32::MAX <==> queue.contains(s as u32))
    &&& forall|s: int| 0 <= s < n && parent[s] != u32::MAX ==> #[trigger] depth[s] <= limit
    &&& forall|s: int|
        0 <= s < n && s != target && #[trigger] parent[s] != u32::MAX ==> (parent[s] as int) < n && parent[parent[s] as int]
            != u32::MAX && depth[s] == depth[parent[s] as int] + 1 && g.succ(vx[s] as int, vx[parent[s] as int] as int)
}

/// Sizes and bounds that the state keeps.
proof fn lemma_state_bounds(g: SnapshotGraph, rd: RetainedData, target: u32, limit: u32, queue: Seq<u32>, parent: Seq<u32>, depth: Seq<u32>)
    requires
        bfs_state(g, rd, target, limit, queue, parent, depth),
    ensures
        parent.len() == g.node_count,
        depth.len() == g.node_count,
        queue.len() <= g.node_count,
        (target as int) < g.node_count,
        forall|q: int| 0 <= q < queue.len() ==> (#[trigger] queue[q] as int) < g.node_count,
{
    reveal(bfs_state);
}

/// Files the unfound predecessors of `w` (queue position `head`, depth
/// `d < limit`) at depth `d + 1`.
#[verifier::rlimit(100)]
fn expand_node(
    g: &SnapshotGraph,
    rd: &RetainedData,
    target: u32,
    limit: u32,
    w: u32,
    d: u32,
    head: usize,
    queue: &mut Vec<u32>,
    parent: &mut Vec<u32>,
    depth: &mut Vec<u32>,
)
    requires
        g.wf(),
        rd.of(*g),
        bfs_state(*g, *rd, target, limit, old(queue)@, old(parent)@, old(depth)@),
        sorted_depths(old(queue)@, old(depth)@),
        head < old(queue)@.len(),
        old(queue)@[head as int] == w,
        w != 0,
        d == old(depth)@[w as int],
        d < limit,
        forall|a: int| 0 <= a < old(queue)@.len() ==> old(depth)@[#[trigger] old(queue)@[a] as int] <= d + 1,
        expanded(*g, rd.vertex@, old(queue)@, old(parent)@, old(depth)@, head as int, limit),
        forall|a: int| 0 <= a < head ==> #[trigger] old(queue)@[a] != 0,
    ensures
        bfs_state(*g, *rd, target, limit, final(queue)@, final(parent)@, final(depth)@),
        sorted_depths(final(queue)@, final(depth)@),
        head < final(queue)@.len(),
        final(queue)@[head as int] == w,
        forall|a: int| 0 <= a < final(queue)@.len() ==> final(depth)@[#[trigger] final(queue)@[a] as int] <= d + 1,
        expanded(*g, rd.vertex@, final(queue)@, final(parent)@, final(depth)@, head + 1, limit),
        forall|a: int| 0 <= a < head + 1 ==> #[trigger] final(queue)@[a] != 0,
        final(depth)@[w as int] == d,
        final(queue)@.len() >= old(queue)@.len(),
{
    let n = g.node_count;
    let ghost vx = rd.vertex@;
    proof {
        reveal(bfs_state);
        assert(queue@.contains(w)) by {
            assert(queue@[head as int] == w);
        }
        assert(parent@[w as int] != u32::MAX);
        crate::path::lemma_starts_ordered(rd.rev_starts@, n as int, w as int);
    }
    let lo = rd.rev_starts[w as usize] as usize;
    let hi = rd.rev_starts[w as usize + 1] as usize;
    let ghost len0 = queue@.len();
    let ghost q0 = queue@;
    let ghost parent0 = parent@;
    let ghost depth0 = depth@;
    let mut j = lo;
    while j < hi
        invariant
            g.wf(),
            rd.of(*g),
            vx == rd.vertex@,
            n == g.node_count,
            (target as int) < n,
            (w as int) < n,
            head < len0,
            q0.len() == len0,
            q0[head as int] == w,
            parent@[w as int] != u32::MAX,
            d == depth@[w as int],
            d < limit,
            rd.rev_starts@[w as int] <= lo <= j <= hi,
            lo == rd.rev_starts@[w as int],
            hi == rd.rev_starts@[w + 1],
            hi <= rd.rev_sources@.len(),
            parent@.len() == n,
            depth@.len() == n,
            parent0.len() == n,
            depth0.len() == n,
            head <= len0 <= queue@.len(),
            queue@.len() <= n,
            parent@[target as int] == target,
            depth@[target as int] == 0,
            forall|a: int| 0 <= a < len0 ==> #[trigger] queue@[a] == q0[a],
            forall|a: int| len0 <= a < queue@.len() ==> depth@[#[trigger] queue@[a] as int] == d + 1,
            forall|x: int| 0 <= x < n && parent0[x] != u32::MAX ==> #[trigger] parent@[x] == parent0[x] && depth@[x] == depth0[x],
            forall|a: int| 0 <= a < len0 ==> depth0[#[trigger] q0[a] as int] <= d + 1,
            forall|x: int| 0 <= x < n ==> (#[trigger] parent0[x] != u32::MAX <==> q0.contains(x as u32)),
            forall|k: int| lo <= k < j ==> parent@[#[trigger] rd.rev_sources@[k] as int] != u32::MAX
                && depth@[rd.rev_sources@[k] as int] <= d + 1,
            forall|q: int| 0 <= q < queue@.len() ==> (#[trigger] queue@[q] as int) < n,
            forall|a: int, b: int| 0 <= a < b < queue@.len() ==> #[trigger] queue@[a] != #[trigger] queue@[b],
            forall|s: int| 0 <= s < n ==> (#[trigger] parent@[s] != u32::MAX <==> queue@.contains(s as u32)),
            forall|s: int| 0 <= s < n && parent@[s] != u32::MAX ==> #[trigger] depth@[s] <= limit,
            forall|s: int|
                0 <= s < n && s != target && #[trigger] parent@[s] != u32::MAX ==> (parent@[s] as int) < n
                    && parent@[parent@[s] as int] != u32::MAX && depth@[s] == depth@[parent@[s] as int] + 1
                    && g.succ(vx[s] as int, vx[parent@[s] as int] as int),
        decreases hi - j,
    {
        let s = rd.rev_sources[j];
        proof {
            assert(rd.rev_starts@[w as int] <= j < rd.rev_starts@[w + 1]);
        }
        let su = s as usize;
        let ghost before_parent = parent@;
        let ghost before_depth = depth@;
        if parent[su] == u32::MAX {
            let ghost old_queue = queue@;
            parent.set(su, w);
            depth.set(su, d + 1);
            queue.push(s);
            proof {
                assert(!old_queue.contains(s));
                assert forall|a: int, b: int| 0 <= a < b < queue@.len() implies #[trigger] queue@[a] != #[trigger] queue@[b] by {
                    if b == queue@.len() - 1 {
                        assert(old_queue[a] != s);
                    }
                }
                lemma_distinct_bound(queue@, n as int);
                assert forall|x: int| 0 <= x < n implies (#[trigger] parent@[x] != u32::MAX <==> queue@.contains(x as u32)) by {
                    if x == su as int {
                        assert(queue@[queue@.len() - 1] == s);
                    } else {
                        if old_queue.contains(x as u32) {
                            let q = choose|q: int| 0 <= q < old_queue.len() && old_queue[q] == x as u32;
                            assert(queue@[q] == x as u32);
                        }
                        if queue@.contains(x as u32) {
                            let q = choose|q: int| 0 <= q < queue@.len() && queue@[q] == x as u32;
                            assert(old_queue[q] == x as u32);
                        }
                    }
                }
                assert forall|x: int| 0 <= x < n && parent0[x] != u32::MAX implies #[trigger] parent@[x] == parent0[x] && depth@[x] == depth0[x] by {
                    if x == su as int {
                        assert(before_parent[x] == parent0[x]);
                    }
                }
                assert forall|a: int| len0 <= a < queue@.len() implies depth@[#[trigger] queue@[a] as int] == d + 1 by {
                    if a < queue@.len() - 1 {
                        assert(queue@[a] == old_queue[a]);
                        assert(queue@[a] != s);
                    }
                }
            }
        } else {
            proof {
                assert(queue@.contains(s));
                let b = choose|b: int| 0 <= b < queue@.len() && queue@[b] == s;
                if b < len0 {
                    assert(q0[b] == s);
                    assert(q0.contains(s));
                    assert(parent0[s as int] != u32::MAX);
                    assert(depth@[s as int] == depth0[s as int]);
                    assert(depth0[q0[b] as int] <= d + 1);
                } else {
                    assert(depth@[queue@[b] as int] == d + 1);
                }
            }
        }
        proof {
            assert forall|k: int| lo <= k < j + 1 implies parent@[#[trigger] rd.rev_sources@[k] as int] != u32::MAX
                && depth@[rd.rev_sources@[k] as int] <= d + 1 by {
                if k < j {
                    assert(before_parent[rd.rev_sources@[k] as int] != u32::MAX);
                    if rd.rev_sources@[k] == s {
                    } else {
                        assert(parent@[rd.rev_sources@[k] as int] == before_parent[rd.rev_sources@[k] as int]);
                        assert(depth@[rd.rev_sources@[k] as int] == before_depth[rd.rev_sources@[k] as int]);
                    }
                }
            }
        }
        j += 1;
    }
    proof {
        lemma_after_expand(*g, *rd, target, limit, w, d, head as int, q0, parent0, depth0, queue@, parent@, depth@);
        reveal(bfs_state);
    }
}

proof fn lemma_after_expand(
    g: SnapshotGraph,
    rd: RetainedData,
    target: u32,
    limit: u32,
    w: u32,
    d: u32,
    head: int,
    q0: Seq<u32>,
    parent0: Seq<u32>,
    depth0: Seq<u32>,
    queue: Seq<u32>,
    parent: Seq<u32>,
    depth: Seq<u32>,
)
    requires
        g.wf(),
        rd.of(g),
        bfs_state(g, rd, target, limit, q0, parent0, depth0),
        sorted_depths(q0, depth0),
        0 <= head < q0.len(),
        q0[head] == w,
        w != 0,
        d == depth0[w as int],
        d < limit,
        forall|a: int| 0 <= a < q0.len() ==> depth0[#[trigger] q0[a] as int] <= d + 1,
        expanded(g, rd.vertex@, q0, parent0, depth0, head, limit),
        forall|a: int| 0 <= a < head ==> #[trigger] q0[a] != 0,
        parent.len() == g.node_count,
        depth.len() == g.node_count,
        queue.len() >= q0.len(),
        forall|a: int| 0 <= a < q0.len() ==> #[trigger] queue[a] == q0[a],
        forall|a: int| q0.len() <= a < queue.len() ==> depth[#[trigger] queue[a] as int] == d + 1,
        forall|x: int| 0 <= x < g.node_count && parent0[x] != u32::MAX ==> #[trigger] parent[x] == parent0[x] && depth[x] == depth0[x],
        forall|k: int| rd.rev_starts@[w as int] <= k < rd.rev_starts@[w + 1] ==> parent[#[trigger] rd.rev_sources@[k] as int] != u32::MAX
            && depth[rd.rev_sources@[k] as int] <= d + 1,
    ensures
        sorted_depths(queue, depth),
        expanded(g, rd.vertex@, queue, parent, depth, head + 1, limit),
        forall|a: int| 0 <= a < queue.len() ==> depth[#[trigger] queue[a] as int] <= d + 1,
        forall|a: int| 0 <= a < head + 1 ==> #[trigger] queue[a] != 0,
{
    reveal(bfs_state);
    let vx = rd.vertex@;
        assert(sorted_depths(queue, depth)) by {
            assert forall|a: int, b: int| 0 <= a <= b < queue.len() implies depth[#[trigger] queue[a] as int]
                <= depth[#[trigger] queue[b] as int] by {
                if b < q0.len() {
                    assert(queue[a] == q0[a] && queue[b] == q0[b]);
                    assert(q0.contains(q0[a]) && q0.contains(q0[b]));
                    assert(parent[q0[a] as int] == parent0[q0[a] as int]);
                    assert(parent[q0[b] as int] == parent0[q0[b] as int]);
                    assert(depth0[q0[a] as int] <= depth0[q0[b] as int]);
                } else if a < q0.len() {
                    assert(queue[a] == q0[a]);
                    assert(q0.contains(q0[a]));
                    assert(parent[q0[a] as int] == parent0[q0[a] as int]);
                    assert(depth0[q0[a] as int] <= d + 1);
                }
            }
        }
        assert(expanded(g, vx, queue, parent, depth, head + 1, limit)) by {
            assert forall|a: int, s: int|
                0 <= a < head + 1 && depth[queue[a] as int] < limit && 0 <= s < g.node_count && #[trigger] g.succ(
                    vx[s] as int,
                    vx[queue[a] as int] as int,
                ) implies parent[s] != u32::MAX && depth[s] <= depth[queue[a] as int] + 1 by {
                if a < head {
                    assert(queue[a] == q0[a]);
                    assert(q0.contains(q0[a]));
                    assert(parent[q0[a] as int] == parent0[q0[a] as int]);
                    assert(depth[q0[a] as int] == depth0[q0[a] as int]);
                    assert(g.succ(vx[s] as int, vx[q0[a] as int] as int));
                    assert(depth0[q0[a] as int] < limit);
                    assert(parent0[s] != u32::MAX && depth0[s] <= depth0[q0[a] as int] + 1);
                    assert(parent[s] == parent0[s] && depth[s] == depth0[s]);
                } else {
                    assert(queue[a] == w);
                    assert(q0.contains(w));
                    assert(parent[w as int] == parent0[w as int]);
                    lemma_listed_source(g, rd, s, w as int);
                    let k = choose|k: int| rd.rev_starts@[w as int] <= k < rd.rev_starts@[w + 1] && #[trigger] rd.rev_sources@[k] == s;
                    assert(parent[rd.rev_sources@[k] as int] != u32::MAX);
                    assert(depth[rd.rev_sources@[k] as int] <= d + 1);
                    assert(depth[w as int] == d);
                }
            }
        }
        assert forall|a: int| 0 <= a < queue.len() implies depth[#[trigger] queue[a] as int] <= d + 1 by {
            if a < q0.len() {
                assert(queue[a] == q0[a]);
                assert(q0.contains(q0[a]));
                    assert(parent[q0[a] as int] == parent0[q0[a] as int]);
            }
        }
        assert forall|a: int| 0 <= a < head + 1 implies #[trigger] queue[a] != 0 by {
            assert(queue[a] == q0[a]);
        }
}

/// Parent pointers toward `target` found breadth-first over incoming edges,
/// not expanding nodes `limit` or more hops away; `found` when the root was
/// reached, which happens exactly when the root reaches the target within
/// `limit` edges, and then at its least number of edges.
#[verifier::rlimit(100)]
fn bfs_to_root(g: &SnapshotGraph, rd: &RetainedData, target: u32, limit: u32) -> (res: (bool, Vec<u32>, Vec<u32>))
    requires
        g.wf(),
        rd.of(*g),
        (target as int) < g.node_count,
    ensures
        ({
            let (found, parent, depth) = res;
            let n = g.node_count as int;
            let vx = rd.vertex@;
            &&& found ==> parent@[0] != u32::MAX
            &&& found ==> forall|m: int| 0 <= m < depth@[0] ==> !reaches_within(*g, 0, vx[target as int] as int, m)
            &&& !found ==> !reaches_within(*g, 0, vx[target as int] as int, limit as int)
            &&& parent@.len() == n
            &&& depth@.len() == n
            &&& parent@[target as int] == target
            &&& depth@[target as int] == 0
            &&& forall|s: int| 0 <= s < n && parent@[s] != u32::MAX ==> #[trigger] depth@[s] <= limit
            &&& forall|s: int|
                0 <= s < n && s != target && #[trigger] parent@[s] != u32::MAX ==> (parent@[s] as int) < n
                    && parent@[parent@[s] as int] != u32::MAX && depth@[s] == depth@[parent@[s] as int] + 1
                    && g.succ(vx[s] as int, vx[parent@[s] as int] as int)
        }),
{
    let n = g.node_count;
    let mut parent: Vec<u32> = Vec::new();
    let mut depth: Vec<u32> = Vec::new();
    let mut i: usize = 0;
    while i < n
        invariant
            i <= n,
            parent@.len() == i,
            depth@.len() == i,
            forall|x: int| 0 <= x < i ==> #[trigger] parent@[x] == u32::MAX,
            forall|x: int| 0 <= x < i ==> #[trigger] depth@[x] == 0,
        decreases n - i,
    {
        parent.push(u32::MAX);
        depth.push(0);
        i += 1;
    }
    parent.set(target as usize, target);
    let mut queue: Vec<u32> = Vec::new();
    queue.push(target);
    let mut head: usize = 0;
    let mut found = false;
    let ghost vx = rd.vertex@;
    proof {
        assert(queue@[0] == target);
        assert(sorted_depths(queue@, depth@));
        assert(bfs_state(*g, *rd, target, limit, queue@, parent@, depth@)) by {
            reveal(bfs_state);
            assert forall|s: int| 0 <= s < n implies (#[trigger] parent@[s] != u32::MAX <==> queue@.contains(s as u32)) by {
                if s == target as int {
                    assert(queue@[0] == target);
                }
            }
        }
    }
    while head < queue.len()
        invariant_except_break
            !found,
        invariant
            g.wf(),
            rd.of(*g),
            vx == rd.vertex@,
            n == g.node_count,
            head <= queue@.len(),
            bfs_state(*g, *rd, target, limit, queue@, parent@, depth@),
            sorted_depths(queue@, depth@),
            head < queue@.len() ==> forall|a: int| 0 <= a < queue@.len() ==> depth@[#[trigger] queue@[a] as int] <= depth@[queue@[head as int] as int] + 1,
            expanded(*g, vx, queue@, parent@, depth@, head as int, limit),
            forall|a: int| 0 <= a < head ==> #[trigger] queue@[a] != 0,
        ensures
            found ==> head < queue@.len() && queue@[head as int] == 0,
            !found ==> head == queue@.len(),
        decreases (n - head) + (n - queue@.len()),
    {
        proof {
            lemma_state_bounds(*g, *rd, target, limit, queue@, parent@, depth@);
        }
        let w = queue[head];
        if w == 0 {
            found = true;
            break;
        }
        let d = depth[w as usize];
        if d < limit {
            expand_node(g, rd, target, limit, w, d, head, &mut queue, &mut parent, &mut depth);
        } else {
            proof {
                assert(expanded(*g, vx, queue@, parent@, depth@, head + 1, limit));
            }
        }
        proof {
            lemma_state_bounds(*g, *rd, target, limit, queue@, parent@, depth@);
            assert(queue@[head as int] == w);
            assert(head + 1 < queue@.len() ==> forall|a: int| 0 <= a < queue@.len() ==> depth@[#[trigger] queue@[a] as int]
                <= depth@[queue@[head + 1] as int] + 1) by {
                if head + 1 < queue@.len() {
                    assert(depth@[queue@[head as int] as int] <= depth@[queue@[head + 1] as int]);
                }
            }
        }
        head += 1;
    }
    let ghost t = vx[target as int] as int;
    proof {
        reveal(bfs_state);
        if found {
            let cap = depth@[0] as int;
            assert(queue@[head as int] == 0);
            assert forall|b: int| 0 <= b < queue@.len() && depth@[#[trigger] queue@[b] as int] < cap implies b < head by {
                if b >= head {
                    assert(depth@[queue@[head as int] as int] <= depth@[queue@[b] as int]);
                }
            }
            assert(queue@.contains(0u32));
            assert(parent@[0] != u32::MAX);
            assert(rd.preorder@[0] == 0);
            assert forall|m: int| 0 <= m < depth@[0] implies !reaches_within(*g, 0, t, m) by {
                if reaches_within(*g, 0, t, m) {
                    lemma_found_layers(*g, *rd, target, limit, queue@, parent@, depth@, head as int, cap, 0, m);
                }
            }
        } else {
            if reaches_within(*g, 0, t, limit as int) {
                lemma_found_layers(*g, *rd, target, limit, queue@, parent@, depth@, head as int, limit + 1, 0, limit as int);
                assert(rd.preorder@[0] == 0);
                assert(queue@.contains(0u32));
                let a = choose|a: int| 0 <= a < queue@.len() && queue@[a] == 0u32;
                assert(queue@[a] != 0);
            }
        }
    }
    (found, parent, depth)
}

/// Preorder numbers along the parent pointers from the root to `target`.
#[verifier::rlimit(60)]
fn trace_back(g: &SnapshotGraph, rd: &RetainedData, target: u32, limit: u32, parent: &Vec<u32>, depth: &Vec<u32>) -> (pres: Vec<u32>)
    requires
        g.wf(),
        rd.of(*g),
        (target as int) < g.node_count,
        parent@[0] != u32::MAX,
        parent@.len() == g.node_count,
        depth@.len() == g.node_count,
        parent@[target as int] == target,
        depth@[target as int] == 0,
        forall|s: int| 0 <= s < g.node_count && parent@[s] != u32::MAX ==> #[trigger] depth@[s] <= limit,
        forall|s: int|
            0 <= s < g.node_count && s != target && #[trigger] parent@[s] != u32::MAX ==> (parent@[s] as int) < g.node_count
                && parent@[parent@[s] as int] != u32::MAX && depth@[s] == depth@[parent@[s] as int] + 1
                && g.succ(rd.vertex@[s] as int, rd.vertex@[parent@[s] as int] as int),
    ensures
        pres@.len() >= 1,
        pres@.len() <= limit + 1,
        pres@.len() == depth@[0] + 1,
        pres@[0] == 0,
        pres@.last() == target,
        forall|i: int| 0 <= i < pres@.len() ==> (#[trigger] pres@[i] as int) < g.node_count,
        forall|i: int| 0 <= i < pres@.len() - 1 ==> #[trigger] g.succ(rd.vertex@[pres@[i] as int] as int, rd.vertex@[pres@[i + 1] as int] as int),
{
    let n = g.node_count;
    let ghost vx = rd.vertex@;
    // reconstruct root -> target by following parent pointers
    let mut pres: Vec<u32> = Vec::new();
    pres.push(0);
    let mut cur: u32 = 0;
    while cur != target
        invariant
            g.wf(),
            rd.of(*g),
            vx == rd.vertex@,
            n == g.node_count,
            (target as int) < n,
            (cur as int) < n,
            parent@.len() == n,
            depth@.len() == n,
            parent@[cur as int] != u32::MAX,
            parent@[target as int] == target,
            depth@[target as int] == 0,
            pres@.len() >= 1,
            pres@[0] == 0,
            pres@.last() == cur,
            pres@.len() + depth@[cur as int] == depth@[0] + 1,
            depth@[0] <= limit,
            forall|i: int| 0 <= i < pres@.len() ==> (#[trigger] pres@[i] as int) < n,
            forall|i: int| 0 <= i < pres@.len() - 1 ==> #[trigger] g.succ(vx[pres@[i] as int] as int, vx[pres@[i + 1] as int] as int),
            forall|s: int|
                0 <= s < n && s != target && #[trigger] parent@[s] != u32::MAX ==> (parent@[s] as int) < n
                    && parent@[parent@[s] as int] != u32::MAX && depth@[s] == depth@[parent@[s] as int] + 1
                    && g.succ(vx[s] as int, vx[parent@[s] as int] as int),
        decreases depth@[cur as int],
    {
        let ghost old_pres = pres@;
        let ghost old_cur = cur;
        cur = parent[cur as usize];
        pres.push(cur);
        proof {
            assert forall|i: int| 0 <= i < pres@.len() - 1 implies #[trigger] g.succ(vx[pres@[i] as int] as int, vx[pres@[i + 1] as int] as int) by {
                if i < old_pres.len() - 1 {
                    assert(pres@[i] == old_pres[i] && pres@[i + 1] == old_pres[i + 1]);
                } else {
                    assert(pres@[i] == old_cur);
                }
            }
        }
    }
    pres
}

/// The path entries of the nodes numbered `pres`.
fn path_nodes(g: &SnapshotGraph, vertex: &Vec<u32>, pres: &Vec<u32>) -> (nodes: Vec<PathNode>)
    requires
        g.wf(),
        vertex@.len() == g.node_count,
        forall|k: int| 0 <= k < g.node_count ==> (#[trigger] vertex@[k] as int) < g.node_count,
        forall|i: int| 0 <= i < pres@.len() ==> (#[trigger] pres@[i] as int) < g.node_count,
    ensures
        nodes@.len() == pres@.len(),
        forall|i: int| 0 <= i < pres@.len() ==> #[trigger] nodes@[i].index == vertex@[pres@[i] as int] && describes(*g, nodes@[i].index as int, nodes@[i]),
{
    let mut nodes: Vec<PathNode> = Vec::new();
    let mut k: usize = 0;
    while k < pres.len()
        invariant
            g.wf(),
            vertex@.len() == g.node_count,
            forall|k: int| 0 <= k < g.node_count ==> (#[trigger] vertex@[k] as int) < g.node_count,
            k <= pres@.len(),
            nodes@.len() == k,
            forall|i: int| 0 <= i < pres@.len() ==> (#[trigger] pres@[i] as int) < g.node_count,
            forall|i: int| 0 <= i < k ==> #[trigger] nodes@[i].index == vertex@[pres@[i] as int] && describes(*g, nodes@[i].index as int, nodes@[i]),
        decreases pres@.len() - k,
    {
        let node = vertex[pres[k] as usize] as usize;
        nodes.push(path_node(g, node));
        k += 1;
    }
    nodes
}

/// The edges between consecutive entries of a path.
fn path_edges(g: &SnapshotGraph, vertex: &Vec<u32>, pres: &Vec<u32>, nodes: &Vec<PathNode>) -> (edges: Vec<PathEdge>)
    requires
        g.wf(),
        pres@.len() >= 1,
        vertex@.len() == g.node_count,
        forall|k: int| 0 <= k < g.node_count ==> (#[trigger] vertex@[k] as int) < g.node_count,
        nodes@.len() == pres@.len(),
        forall|i: int| 0 <= i < pres@.len() ==> (#[trigger] pres@[i] as int) < g.node_count,
        forall|i: int| 0 <= i < pres@.len() ==> #[trigger] nodes@[i].index == vertex@[pres@[i] as int],
    ensures
        edges@.len() == nodes@.len() - 1,
        forall|i: int| 0 <= i < edges@.len() ==> labels_edge(*g, nodes@[i].index as int, nodes@[i + 1].index as int, #[trigger] edges@[i])
            || (edges@[i].type_@.len() == 0 && edges@[i].name@.len() == 0 && forall|f: int| #[trigger] g.owns(nodes@[i].index as int, f) ==> g.target(f) != nodes@[i + 1].index),
{
    let mut edges: Vec<PathEdge> = Vec::new();
    let mut k: usize = 0;
    let last = pres.len() - 1;
    while k < last
        invariant
            g.wf(),
            vertex@.len() == g.node_count,
            forall|k: int| 0 <= k < g.node_count ==> (#[trigger] vertex@[k] as int) < g.node_count,
            last == pres@.len() - 1,
            k <= last,
            nodes@.len() == pres@.len(),
            edges@.len() == k,
            forall|i: int| 0 <= i < pres@.len() ==> (#[trigger] pres@[i] as int) < g.node_count,
            forall|i: int| 0 <= i < pres@.len() ==> #[trigger] nodes@[i].index == vertex@[pres@[i] as int],
            forall|i: int| 0 <= i < k ==> labels_edge(*g, nodes@[i].index as int, nodes@[i + 1].index as int, #[trigger] edges@[i])
                || (edges@[i].type_@.len() == 0 && edges@[i].name@.len() == 0 && forall|f: int| #[trigger] g.owns(nodes@[i].index as int, f) ==> g.target(f) != nodes@[i + 1].index),
        decreases last - k,
    {
        let from = vertex[pres[k] as usize] as usize;
        let to = vertex[pres[k + 1] as usize] as usize;
        proof {
            assert(nodes@[k as int].index == from && nodes@[k + 1].index == to);
        }
        let pe = match path_edge(g, from, to) {
            Some(pe) => pe,
            None => PathEdge { type_: String::new(), name: String::new() },
        };
        edges.push(pe);
        k += 1;
    }
    edges
}

/// Shortest path from the GC root to `node_index`, following incoming
/// edges breadth-first (over the incoming-edge index) from the target until
/// the root; nodes more than `max_depth` hops (as `u32`) from the target
/// are not expanded. `found` exactly when the root reaches the node within
/// that many edges, and then along as few edges as any walk, each the first
/// of its source to its target.
#[verifier::rlimit(60)]
pub fn shortest_path(g: &SnapshotGraph, rd: &RetainedData, node_index: usize, max_depth: usize) -> (res: Result<ShortestPath, Error>)
    requires
        g.wf(),
        rd.of(*g),
    ensures
        match res {
            Err(e) => node_index >= g.node_count && e == Error::NodeNotFound(node_index),
            Ok(sp) => {
                &&& node_index < g.node_count
                &&& !sp.found ==> sp.nodes@.len() == 0 && sp.edges@.len() == 0
                &&& sp.found <==> reaches_within(*g, 0, node_index as int, (max_depth as u32) as int)
                &&& sp.found ==> !reaches_within(*g, 0, node_index as int, sp.nodes@.len() - 2)
                &&& sp.found ==> {
                    &&& sp.nodes@.len() >= 1
                    &&& sp.nodes@.len() <= (max_depth as u32) + 1
                    &&& sp.nodes@[0].index == 0
                    &&& sp.nodes@.last().index == node_index
                    &&& forall|i: int| 0 <= i < sp.nodes@.len() ==> describes(*g, #[trigger] sp.nodes@[i].index as int, sp.nodes@[i])
                    &&& forall|i: int| 0 <= i < sp.nodes@.len() - 1 ==> #[trigger] g.succ(sp.nodes@[i].index as int, sp.nodes@[i + 1].index as int)
                    &&& sp.edges@.len() == sp.nodes@.len() - 1
                    &&& forall|i: int| 0 <= i < sp.edges@.len() ==> labels_edge(*g, sp.nodes@[i].index as int, sp.nodes@[i + 1].index as int, #[trigger] sp.edges@[i])
                }
            },
        },
{
    let n = g.node_count;
    if node_index >= n {
        return Err(Error::NodeNotFound(node_index));
    }
    let target = rd.preorder[node_index];
    let limit = max_depth as u32;
    let (found, parent, depth) = bfs_to_root(g, rd, target, limit);
    proof {
        assert(rd.vertex@[target as int] == node_index);
    }
    if !found {
        return Ok(ShortestPath { found: false, nodes: Vec::new(), edges: Vec::new() });
    }
    let pres = trace_back(g, rd, target, limit, &parent, &depth);
    let ghost vx = rd.vertex@;
    let nodes = path_nodes(g, &rd.vertex, &pres);
    let edges = path_edges(g, &rd.vertex, &pres, &nodes);
    proof {
        assert forall|i: int| 0 <= i < edges@.len() implies labels_edge(*g, nodes@[i].index as int, nodes@[i + 1].index as int, #[trigger] edges@[i]) by {
            assert(nodes@[i].index == vx[pres@[i] as int]);
            assert(nodes@[i + 1].index == vx[pres@[i + 1] as int]);
            assert(g.succ(vx[pres@[i] as int] as int, vx[pres@[i + 1] as int] as int));
        }
        assert forall|i: int| 0 <= i < nodes@.len() - 1 implies #[trigger] g.succ(nodes@[i].index as int, nodes@[i + 1].index as int) by {
            assert(nodes@[i].index == vx[pres@[i] as int]);
            assert(nodes@[i + 1].index == vx[pres@[i + 1] as int]);
        }
        assert(nodes@[0].index == vx[0]);
        assert(nodes@.last().index == vx[target as int]);
        assert(vx[0] == 0) by {
            assert(rd.preorder@[0] == 0);
        }
        let walk = Seq::new(nodes@.len(), |i: int| nodes@[i].index as int);
        assert forall|x: int| 0 <= x < walk.len() - 1 implies #[trigger] g.succ(walk[x], walk[x + 1]) by {
            assert(g.succ(nodes@[x].index as int, nodes@[x + 1].index as int));
        }
        lemma_walk_reaches(*g, walk, 0);
        assert(walk[0] == 0);
        assert(walk.last() == node_index as int);
        lemma_reaches_mono(*g, 0, node_index as int, walk.len() - 1, limit as int);
        assert(nodes@.len() - 2 < depth@[0]);
    }
    Ok(ShortestPath { found: true, nodes, edges })
}

/// Slice bounds of the incoming-edge index are ordered.
pub proof fn lemma_starts_ordered(starts: Seq<u32>, n: int, w: int)
    requires
        starts.len() == n + 1,
        forall|k: int| 0 <= k < n ==> #[trigger] starts[k] <= starts[k + 1],
        0 <= w < n,
    ensures
        starts[w] <= starts[w + 1] <= starts[n],
    decreases n - w,
{
    if w + 1 < n {
        lemma_starts_ordered(starts, n, w + 1);
    }
}

} // verus!
