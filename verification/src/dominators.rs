//! Immediate dominators over the depth-first preorder (Lengauer–Tarjan with
//! path compression). All arrays are indexed by preorder number; 0 is the root.

use vstd::prelude::*;

verus! {

/// Shape of the forest that the algorithm links: every non-root entry points
/// to a smaller number, labels never exceed their vertex, semidominator
/// candidates never exceed their vertex.
pub open spec fn forest_ok(n: int, semi: Seq<u32>, label: Seq<u32>, ancestor: Seq<u32>) -> bool {
    &&& semi.len() == n
    &&& label.len() == n
    &&& ancestor.len() == n
    &&& n >= 1
    &&& ancestor[0] == 0
    &&& forall|x: int| 1 <= x < n ==> #[trigger] ancestor[x] < x
    &&& forall|x: int| 0 <= x < n ==> #[trigger] label[x] <= x
    &&& forall|x: int| 0 <= x < n ==> #[trigger] semi[x] <= x
}

/// The vertex `j` links above `v` in the forest `ancestor`.
pub open spec fn up(ancestor: Seq<u32>, v: int, j: nat) -> int
    decreases j,
{
    if j == 0 {
        v
    } else {
        ancestor[up(ancestor, v, (j - 1) as nat)] as int
    }
}

/// Number of vertices that path compression re-points, walking up from
/// `v`: those whose ancestor is not a tree root (a root's ancestor is 0).
pub open spec fn hops(ancestor: Seq<u32>, v: int) -> nat
    decreases v,
{
    if v <= 0 || v >= ancestor.len() || ancestor[v] as int >= v {
        0
    } else if ancestor[ancestor[v] as int] == 0 {
        0
    } else {
        1 + hops(ancestor, ancestor[v] as int)
    }
}

/// The label with the smallest semidominator on the forest path from `v`
/// up to, not including, its tree root; on ties the lower vertex wins.
pub open spec fn path_min(semi: Seq<u32>, label: Seq<u32>, ancestor: Seq<u32>, v: int) -> u32
    decreases v,
{
    if v <= 0 || v >= ancestor.len() || ancestor[v] as int >= v {
        label[v]
    } else if ancestor[ancestor[v] as int] == 0 {
        label[v]
    } else {
        let m = path_min(semi, label, ancestor, ancestor[v] as int);
        if semi[m as int] < semi[label[v] as int] {
            m
        } else {
            label[v]
        }
    }
}

proof fn lemma_up_step(ancestor: Seq<u32>, v: int, j: nat)
    requires
        1 <= v < ancestor.len(),
        ancestor[v] as int >= 1,
    ensures
        up(ancestor, v, j + 1) == up(ancestor, ancestor[v] as int, j),
    decreases j,
{
    assert(up(ancestor, v, j + 1) == ancestor[up(ancestor, v, j)] as int);
    if j > 0 {
        lemma_up_step(ancestor, v, (j - 1) as nat);
        assert(up(ancestor, ancestor[v] as int, j) == ancestor[up(ancestor, ancestor[v] as int, (j - 1) as nat)] as int);
    } else {
        assert(up(ancestor, v, 0) == v);
        assert(up(ancestor, ancestor[v] as int, 0) == ancestor[v] as int);
    }
}

/// Along the walk from `v`, the first `hops` vertices are below their
/// tree's top two, and the vertex after them sits right under the root.
proof fn lemma_hops(n: int, semi: Seq<u32>, label: Seq<u32>, ancestor: Seq<u32>, v: int)
    requires
        forest_ok(n, semi, label, ancestor),
        0 <= v < n,
    ensures
        forall|j: nat| j <= hops(ancestor, v) + 1 ==> 0 <= #[trigger] up(ancestor, v, j) < n,
        forall|j: nat| j < hops(ancestor, v) ==> ancestor[ancestor[#[trigger] up(ancestor, v, j)] as int] != 0
            && up(ancestor, v, j) >= 1,
        ancestor[ancestor[up(ancestor, v, hops(ancestor, v)) as int] as int] == 0,
        forall|i: nat, j: nat| i < j <= hops(ancestor, v) ==> #[trigger] up(ancestor, v, j) < #[trigger] up(ancestor, v, i),
    decreases v,
{
    lemma_hops_steps(n, semi, label, ancestor, v);
    lemma_up_decreasing(ancestor, v, hops(ancestor, v));
}

proof fn lemma_hops_steps(n: int, semi: Seq<u32>, label: Seq<u32>, ancestor: Seq<u32>, v: int)
    requires
        forest_ok(n, semi, label, ancestor),
        0 <= v < n,
    ensures
        forall|j: nat| j <= hops(ancestor, v) + 1 ==> 0 <= #[trigger] up(ancestor, v, j) < n,
        forall|j: nat| j < hops(ancestor, v) ==> ancestor[ancestor[#[trigger] up(ancestor, v, j)] as int] != 0
            && up(ancestor, v, j) >= 1,
        ancestor[ancestor[up(ancestor, v, hops(ancestor, v)) as int] as int] == 0,
        forall|j: nat| j < hops(ancestor, v) ==> up(ancestor, v, j + 1) < #[trigger] up(ancestor, v, j),
    decreases v,
{
    if v >= 1 && ancestor[ancestor[v] as int] != 0 {
        let a = ancestor[v] as int;
        lemma_hops_steps(n, semi, label, ancestor, a);
        assert forall|j: nat| j <= hops(ancestor, v) + 1 implies 0 <= #[trigger] up(ancestor, v, j) < n by {
            if j > 0 {
                lemma_up_step(ancestor, v, (j - 1) as nat);
            }
        }
        assert forall|j: nat| j < hops(ancestor, v) implies ancestor[ancestor[#[trigger] up(ancestor, v, j)] as int] != 0
            && up(ancestor, v, j) >= 1 by {
            if j > 0 {
                lemma_up_step(ancestor, v, (j - 1) as nat);
            }
        }
        assert forall|j: nat| j < hops(ancestor, v) implies up(ancestor, v, j + 1) < #[trigger] up(ancestor, v, j) by {
            lemma_up_step(ancestor, v, j);
            if j > 0 {
                lemma_up_step(ancestor, v, (j - 1) as nat);
            }
        }
        lemma_up_step(ancestor, v, (hops(ancestor, v) - 1) as nat);
    } else {
        assert(up(ancestor, v, 0) == v);
        assert(up(ancestor, v, 1) == ancestor[up(ancestor, v, 0)] as int);
        assert forall|j: nat| j <= hops(ancestor, v) + 1 implies 0 <= #[trigger] up(ancestor, v, j) < n by {
            if j == 1 {
                assert(up(ancestor, v, 1) == ancestor[v] as int);
            }
        }
    }
}

/// `x` is one of the vertices that compressing from `v` re-points.
pub open spec fn on_path(ancestor: Seq<u32>, v: int, x: int) -> bool {
    exists|j: nat| j < hops(ancestor, v) && #[trigger] up(ancestor, v, j) == x
}

/// Path compression: re-points every vertex on the forest path above `v`
/// (except the top two) at the top, carrying the label with the smallest
/// semidominator down. Each re-pointed vertex ends with the path minimum
/// of its old path; every other vertex is left as it was.
fn compress(v: u32, semi: &Vec<u32>, label: &mut Vec<u32>, ancestor: &mut Vec<u32>, scratch: &mut Vec<u32>)
    requires
        forest_ok(old(label)@.len() as int, semi@, old(label)@, old(ancestor)@),
        (v as int) < old(label)@.len(),
    ensures
        forest_ok(old(label)@.len() as int, semi@, final(label)@, final(ancestor)@),
        final(label)@[v as int] == path_min(semi@, old(label)@, old(ancestor)@, v as int),
        forall|x: int| 0 <= x < old(label)@.len() && #[trigger] on_path(old(ancestor)@, v as int, x) ==> final(label)@[x]
            == path_min(semi@, old(label)@, old(ancestor)@, x) && final(ancestor)@[x] == up(
            old(ancestor)@,
            v as int,
            hops(old(ancestor)@, v as int) + 1,
        ),
        forall|x: int| 0 <= x < old(label)@.len() && !#[trigger] on_path(old(ancestor)@, v as int, x) ==> final(label)@[x]
            == old(label)@[x] && final(ancestor)@[x] == old(ancestor)@[x],
{
    let ghost n = label@.len() as int;
    let ghost l0 = label@;
    let ghost an0 = ancestor@;
    let ghost k = hops(an0, v as int);
    let ghost top = up(an0, v as int, k + 1);
    proof {
        lemma_hops(n, semi@, l0, an0, v as int);
    }
    let a0 = ancestor[v as usize];
    if ancestor[a0 as usize] == 0 {
        proof {
            assert(up(an0, v as int, 0) == v);
            assert(k == 0);
            assert forall|x: int| 0 <= x < n implies !#[trigger] on_path(an0, v as int, x) by {}
        }
        return;
    }
    scratch.clear();
    let mut x = v;
    while ancestor[ancestor[x as usize] as usize] != 0
        invariant
            forest_ok(n, semi@, label@, ancestor@),
            label@ == l0,
            ancestor@ == an0,
            n == l0.len(),
            k == hops(an0, v as int),
            forall|j: nat| j <= k + 1 ==> 0 <= #[trigger] up(an0, v as int, j) < n,
            forall|j: nat| j < k ==> an0[an0[#[trigger] up(an0, v as int, j)] as int] != 0 && up(an0, v as int, j) >= 1,
            an0[an0[up(an0, v as int, k) as int] as int] == 0,
            scratch@.len() <= k,
            x as int == up(an0, v as int, scratch@.len() as nat),
            forall|i: int| 0 <= i < scratch@.len() ==> #[trigger] scratch@[i] as int == up(an0, v as int, i as nat),
            (x as int) < n,
            forall|i: int| 0 <= i < scratch@.len() ==> 1 <= #[trigger] scratch@[i] && (scratch@[i] as int) < n,
        decreases x,
    {
        proof {
            assert(scratch@.len() != k);
            assert(x >= 1) by {
                assert(an0[0] == 0);
            }
        }
        scratch.push(x);
        x = ancestor[x as usize];
        proof {
            assert(up(an0, v as int, scratch@.len() as nat) == an0[up(an0, v as int, (scratch@.len() - 1) as nat)] as int);
        }
    }
    proof {
        assert(scratch@.len() == k);
    }
    while scratch.len() > 0
        invariant
            forest_ok(n, semi@, label@, ancestor@),
            n == l0.len(),
            forest_ok(n, semi@, l0, an0),
            k == hops(an0, v as int),
            top == up(an0, v as int, k + 1),
            forall|j: nat| j <= k + 1 ==> 0 <= #[trigger] up(an0, v as int, j) < n,
            forall|j: nat| j < k ==> an0[an0[#[trigger] up(an0, v as int, j)] as int] != 0 && up(an0, v as int, j) >= 1,
            an0[an0[up(an0, v as int, k) as int] as int] == 0,
            forall|i: nat, j: nat| i < j <= k ==> #[trigger] up(an0, v as int, j) < #[trigger] up(an0, v as int, i),
            scratch@.len() <= k,
            forall|i: int| 0 <= i < scratch@.len() ==> #[trigger] scratch@[i] as int == up(an0, v as int, i as nat),
            forall|i: int| 0 <= i < scratch@.len() ==> 1 <= #[trigger] scratch@[i] && (scratch@[i] as int) < n,
            forall|x: int| 0 <= x < n && (exists|j: nat| scratch@.len() <= j < k && #[trigger] up(an0, v as int, j) == x)
                ==> label@[x] == path_min(semi@, l0, an0, x) && ancestor@[x] == top,
            forall|x: int| 0 <= x < n && !(exists|j: nat| scratch@.len() <= j < k && #[trigger] up(an0, v as int, j) == x)
                ==> label@[x] == l0[x] && ancestor@[x] == an0[x],
        decreases scratch@.len(),
    {
        let ghost m = scratch@.len();
        let y = scratch.pop().unwrap();
        let yu = y as usize;
        proof {
            assert(y as int == up(an0, v as int, (m - 1) as nat));
            assert(!(exists|j: nat| m <= j < k && #[trigger] up(an0, v as int, j) == y as int));
            assert(up(an0, v as int, m as nat) == an0[y as int] as int);
        }
        let a = ancestor[yu] as usize;
        proof {
            assert(a as int == up(an0, v as int, m as nat));
            if m < k {
                assert(label@[a as int] == path_min(semi@, l0, an0, a as int) && ancestor@[a as int] == top);
            } else {
                assert(!(exists|j: nat| m <= j < k && #[trigger] up(an0, v as int, j) == a as int));
                assert(label@[a as int] == l0[a as int]);
                assert(path_min(semi@, l0, an0, a as int) == l0[a as int]);
                assert(ancestor@[a as int] == an0[a as int]);
                assert(up(an0, v as int, k + 1) == an0[up(an0, v as int, k) as int] as int);
            }
            assert(label@[a as int] == path_min(semi@, l0, an0, a as int) && ancestor@[a as int] == top);
            assert(path_min(semi@, l0, an0, y as int) == (if semi@[path_min(semi@, l0, an0, a as int) as int]
                < semi@[l0[y as int] as int] {
                path_min(semi@, l0, an0, a as int)
            } else {
                l0[y as int]
            }));
        }
        if semi[label[a] as usize] < semi[label[yu] as usize] {
            let la = label[a];
            label.set(yu, la);
        }
        let aa = ancestor[a];
        ancestor.set(yu, aa);
        proof {
            assert forall|x: int| 0 <= x < n && (exists|j: nat| scratch@.len() <= j < k && #[trigger] up(an0, v as int, j) == x)
                implies label@[x] == path_min(semi@, l0, an0, x) && ancestor@[x] == top by {
                if x != y as int {
                    let j = choose|j: nat| scratch@.len() <= j < k && #[trigger] up(an0, v as int, j) == x;
                    assert(j != m - 1);
                    assert(exists|j2: nat| m <= j2 < k && #[trigger] up(an0, v as int, j2) == x);
                }
            }
            assert forall|x: int| 0 <= x < n && !(exists|j: nat| scratch@.len() <= j < k && #[trigger] up(an0, v as int, j) == x)
                implies label@[x] == l0[x] && ancestor@[x] == an0[x] by {
                assert(x != y as int) by {
                    assert(up(an0, v as int, (m - 1) as nat) == y as int);
                }
            }
        }
    }
    proof {
        assert forall|x: int| 0 <= x < n && #[trigger] on_path(an0, v as int, x) implies label@[x] == path_min(semi@, l0, an0, x)
            && ancestor@[x] == top by {
            let j = choose|j: nat| j < k && #[trigger] up(an0, v as int, j) == x;
        }
        assert forall|x: int| 0 <= x < n && !#[trigger] on_path(an0, v as int, x) implies label@[x] == l0[x] && ancestor@[x]
            == an0[x] by {
            if exists|j: nat| 0 <= j < k && #[trigger] up(an0, v as int, j) == x {
                let j = choose|j: nat| 0 <= j < k && #[trigger] up(an0, v as int, j) == x;
                assert(on_path(an0, v as int, x));
            }
        }
        assert(up(an0, v as int, 0) == v as int);
        assert(on_path(an0, v as int, v as int)) by {
            assert(k >= 1);
        }
    }
}

/// Along the first `k` steps the walk strictly descends, so its vertices
/// are distinct.
proof fn lemma_up_decreasing(ancestor: Seq<u32>, v: int, k: nat)
    requires
        forall|j: nat| j < k ==> up(ancestor, v, j + 1) < #[trigger] up(ancestor, v, j),
    ensures
        forall|i: nat, j: nat| i < j <= k ==> #[trigger] up(ancestor, v, j) < #[trigger] up(ancestor, v, i),
{
    assert forall|i: nat, j: nat| i < j <= k implies #[trigger] up(ancestor, v, j) < #[trigger] up(ancestor, v, i) by {
        lemma_up_desc_pair(ancestor, v, k, i, j);
    }
}

proof fn lemma_up_desc_pair(ancestor: Seq<u32>, v: int, k: nat, i: nat, j: nat)
    requires
        forall|t: nat| t < k ==> up(ancestor, v, t + 1) < #[trigger] up(ancestor, v, t),
        i < j <= k,
    ensures
        up(ancestor, v, j) < up(ancestor, v, i),
    decreases j - i,
{
    if j > i + 1 {
        lemma_up_desc_pair(ancestor, v, k, i, (j - 1) as nat);
        assert(up(ancestor, v, ((j - 1) as nat + 1) as nat) < up(ancestor, v, (j - 1) as nat));
    } else {
        assert(up(ancestor, v, (i + 1) as nat) < up(ancestor, v, i));
    }
}

/// The label with the smallest semidominator on the forest path above `v`.
fn eval(v: u32, semi: &Vec<u32>, label: &mut Vec<u32>, ancestor: &mut Vec<u32>, scratch: &mut Vec<u32>) -> (u: u32)
    requires
        forest_ok(old(label)@.len() as int, semi@, old(label)@, old(ancestor)@),
        (v as int) < old(label)@.len(),
    ensures
        forest_ok(old(label)@.len() as int, semi@, final(label)@, final(ancestor)@),
        u == path_min(semi@, old(label)@, old(ancestor)@, v as int),
        u <= v,
{
    if ancestor[v as usize] == 0 {
        return label[v as usize];
    }
    compress(v, semi, label, ancestor, scratch);
    label[v as usize]
}

/// Immediate dominators in preorder space from the depth-first tree
/// `parent` and the incoming-edge index (`starts`, `sources`). Entry `w`
/// is the preorder number of `w`'s immediate dominator; the root's is 0.
pub fn lengauer_tarjan(n: usize, parent: &Vec<u32>, starts: &Vec<u32>, sources: &Vec<u32>) -> (idom: Vec<u32>)
    requires
        n >= 1,
        n < u32::MAX,
        parent@.len() == n,
        parent@[0] == 0,
        forall|k: int| 1 <= k < n ==> #[trigger] parent@[k] < k,
        starts@.len() == n + 1,
        starts@[n as int] == sources@.len(),
        forall|k: int| 0 <= k < n ==> #[trigger] starts@[k] <= starts@[k + 1],
        forall|j: int| 0 <= j < sources@.len() ==> (#[trigger] sources@[j] as int) < n,
    ensures
        idom@.len() == n,
        idom@[0] == 0,
        forall|w: int| 1 <= w < n ==> #[trigger] idom@[w] == u32::MAX || idom@[w] < w,
{
    let mut semi: Vec<u32> = Vec::new();
    let mut label: Vec<u32> = Vec::new();
    let mut ancestor: Vec<u32> = Vec::new();
    let mut idom: Vec<u32> = Vec::new();
    let mut bucket_head: Vec<u32> = Vec::new();
    let mut bucket_next: Vec<u32> = Vec::new();
    let mut i: usize = 0;
    while i < n
        invariant
            i <= n,
            n < u32::MAX,
            semi@.len() == i,
            label@.len() == i,
            ancestor@.len() == i,
            idom@.len() == i,
            bucket_head@.len() == i,
            bucket_next@.len() == i,
            forall|x: int| 0 <= x < i ==> #[trigger] semi@[x] == x,
            forall|x: int| 0 <= x < i ==> #[trigger] label@[x] == x,
            forall|x: int| 0 <= x < i ==> #[trigger] ancestor@[x] == 0,
            forall|x: int| 0 <= x < i ==> #[trigger] idom@[x] == u32::MAX,
            forall|x: int| 0 <= x < i ==> #[trigger] bucket_head@[x] == u32::MAX,
            forall|x: int| 0 <= x < i ==> #[trigger] bucket_next@[x] == u32::MAX,
        decreases n - i,
    {
        semi.push(i as u32);
        label.push(i as u32);
        ancestor.push(0);
        idom.push(u32::MAX);
        bucket_head.push(u32::MAX);
        bucket_next.push(u32::MAX);
        i += 1;
    }
    idom.set(0, 0);
    let mut scratch: Vec<u32> = Vec::new();
    let mut w: usize = n - 1;
    while w >= 1
        invariant
            n >= 1,
            n < u32::MAX,
            w < n,
            parent@.len() == n,
            forall|k: int| 1 <= k < n ==> #[trigger] parent@[k] < k,
            starts@.len() == n + 1,
            starts@[n as int] == sources@.len(),
            forall|k: int| 0 <= k < n ==> #[trigger] starts@[k] <= starts@[k + 1],
            forall|j: int| 0 <= j < sources@.len() ==> (#[trigger] sources@[j] as int) < n,
            forest_ok(n as int, semi@, label@, ancestor@),
            idom@.len() == n,
            idom@[0] == 0,
            forall|x: int| 1 <= x < n ==> #[trigger] idom@[x] == u32::MAX || idom@[x] < x,
            bucket_head@.len() == n,
            bucket_next@.len() == n,
            forall|s: int| 0 <= s < n ==> #[trigger] bucket_head@[s] == u32::MAX || (w < bucket_head@[s] && (bucket_head@[s] as int) < n),
            forall|x: int| 0 <= x < n ==> #[trigger] bucket_next@[x] == u32::MAX || (x < bucket_next@[x] && (bucket_next@[x] as int) < n),
        decreases w,
    {
        proof {
            lemma_starts_le(starts@, n as int, w as int);
        }
        let lo = starts[w] as usize;
        let hi = starts[w + 1] as usize;
        let mut j = lo;
        while j < hi
            invariant
                n >= 1,
                1 <= w < n,
                lo <= j <= hi,
                hi <= sources@.len(),
                forall|q: int| 0 <= q < sources@.len() ==> (#[trigger] sources@[q] as int) < n,
                forest_ok(n as int, semi@, label@, ancestor@),
            decreases hi - j,
        {
            let v = sources[j];
            let u = eval(v, &semi, &mut label, &mut ancestor, &mut scratch);
            if semi[u as usize] < semi[w] {
                let su = semi[u as usize];
                semi.set(w, su);
            }
            j += 1;
        }
        let sw = semi[w] as usize;
        let head = bucket_head[sw];
        bucket_next.set(w, head);
        bucket_head.set(sw, w as u32);
        let p = parent[w];
        ancestor.set(w, p);
        let mut v = bucket_head[p as usize];
        while v != u32::MAX
            invariant
                n >= 1,
                n < u32::MAX,
                1 <= w < n,
                (p as int) < w,
                forest_ok(n as int, semi@, label@, ancestor@),
                v == u32::MAX || (w <= v && (v as int) < n),
                idom@.len() == n,
                idom@[0] == 0,
                forall|x: int| 1 <= x < n ==> #[trigger] idom@[x] == u32::MAX || idom@[x] < x,
                bucket_next@.len() == n,
                forall|x: int| 0 <= x < n ==> #[trigger] bucket_next@[x] == u32::MAX || (x < bucket_next@[x] && (bucket_next@[x] as int) < n),
            decreases if v == u32::MAX { 0 } else { n + 1 - v },
        {
            let vu = v as usize;
            let u = eval(v, &semi, &mut label, &mut ancestor, &mut scratch);
            if semi[u as usize] < semi[vu] {
                idom.set(vu, u);
            } else {
                idom.set(vu, p);
            }
            v = bucket_next[vu];
        }
        bucket_head.set(p as usize, u32::MAX);
        w -= 1;
    }
    let mut w: usize = 1;
    while w < n
        invariant
            1 <= w <= n,
            semi@.len() == n,
            idom@.len() == n,
            idom@[0] == 0,
            forall|x: int| 1 <= x < n ==> #[trigger] idom@[x] == u32::MAX || idom@[x] < x,
        decreases n - w,
    {
        let d = idom[w];
        if d != semi[w] && d != u32::MAX {
            let dd = idom[d as usize];
            idom.set(w, dd);
        }
        w += 1;
    }
    idom
}

proof fn lemma_starts_le(starts: Seq<u32>, n: int, w: int)
    requires
        starts.len() == n + 1,
        forall|k: int| 0 <= k < n ==> #[trigger] starts[k] <= starts[k + 1],
        0 <= w < n,
    ensures
        starts[w] <= starts[w + 1] <= starts[n],
    decreases n - w,
{
    if w + 1 < n {
        lemma_starts_le(starts, n, w + 1);
    }
}

} // verus!
