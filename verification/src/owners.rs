//! Owner groups: the nodes a name query finds, keyed by the names along
//! their first-parent (owner) chain and summed per key.

use vstd::prelude::*;
use crate::graph::SnapshotGraph;
use crate::grouping::{group_by_label, grouped, label_of, total_weight, TypeSummary};
use crate::labels::{node_type, resolve_or_empty, resolved_or_empty};
use crate::queries::{capped, find_hits, find_nodes, match_view, self_keys, NameMatch, NameQuery};
use crate::retainers::ParentMap;
use crate::sorting::{desc_before, hit_count, ranked_desc, top_indices};

verus! {

/// One owner group: the chain key, the number of nodes and their summed
/// self size.
#[derive(Debug, Clone)]
pub struct OwnerGroup {
    pub chain: String,
    pub count: usize,
    pub self_size: u64,
}

/// The owner groups of a name query.
#[derive(Debug, Clone)]
pub struct OwnerAnalysis {
    pub name: String,
    pub total_nodes: usize,
    pub total_self: u64,
    pub groups: Vec<OwnerGroup>,
}

/// Continues the owner walk `c` for at most `fuel` more hops: it stops at a
/// node without owner, at `max_depth` entries, or at an owner already met.
pub open spec fn owner_walk(pm: ParentMap, c: Seq<int>, max_depth: int, fuel: nat) -> Seq<int>
    decreases fuel,
{
    if fuel == 0 {
        c
    } else {
        let up = pm.index@[c.last()];
        if up == u32::MAX || c.len() >= max_depth || c.contains(up as int) {
            c
        } else {
            owner_walk(pm, c.push(up as int), max_depth, (fuel - 1) as nat)
        }
    }
}

/// The owner chain of `n`, `n` first, at most `depth` entries (the nodes of
/// `retainer_chain`).
pub open spec fn owner_nodes(pm: ParentMap, n: int, depth: int) -> Seq<int> {
    if depth <= 0 {
        Seq::empty()
    } else {
        owner_walk(pm, seq![n], depth, depth as nat)
    }
}

/// Name of node `m` (empty when unresolvable).
pub open spec fn plain_name(g: SnapshotGraph, m: int) -> Seq<char> {
    resolved_or_empty(g.strings@, g.name_idx(m) as int)
}

/// Key parts of the owners `chain[1..k]`: the immediate owner by its name,
/// or `(type)` when unnamed; further owners by their names, unnamed ones
/// skipped.
pub open spec fn owner_parts(g: SnapshotGraph, chain: Seq<int>, k: int) -> Seq<Seq<char>>
    decreases k,
{
    if k <= 1 {
        Seq::empty()
    } else {
        let prev = owner_parts(g, chain, k - 1);
        let m = chain[k - 1];
        if plain_name(g, m).len() > 0 {
            prev.push(plain_name(g, m))
        } else if k - 1 == 1 {
            prev.push("("@ + node_type(g, m) + ")"@)
        } else {
            prev
        }
    }
}

/// The parts joined with ` → `.
pub open spec fn join_arrow(parts: Seq<Seq<char>>) -> Seq<char>
    decreases parts.len(),
{
    if parts.len() == 0 {
        Seq::empty()
    } else if parts.len() == 1 {
        parts[0]
    } else {
        join_arrow(parts.drop_last()) + " → "@ + parts.last()
    }
}

/// Group key of node `n`: its owners' names joined, or `(none)`.
pub open spec fn owner_key(g: SnapshotGraph, pm: ParentMap, n: int, depth: int) -> Seq<char> {
    let chain = owner_nodes(pm, n, depth);
    let parts = owner_parts(g, chain, chain.len() as int);
    if parts.len() == 0 {
        "(none)"@
    } else {
        join_arrow(parts)
    }
}

/// The indices as integers.
pub open spec fn ints(s: Seq<usize>) -> Seq<int> {
    Seq::new(s.len(), |i: int| s[i] as int)
}

/// Whether `m` occurs in `chain`.
fn chain_contains(chain: &Vec<usize>, m: usize) -> (b: bool)
    ensures
        b == ints(chain@).contains(m as int),
{
    let mut i: usize = 0;
    while i < chain.len()
        invariant
            i <= chain@.len(),
            forall|j: int| 0 <= j < i ==> chain@[j] != m,
        decreases chain@.len() - i,
    {
        if chain[i] == m {
            proof {
                assert(ints(chain@)[i as int] == m as int);
            }
            return true;
        }
        i += 1;
    }
    proof {
        if ints(chain@).contains(m as int) {
            let j = choose|j: int| 0 <= j < chain@.len() && #[trigger] ints(chain@)[j] == m as int;
            assert(chain@[j] == m);
        }
    }
    false
}

/// The owner chain of `n` (`owner_nodes`), walked from the parent map.
fn walk_owners(g: &SnapshotGraph, pm: &ParentMap, n: usize, depth: usize) -> (chain: Vec<usize>)
    requires
        g.wf(),
        pm.of(*g),
        n < g.node_count,
        depth >= 1,
    ensures
        ints(chain@) == owner_nodes(*pm, n as int, depth as int),
        forall|i: int| 0 <= i < chain@.len() ==> (#[trigger] chain@[i]) < g.node_count,
        chain@.len() >= 1,
{
    let mut chain: Vec<usize> = Vec::new();
    chain.push(n);
    let mut fuel: usize = depth;
    proof {
        assert(ints(chain@) =~= seq![n as int]);
    }
    while fuel > 0
        invariant
            g.wf(),
            pm.of(*g),
            chain@.len() >= 1,
            fuel <= depth,
            forall|i: int| 0 <= i < chain@.len() ==> (#[trigger] chain@[i]) < g.node_count,
            owner_walk(*pm, ints(chain@), depth as int, fuel as nat)
                == owner_nodes(*pm, n as int, depth as int),
        decreases fuel,
    {
        let last = chain[chain.len() - 1];
        let up = pm.index[last];
        let ghost cv = ints(chain@);
        proof {
            assert(cv.last() == last as int);
        }
        if up == u32::MAX || chain.len() >= depth || chain_contains(&chain, up as usize) {
            proof {
                assert(owner_walk(*pm, cv, depth as int, fuel as nat) == cv);
                assert(cv =~= ints(chain@));
                lemma_walk_zero(*pm, cv, depth as int);
            }
            return chain;
        }
        proof {
            let t = last as int;
            let e = choose|e: int| #[trigger] crate::retainers::first_incoming(*g, t, e) && g.owns(pm.index@[t] as int, e)
                && pm.edge_type@[t] == g.edge_type_idx(e) && pm.edge_name_or_index@[t] == g.edge_name_idx(e);
        }
        chain.push(up as usize);
        proof {
            assert(ints(chain@) =~= cv.push(up as int));
        }
        fuel -= 1;
    }
    proof {
        lemma_walk_zero(*pm, ints(chain@), depth as int);
    }
    chain
}

proof fn lemma_walk_zero(pm: ParentMap, c: Seq<int>, max_depth: int)
    ensures
        owner_walk(pm, c, max_depth, 0) == c,
{
}

/// The group key of node `n` (`owner_key`).
fn owner_key_of(g: &SnapshotGraph, pm: &ParentMap, n: usize, depth: usize) -> (key: String)
    requires
        g.wf(),
        pm.of(*g),
        n < g.node_count,
    ensures
        key@ == owner_key(*g, *pm, n as int, depth as int),
{
    if depth == 0 {
        proof {
            assert(owner_parts(*g, Seq::<int>::empty(), 0) =~= Seq::<Seq<char>>::empty());
        }
        return "(none)".to_string();
    }
    let chain = walk_owners(g, pm, n, depth);
    let ghost c = ints(chain@);
    let mut out = String::new();
    let mut parts: usize = 0;
    let mut k: usize = 1;
    proof {
        reveal_strlit("");
    }
    while k < chain.len()
        invariant
            g.wf(),
            1 <= k <= chain@.len(),
            c == ints(chain@),
            forall|i: int| 0 <= i < chain@.len() ==> (#[trigger] chain@[i]) < g.node_count,
            parts == owner_parts(*g, c, k as int).len(),
            parts <= k,
            out@ == join_arrow(owner_parts(*g, c, k as int)),
        decreases chain@.len() - k,
    {
        let m = chain[k];
        let name = resolve_or_empty(&g.strings, g.node_field(m, g.node_offsets.name));
        let ghost prev = owner_parts(*g, c, k as int);
        proof {
            assert(c[k as int] == m as int);
            assert(name@ == plain_name(*g, m as int));
        }
        if name.unicode_len() > 0 || k == 1 {
            let part = if name.unicode_len() > 0 {
                name
            } else {
                let mut p = String::new();
                p.append("(");
                let t = g.type_of(m);
                p.append(t.as_str());
                p.append(")");
                proof {
                    assert(Seq::<char>::empty() + "("@ + node_type(*g, m as int) + ")"@ =~= "("@ + node_type(*g, m as int) + ")"@);
                }
                p
            };
            if parts > 0 {
                out.append(" → ");
            }
            out.append(part.as_str());
            proof {
                let now = owner_parts(*g, c, k + 1);
                assert(now == prev.push(part@));
                assert(now.drop_last() =~= prev);
                if parts == 0 {
                    assert(prev.len() == 0);
                    assert(out@ =~= part@);
                }
            }
            parts = parts + 1;
        } else {
            proof {
                assert(owner_parts(*g, c, k + 1) == prev);
            }
        }
        k += 1;
    }
    if parts == 0 {
        return "(none)".to_string();
    }
    out
}

/// The indices `0..k`.
pub open spec fn iota(k: int) -> Seq<u32> {
    Seq::new(k as nat, |i: int| i as u32)
}

/// Self sizes of the nodes `rows`.
pub open spec fn row_weights(g: SnapshotGraph, rows: Seq<usize>) -> Seq<u64> {
    Seq::new(rows.len(), |i: int| g.self_size(rows[i] as int) as u64)
}

/// Always, for `k` records.
pub open spec fn all_of(k: int) -> Seq<bool> {
    Seq::new(k as nat, |i: int| true)
}

/// The nodes `rows` grouped by owner key into `groups`.
pub open spec fn owner_grouping(
    g: SnapshotGraph,
    pm: ParentMap,
    depth: usize,
    rows: Seq<usize>,
    groups: Seq<(String, TypeSummary)>,
) -> bool {
    exists|table: Seq<String>|
        #![trigger grouped(iota(rows.len() as int), row_weights(g, rows), all_of(rows.len() as int), table, Seq::empty(), Seq::empty(), groups)]
        table.len() == rows.len() && (forall|i: int|
            0 <= i < rows.len() ==> (#[trigger] table[i])@ == owner_key(g, pm, rows[i] as int, depth as int))
            && grouped(iota(rows.len() as int), row_weights(g, rows), all_of(rows.len() as int), table, Seq::empty(), Seq::empty(), groups)
}

/// Summed self size of the nodes `rows`.
pub open spec fn rows_self(g: SnapshotGraph, rows: Seq<usize>) -> int {
    total_weight(row_weights(g, rows), all_of(rows.len() as int), rows.len() as int)
}

/// `res` is the owner analysis of `query`: the matches of `find_nodes`,
/// grouped by owner key, ranked by descending self size then key.
pub open spec fn owner_result(g: SnapshotGraph, pm: ParentMap, query: NameQuery, depth: usize, top: usize, res: OwnerAnalysis) -> bool {
    &&& res.name@ == query.name@
    &&& exists|rows: Seq<usize>, groups: Seq<(String, TypeSummary)>, order: Seq<usize>| {
            &&& (lowercase_empty(query.name@) ==> rows.len() == 0)
            &&& (!lowercase_empty(query.name@) ==> ranked_desc(
                self_keys(g),
                find_hits(g, query),
                rows,
                capped(hit_count(find_hits(g, query), g.node_count as int), query.limit),
            ))
            &&& res.total_nodes == rows.len()
            &&& res.total_self == rows_self(g, rows)
            &&& owner_grouping(g, pm, depth, rows, groups)
            &&& ranked_desc(group_sizes(groups), all_of(groups.len() as int), order, capped(groups.len() as int, top))
            &&& res.groups@.len() == order.len()
            &&& forall|k: int| 0 <= k < order.len() ==> {
                let e = groups[order[k] as int];
                &&& (#[trigger] res.groups@[k]).chain@ == e.0@
                &&& res.groups@[k].count == e.1.count
                &&& res.groups@[k].self_size == e.1.size
            }
        }
}

/// Owner groups of a name query (`owner_groups`): the nodes `find_nodes`
/// returns, keyed by the names of their owners (`depth` chain entries, the
/// node included), grouped per key with count and summed self size, by
/// descending self size then ascending key, cut to `top` unless it is 0.
pub fn owner_groups(g: &SnapshotGraph, pm: &ParentMap, query: &NameQuery, depth: usize, top: usize) -> (res: OwnerAnalysis)
    requires
        g.wf(),
        pm.of(*g),
    ensures
        owner_result(*g, *pm, *query, depth, top, res),
{
    let matches = find_nodes(g, query);
    let ghost rows: Seq<usize> = if lowercase_empty(query.name@) {
        Seq::empty()
    } else {
        choose|rows: Seq<usize>|
            ranked_desc(
                self_keys(*g),
                find_hits(*g, *query),
                rows,
                capped(hit_count(find_hits(*g, *query), g.node_count as int), query.limit),
            ) && matches@.len() == rows.len() && forall|k: int|
                0 <= k < rows.len() ==> match_view(*g, rows[k] as int, #[trigger] matches@[k])
    };
    proof {
        if !lowercase_empty(query.name@) {
            assert(crate::text::lowercase(query.name@).len() > 0);
            crate::queries::lemma_hit_count_bound(find_hits(*g, *query), g.node_count as int);
        }
    }
    let k = matches.len();
    assert(k < u32::MAX);
    let mut table: Vec<String> = Vec::new();
    let mut idxs: Vec<u32> = Vec::new();
    let mut weights: Vec<u64> = Vec::new();
    let mut all: Vec<bool> = Vec::new();
    let mut i: usize = 0;
    while i < k
        invariant
            i <= k,
            k == matches@.len(),
            k == rows.len(),
            k < u32::MAX,
            g.wf(),
            pm.of(*g),
            forall|x: int| 0 <= x < k ==> (#[trigger] rows[x]) < g.node_count,
            forall|x: int| 0 <= x < k ==> match_view(*g, rows[x] as int, #[trigger] matches@[x]),
            table@.len() == i,
            idxs@.len() == i,
            weights@.len() == i,
            all@.len() == i,
            forall|x: int| 0 <= x < i ==> (#[trigger] table@[x])@ == owner_key(*g, *pm, rows[x] as int, depth as int),
            forall|x: int| 0 <= x < i ==> #[trigger] idxs@[x] == x as u32,
            forall|x: int| 0 <= x < i ==> #[trigger] weights@[x] == g.self_size(rows[x] as int) as u64,
            forall|x: int| 0 <= x < i ==> #[trigger] all@[x],
        decreases k - i,
    {
        let node = matches[i].node_index;
        proof {
            assert(match_view(*g, rows[i as int] as int, matches@[i as int]));
        }
        table.push(owner_key_of(g, pm, node, depth));
        idxs.push(i as u32);
        weights.push(matches[i].self_size as u64);
        all.push(true);
        i += 1;
    }
    proof {
        assert(idxs@ =~= iota(k as int));
        assert(weights@ =~= row_weights(*g, rows));
        assert(all@ =~= all_of(k as int));
        crate::summary::lemma_total_weight_bound(weights@, all@, k as int);
        assert(k * (u32::MAX as int) <= u64::MAX) by (nonlinear_arith)
            requires
                k <= u32::MAX,
        ;
    }
    let mut total_self: u64 = 0;
    let mut j: usize = 0;
    while j < k
        invariant
            j <= k,
            k == weights@.len(),
            k == all@.len(),
            forall|x: int| 0 <= x < k ==> #[trigger] all@[x],
            total_self == total_weight(weights@, all@, j as int),
            total_weight(weights@, all@, k as int) <= u64::MAX,
        decreases k - j,
    {
        proof {
            crate::grouping::lemma_total_weight_mono(weights@, all@, j + 1, k as int);
        }
        total_self = total_self + weights[j];
        j += 1;
    }
    proof {
        reveal_strlit("");
        assert(""@ =~= Seq::<char>::empty());
    }
    let groups = group_by_label(&idxs, &weights, &all, &table, "", "");
    let gn = groups.len();
    let mut sizes: Vec<u64> = Vec::new();
    let mut every: Vec<bool> = Vec::new();
    let mut q: usize = 0;
    while q < gn
        invariant
            q <= gn,
            gn == groups@.len(),
            sizes@.len() == q,
            every@.len() == q,
            forall|x: int| 0 <= x < q ==> #[trigger] sizes@[x] == groups@[x].1.size,
            forall|x: int| 0 <= x < q ==> #[trigger] every@[x],
        decreases gn - q,
    {
        sizes.push(groups[q].1.size);
        every.push(true);
        q += 1;
    }
    proof {
        assert(sizes@ =~= group_sizes(groups@));
        assert(every@ =~= all_of(gn as int));
        lemma_all_count(every@, gn as int);
    }
    let cap = if top > 0 { top } else { usize::MAX };
    let order = top_indices(&sizes, &every, cap);
    let mut out: Vec<OwnerGroup> = Vec::new();
    let mut r: usize = 0;
    while r < order.len()
        invariant
            r <= order@.len(),
            gn == groups@.len(),
            forall|x: int| 0 <= x < order@.len() ==> (#[trigger] order@[x]) < gn,
            out@.len() == r,
            forall|x: int| 0 <= x < r ==> {
                let e = groups@[order@[x] as int];
                &&& (#[trigger] out@[x]).chain@ == e.0@
                &&& out@[x].count == e.1.count
                &&& out@[x].self_size == e.1.size
            },
        decreases order@.len() - r,
    {
        let gi = order[r];
        out.push(OwnerGroup { chain: groups[gi].0.clone(), count: groups[gi].1.count, self_size: groups[gi].1.size });
        r += 1;
    }
    let res = OwnerAnalysis { name: query.name.clone(), total_nodes: k, total_self, groups: out };
    proof {
        assert(owner_grouping(*g, *pm, depth, rows, groups@));
        assert(capped(gn as int, top) == (if gn < cap { gn as int } else { cap as int }));
        assert(ranked_desc(group_sizes(groups@), all_of(gn as int), order@, capped(gn as int, top)));
        assert(res.total_self == rows_self(*g, rows));
        assert(forall|x: int| 0 <= x < order@.len() ==> {
            let e = groups@[order@[x] as int];
            &&& (#[trigger] res.groups@[x]).chain@ == e.0@
            &&& res.groups@[x].count == e.1.count
            &&& res.groups@[x].self_size == e.1.size
        });
    }
    res
}

/// Sizes of the groups.
pub open spec fn group_sizes(groups: Seq<(String, TypeSummary)>) -> Seq<u64> {
    Seq::new(groups.len(), |i: int| groups[i].1.size)
}

/// The lower-cased query name is empty.
pub open spec fn lowercase_empty(name: Seq<char>) -> bool {
    crate::text::lowercase(name).len() == 0
}

proof fn lemma_all_count(hits: Seq<bool>, k: int)
    requires
        0 <= k <= hits.len(),
        forall|j: int| 0 <= j < hits.len() ==> #[trigger] hits[j],
    ensures
        hit_count(hits, k) == k,
    decreases k,
{
    if k > 0 {
        lemma_all_count(hits, k - 1);
    }
}

} // verus!
