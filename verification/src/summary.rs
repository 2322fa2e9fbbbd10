//! Heap summaries: self sizes aggregated by node name and node type, the
//! top-N view of a summary under an optional regex filter, and the
//! exclusive retained-size summary.

use vstd::prelude::*;
use crate::graph::SnapshotGraph;
use crate::grouping::{group_by_label, grouped, label_of, total_weight, TypeSummary};
use crate::pattern::{compile_filter, opt_view, passes, passes_filter, regex_is_match, Pattern};
use crate::retained::RetainedData;
use crate::text::str_eq;
use crate::sorting::{distinct_tags, pair_lt, rank_prefix, ranked_prefix};

verus! {

/// Totals of a snapshot and its sizes by node type and by node name.
#[derive(Debug, Clone)]
pub struct HeapSnapshotSummary {
    pub total_size: u64,
    pub total_count: usize,
    pub by_node_type: Vec<(String, TypeSummary)>,
    pub by_node_name: Vec<(String, TypeSummary)>,
}

/// Name-table index of each node.
pub open spec fn name_keys(g: SnapshotGraph) -> Seq<u32> {
    Seq::new(g.node_count as nat, |n: int| g.name_idx(n))
}

/// Type-table index of each node.
pub open spec fn type_keys(g: SnapshotGraph) -> Seq<u32> {
    Seq::new(g.node_count as nat, |n: int| g.type_idx(n))
}

/// Self size of each node.
pub open spec fn self_weights(g: SnapshotGraph) -> Seq<u64> {
    Seq::new(g.node_count as nat, |n: int| g.self_size(n) as u64)
}

/// Whether each node has a nonzero self size.
pub open spec fn has_size(g: SnapshotGraph) -> Seq<bool> {
    Seq::new(g.node_count as nat, |n: int| g.self_size(n) > 0)
}

/// `s` is the full summary of `g`: the summed self size and the number of
/// nodes, and the nodes with a nonzero self size grouped by name (the
/// `<string#i>` fallback for unresolvable names) and by type name.
pub open spec fn is_full_summary(g: SnapshotGraph, s: HeapSnapshotSummary) -> bool {
    &&& s.total_size == total_weight(self_weights(g), has_size(g), g.node_count as int)
    &&& s.total_count == g.node_count
    &&& grouped(name_keys(g), self_weights(g), has_size(g), g.strings@, "<string#"@, ">"@, s.by_node_name@)
    &&& grouped(type_keys(g), self_weights(g), has_size(g), g.node_types@, Seq::empty(), Seq::empty(), s.by_node_type@)
}

pub proof fn lemma_total_weight_bound(weights: Seq<u64>, counted: Seq<bool>, k: int)
    requires
        0 <= k <= weights.len(),
        forall|i: int| 0 <= i < weights.len() ==> weights[i] <= u32::MAX,
    ensures
        total_weight(weights, counted, k) <= k * (u32::MAX as int),
    decreases k,
{
    if k > 0 {
        lemma_total_weight_bound(weights, counted, k - 1);
    }
}

/// Per-node keys, weights and inclusion flags for the self-size summary.
pub fn node_columns(g: &SnapshotGraph) -> (r: (Vec<u32>, Vec<u32>, Vec<u64>, Vec<bool>))
    requires
        g.wf(),
    ensures
        r.0@ == name_keys(*g),
        r.1@ == type_keys(*g),
        r.2@ == self_weights(*g),
        r.3@ == has_size(*g),
{
    let n = g.node_count;
    let mut names: Vec<u32> = Vec::new();
    let mut types: Vec<u32> = Vec::new();
    let mut weights: Vec<u64> = Vec::new();
    let mut sized: Vec<bool> = Vec::new();
    let mut i: usize = 0;
    while i < n
        invariant
            i <= n,
            n == g.node_count,
            g.wf(),
            names@.len() == i,
            types@.len() == i,
            weights@.len() == i,
            sized@.len() == i,
            forall|j: int| 0 <= j < i ==> #[trigger] names@[j] == g.name_idx(j),
            forall|j: int| 0 <= j < i ==> #[trigger] types@[j] == g.type_idx(j),
            forall|j: int| 0 <= j < i ==> #[trigger] weights@[j] == g.self_size(j) as u64,
            forall|j: int| 0 <= j < i ==> #[trigger] sized@[j] == (g.self_size(j) > 0),
        decreases n - i,
    {
        names.push(g.node_field(i, g.node_offsets.name));
        types.push(g.node_field(i, g.node_offsets.type_));
        let s = g.node_field(i, g.node_offsets.self_size);
        weights.push(s as u64);
        sized.push(s > 0);
        i += 1;
    }
    assert(names@ =~= name_keys(*g));
    assert(types@ =~= type_keys(*g));
    assert(weights@ =~= self_weights(*g));
    assert(sized@ =~= has_size(*g));
    (names, types, weights, sized)
}

/// The full summary of `g` (`compute_full_summary`): total self size and
/// node count, and the nodes of nonzero self size grouped by name and by
/// type.
pub fn compute_full_summary(g: &SnapshotGraph) -> (s: HeapSnapshotSummary)
    requires
        g.wf(),
    ensures
        is_full_summary(*g, s),
{
    let (names, types, weights, sized) = node_columns(g);
    proof {
        lemma_total_weight_bound(weights@, sized@, g.node_count as int);
        assert(g.node_count * (u32::MAX as int) <= u64::MAX) by (nonlinear_arith)
            requires
                g.node_count < u32::MAX,
        ;
    }
    let mut total: u64 = 0;
    let mut i: usize = 0;
    while i < g.node_count
        invariant
            i <= g.node_count,
            weights@ == self_weights(*g),
            sized@ == has_size(*g),
            total == total_weight(weights@, sized@, i as int),
            total_weight(weights@, sized@, g.node_count as int) <= u64::MAX,
        decreases g.node_count - i,
    {
        proof {
            crate::grouping::lemma_total_weight_mono(weights@, sized@, i + 1, g.node_count as int);
        }
        if sized[i] {
            total = total + weights[i];
        }
        i += 1;
    }
    proof {
        reveal_strlit("");
        reveal_strlit("<string#");
        reveal_strlit(">");
        assert(""@ =~= Seq::<char>::empty());
    }
    let by_node_name = group_by_label(&names, &weights, &sized, &g.strings, "<string#", ">");
    let by_node_type = group_by_label(&types, &weights, &sized, &g.node_types, "", "");
    assert(total == total_weight(self_weights(*g), has_size(*g), g.node_count as int));
    assert(grouped(name_keys(*g), self_weights(*g), has_size(*g), g.strings@, "<string#"@, ">"@, by_node_name@));
    assert(grouped(type_keys(*g), self_weights(*g), has_size(*g), g.node_types@, Seq::empty(), Seq::empty(), by_node_type@));
    HeapSnapshotSummary { total_size: total, total_count: g.node_count, by_node_type, by_node_name }
}

/// Entry `e` is shown: nonzero size and a label that passes the filter.
pub open spec fn shown(filter: Option<Seq<char>>, e: (String, TypeSummary)) -> bool {
    e.1.size != 0 && passes(filter, e.0@)
}

/// Number of shown entries among the first `k`.
pub open spec fn shown_count(filter: Option<Seq<char>>, entries: Seq<(String, TypeSummary)>, k: int) -> int
    decreases k,
{
    if k <= 0 {
        0
    } else {
        shown_count(filter, entries, k - 1) + if shown(filter, entries[k - 1]) {
            1int
        } else {
            0
        }
    }
}

/// Labels are pairwise distinct.
pub open spec fn distinct_labels(entries: Seq<(String, TypeSummary)>) -> bool {
    forall|i: int, j: int| 0 <= i < j < entries.len() ==> (#[trigger] entries[i]).0@ != (#[trigger] entries[j]).0@
}

/// `out` is the top-`top` view of `entries` under `filter`: the shown
/// entries by descending size, cut to `top` unless `top` is `usize::MAX`;
/// an entry left out is no larger than any kept one.
pub open spec fn top_entries(
    entries: Seq<(String, TypeSummary)>,
    filter: Option<Seq<char>>,
    top: usize,
    out: Seq<(String, TypeSummary)>,
) -> bool {
    let c = shown_count(filter, entries, entries.len() as int);
    &&& out.len() == if top == usize::MAX || c <= top { c } else { top as int }
    &&& forall|k: int| 0 <= k < out.len() ==> from_entry(entries, filter, #[trigger] out[k])
    &&& forall|a: int, b: int| 0 <= a < b < out.len() ==> (#[trigger] out[a]).1.size >= (#[trigger] out[b]).1.size
    &&& distinct_labels(out)
    &&& forall|i: int|
        0 <= i < entries.len() && shown(filter, #[trigger] entries[i]) && (forall|k: int|
            0 <= k < out.len() ==> (#[trigger] out[k]).0@ != entries[i].0@) ==> forall|k: int|
            0 <= k < out.len() ==> entries[i].1.size <= (#[trigger] out[k]).1.size
    &&& forall|a: int, b: int| 0 <= a < b < out.len() ==> (#[trigger] out[a]).1.size > (#[trigger] out[b]).1.size || listed_before(
        entries,
        out[a].0@,
        out[b].0@,
    )
    &&& forall|i: int, k: int|
        0 <= i < entries.len() && 0 <= k < out.len() && shown(filter, #[trigger] entries[i]) && (forall|x: int|
            0 <= x < out.len() ==> (#[trigger] out[x]).0@ != entries[i].0@) ==> entries[i].1.size < (#[trigger] out[k]).1.size
            || listed_before(entries, out[k].0@, entries[i].0@)
}

/// An entry labelled `x` comes before one labelled `y` in `entries`: ties
/// in size are kept and ordered by position.
pub open spec fn listed_before(entries: Seq<(String, TypeSummary)>, x: Seq<char>, y: Seq<char>) -> bool {
    exists|i: int, j: int| 0 <= i < j < entries.len() && (#[trigger] entries[i]).0@ == x && (#[trigger] entries[j]).0@ == y
}

/// `e` is one of the shown entries.
pub open spec fn from_entry(entries: Seq<(String, TypeSummary)>, filter: Option<Seq<char>>, e: (String, TypeSummary)) -> bool {
    exists|i: int| 0 <= i < entries.len() && shown(filter, #[trigger] entries[i]) && e.0@ == entries[i].0@ && e.1 == entries[i].1
}

/// The compiled filter admits `t`.
pub open spec fn admits(re: Option<Pattern>, t: Seq<char>) -> bool {
    match re {
        Some(p) => regex_is_match(p.source(), t),
        None => true,
    }
}

/// Shown entries under the compiled form of `filter`, ranked by descending
/// size (ties by position) and cut to `top` unless `top` is `usize::MAX`.
fn select_top(
    entries: &Vec<(String, TypeSummary)>,
    re: &Option<Pattern>,
    filter: Ghost<Option<Seq<char>>>,
    top: usize,
) -> (out: Vec<(String, TypeSummary)>)
    requires
        distinct_labels(entries@),
        forall|t: Seq<char>| admits(*re, t) == passes(filter@, t),
    ensures
        top_entries(entries@, filter@, top, out@),
{
    let n = entries.len();
    let mut cand: Vec<(u64, u64)> = Vec::new();
    let mut i: usize = 0;
    while i < n
        invariant
            i <= n,
            n == entries@.len(),
            forall|t: Seq<char>| admits(*re, t) == passes(filter@, t),
            cand@.len() == shown_count(filter@, entries@, i as int),
            forall|k: int| 0 <= k < cand@.len() ==> (#[trigger] cand@[k]).1 < i,
            forall|a: int, b: int| 0 <= a < b < cand@.len() ==> (#[trigger] cand@[a]).1 < (#[trigger] cand@[b]).1,
            forall|k: int| 0 <= k < cand@.len() ==> shown(filter@, entries@[(#[trigger] cand@[k]).1 as int])
                && cand@[k].0 == u64::MAX - entries@[cand@[k].1 as int].1.size,
            forall|q: int| 0 <= q < i && shown(filter@, #[trigger] entries@[q]) ==> cand@.contains(
                ((u64::MAX - entries@[q].1.size) as u64, q as u64),
            ),
        decreases n - i,
    {
        let ghost old_cand = cand@;
        let size = entries[i].1.size;
        if size != 0 && passes_filter(re, entries[i].0.as_str()) {
            cand.push((u64::MAX - size, i as u64));
            proof {
                assert(cand@[cand@.len() - 1] == ((u64::MAX - size) as u64, i as u64));
            }
        }
        proof {
            assert forall|q: int| 0 <= q < i + 1 && shown(filter@, #[trigger] entries@[q]) implies cand@.contains(
                ((u64::MAX - entries@[q].1.size) as u64, q as u64),
            ) by {
                if q < i {
                    assert(old_cand.contains(((u64::MAX - entries@[q].1.size) as u64, q as u64)));
                    let w = choose|w: int| 0 <= w < old_cand.len() && old_cand[w] == (
                        (u64::MAX - entries@[q].1.size) as u64,
                        q as u64,
                    );
                    assert(cand@[w] == old_cand[w]);
                } else {
                    assert(cand@[cand@.len() - 1] == ((u64::MAX - entries@[q].1.size) as u64, q as u64));
                }
            }
        }
        i += 1;
    }
    let c = cand.len();
    let m = if top == usize::MAX || c <= top { c } else { top };
    assert(distinct_tags(cand@)) by {
        assert forall|a: int, b: int| 0 <= a < b < cand@.len() implies (#[trigger] cand@[a]).1 != (#[trigger] cand@[b]).1 by {
            assert(cand@[a].1 < cand@[b].1);
        }
    }
    let ghost cs = cand@;
    let r = rank_prefix(cand, m);
    let mut out: Vec<(String, TypeSummary)> = Vec::new();
    let mut k: usize = 0;
    while k < m
        invariant
            k <= m,
            r@.len() == m,
            n == entries@.len(),
            out@.len() == k,
            forall|x: int| 0 <= x < m ==> cs.contains(#[trigger] r@[x]),
            forall|x: int| 0 <= x < cs.len() ==> (#[trigger] cs[x]).1 < n,
            forall|x: int| 0 <= x < k ==> (#[trigger] out@[x]).0@ == entries@[r@[x].1 as int].0@ && out@[x].1
                == entries@[r@[x].1 as int].1,
        decreases m - k,
    {
        proof {
            assert(cs.contains(r@[k as int]));
        }
        let idx = r[k].1 as usize;
        out.push((entries[idx].0.clone(), entries[idx].1));
        k += 1;
    }
    proof {
        // every ranked pair names a shown entry, keyed by its size
        assert forall|x: int| 0 <= x < m implies shown(filter@, entries@[(#[trigger] r@[x]).1 as int])
            && r@[x].0 == u64::MAX - entries@[r@[x].1 as int].1.size && r@[x].1 < n by {
            assert(cs.contains(r@[x]));
            let w = choose|w: int| 0 <= w < cs.len() && cs[w] == r@[x];
        }
        assert forall|a: int, b: int| 0 <= a < b < m implies (#[trigger] r@[a]).1 != (#[trigger] r@[b]).1 by {
            assert(pair_lt(r@[a], r@[b]));
            if r@[a].1 == r@[b].1 {
                assert(r@[a].0 == r@[b].0);
            }
        }
        assert forall|kk: int| 0 <= kk < out@.len() implies from_entry(entries@, filter@, #[trigger] out@[kk]) by {
            let ii = r@[kk].1 as int;
            assert(shown(filter@, entries@[ii]));
            assert(0 <= ii < entries@.len());
            assert(out@[kk].0@ == entries@[ii].0@ && out@[kk].1 == entries@[ii].1);
        }
        assert forall|a: int, b: int| 0 <= a < b < out@.len() implies (#[trigger] out@[a]).1.size
            >= (#[trigger] out@[b]).1.size by {
            assert(pair_lt(r@[a], r@[b]));
        }
        assert forall|a: int, b: int| 0 <= a < b < out@.len() implies (#[trigger] out@[a]).1.size > (#[trigger] out@[b]).1.size
            || listed_before(entries@, out@[a].0@, out@[b].0@) by {
            assert(pair_lt(r@[a], r@[b]));
            let ia = r@[a].1 as int;
            let ib = r@[b].1 as int;
            if out@[a].1.size <= out@[b].1.size {
                assert(ia < ib);
                assert(entries@[ia].0@ == out@[a].0@ && entries@[ib].0@ == out@[b].0@);
            }
        }
        assert forall|a: int, b: int| 0 <= a < b < out@.len() implies (#[trigger] out@[a]).0@
            != (#[trigger] out@[b]).0@ by {
            let ia = r@[a].1 as int;
            let ib = r@[b].1 as int;
            assert(ia != ib);
            if ia < ib {
                assert(entries@[ia].0@ != entries@[ib].0@);
            } else {
                assert(entries@[ib].0@ != entries@[ia].0@);
            }
        }
        assert forall|ii: int|
            0 <= ii < entries@.len() && shown(filter@, #[trigger] entries@[ii]) && (forall|kk: int|
                0 <= kk < out@.len() ==> (#[trigger] out@[kk]).0@ != entries@[ii].0@) implies forall|kk: int|
            0 <= kk < out@.len() ==> entries@[ii].1.size <= (#[trigger] out@[kk]).1.size by {
            let x = ((u64::MAX - entries@[ii].1.size) as u64, ii as u64);
            assert(cs.contains(x));
            if r@.contains(x) {
                let p = choose|p: int| 0 <= p < r@.len() && r@[p] == x;
                assert(out@[p].0@ == entries@[ii].0@);
            }
            assert forall|kk: int| 0 <= kk < out@.len() implies entries@[ii].1.size <= (#[trigger] out@[kk]).1.size by {
                assert(pair_lt(r@[kk], x));
            }
        }
        assert forall|ii: int, kk: int|
            0 <= ii < entries@.len() && 0 <= kk < out@.len() && shown(filter@, #[trigger] entries@[ii]) && (forall|x: int|
                0 <= x < out@.len() ==> (#[trigger] out@[x]).0@ != entries@[ii].0@) implies entries@[ii].1.size < (#[trigger] out@[kk]).1.size
            || listed_before(entries@, out@[kk].0@, entries@[ii].0@) by {
            let x = ((u64::MAX - entries@[ii].1.size) as u64, ii as u64);
            assert(cs.contains(x));
            if r@.contains(x) {
                let p = choose|p: int| 0 <= p < r@.len() && r@[p] == x;
                assert(out@[p].0@ == entries@[ii].0@);
            }
            assert(pair_lt(r@[kk], x));
            let ik = r@[kk].1 as int;
            if entries@[ii].1.size >= out@[kk].1.size {
                assert(ik < ii);
                assert(entries@[ik].0@ == out@[kk].0@);
            }
        }
        assert(out@.len() == m);
        assert(c == shown_count(filter@, entries@, entries@.len() as int));
        let cc = shown_count(filter@, entries@, entries@.len() as int);
        assert(out@.len() == if top == usize::MAX || cc <= top { cc } else { top as int });
    }
    out
}

/// Copies of the entries, label and sizes kept.
pub fn clone_entries(v: &Vec<(String, TypeSummary)>) -> (out: Vec<(String, TypeSummary)>)
    ensures
        out@ == v@,
        forall|i: int| 0 <= i < v@.len() ==> (#[trigger] out@[i]).0@ == v@[i].0@ && out@[i].1 == v@[i].1,
{
    let mut out: Vec<(String, TypeSummary)> = Vec::new();
    let mut i: usize = 0;
    while i < v.len()
        invariant
            i <= v@.len(),
            out@ == v@.subrange(0, i as int),
        decreases v@.len() - i,
    {
        out.push((v[i].0.clone(), v[i].1));
        i += 1;
    }
    proof {
        assert(out@ =~= v@);
    }
    out
}

/// The view of a summary that `stream_summary` serves (`slice_summary`):
/// the totals and the type breakdown unchanged, the names cut to the
/// `top` largest that pass `filter` (an invalid pattern filters nothing).
pub fn slice_summary(full: &HeapSnapshotSummary, top: usize, filter: Option<&str>) -> (s: HeapSnapshotSummary)
    requires
        distinct_labels(full.by_node_name@),
    ensures
        s.total_size == full.total_size,
        s.total_count == full.total_count,
        s.by_node_type@.len() == full.by_node_type@.len(),
        forall|i: int| 0 <= i < full.by_node_type@.len() ==> (#[trigger] s.by_node_type@[i]).0@
            == full.by_node_type@[i].0@ && s.by_node_type@[i].1 == full.by_node_type@[i].1,
        top_entries(full.by_node_name@, opt_view(filter), top, s.by_node_name@),
{
    let re = compile_filter(filter);
    proof {
        lemma_admits_passes(re, filter);
    }
    let names = select_top(&full.by_node_name, &re, Ghost(opt_view(filter)), top);
    HeapSnapshotSummary {
        total_size: full.total_size,
        total_count: full.total_count,
        by_node_type: clone_entries(&full.by_node_type),
        by_node_name: names,
    }
}

/// The `top` largest entries that pass `filter` (an invalid pattern filters
/// nothing), by descending size; `usize::MAX` keeps them all.
pub fn top_passing(entries: &Vec<(String, TypeSummary)>, top: usize, filter: Option<&str>) -> (out: Vec<(String, TypeSummary)>)
    requires
        distinct_labels(entries@),
    ensures
        top_entries(entries@, opt_view(filter), top, out@),
{
    let re = compile_filter(filter);
    proof {
        lemma_admits_passes(re, filter);
    }
    select_top(entries, &re, Ghost(opt_view(filter)), top)
}

proof fn lemma_admits_passes(re: Option<Pattern>, filter: Option<&str>)
    requires
        re is Some <==> crate::pattern::filter_active(opt_view(filter)),
        re matches Some(p) ==> opt_view(filter) == Some(p.source()),
    ensures
        forall|t: Seq<char>| admits(re, t) == passes(opt_view(filter), t),
{
}

/// Labels of a grouping are strictly ascending, hence distinct.
pub proof fn lemma_grouped_distinct(
    keys: Seq<u32>,
    weights: Seq<u64>,
    counted: Seq<bool>,
    table: Seq<String>,
    pre: Seq<char>,
    suf: Seq<char>,
    out: Seq<(String, TypeSummary)>,
)
    requires
        grouped(keys, weights, counted, table, pre, suf, out),
    ensures
        distinct_labels(out),
{
}

/// Field `off` of node `n`'s immediate dominator, or `u32::MAX` when the
/// dominator is not a node or is `n` itself.
pub open spec fn dom_key(g: SnapshotGraph, rd: RetainedData, n: int, off: int) -> u32 {
    let d = rd.idoms@[n] as int;
    if d < g.node_count && d != n {
        g.nf(d, off)
    } else {
        u32::MAX
    }
}

/// Node `n` is counted under its own field `off` in the exclusive summary:
/// not the root, a nonzero retained size, and a dominator whose field
/// `off` differs (the DevTools convention for sizes by constructor).
pub open spec fn exclusive(g: SnapshotGraph, rd: RetainedData, n: int, off: int) -> bool {
    n >= 1 && rd.retained@[n] != 0 && dom_key(g, rd, n, off) != g.nf(n, off)
}

/// Retained size of each node.
pub open spec fn retained_weights(g: SnapshotGraph, rd: RetainedData) -> Seq<u64> {
    Seq::new(g.node_count as nat, |n: int| rd.retained@[n])
}

/// Whether each node is counted under field `off`.
pub open spec fn exclusive_flags(g: SnapshotGraph, rd: RetainedData, off: int) -> Seq<bool> {
    Seq::new(g.node_count as nat, |n: int| exclusive(g, rd, n, off))
}

/// `out` groups the exclusive retained sizes by node name.
pub open spec fn retained_by_name(g: SnapshotGraph, rd: RetainedData, out: Seq<(String, TypeSummary)>) -> bool {
    grouped(
        name_keys(g),
        retained_weights(g, rd),
        exclusive_flags(g, rd, g.node_offsets.name as int),
        g.strings@,
        "<string#"@,
        ">"@,
        out,
    )
}

/// `out` groups the exclusive retained sizes by node type.
pub open spec fn retained_by_type(g: SnapshotGraph, rd: RetainedData, out: Seq<(String, TypeSummary)>) -> bool {
    grouped(
        type_keys(g),
        retained_weights(g, rd),
        exclusive_flags(g, rd, g.node_offsets.type_ as int),
        g.node_types@,
        Seq::empty(),
        Seq::empty(),
        out,
    )
}

/// The retained bytes that the exclusive summary charges to the name `l`
/// among the first `k` nodes: each node other than the root whose name is
/// `l` and whose retained size is nonzero, unless its immediate dominator
/// is another node with the same name index (whose own retained size
/// already holds it); a dominator that is not another node stands for the
/// index 2^32 - 1.
pub open spec fn charged_to_name(g: SnapshotGraph, rd: RetainedData, l: Seq<char>, k: int) -> int
    decreases k,
{
    if k <= 0 {
        0
    } else {
        let n = k - 1;
        let d = rd.idoms@[n] as int;
        charged_to_name(g, rd, l, k - 1) + if n >= 1 && rd.retained@[n] != 0 && crate::labels::resolved(
            g.strings@,
            g.name_idx(n) as int,
            "<string#"@,
            ">"@,
        ) == l && (if d < g.node_count && d != n {
            g.name_idx(d)
        } else {
            u32::MAX
        }) != g.name_idx(n) {
            rd.retained@[n] as int
        } else {
            0
        }
    }
}

proof fn lemma_charged_is_group(g: SnapshotGraph, rd: RetainedData, l: Seq<char>, k: int)
    requires
        0 <= k <= g.node_count,
        rd.retained@.len() == g.node_count,
        rd.idoms@.len() == g.node_count,
    ensures
        crate::grouping::group_weight(
            name_keys(g),
            retained_weights(g, rd),
            exclusive_flags(g, rd, g.node_offsets.name as int),
            g.strings@,
            "<string#"@,
            ">"@,
            l,
            k,
        ) == charged_to_name(g, rd, l, k),
    decreases k,
{
    if k > 0 {
        lemma_charged_is_group(g, rd, l, k - 1);
    }
}

/// The exclusive summary by name does not count a node twice under one
/// name through a same-named dominator: each name's total is the retained
/// size of the nodes of that name whose immediate dominator has another
/// name (or is not a node).
pub proof fn lemma_exclusive_by_name(g: SnapshotGraph, rd: RetainedData, out: Seq<(String, TypeSummary)>, i: int)
    requires
        rd.of(g),
        retained_by_name(g, rd, out),
        0 <= i < out.len(),
    ensures
        out[i].1.size == charged_to_name(g, rd, out[i].0@, g.node_count as int),
{
    lemma_charged_is_group(g, rd, out[i].0@, g.node_count as int);
}

/// The exclusive retained weights fit in 64 bits.
pub open spec fn exclusive_totals_fit(g: SnapshotGraph, rd: RetainedData) -> bool {
    &&& total_weight(retained_weights(g, rd), exclusive_flags(g, rd, g.node_offsets.name as int), g.node_count as int)
        <= u64::MAX
    &&& total_weight(retained_weights(g, rd), exclusive_flags(g, rd, g.node_offsets.type_ as int), g.node_count as int)
        <= u64::MAX
}

/// Per-node retained sizes and exclusive flags for field `off`.
fn exclusive_column(g: &SnapshotGraph, rd: &RetainedData, off: usize) -> (r: (Vec<u64>, Vec<bool>))
    requires
        g.wf(),
        rd.of(*g),
        off < g.node_field_count,
    ensures
        r.0@ == retained_weights(*g, *rd),
        r.1@ == exclusive_flags(*g, *rd, off as int),
{
    let n = g.node_count;
    let mut weights: Vec<u64> = Vec::new();
    let mut flags: Vec<bool> = Vec::new();
    let mut i: usize = 0;
    while i < n
        invariant
            i <= n,
            n == g.node_count,
            g.wf(),
            rd.of(*g),
            off < g.node_field_count,
            weights@.len() == i,
            flags@.len() == i,
            forall|j: int| 0 <= j < i ==> #[trigger] weights@[j] == rd.retained@[j],
            forall|j: int| 0 <= j < i ==> #[trigger] flags@[j] == exclusive(*g, *rd, j, off as int),
        decreases n - i,
    {
        let r = rd.retained[i];
        weights.push(r);
        let own = g.node_field(i, off);
        let d = rd.idoms[i] as usize;
        let dk = if d < n && d != i {
            g.node_field(d, off)
        } else {
            u32::MAX
        };
        flags.push(i >= 1 && r != 0 && dk != own);
        i += 1;
    }
    assert(weights@ =~= retained_weights(*g, *rd));
    assert(flags@ =~= exclusive_flags(*g, *rd, off as int));
    (weights, flags)
}

/// Summed weight of the flagged entries, when it fits in 64 bits.
fn checked_total(weights: &Vec<u64>, flags: &Vec<bool>) -> (t: Option<u64>)
    requires
        weights@.len() == flags@.len(),
    ensures
        t is Some <==> total_weight(weights@, flags@, weights@.len() as int) <= u64::MAX,
        t matches Some(v) ==> v == total_weight(weights@, flags@, weights@.len() as int),
{
    let n = weights.len();
    let mut total: u64 = 0;
    let mut i: usize = 0;
    while i < n
        invariant
            i <= n,
            n == weights@.len(),
            n == flags@.len(),
            total == total_weight(weights@, flags@, i as int),
        decreases n - i,
    {
        if flags[i] {
            if weights[i] > u64::MAX - total {
                proof {
                    crate::grouping::lemma_total_weight_mono(weights@, flags@, i + 1, n as int);
                }
                return None;
            }
            total = total + weights[i];
        }
        i += 1;
    }
    Some(total)
}

/// Exclusive retained sizes by node name and by type (`retained_summary`):
/// each node other than the root with a nonzero retained size counts under
/// its name when its immediate dominator's name index differs, and under
/// its type likewise; the groups are then cut to the `top` largest that
/// pass `filter` (every group when `top` is `usize::MAX`). The totals are
/// those of `full`. Fails when an exclusive total exceeds 64 bits.
pub fn retained_summary(
    g: &SnapshotGraph,
    rd: &RetainedData,
    full: &HeapSnapshotSummary,
    top: usize,
    filter: Option<&str>,
) -> (res: Result<HeapSnapshotSummary, crate::types::Error>)
    requires
        g.wf(),
        rd.of(*g),
    ensures
        res is Ok <==> exclusive_totals_fit(*g, *rd),
        res matches Ok(s) ==> {
            &&& s.total_size == full.total_size
            &&& s.total_count == full.total_count
            &&& exists|names: Seq<(String, TypeSummary)>| retained_by_name(*g, *rd, names) && top_entries(
                names,
                opt_view(filter),
                top,
                s.by_node_name@,
            )
            &&& exists|types: Seq<(String, TypeSummary)>| retained_by_type(*g, *rd, types) && top_entries(
                types,
                opt_view(filter),
                top,
                s.by_node_type@,
            )
        },
{
    let (names, types, _w, _s) = node_columns(g);
    let (wn, fname) = exclusive_column(g, rd, g.node_offsets.name);
    let (wt, ftype) = exclusive_column(g, rd, g.node_offsets.type_);
    let tn = checked_total(&wn, &fname);
    let tt = checked_total(&wt, &ftype);
    if tn.is_none() || tt.is_none() {
        return Err(crate::types::Error::SizeOverflow);
    }
    proof {
        reveal_strlit("");
        reveal_strlit("<string#");
        reveal_strlit(">");
        assert(""@ =~= Seq::<char>::empty());
    }
    let by_name = group_by_label(&names, &wn, &fname, &g.strings, "<string#", ">");
    let by_type = group_by_label(&types, &wt, &ftype, &g.node_types, "", "");
    let re = compile_filter(filter);
    proof {
        lemma_admits_passes(re, filter);
    }
    let top_names = select_top(&by_name, &re, Ghost(opt_view(filter)), top);
    let top_types = select_top(&by_type, &re, Ghost(opt_view(filter)), top);
    proof {
        assert(retained_by_name(*g, *rd, by_name@));
        assert(retained_by_type(*g, *rd, by_type@));
    }
    Ok(HeapSnapshotSummary {
        total_size: full.total_size,
        total_count: full.total_count,
        by_node_type: top_types,
        by_node_name: top_names,
    })
}

/// The full summary's breakdowns partition it: the sizes by type, and by
/// name, add up to the total, and their counts to the number of nodes with
/// a size.
pub proof fn lemma_summary_adds_up(g: SnapshotGraph, s: HeapSnapshotSummary)
    requires
        is_full_summary(g, s),
    ensures
        crate::grouping::sizes_of(s.by_node_type@, s.by_node_type@.len() as int) == s.total_size,
        crate::grouping::sizes_of(s.by_node_name@, s.by_node_name@.len() as int) == s.total_size,
        crate::grouping::counts_of(s.by_node_type@, s.by_node_type@.len() as int) == crate::grouping::counted_records(
            has_size(g),
            g.node_count as int,
        ),
        crate::grouping::counts_of(s.by_node_name@, s.by_node_name@.len() as int) == crate::grouping::counted_records(
            has_size(g),
            g.node_count as int,
        ),
{
    crate::grouping::lemma_groups_add_up(type_keys(g), self_weights(g), has_size(g), g.node_types@, Seq::empty(), Seq::empty(), s.by_node_type@);
    crate::grouping::lemma_groups_add_up(name_keys(g), self_weights(g), has_size(g), g.strings@, "<string#"@, ">"@, s.by_node_name@);
}

/// One row of the self-and-retained table: a label with its self and
/// retained bytes and counts.
#[derive(Debug, Clone)]
pub struct MergedRow {
    pub name: String,
    pub self_size: u64,
    pub self_count: usize,
    pub retained_size: u64,
    pub retained_count: usize,
}

/// The first entry labelled `l` among the first `k` of `v`.
pub open spec fn find_entry(v: Seq<(String, TypeSummary)>, l: Seq<char>, k: int) -> Option<TypeSummary>
    decreases k,
{
    if k <= 0 {
        None
    } else {
        match find_entry(v, l, k - 1) {
            Some(x) => Some(x),
            None => if v[k - 1].0@ == l {
                Some(v[k - 1].1)
            } else {
                None
            },
        }
    }
}

/// Some entry of `v` is labelled `l`.
pub open spec fn has_entry(v: Seq<(String, TypeSummary)>, l: Seq<char>) -> bool {
    exists|i: int| 0 <= i < v.len() && (#[trigger] v[i]).0@ == l
}

/// The entries among the first `k` of `ret` whose label `own` lacks, in order.
pub open spec fn ret_only(own: Seq<(String, TypeSummary)>, ret: Seq<(String, TypeSummary)>, k: int) -> Seq<(String, TypeSummary)>
    decreases k,
{
    if k <= 0 {
        Seq::empty()
    } else {
        ret_only(own, ret, k - 1) + if has_entry(own, ret[k - 1].0@) {
            Seq::empty()
        } else {
            seq![ret[k - 1]]
        }
    }
}

/// `r` is the row of label `name` with the self figures `own` and the
/// retained figures `ret` (zero where absent).
pub open spec fn row_of(name: Seq<char>, own: Option<TypeSummary>, ret: Option<TypeSummary>, r: MergedRow) -> bool {
    &&& r.name@ == name
    &&& r.self_size == (match own {
        Some(t) => t.size,
        None => 0,
    })
    &&& r.self_count == (match own {
        Some(t) => t.count,
        None => 0,
    })
    &&& r.retained_size == (match ret {
        Some(t) => t.size,
        None => 0,
    })
    &&& r.retained_count == (match ret {
        Some(t) => t.count,
        None => 0,
    })
}

/// `out` joins `own` and `ret` by label: each entry of `own`, in order, with
/// the retained figures of the first entry of `ret` with its label, then
/// each entry of `ret` whose label `own` lacks, with no self figures.
pub open spec fn merged(own: Seq<(String, TypeSummary)>, ret: Seq<(String, TypeSummary)>, out: Seq<MergedRow>) -> bool {
    let extra = ret_only(own, ret, ret.len() as int);
    &&& out.len() == own.len() + extra.len()
    &&& forall|k: int| 0 <= k < own.len() ==> row_of(own[k].0@, Some(own[k].1), find_entry(ret, own[k].0@, ret.len() as int), #[trigger] out[k])
    &&& forall|k: int| 0 <= k < extra.len() ==> row_of(extra[k].0@, None, Some(extra[k].1), #[trigger] out[own.len() + k])
}

/// How many of `n` rows a cut to `top` keeps.
pub open spec fn row_cap(n: nat, top: usize) -> int {
    if n < top {
        n as int
    } else {
        top as int
    }
}

/// `n` hits.
pub open spec fn all_hits(n: nat) -> Seq<bool> {
    Seq::new(n, |i: int| true)
}

/// `a` and `b` carry the same label and figures.
pub open spec fn same_row(a: MergedRow, b: MergedRow) -> bool {
    &&& a.name@ == b.name@
    &&& a.self_size == b.self_size
    &&& a.self_count == b.self_count
    &&& a.retained_size == b.retained_size
    &&& a.retained_count == b.retained_count
}

pub proof fn lemma_all_hits(n: int)
    requires
        0 <= n,
    ensures
        crate::sorting::hit_count(all_hits(n as nat), n) == n,
    decreases n,
{
    if n > 0 {
        lemma_all_hits(n - 1);
        lemma_hits_agree(all_hits((n - 1) as nat), all_hits(n as nat), n - 1);
    }
}

proof fn lemma_hits_agree(a: Seq<bool>, b: Seq<bool>, k: int)
    requires
        0 <= k <= a.len(),
        k <= b.len(),
        forall|i: int| 0 <= i < k ==> a[i] == b[i],
    ensures
        crate::sorting::hit_count(a, k) == crate::sorting::hit_count(b, k),
    decreases k,
{
    if k > 0 {
        lemma_hits_agree(a, b, k - 1);
    }
}

/// The retained sizes of the rows.
pub open spec fn retained_keys(rows: Seq<MergedRow>) -> Seq<u64> {
    rows.map_values(|r: MergedRow| r.retained_size)
}

/// The first entry labelled `l` in `v`.
fn find_in(v: &Vec<(String, TypeSummary)>, l: &str) -> (r: Option<TypeSummary>)
    ensures
        r == find_entry(v@, l@, v@.len() as int),
{
    let mut i: usize = 0;
    while i < v.len()
        invariant
            i <= v@.len(),
            find_entry(v@, l@, i as int) is None,
        decreases v@.len() - i,
    {
        if str_eq(v[i].0.as_str(), l) {
            proof {
                lemma_find_entry_stays(v@, l@, i + 1, v@.len() as int);
            }
            return Some(v[i].1);
        }
        i += 1;
    }
    None
}

proof fn lemma_find_entry_stays(v: Seq<(String, TypeSummary)>, l: Seq<char>, a: int, b: int)
    requires
        0 <= a <= b,
        find_entry(v, l, a) is Some,
    ensures
        find_entry(v, l, b) == find_entry(v, l, a),
    decreases b - a,
{
    if a < b {
        lemma_find_entry_stays(v, l, a, b - 1);
    }
}

/// `own` and `ret` joined by label (see `merged`).
pub fn merge_rows(own: &Vec<(String, TypeSummary)>, ret: &Vec<(String, TypeSummary)>) -> (rows: Vec<MergedRow>)
    ensures
        merged(own@, ret@, rows@),
{
    let mut rows: Vec<MergedRow> = Vec::new();
    let mut k: usize = 0;
    while k < own.len()
        invariant
            k <= own@.len(),
            rows@.len() == k,
            forall|j: int| 0 <= j < k ==> row_of(own@[j].0@, Some(own@[j].1), find_entry(ret@, own@[j].0@, ret@.len() as int), #[trigger] rows@[j]),
        decreases own@.len() - k,
    {
        let r = find_in(ret, own[k].0.as_str());
        let (rs, rc) = match r {
            Some(t) => (t.size, t.count),
            None => (0, 0),
        };
        rows.push(MergedRow { name: own[k].0.clone(), self_size: own[k].1.size, self_count: own[k].1.count, retained_size: rs, retained_count: rc });
        proof {
            assert(rows@[k as int].name@ == own@[k as int].0@);
        }
        k += 1;
    }
    let mut j: usize = 0;
    while j < ret.len()
        invariant
            j <= ret@.len(),
            rows@.len() == own@.len() + ret_only(own@, ret@, j as int).len(),
            forall|x: int| 0 <= x < own@.len() ==> row_of(own@[x].0@, Some(own@[x].1), find_entry(ret@, own@[x].0@, ret@.len() as int), #[trigger] rows@[x]),
            forall|x: int| 0 <= x < ret_only(own@, ret@, j as int).len() ==> row_of(ret_only(own@, ret@, j as int)[x].0@, None, Some(ret_only(own@, ret@, j as int)[x].1), #[trigger] rows@[own@.len() + x]),
        decreases ret@.len() - j,
    {
        let l = ret[j].0.as_str();
        let mut i: usize = 0;
        while i < own.len() && !str_eq(own[i].0.as_str(), l)
            invariant
                i <= own@.len(),
                l@ == ret@[j as int].0@,
                forall|y: int| 0 <= y < i ==> (#[trigger] own@[y]).0@ != l@,
            decreases own@.len() - i,
        {
            i += 1;
        }
        let ghost before = ret_only(own@, ret@, j as int);
        if i == own.len() {
            proof {
                assert(!has_entry(own@, ret@[j as int].0@));
            }
            rows.push(MergedRow { name: ret[j].0.clone(), self_size: 0, self_count: 0, retained_size: ret[j].1.size, retained_count: ret[j].1.count });
            proof {
                assert(ret_only(own@, ret@, j + 1) == before.push(ret@[j as int]));
                assert forall|x: int| 0 <= x < ret_only(own@, ret@, j + 1).len() implies row_of(ret_only(own@, ret@, j + 1)[x].0@, None, Some(ret_only(own@, ret@, j + 1)[x].1), #[trigger] rows@[own@.len() + x]) by {
                    if x < before.len() {
                        assert(ret_only(own@, ret@, j + 1)[x] == before[x]);
                    } else {
                        assert(rows@[own@.len() + x].name@ == ret@[j as int].0@);
                    }
                }
            }
        } else {
            proof {
                assert(has_entry(own@, ret@[j as int].0@)) by {
                    assert(own@[i as int].0@ == ret@[j as int].0@);
                }
                assert(ret_only(own@, ret@, j + 1) =~= before);
            }
        }
        j += 1;
    }
    rows
}

/// The self-and-retained table (`analyze --retained`): `own` and `ret`
/// joined by label, ranked by descending retained size (ties in joined
/// order), the first `top` rows.
pub fn merge_by_retained(own: &Vec<(String, TypeSummary)>, ret: &Vec<(String, TypeSummary)>, top: usize) -> (out: Vec<MergedRow>)
    ensures
        exists|rows: Seq<MergedRow>, idx: Seq<usize>| {
            &&& #[trigger] merged(own@, ret@, rows)
            &&& #[trigger] crate::sorting::ranked_desc(
                retained_keys(rows),
                all_hits(rows.len()),
                idx,
                row_cap(rows.len(), top),
            )
            &&& out@.len() == idx.len()
            &&& forall|k: int| 0 <= k < idx.len() ==> same_row(#[trigger] out@[k], rows[idx[k] as int])
        },
{
    let rows = merge_rows(own, ret);
    let n = rows.len();
    let mut keys: Vec<u64> = Vec::new();
    let mut hits: Vec<bool> = Vec::new();
    let mut x: usize = 0;
    while x < n
        invariant
            x <= n,
            n == rows@.len(),
            keys@ == retained_keys(rows@).subrange(0, x as int),
            hits@ == all_hits(x as nat),
        decreases n - x,
    {
        keys.push(rows[x].retained_size);
        hits.push(true);
        x += 1;
        proof {
            assert(keys@ =~= retained_keys(rows@).subrange(0, x as int));
            assert(hits@ =~= all_hits(x as nat));
        }
    }
    proof {
        assert(keys@ =~= retained_keys(rows@));
        lemma_all_hits(n as int);
        assert(merged(own@, ret@, rows@));
    }
    let idx = crate::sorting::top_indices(&keys, &hits, top);
    proof {
        assert(crate::sorting::ranked_desc(retained_keys(rows@), all_hits(rows@.len()), idx@, row_cap(rows@.len(), top)));
        assert forall|y: int| 0 <= y < idx@.len() implies (#[trigger] idx@[y]) < n by {
            assert(idx@[y] < all_hits(rows@.len()).len());
        }
    }
    let mut out: Vec<MergedRow> = Vec::new();
    let mut k: usize = 0;
    while k < idx.len()
        invariant
            k <= idx@.len(),
            merged(own@, ret@, rows@),
            crate::sorting::ranked_desc(retained_keys(rows@), all_hits(rows@.len()), idx@, row_cap(rows@.len(), top)),
            n == rows@.len(),
            forall|y: int| 0 <= y < idx@.len() ==> (#[trigger] idx@[y]) < n,
            out@.len() == k,
            forall|y: int| 0 <= y < k ==> same_row(#[trigger] out@[y], rows@[idx@[y] as int]),
        decreases idx@.len() - k,
    {
        let r = &rows[idx[k]];
        out.push(MergedRow {
            name: r.name.clone(),
            self_size: r.self_size,
            self_count: r.self_count,
            retained_size: r.retained_size,
            retained_count: r.retained_count,
        });
        k += 1;
    }
    proof {
        assert(merged(own@, ret@, rows@) && crate::sorting::ranked_desc(retained_keys(rows@), all_hits(rows@.len()), idx@, row_cap(rows@.len(), top)));
    }
    out
}

} // verus!
