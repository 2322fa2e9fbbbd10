//! Differences between two summaries: per label, the baseline and current
//! bytes and their signed change, largest changes first.

use vstd::prelude::*;
use crate::grouping::TypeSummary;
use crate::sorting::{ranked_desc, top_indices};
use crate::summary::{all_hits, distinct_labels, find_entry, has_entry, lemma_all_hits, merge_rows, merged, ret_only, MergedRow};

verus! {

/// One label of a diff: its bytes in the baseline and in the current
/// profile, and the change.
#[derive(Debug, Clone)]
pub struct DiffEntry {
    pub name: String,
    pub baseline_size: u64,
    pub profile_size: u64,
    pub delta: i64,
}

/// Every size of `v` fits in an `i64`.
pub open spec fn fits_i64(v: Seq<(String, TypeSummary)>) -> bool {
    forall|i: int| 0 <= i < v.len() ==> (#[trigger] v[i]).1.size <= i64::MAX
}

/// The size of the change of a joined row (current = self figures,
/// baseline = retained figures).
pub open spec fn change_of(r: MergedRow) -> u64 {
    if r.self_size >= r.retained_size {
        (r.self_size - r.retained_size) as u64
    } else {
        (r.retained_size - r.self_size) as u64
    }
}

/// The sizes of the changes of the rows.
pub open spec fn changes(rows: Seq<MergedRow>) -> Seq<u64> {
    rows.map_values(|r: MergedRow| change_of(r))
}

/// `e` is the diff entry of the joined row `r`.
pub open spec fn diff_of(r: MergedRow, e: DiffEntry) -> bool {
    &&& e.name@ == r.name@
    &&& e.profile_size == r.self_size
    &&& e.baseline_size == r.retained_size
    &&& e.delta == r.self_size - r.retained_size
}

/// `out` lists every label of `profile` or `baseline` (the current labels
/// first, in order, then the others of the baseline), each with both
/// sizes (zero where absent) and their change, ordered by the size of the
/// change, largest first, ties in that order.
pub open spec fn is_diff(baseline: Seq<(String, TypeSummary)>, profile: Seq<(String, TypeSummary)>, out: Seq<DiffEntry>) -> bool {
    exists|rows: Seq<MergedRow>, idx: Seq<usize>| {
        &&& #[trigger] merged(profile, baseline, rows)
        &&& #[trigger] ranked_desc(changes(rows), all_hits(rows.len()), idx, rows.len() as int)
        &&& out.len() == idx.len()
        &&& forall|k: int| 0 <= k < idx.len() ==> diff_of(rows[idx[k] as int], #[trigger] out[k])
    }
}

proof fn lemma_find_entry_member(v: Seq<(String, TypeSummary)>, l: Seq<char>, k: int)
    requires
        0 <= k <= v.len(),
        find_entry(v, l, k) is Some,
    ensures
        exists|i: int| 0 <= i < k && (#[trigger] v[i]).1 == find_entry(v, l, k).unwrap(),
    decreases k,
{
    if find_entry(v, l, k - 1) is Some {
        lemma_find_entry_member(v, l, k - 1);
    } else {
        assert(v[k - 1].1 == find_entry(v, l, k).unwrap());
    }
}

/// The per-label diff of two summaries' entries (`diff_snapshot_maps`).
pub fn diff_entries(baseline: &Vec<(String, TypeSummary)>, profile: &Vec<(String, TypeSummary)>) -> (out: Vec<DiffEntry>)
    requires
        fits_i64(baseline@),
        fits_i64(profile@),
    ensures
        is_diff(baseline@, profile@, out@),
{
    let rows = merge_rows(profile, baseline);
    let ghost extra = crate::summary::ret_only(profile@, baseline@, baseline@.len() as int);
    proof {
        assert forall|k: int| 0 <= k < rows@.len() implies (#[trigger] rows@[k]).self_size <= i64::MAX && rows@[k].retained_size <= i64::MAX by {
            if k < profile@.len() {
                let f = find_entry(baseline@, profile@[k].0@, baseline@.len() as int);
                if f is Some {
                    lemma_find_entry_member(baseline@, profile@[k].0@, baseline@.len() as int);
                    let i = choose|i: int| 0 <= i < baseline@.len() && (#[trigger] baseline@[i]).1 == f.unwrap();
                    assert(baseline@[i].1.size <= i64::MAX);
                }
                assert(profile@[k].1.size <= i64::MAX);
            } else {
                let x = k - profile@.len();
                assert(rows@[profile@.len() + x] == rows@[k]);
                lemma_ret_only_member(profile@, baseline@, baseline@.len() as int, x);
            }
        }
    }
    let n = rows.len();
    let mut keys: Vec<u64> = Vec::new();
    let mut hits: Vec<bool> = Vec::new();
    let mut x: usize = 0;
    while x < n
        invariant
            x <= n,
            n == rows@.len(),
            keys@ == changes(rows@).subrange(0, x as int),
            hits@ == all_hits(x as nat),
        decreases n - x,
    {
        let r = &rows[x];
        let c = if r.self_size >= r.retained_size { r.self_size - r.retained_size } else { r.retained_size - r.self_size };
        keys.push(c);
        hits.push(true);
        x += 1;
        proof {
            assert(keys@ =~= changes(rows@).subrange(0, x as int));
            assert(hits@ =~= all_hits(x as nat));
        }
    }
    proof {
        assert(keys@ =~= changes(rows@));
        lemma_all_hits(n as int);
    }
    let idx = top_indices(&keys, &hits, n);
    proof {
        assert(ranked_desc(changes(rows@), all_hits(rows@.len()), idx@, rows@.len() as int));
        assert forall|y: int| 0 <= y < idx@.len() implies (#[trigger] idx@[y]) < n by {
            assert(idx@[y] < all_hits(rows@.len()).len());
        }
    }
    let mut out: Vec<DiffEntry> = Vec::new();
    let mut k: usize = 0;
    while k < idx.len()
        invariant
            k <= idx@.len(),
            merged(profile@, baseline@, rows@),
            ranked_desc(changes(rows@), all_hits(rows@.len()), idx@, rows@.len() as int),
            n == rows@.len(),
            forall|y: int| 0 <= y < idx@.len() ==> (#[trigger] idx@[y]) < n,
            forall|y: int| 0 <= y < n ==> (#[trigger] rows@[y]).self_size <= i64::MAX && rows@[y].retained_size <= i64::MAX,
            out@.len() == k,
            forall|y: int| 0 <= y < k ==> diff_of(rows@[idx@[y] as int], #[trigger] out@[y]),
        decreases idx@.len() - k,
    {
        let r = &rows[idx[k]];
        proof {
            assert(r.self_size <= i64::MAX && r.retained_size <= i64::MAX);
        }
        let p = r.self_size as i64;
        let b = r.retained_size as i64;
        out.push(DiffEntry { name: r.name.clone(), baseline_size: r.retained_size, profile_size: r.self_size, delta: p - b });
        k += 1;
    }
    out
}

proof fn lemma_ret_only_member(own: Seq<(String, TypeSummary)>, ret: Seq<(String, TypeSummary)>, k: int, x: int)
    requires
        0 <= k <= ret.len(),
        0 <= x < crate::summary::ret_only(own, ret, k).len(),
    ensures
        exists|i: int| 0 <= i < k && (#[trigger] ret[i]) == crate::summary::ret_only(own, ret, k)[x],
    decreases k,
{
    let prev = crate::summary::ret_only(own, ret, k - 1);
    if x < prev.len() {
        lemma_ret_only_member(own, ret, k - 1, x);
        let i = choose|i: int| 0 <= i < k - 1 && (#[trigger] ret[i]) == prev[x];
        assert(crate::summary::ret_only(own, ret, k)[x] == prev[x]);
    } else {
        assert(crate::summary::ret_only(own, ret, k)[x] == ret[k - 1]);
    }
}

/// The size of the entry labelled `l` in `v`, zero when there is none.
pub open spec fn size_in(v: Seq<(String, TypeSummary)>, l: Seq<char>) -> int {
    match find_entry(v, l, v.len() as int) {
        Some(t) => t.size as int,
        None => 0,
    }
}

proof fn lemma_find_none(v: Seq<(String, TypeSummary)>, l: Seq<char>, k: int)
    requires
        k <= v.len(),
        forall|i: int| 0 <= i < k ==> (#[trigger] v[i]).0@ != l,
    ensures
        find_entry(v, l, k) is None,
    decreases k,
{
    if k > 0 {
        lemma_find_none(v, l, k - 1);
    }
}

proof fn lemma_find_at(v: Seq<(String, TypeSummary)>, j: int, k: int)
    requires
        distinct_labels(v),
        0 <= j < k <= v.len(),
    ensures
        find_entry(v, v[j].0@, k) == Some(v[j].1),
    decreases k,
{
    if k == j + 1 {
        assert forall|i: int| 0 <= i < j implies (#[trigger] v[i]).0@ != v[j].0@ by {}
        lemma_find_none(v, v[j].0@, j);
    } else {
        lemma_find_at(v, j, k - 1);
    }
}

proof fn lemma_ret_only_absent(own: Seq<(String, TypeSummary)>, ret: Seq<(String, TypeSummary)>, k: int, x: int)
    requires
        0 <= k <= ret.len(),
        0 <= x < ret_only(own, ret, k).len(),
    ensures
        !has_entry(own, ret_only(own, ret, k)[x].0@),
    decreases k,
{
    let prev = ret_only(own, ret, k - 1);
    if x < prev.len() {
        lemma_ret_only_absent(own, ret, k - 1, x);
        assert(ret_only(own, ret, k)[x] == prev[x]);
    } else {
        assert(ret_only(own, ret, k)[x] == ret[k - 1]);
    }
}

/// Each joined row of two summaries with distinct labels carries the size
/// of its label in each.
proof fn lemma_row_sizes(own: Seq<(String, TypeSummary)>, ret: Seq<(String, TypeSummary)>, rows: Seq<MergedRow>, k: int)
    requires
        distinct_labels(own),
        distinct_labels(ret),
        merged(own, ret, rows),
        0 <= k < rows.len(),
    ensures
        rows[k].self_size == size_in(own, rows[k].name@),
        rows[k].retained_size == size_in(ret, rows[k].name@),
{
    if k < own.len() {
        lemma_find_at(own, k, own.len() as int);
    } else {
        let extra = ret_only(own, ret, ret.len() as int);
        let x = k - own.len();
        assert(rows[own.len() + x] == rows[k]);
        lemma_ret_only_member(own, ret, ret.len() as int, x);
        lemma_ret_only_absent(own, ret, ret.len() as int, x);
        let i = choose|i: int| 0 <= i < ret.len() && (#[trigger] ret[i]) == extra[x];
        lemma_find_at(ret, i, ret.len() as int);
        assert forall|m: int| 0 <= m < own.len() implies (#[trigger] own[m]).0@ != extra[x].0@ by {}
        lemma_find_none(own, extra[x].0@, own.len() as int);
    }
}

/// Each entry of a diff carries the sizes of its label in the two
/// summaries, and their difference.
pub proof fn lemma_diff_sizes(baseline: Seq<(String, TypeSummary)>, profile: Seq<(String, TypeSummary)>, out: Seq<DiffEntry>, i: int)
    requires
        distinct_labels(baseline),
        distinct_labels(profile),
        is_diff(baseline, profile, out),
        0 <= i < out.len(),
    ensures
        out[i].profile_size == size_in(profile, out[i].name@),
        out[i].baseline_size == size_in(baseline, out[i].name@),
        out[i].delta == size_in(profile, out[i].name@) - size_in(baseline, out[i].name@),
{
    let (rows, idx) = choose|rows: Seq<MergedRow>, idx: Seq<usize>| {
        &&& #[trigger] merged(profile, baseline, rows)
        &&& #[trigger] ranked_desc(changes(rows), all_hits(rows.len()), idx, rows.len() as int)
        &&& out.len() == idx.len()
        &&& forall|k: int| 0 <= k < idx.len() ==> diff_of(rows[idx[k] as int], #[trigger] out[k])
    };
    assert(diff_of(rows[idx[i] as int], out[i]));
    assert(idx[i] < all_hits(rows.len()).len());
    lemma_row_sizes(profile, baseline, rows, idx[i] as int);
}

/// Swapping the two summaries of a diff swaps the sizes of every label and
/// negates its change: where both diffs list a label, the entry of one is
/// the entry of the other turned around.
pub proof fn lemma_diff_antisymmetric(
    a: Seq<(String, TypeSummary)>,
    b: Seq<(String, TypeSummary)>,
    ab: Seq<DiffEntry>,
    ba: Seq<DiffEntry>,
    i: int,
    j: int,
)
    requires
        distinct_labels(a),
        distinct_labels(b),
        is_diff(b, a, ab),
        is_diff(a, b, ba),
        0 <= i < ab.len(),
        0 <= j < ba.len(),
        ab[i].name@ == ba[j].name@,
    ensures
        ab[i].delta == -ba[j].delta,
        ab[i].baseline_size == ba[j].profile_size,
        ab[i].profile_size == ba[j].baseline_size,
{
    lemma_diff_sizes(b, a, ab, i);
    lemma_diff_sizes(a, b, ba, j);
}

/// What changed from a baseline snapshot to the current one.
#[derive(Debug, Clone)]
pub struct SnapshotDiff {
    pub baseline_total: u64,
    pub profile_total: u64,
    pub delta_total: i64,
    pub by_node_name: Vec<DiffEntry>,
    pub by_node_type: Vec<DiffEntry>,
}

/// Every size of `v` fits in an `i64`.
pub fn entries_fit(v: &Vec<(String, TypeSummary)>) -> (b: bool)
    ensures
        b == fits_i64(v@),
{
    let mut i: usize = 0;
    while i < v.len()
        invariant
            i <= v@.len(),
            forall|j: int| 0 <= j < i ==> (#[trigger] v@[j]).1.size <= i64::MAX,
        decreases v@.len() - i,
    {
        if v[i].1.size > 0x7fff_ffff_ffff_ffff {
            return false;
        }
        i += 1;
    }
    true
}

/// What changed from a baseline profile to the current one.
#[derive(Debug, Clone)]
pub struct ProfileDiff {
    pub baseline_total: u64,
    pub profile_total: u64,
    pub delta_total: i64,
    pub by_frame: Vec<DiffEntry>,
    pub by_url: Vec<DiffEntry>,
    pub by_function: Vec<DiffEntry>,
}

} // verus!
