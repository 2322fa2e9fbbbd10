//! Aggregation of weighted records under display labels: records carry a
//! key (a string-table or type-table index), the key resolves to a label,
//! and records whose labels are equal share one bucket of summed weight and
//! count.

use vstd::prelude::*;
use crate::labels::{resolve_or, resolved};
use crate::sorting::{
    chars_le, distinct_tags, label_le, pair_le, lemma_chars_le_antisym, lemma_chars_le_refl,
    lemma_permutation_keeps, sort_labels, sort_pairs, sorted_pairs,
};
use crate::text::str_eq;

verus! {

/// Summed size and number of the records under one label.
#[derive(Debug, Clone, Copy)]
pub struct TypeSummary {
    pub size: u64,
    pub count: usize,
}

/// Label of `key`: its entry in `table`, or `pre`, the key in decimal and
/// `suf` when the key is out of range.
pub open spec fn label_of(table: Seq<String>, pre: Seq<char>, suf: Seq<char>, key: u32) -> Seq<char> {
    resolved(table, key as int, pre, suf)
}

/// Summed weight of the counted records among the first `k` whose label is `s`.
pub open spec fn group_weight(
    keys: Seq<u32>,
    weights: Seq<u64>,
    counted: Seq<bool>,
    table: Seq<String>,
    pre: Seq<char>,
    suf: Seq<char>,
    s: Seq<char>,
    k: int,
) -> int
    decreases k,
{
    if k <= 0 {
        0
    } else {
        group_weight(keys, weights, counted, table, pre, suf, s, k - 1) + if counted[k - 1]
            && label_of(table, pre, suf, keys[k - 1]) == s {
            weights[k - 1] as int
        } else {
            0
        }
    }
}

/// Number of the counted records among the first `k` whose label is `s`.
pub open spec fn group_count(
    keys: Seq<u32>,
    counted: Seq<bool>,
    table: Seq<String>,
    pre: Seq<char>,
    suf: Seq<char>,
    s: Seq<char>,
    k: int,
) -> int
    decreases k,
{
    if k <= 0 {
        0
    } else {
        group_count(keys, counted, table, pre, suf, s, k - 1) + if counted[k - 1] && label_of(
            table,
            pre,
            suf,
            keys[k - 1],
        ) == s {
            1int
        } else {
            0
        }
    }
}

/// Summed weight of the counted records among the first `k`.
pub open spec fn total_weight(weights: Seq<u64>, counted: Seq<bool>, k: int) -> int
    decreases k,
{
    if k <= 0 {
        0
    } else {
        total_weight(weights, counted, k - 1) + if counted[k - 1] {
            weights[k - 1] as int
        } else {
            0
        }
    }
}

/// `out` has one entry per label carried by an counted record, in strictly
/// ascending label order, with the summed weight and the number of the
/// counted records under that label.
pub open spec fn grouped(
    keys: Seq<u32>,
    weights: Seq<u64>,
    counted: Seq<bool>,
    table: Seq<String>,
    pre: Seq<char>,
    suf: Seq<char>,
    out: Seq<(String, TypeSummary)>,
) -> bool {
    let n = keys.len() as int;
    &&& forall|i: int, j: int|
        0 <= i < j < out.len() ==> chars_le((#[trigger] out[i]).0@, (#[trigger] out[j]).0@) && out[i].0@
            != out[j].0@
    &&& forall|i: int|
        0 <= i < out.len() ==> {
            &&& (#[trigger] out[i]).1.size == group_weight(keys, weights, counted, table, pre, suf, out[i].0@, n)
            &&& out[i].1.count == group_count(keys, counted, table, pre, suf, out[i].0@, n)
            &&& out[i].1.count > 0
        }
    &&& forall|r: int|
        0 <= r < n && #[trigger] counted[r] ==> exists|i: int|
            0 <= i < out.len() && (#[trigger] out[i]).0@ == label_of(table, pre, suf, keys[r])
}

pub proof fn lemma_group_weight_bound(
    keys: Seq<u32>,
    weights: Seq<u64>,
    counted: Seq<bool>,
    table: Seq<String>,
    pre: Seq<char>,
    suf: Seq<char>,
    s: Seq<char>,
    k: int,
)
    ensures
        0 <= group_weight(keys, weights, counted, table, pre, suf, s, k) <= total_weight(weights, counted, k),
        0 <= group_count(keys, counted, table, pre, suf, s, k) <= if k < 0 { 0 } else { k },
    decreases k,
{
    if k > 0 {
        lemma_group_weight_bound(keys, weights, counted, table, pre, suf, s, k - 1);
    }
}

pub proof fn lemma_total_weight_mono(weights: Seq<u64>, counted: Seq<bool>, a: int, b: int)
    requires
        a <= b,
    ensures
        total_weight(weights, counted, a) <= total_weight(weights, counted, b),
    decreases b - a,
{
    if a < b {
        lemma_total_weight_mono(weights, counted, a, b - 1);
    }
}

proof fn lemma_group_count_positive(
    keys: Seq<u32>,
    counted: Seq<bool>,
    table: Seq<String>,
    pre: Seq<char>,
    suf: Seq<char>,
    r: int,
    k: int,
)
    requires
        0 <= r < k,
        counted[r],
    ensures
        group_count(keys, counted, table, pre, suf, label_of(table, pre, suf, keys[r]), k) > 0,
    decreases k,
{
    let s = label_of(table, pre, suf, keys[r]);
    lemma_group_weight_bound(keys, Seq::empty(), counted, table, pre, suf, s, k - 1);
    if r < k - 1 {
        lemma_group_count_positive(keys, counted, table, pre, suf, r, k - 1);
    }
}

/// The distinct keys of the counted records, strictly ascending.
fn distinct_keys(keys: &Vec<u32>, counted: &Vec<bool>) -> (d: Vec<u32>)
    requires
        keys@.len() == counted@.len(),
    ensures
        forall|a: int, b: int| 0 <= a < b < d@.len() ==> d@[a] < d@[b],
        forall|r: int| 0 <= r < keys@.len() && counted@[r] ==> d@.contains(#[trigger] keys@[r]),
{
    let n = keys.len();
    let mut cand: Vec<(u64, u64)> = Vec::new();
    let mut r: usize = 0;
    while r < n
        invariant
            r <= n,
            n == keys@.len(),
            n == counted@.len(),
            forall|i: int| 0 <= i < cand@.len() ==> (#[trigger] cand@[i]).1 < r,
            forall|i: int, j: int| 0 <= i < j < cand@.len() ==> (#[trigger] cand@[i]).1 < (#[trigger] cand@[j]).1,
            forall|i: int| 0 <= i < cand@.len() ==> (#[trigger] cand@[i]).0 == keys@[cand@[i].1 as int] as u64,
            forall|q: int| 0 <= q < r && counted@[q] ==> #[trigger] cand@.contains((keys@[q] as u64, q as u64)),
        decreases n - r,
    {
        if counted[r] {
            let ghost old_cand = cand@;
            cand.push((keys[r] as u64, r as u64));
            proof {
                assert forall|q: int| 0 <= q < r + 1 && counted@[q] implies #[trigger] cand@.contains(
                    (keys@[q] as u64, q as u64),
                ) by {
                    if q < r {
                        assert(old_cand.contains((keys@[q] as u64, q as u64)));
                        let w = choose|w: int| 0 <= w < old_cand.len() && old_cand[w] == (keys@[q] as u64, q as u64);
                        assert(cand@[w] == old_cand[w]);
                    } else {
                        assert(cand@[cand@.len() - 1] == (keys@[q] as u64, q as u64));
                    }
                }
            }
        }
        r += 1;
    }
    let ghost before = cand@;
    assert(distinct_tags(before)) by {
        assert forall|i: int, j: int| 0 <= i < j < before.len() implies (#[trigger] before[i]).1 != (#[trigger] before[j]).1 by {
            assert(before[i].1 < before[j].1);
        }
    }
    sort_pairs(&mut cand);
    proof {
        lemma_permutation_keeps(before, cand@);
    }
    let m = cand.len();
    let mut d: Vec<u32> = Vec::new();
    let mut p: usize = 0;
    while p < m
        invariant
            p <= m,
            m == cand@.len(),
            sorted_pairs(cand@),
            forall|i: int| 0 <= i < cand@.len() ==> #[trigger] before.contains(cand@[i]),
            forall|i: int| 0 <= i < before.len() ==> (#[trigger] before[i]).0 == keys@[before[i].1 as int] as u64,
            forall|i: int| 0 <= i < before.len() ==> (#[trigger] before[i]).1 < keys@.len(),
            forall|a: int, b: int| 0 <= a < b < d@.len() ==> d@[a] < d@[b],
            p > 0 ==> d@.len() > 0 && d@[d@.len() - 1] as u64 == cand@[p - 1].0,
            d@.len() <= p,
            forall|q: int| 0 <= q < p ==> #[trigger] d@.contains(cand@[q].0 as u32),
            forall|q: int| 0 <= q < p ==> (#[trigger] cand@[q]).0 <= u32::MAX,
        decreases m - p,
    {
        let x = cand[p].0;
        proof {
            assert(before.contains(cand@[p as int]));
            let w = choose|w: int| 0 <= w < before.len() && before[w] == cand@[p as int];
            assert(before[w].0 == keys@[before[w].1 as int] as u64);
            assert(x <= u32::MAX);
        }
        let ghost old_d = d@;
        if p == 0 || (d[d.len() - 1] as u64) != x {
            proof {
                if p > 0 {
                    assert(pair_le(cand@[p - 1], cand@[p as int]));
                    assert(old_d[old_d.len() - 1] as u64 <= x);
                    assert((old_d[old_d.len() - 1] as u64) < x);
                }
            }
            d.push(x as u32);
            proof {
                assert(d@[d@.len() - 1] as u64 == x);
                assert forall|a: int, b: int| 0 <= a < b < d@.len() implies d@[a] < d@[b] by {
                    if b == d@.len() - 1 {
                        assert(p > 0);
                        assert(d@[a] == old_d[a]);
                        if a < old_d.len() - 1 {
                            assert(old_d[a] < old_d[old_d.len() - 1]);
                        }
                    } else {
                        assert(d@[a] == old_d[a]);
                        assert(d@[b] == old_d[b]);
                    }
                }
                assert forall|q: int| 0 <= q < p + 1 implies #[trigger] d@.contains(cand@[q].0 as u32) by {
                    if q < p {
                        assert(old_d.contains(cand@[q].0 as u32));
                        let w = choose|w: int| 0 <= w < old_d.len() && old_d[w] == cand@[q].0 as u32;
                        assert(d@[w] == old_d[w]);
                    } else {
                        assert(d@[d@.len() - 1] == cand@[q].0 as u32);
                    }
                }
            }
        } else {
            proof {
                assert(d@[d@.len() - 1] == cand@[p as int].0 as u32);
            }
        }
        p += 1;
    }
    proof {
        assert forall|r: int| 0 <= r < keys@.len() && counted@[r] implies d@.contains(#[trigger] keys@[r]) by {
            assert(before.contains((keys@[r] as u64, r as u64)));
            assert(cand@.contains((keys@[r] as u64, r as u64)));
            let q = choose|q: int| 0 <= q < cand@.len() && cand@[q] == (keys@[r] as u64, r as u64);
            assert(d@.contains(cand@[q].0 as u32));
        }
    }
    d
}

/// Position of `x` in the strictly ascending `d`, which holds it.
pub fn find_sorted(d: &Vec<u32>, x: u32) -> (j: usize)
    requires
        forall|a: int, b: int| 0 <= a < b < d@.len() ==> d@[a] < d@[b],
        d@.contains(x),
    ensures
        j < d@.len(),
        d@[j as int] == x,
{
    let ghost w = choose|w: int| 0 <= w < d@.len() && d@[w] == x;
    let mut lo: usize = 0;
    let mut hi: usize = d.len();
    while lo + 1 < hi
        invariant
            0 <= lo < hi <= d@.len(),
            lo <= w < hi,
            d@[w] == x,
            forall|a: int, b: int| 0 <= a < b < d@.len() ==> d@[a] < d@[b],
        decreases hi - lo,
    {
        let mid = lo + (hi - lo) / 2;
        if d[mid] <= x {
            proof {
                if w < mid {
                    assert(d@[w] < d@[mid as int]);
                }
            }
            lo = mid;
        } else {
            proof {
                if w >= mid {
                    if w > mid {
                        assert(d@[mid as int] < d@[w]);
                    }
                }
            }
            hi = mid;
        }
    }
    lo
}

/// `groups` lists distinct labels in strictly ascending order.
pub open spec fn ascending_labels(groups: Seq<String>) -> bool {
    forall|x: int, y: int|
        0 <= x < y < groups.len() ==> chars_le((#[trigger] groups[x])@, (#[trigger] groups[y])@) && groups[x]@
            != groups[y]@
}

/// `(d, gid, groups)` ranks the labels of the counted keys: `d` holds the
/// distinct counted keys ascending, `groups` the distinct labels ascending,
/// and `gid[j]` is the position of the label of `d[j]` in `groups`.
pub open spec fn label_ranking(
    keys: Seq<u32>,
    counted: Seq<bool>,
    table: Seq<String>,
    pre: Seq<char>,
    suf: Seq<char>,
    d: Seq<u32>,
    gid: Seq<usize>,
    groups: Seq<String>,
) -> bool {
    &&& forall|a: int, b: int| 0 <= a < b < d.len() ==> d[a] < d[b]
    &&& forall|r: int| 0 <= r < keys.len() && counted[r] ==> d.contains(#[trigger] keys[r])
    &&& gid.len() == d.len()
    &&& forall|jj: int| 0 <= jj < d.len() ==> (#[trigger] gid[jj]) < groups.len() && groups[gid[jj] as int]@
        == label_of(table, pre, suf, d[jj])
    &&& ascending_labels(groups)
}

/// Ranks the labels of the counted keys (see `label_ranking`).
pub fn rank_labels(
    keys: &Vec<u32>,
    counted: &Vec<bool>,
    table: &Vec<String>,
    pre: &str,
    suf: &str,
) -> (res: (Vec<u32>, Vec<usize>, Vec<String>))
    requires
        keys@.len() == counted@.len(),
    ensures
        label_ranking(keys@, counted@, table@, pre@, suf@, res.0@, res.1@, res.2@),
{
    let d = distinct_keys(keys, counted);
    let dn = d.len();
    // labels of the distinct keys, tagged with their position in `d`
    let mut labels: Vec<(String, u64)> = Vec::new();
    let mut j: usize = 0;
    while j < dn
        invariant
            j <= dn,
            dn == d@.len(),
            labels@.len() == j,
            forall|i: int| 0 <= i < j ==> (#[trigger] labels@[i]).1 == i as u64,
            forall|i: int| 0 <= i < j ==> (#[trigger] labels@[i]).0@ == label_of(table@, pre@, suf@, d@[i]),
        decreases dn - j,
    {
        let s = resolve_or(table, d[j], pre, suf);
        labels.push((s, j as u64));
        j += 1;
    }
    let ghost before = labels@;
    assert(distinct_tags(before));
    sort_labels(&mut labels);
    proof {
        lemma_permutation_keeps(before, labels@);
    }
    let ln = labels.len();
    // merge equal labels into groups
    let mut groups: Vec<String> = Vec::new();
    let mut gid: Vec<usize> = Vec::new();
    let mut k: usize = 0;
    while k < dn
        invariant
            k <= dn,
            gid@.len() == k,
        decreases dn - k,
    {
        gid.push(0);
        k += 1;
    }
    let ghost mut rep: Seq<int> = Seq::empty();
    let mut p: usize = 0;
    while p < ln
        invariant
            p <= ln,
            ln == labels@.len(),
            ln == dn,
            gid@.len() == dn,
            forall|i: int, j2: int|
                0 <= i < j2 < labels@.len() ==> label_le(#[trigger] labels@[i], #[trigger] labels@[j2]),
            forall|i: int| 0 <= i < labels@.len() ==> #[trigger] before.contains(labels@[i]),
            forall|i: int| 0 <= i < before.len() ==> (#[trigger] before[i]).1 == i as u64,
            before.len() == dn,
            distinct_tags(labels@),
            rep.len() == groups@.len(),
            forall|a: int| 0 <= a < groups@.len() ==> 0 <= #[trigger] rep[a] < p && groups@[a]@ == labels@[rep[a]].0@,
            forall|a: int, b: int|
                0 <= a < b < groups@.len() ==> chars_le((#[trigger] groups@[a])@, (#[trigger] groups@[b])@)
                    && groups@[a]@ != groups@[b]@,
            p > 0 ==> groups@.len() > 0 && groups@[groups@.len() - 1]@ == labels@[p - 1].0@,
            forall|q: int|
                0 <= q < p ==> (#[trigger] gid@[labels@[q].1 as int]) < groups@.len() && groups@[gid@[labels@[q].1 as int] as int]@
                    == labels@[q].0@,
        decreases ln - p,
    {
        proof {
            assert(before.contains(labels@[p as int]));
            let w = choose|w: int| 0 <= w < before.len() && before[w] == labels@[p as int];
            assert(labels@[p as int].1 == w as u64);
        }
        let tag = labels[p].1 as usize;
        let ghost old_groups = groups@;
        let ghost old_gid = gid@;
        let new_group = if groups.len() == 0 {
            true
        } else {
            !str_eq(groups[groups.len() - 1].as_str(), labels[p].0.as_str())
        };
        if new_group {
            proof {
                let x = labels@[p as int].0@;
                assert forall|a: int| 0 <= a < old_groups.len() implies chars_le(old_groups[a]@, x)
                    && old_groups[a]@ != x by {
                    let q = rep[a];
                    assert(label_le(labels@[q], labels@[p as int]));
                    if old_groups[a]@ == x {
                        lemma_chars_le_refl(x);
                    }
                    if old_groups[a]@ == x && q < p - 1 {
                        assert(label_le(labels@[q], labels@[p - 1]));
                        assert(label_le(labels@[p - 1], labels@[p as int]));
                        let last = labels@[p - 1].0@;
                        if last != x {
                            assert(chars_le(x, last));
                            assert(chars_le(last, x));
                            lemma_chars_le_antisym(x, last);
                        }
                    }
                    if old_groups[a]@ != x {
                        assert(chars_le(old_groups[a]@, x));
                    }
                }
            }
            groups.push(labels[p].0.clone());
            proof {
                rep = rep.push(p as int);
            }
        }
        let gi = groups.len() - 1;
        gid.set(tag, gi);
        proof {
            assert forall|q: int| 0 <= q < p + 1 implies (#[trigger] gid@[labels@[q].1 as int]) < groups@.len()
                && groups@[gid@[labels@[q].1 as int] as int]@ == labels@[q].0@ by {
                if q < p {
                    assert(labels@[q].1 != labels@[p as int].1);
                    assert(before.contains(labels@[q]));
                    let w = choose|w: int| 0 <= w < before.len() && before[w] == labels@[q];
                    assert(labels@[q].1 == w as u64);
                    assert(gid@[labels@[q].1 as int] == old_gid[labels@[q].1 as int]);
                }
            }
            assert forall|a: int| 0 <= a < groups@.len() implies 0 <= #[trigger] rep[a] < p + 1
                && groups@[a]@ == labels@[rep[a]].0@ by {
            }
        }
        p += 1;
    }
    let gn = groups.len();
    proof {
        assert forall|jj: int| 0 <= jj < dn implies (#[trigger] gid@[jj]) < gn && groups@[gid@[jj] as int]@
            == label_of(table@, pre@, suf@, d@[jj]) by {
            assert(before[jj].1 == jj as u64);
            assert(before.contains(before[jj]));
            assert(labels@.contains(before[jj]));
            let q = choose|q: int| 0 <= q < labels@.len() && labels@[q] == before[jj];
            assert(gid@[labels@[q].1 as int] < gn);
        }
    }
    (d, gid, groups)
}

/// Groups the counted records (`counted[r]`) by the label of their key and
/// sums their weights (`compute_full_summary`'s and `retained_summary`'s
/// aggregation): one entry per label, labels strictly ascending.
pub fn group_by_label(
    keys: &Vec<u32>,
    weights: &Vec<u64>,
    counted: &Vec<bool>,
    table: &Vec<String>,
    pre: &str,
    suf: &str,
) -> (out: Vec<(String, TypeSummary)>)
    requires
        keys@.len() == weights@.len(),
        keys@.len() == counted@.len(),
        total_weight(weights@, counted@, keys@.len() as int) <= u64::MAX,
    ensures
        grouped(keys@, weights@, counted@, table@, pre@, suf@, out@),
{
    let n = keys.len();
    let (d, gid, groups) = rank_labels(keys, counted, table, pre, suf);
    let dn = d.len();
    let gn = groups.len();
    // accumulate weights and counts per group
    let mut sizes: Vec<u64> = Vec::new();
    let mut counts: Vec<usize> = Vec::new();
    let mut a: usize = 0;
    while a < gn
        invariant
            a <= gn,
            sizes@.len() == a,
            counts@.len() == a,
            forall|i: int| 0 <= i < a ==> #[trigger] sizes@[i] == 0,
            forall|i: int| 0 <= i < a ==> #[trigger] counts@[i] == 0,
        decreases gn - a,
    {
        sizes.push(0);
        counts.push(0);
        a += 1;
    }
    let mut r: usize = 0;
    while r < n
        invariant
            r <= n,
            n == keys@.len(),
            n == weights@.len(),
            n == counted@.len(),
            gn == groups@.len(),
            sizes@.len() == gn,
            counts@.len() == gn,
            gid@.len() == dn,
            dn == d@.len(),
            total_weight(weights@, counted@, n as int) <= u64::MAX,
            forall|x: int, y: int| 0 <= x < y < d@.len() ==> d@[x] < d@[y],
            forall|q: int| 0 <= q < keys@.len() && counted@[q] ==> d@.contains(#[trigger] keys@[q]),
            forall|jj: int| 0 <= jj < dn ==> (#[trigger] gid@[jj]) < gn && groups@[gid@[jj] as int]@ == label_of(
                table@,
                pre@,
                suf@,
                d@[jj],
            ),
            forall|x: int, y: int| 0 <= x < y < gn ==> (#[trigger] groups@[x])@ != (#[trigger] groups@[y])@,
            forall|i: int|
                0 <= i < gn ==> #[trigger] sizes@[i] == group_weight(keys@, weights@, counted@, table@, pre@, suf@, groups@[i]@, r as int)
                    && counts@[i] == group_count(keys@, counted@, table@, pre@, suf@, groups@[i]@, r as int),
        decreases n - r,
    {
        if counted[r] {
            let jj = find_sorted(&d, keys[r]);
            let gi = gid[jj];
            proof {
                let s = groups@[gi as int]@;
                lemma_group_weight_bound(keys@, weights@, counted@, table@, pre@, suf@, s, r + 1);
                lemma_total_weight_mono(weights@, counted@, r + 1, n as int);
            }
            let ghost old_sizes = sizes@;
            let ghost old_counts = counts@;
            let w = weights[r];
            sizes.set(gi, sizes[gi] + w);
            counts.set(gi, counts[gi] + 1);
            proof {
                assert forall|i: int| 0 <= i < gn implies #[trigger] sizes@[i] == group_weight(
                    keys@,
                    weights@,
                    counted@,
                    table@,
                    pre@,
                    suf@,
                    groups@[i]@,
                    r + 1,
                ) && counts@[i] == group_count(keys@, counted@, table@, pre@, suf@, groups@[i]@, r + 1) by {
                    assert(old_sizes[i] == group_weight(keys@, weights@, counted@, table@, pre@, suf@, groups@[i]@, r as int));
                    assert(keys@[r as int] == d@[jj as int]);
                    assert(groups@[gid@[jj as int] as int]@ == label_of(table@, pre@, suf@, d@[jj as int]));
                    if i != gi {
                        if i < gi {
                            assert(groups@[i]@ != groups@[gi as int]@);
                        } else {
                            assert(groups@[gi as int]@ != groups@[i]@);
                        }
                    }
                }
            }
        }
        r += 1;
    }
    // keep the groups that some record falls into
    let mut out: Vec<(String, TypeSummary)> = Vec::new();
    let ghost mut src: Seq<int> = Seq::empty();
    let mut b: usize = 0;
    while b < gn
        invariant
            b <= gn,
            gn == groups@.len(),
            sizes@.len() == gn,
            counts@.len() == gn,
            n == keys@.len(),
            forall|x: int, y: int|
                0 <= x < y < gn ==> chars_le((#[trigger] groups@[x])@, (#[trigger] groups@[y])@) && groups@[x]@ != groups@[y]@,
            forall|i: int|
                0 <= i < gn ==> #[trigger] sizes@[i] == group_weight(keys@, weights@, counted@, table@, pre@, suf@, groups@[i]@, n as int)
                    && counts@[i] == group_count(keys@, counted@, table@, pre@, suf@, groups@[i]@, n as int),
            src.len() == out@.len(),
            forall|i: int| 0 <= i < out@.len() ==> 0 <= #[trigger] src[i] < b && out@[i].0@ == groups@[src[i]]@
                && out@[i].1.size == sizes@[src[i]] && out@[i].1.count == counts@[src[i]] && counts@[src[i]] > 0,
            forall|x: int, y: int| 0 <= x < y < out@.len() ==> #[trigger] src[x] < #[trigger] src[y],
            forall|c: int| 0 <= c < b && #[trigger] counts@[c] > 0 ==> exists|i: int| 0 <= i < out@.len() && src[i] == c,
        decreases gn - b,
    {
        let ghost old_src = src;
        if counts[b] > 0 {
            out.push((groups[b].clone(), TypeSummary { size: sizes[b], count: counts[b] }));
            proof {
                src = src.push(b as int);
                assert(src[src.len() - 1] == b as int);
            }
        }
        proof {
            assert forall|c: int| 0 <= c < b + 1 && #[trigger] counts@[c] > 0 implies exists|i: int|
                0 <= i < out@.len() && src[i] == c by {
                if c < b {
                    let i = choose|i: int| 0 <= i < old_src.len() && old_src[i] == c;
                    assert(src[i] == c);
                } else {
                    assert(src[src.len() - 1] == c);
                }
            }
        }
        b += 1;
    }
    proof {
        assert forall|i: int| 0 <= i < out@.len() implies {
            &&& (#[trigger] out@[i]).1.size == group_weight(keys@, weights@, counted@, table@, pre@, suf@, out@[i].0@, n as int)
            &&& out@[i].1.count == group_count(keys@, counted@, table@, pre@, suf@, out@[i].0@, n as int)
            &&& out@[i].1.count > 0
        } by {
            let c = src[i];
            assert(sizes@[c] == group_weight(keys@, weights@, counted@, table@, pre@, suf@, groups@[c]@, n as int));
        }
        assert forall|i: int, j2: int| 0 <= i < j2 < out@.len() implies chars_le((#[trigger] out@[i]).0@, (#[trigger] out@[j2]).0@)
            && out@[i].0@ != out@[j2].0@ by {
            assert(src[i] < src[j2]);
            assert(chars_le(groups@[src[i]]@, groups@[src[j2]]@));
        }
        assert forall|q: int| 0 <= q < n && #[trigger] counted@[q] implies exists|i: int|
            0 <= i < out@.len() && (#[trigger] out@[i]).0@ == label_of(table@, pre@, suf@, keys@[q]) by {
            assert(d@.contains(keys@[q]));
            let jj = choose|jj: int| 0 <= jj < d@.len() && d@[jj] == keys@[q];
            let g = gid@[jj] as int;
            lemma_group_count_positive(keys@, counted@, table@, pre@, suf@, q, n as int);
            assert(sizes@[g] == group_weight(keys@, weights@, counted@, table@, pre@, suf@, groups@[g]@, n as int));
            assert(counts@[g] > 0);
            let i = choose|i: int| 0 <= i < out@.len() && src[i] == g;
            assert(out@[i].0@ == groups@[g]@);
        }
    }
    out
}

/// Summed sizes of the first `m` entries.
pub open spec fn sizes_of(out: Seq<(String, TypeSummary)>, m: int) -> int
    decreases m,
{
    if m <= 0 {
        0
    } else {
        sizes_of(out, m - 1) + out[m - 1].1.size
    }
}

/// Summed counts of the first `m` entries.
pub open spec fn counts_of(out: Seq<(String, TypeSummary)>, m: int) -> int
    decreases m,
{
    if m <= 0 {
        0
    } else {
        counts_of(out, m - 1) + out[m - 1].1.count
    }
}

/// Summed group weights, over the first `k` records, of the labels of the
/// first `m` entries.
spec fn weight_of_labels(
    keys: Seq<u32>,
    weights: Seq<u64>,
    counted: Seq<bool>,
    table: Seq<String>,
    pre: Seq<char>,
    suf: Seq<char>,
    out: Seq<(String, TypeSummary)>,
    m: int,
    k: int,
) -> int
    decreases m,
{
    if m <= 0 {
        0
    } else {
        weight_of_labels(keys, weights, counted, table, pre, suf, out, m - 1, k) + group_weight(
            keys,
            weights,
            counted,
            table,
            pre,
            suf,
            out[m - 1].0@,
            k,
        )
    }
}

/// Summed group counts, over the first `k` records, of the labels of the
/// first `m` entries.
spec fn count_of_labels(
    keys: Seq<u32>,
    counted: Seq<bool>,
    table: Seq<String>,
    pre: Seq<char>,
    suf: Seq<char>,
    out: Seq<(String, TypeSummary)>,
    m: int,
    k: int,
) -> int
    decreases m,
{
    if m <= 0 {
        0
    } else {
        count_of_labels(keys, counted, table, pre, suf, out, m - 1, k) + group_count(
            keys,
            counted,
            table,
            pre,
            suf,
            out[m - 1].0@,
            k,
        )
    }
}

/// Number of the first `m` entries labelled `l`.
spec fn label_hits(out: Seq<(String, TypeSummary)>, l: Seq<char>, m: int) -> int
    decreases m,
{
    if m <= 0 {
        0
    } else {
        label_hits(out, l, m - 1) + if out[m - 1].0@ == l { 1int } else { 0 }
    }
}

proof fn lemma_labels_step(
    keys: Seq<u32>,
    weights: Seq<u64>,
    counted: Seq<bool>,
    table: Seq<String>,
    pre: Seq<char>,
    suf: Seq<char>,
    out: Seq<(String, TypeSummary)>,
    m: int,
    k: int,
)
    requires
        0 <= m <= out.len(),
        0 <= k,
    ensures
        weight_of_labels(keys, weights, counted, table, pre, suf, out, m, k + 1) == weight_of_labels(
            keys,
            weights,
            counted,
            table,
            pre,
            suf,
            out,
            m,
            k,
        ) + if counted[k] {
            label_hits(out, label_of(table, pre, suf, keys[k]), m) * weights[k]
        } else {
            0
        },
        count_of_labels(keys, counted, table, pre, suf, out, m, k + 1) == count_of_labels(
            keys,
            counted,
            table,
            pre,
            suf,
            out,
            m,
            k,
        ) + if counted[k] {
            label_hits(out, label_of(table, pre, suf, keys[k]), m)
        } else {
            0
        },
    decreases m,
{
    if m > 0 {
        lemma_labels_step(keys, weights, counted, table, pre, suf, out, m - 1, k);
        let l = label_of(table, pre, suf, keys[k]);
        let h = label_hits(out, l, m - 1);
        let d: int = if out[m - 1].0@ == l { 1 } else { 0 };
        let w = weights[k] as int;
        assert(label_hits(out, l, m) == h + d);
        assert((h + d) * w == h * w + d * w) by (nonlinear_arith);
    }
}

proof fn lemma_label_hits_unique(out: Seq<(String, TypeSummary)>, l: Seq<char>, m: int, j: int)
    requires
        0 <= j < m <= out.len(),
        out[j].0@ == l,
        forall|a: int, b: int| 0 <= a < b < out.len() ==> (#[trigger] out[a]).0@ != (#[trigger] out[b]).0@,
    ensures
        label_hits(out, l, m) == 1,
    decreases m,
{
    if j < m - 1 {
        lemma_label_hits_unique(out, l, m - 1, j);
        assert(out[m - 1].0@ != out[j].0@);
    } else {
        lemma_label_hits_zero(out, l, m - 1, j);
    }
}

proof fn lemma_label_hits_zero(out: Seq<(String, TypeSummary)>, l: Seq<char>, m: int, j: int)
    requires
        0 <= m <= j < out.len(),
        out[j].0@ == l,
        forall|a: int, b: int| 0 <= a < b < out.len() ==> (#[trigger] out[a]).0@ != (#[trigger] out[b]).0@,
    ensures
        label_hits(out, l, m) == 0,
    decreases m,
{
    if m > 0 {
        lemma_label_hits_zero(out, l, m - 1, j);
        assert(out[m - 1].0@ != out[j].0@);
    }
}

#[verifier::spinoff_prover]
proof fn lemma_labels_total(
    keys: Seq<u32>,
    weights: Seq<u64>,
    counted: Seq<bool>,
    table: Seq<String>,
    pre: Seq<char>,
    suf: Seq<char>,
    out: Seq<(String, TypeSummary)>,
    k: int,
)
    requires
        grouped(keys, weights, counted, table, pre, suf, out),
        keys.len() == weights.len(),
        keys.len() == counted.len(),
        0 <= k <= keys.len(),
    ensures
        weight_of_labels(keys, weights, counted, table, pre, suf, out, out.len() as int, k) == total_weight(
            weights,
            counted,
            k,
        ),
        count_of_labels(keys, counted, table, pre, suf, out, out.len() as int, k) == counted_records(counted, k),
    decreases k,
{
    let m = out.len() as int;
    if k == 0 {
        lemma_labels_zero(keys, weights, counted, table, pre, suf, out, m);
    } else {
        lemma_labels_total(keys, weights, counted, table, pre, suf, out, k - 1);
        lemma_labels_step(keys, weights, counted, table, pre, suf, out, m, k - 1);
        if counted[k - 1] {
            let l = label_of(table, pre, suf, keys[k - 1]);
            let j = choose|j: int| 0 <= j < out.len() && (#[trigger] out[j]).0@ == l;
            assert(forall|a: int, b: int| 0 <= a < b < out.len() ==> (#[trigger] out[a]).0@ != (#[trigger] out[b]).0@);
            lemma_label_hits_unique(out, l, m, j);
            assert(label_hits(out, l, m) * weights[k - 1] == weights[k - 1]);
            assert(weight_of_labels(keys, weights, counted, table, pre, suf, out, m, k) == weight_of_labels(
                keys,
                weights,
                counted,
                table,
                pre,
                suf,
                out,
                m,
                k - 1,
            ) + weights[k - 1]);
            assert(total_weight(weights, counted, k) == total_weight(weights, counted, k - 1) + weights[k - 1]);
        } else {
            assert(total_weight(weights, counted, k) == total_weight(weights, counted, k - 1));
        }
    }
}

proof fn lemma_labels_zero(
    keys: Seq<u32>,
    weights: Seq<u64>,
    counted: Seq<bool>,
    table: Seq<String>,
    pre: Seq<char>,
    suf: Seq<char>,
    out: Seq<(String, TypeSummary)>,
    m: int,
)
    requires
        0 <= m <= out.len(),
    ensures
        weight_of_labels(keys, weights, counted, table, pre, suf, out, m, 0) == 0,
        count_of_labels(keys, counted, table, pre, suf, out, m, 0) == 0,
    decreases m,
{
    if m > 0 {
        lemma_labels_zero(keys, weights, counted, table, pre, suf, out, m - 1);
    }
}

proof fn lemma_entries_are_groups(
    keys: Seq<u32>,
    weights: Seq<u64>,
    counted: Seq<bool>,
    table: Seq<String>,
    pre: Seq<char>,
    suf: Seq<char>,
    out: Seq<(String, TypeSummary)>,
    m: int,
)
    requires
        grouped(keys, weights, counted, table, pre, suf, out),
        0 <= m <= out.len(),
    ensures
        sizes_of(out, m) == weight_of_labels(keys, weights, counted, table, pre, suf, out, m, keys.len() as int),
        counts_of(out, m) == count_of_labels(keys, counted, table, pre, suf, out, m, keys.len() as int),
    decreases m,
{
    if m > 0 {
        lemma_entries_are_groups(keys, weights, counted, table, pre, suf, out, m - 1);
        assert(out[m - 1].1.size == group_weight(keys, weights, counted, table, pre, suf, out[m - 1].0@, keys.len() as int));
    }
}

/// Number of counted records among the first `k`.
pub open spec fn counted_records(counted: Seq<bool>, k: int) -> int
    decreases k,
{
    if k <= 0 {
        0
    } else {
        counted_records(counted, k - 1) + if counted[k - 1] { 1int } else { 0 }
    }
}

/// A grouping partitions the counted records: its sizes add up to their
/// summed weight, and its counts to their number.
pub proof fn lemma_groups_add_up(
    keys: Seq<u32>,
    weights: Seq<u64>,
    counted: Seq<bool>,
    table: Seq<String>,
    pre: Seq<char>,
    suf: Seq<char>,
    out: Seq<(String, TypeSummary)>,
)
    requires
        grouped(keys, weights, counted, table, pre, suf, out),
        keys.len() == weights.len(),
        keys.len() == counted.len(),
    ensures
        sizes_of(out, out.len() as int) == total_weight(weights, counted, keys.len() as int),
        counts_of(out, out.len() as int) == counted_records(counted, keys.len() as int),
{
    lemma_entries_are_groups(keys, weights, counted, table, pre, suf, out, out.len() as int);
    lemma_labels_total(keys, weights, counted, table, pre, suf, out, keys.len() as int);
}

/// A label that no entry of a grouping carries has no counted record: its
/// weight and count are zero.
pub proof fn lemma_absent_label(
    keys: Seq<u32>,
    weights: Seq<u64>,
    counted: Seq<bool>,
    table: Seq<String>,
    pre: Seq<char>,
    suf: Seq<char>,
    out: Seq<(String, TypeSummary)>,
    l: Seq<char>,
    k: int,
)
    requires
        grouped(keys, weights, counted, table, pre, suf, out),
        0 <= k <= keys.len(),
        forall|i: int| 0 <= i < out.len() ==> (#[trigger] out[i]).0@ != l,
    ensures
        group_weight(keys, weights, counted, table, pre, suf, l, k) == 0,
        group_count(keys, counted, table, pre, suf, l, k) == 0,
    decreases k,
{
    if k > 0 {
        lemma_absent_label(keys, weights, counted, table, pre, suf, out, l, k - 1);
        if counted[k - 1] && label_of(table, pre, suf, keys[k - 1]) == l {
            let i = choose|i: int| 0 <= i < out.len() && (#[trigger] out[i]).0@ == label_of(table, pre, suf, keys[k - 1]);
            assert(out[i].0@ == l);
        }
    }
}

/// A label with a nonzero count is carried by some counted record.
pub proof fn lemma_group_nonempty(
    keys: Seq<u32>,
    counted: Seq<bool>,
    table: Seq<String>,
    pre: Seq<char>,
    suf: Seq<char>,
    l: Seq<char>,
    k: int,
)
    requires
        group_count(keys, counted, table, pre, suf, l, k) > 0,
    ensures
        exists|r: int| 0 <= r < k && #[trigger] counted[r] && label_of(table, pre, suf, keys[r]) == l,
    decreases k,
{
    if k > 0 {
        if counted[k - 1] && label_of(table, pre, suf, keys[k - 1]) == l {
        } else {
            lemma_group_nonempty(keys, counted, table, pre, suf, l, k - 1);
        }
    }
}

} // verus!
