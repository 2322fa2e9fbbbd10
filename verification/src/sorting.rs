//! Orderings used to rank and group results: lexicographic order on pairs
//! of integers and on character sequences, the std sorts that realise them,
//! and the selection of the first entries of a ranking.

use vstd::prelude::*;

verus! {

/// Lexicographic order on pairs.
pub open spec fn pair_le(a: (u64, u64), b: (u64, u64)) -> bool {
    a.0 < b.0 || (a.0 == b.0 && a.1 <= b.1)
}

/// Strict lexicographic order on pairs.
pub open spec fn pair_lt(a: (u64, u64), b: (u64, u64)) -> bool {
    a.0 < b.0 || (a.0 == b.0 && a.1 < b.1)
}

/// `s` is in ascending lexicographic order.
pub open spec fn sorted_pairs(s: Seq<(u64, u64)>) -> bool {
    forall|i: int, j: int| 0 <= i < j < s.len() ==> pair_le(#[trigger] s[i], #[trigger] s[j])
}

/// The second components of `s` are pairwise distinct.
pub open spec fn distinct_tags<A>(s: Seq<(A, u64)>) -> bool {
    forall|i: int, j: int| 0 <= i < j < s.len() ==> (#[trigger] s[i]).1 != (#[trigger] s[j]).1
}

/// `slice::sort_unstable` on `(u64, u64)` pairs: the same pairs, in
/// ascending lexicographic order (the tuple `Ord` of std).
#[verifier::external_body]
pub(crate) fn sort_pairs(v: &mut Vec<(u64, u64)>)
    ensures
        final(v)@.to_multiset() == old(v)@.to_multiset(),
        sorted_pairs(final(v)@),
{
    v.sort_unstable();
}

/// A rearrangement of a sequence whose second components are distinct keeps
/// exactly its elements, each once.
pub proof fn lemma_permutation_keeps<A>(before: Seq<(A, u64)>, after: Seq<(A, u64)>)
    requires
        after.to_multiset() == before.to_multiset(),
        distinct_tags(before),
    ensures
        after.len() == before.len(),
        forall|x: (A, u64)| after.contains(x) <==> before.contains(x),
        distinct_tags(after),
{
    broadcast use vstd::seq_lib::group_to_multiset_ensures;
    assert(after.len() == after.to_multiset().len());
    assert(before.len() == before.to_multiset().len());
    assert forall|x: (A, u64)| after.contains(x) <==> before.contains(x) by {
        assert(after.contains(x) <==> after.to_multiset().count(x) > 0);
        assert(before.contains(x) <==> before.to_multiset().count(x) > 0);
    }
    assert(before.no_duplicates()) by {
        assert forall|i: int, j: int| 0 <= i < before.len() && 0 <= j < before.len() && i != j implies before[i] != before[j] by {
            if i < j {
                assert(before[i].1 != before[j].1);
            } else {
                assert(before[j].1 != before[i].1);
            }
        }
    }
    before.lemma_multiset_has_no_duplicates();
    assert forall|i: int, j: int| 0 <= i < j < after.len() implies (#[trigger] after[i]).1 != (#[trigger] after[j]).1 by {
        if after[i].1 == after[j].1 {
            assert(after.contains(after[i]));
            assert(after.contains(after[j]));
            let a = choose|a: int| 0 <= a < before.len() && before[a] == after[i];
            let b = choose|b: int| 0 <= b < before.len() && before[b] == after[j];
            if a == b {
                assert(after[i] == after[j]);
                after.lemma_multiset_has_no_duplicates_conv();
            } else if a < b {
                assert(before[a].1 != before[b].1);
            } else {
                assert(before[b].1 != before[a].1);
            }
        }
    }
}

/// `r` is the beginning, of length `m`, of the members of `cand` listed in
/// strictly ascending pair order: every member left out comes after all of
/// `r`.
pub open spec fn ranked_prefix(cand: Seq<(u64, u64)>, r: Seq<(u64, u64)>, m: int) -> bool {
    &&& r.len() == m
    &&& forall|i: int, j: int| 0 <= i < j < m ==> pair_lt(#[trigger] r[i], #[trigger] r[j])
    &&& forall|i: int| 0 <= i < m ==> cand.contains(#[trigger] r[i])
    &&& forall|x: (u64, u64)| #[trigger] cand.contains(x) && !r.contains(x) ==> forall|i: int|
        0 <= i < m ==> pair_lt(#[trigger] r[i], x)
}

/// The first `m` members of `cand` in ascending pair order.
pub fn rank_prefix(cand: Vec<(u64, u64)>, m: usize) -> (r: Vec<(u64, u64)>)
    requires
        distinct_tags(cand@),
        m <= cand@.len(),
    ensures
        ranked_prefix(cand@, r@, m as int),
        m == cand@.len() ==> forall|x: (u64, u64)| #[trigger] cand@.contains(x) ==> r@.contains(x),
{
    let ghost before = cand@;
    let mut v = cand;
    sort_pairs(&mut v);
    proof {
        lemma_permutation_keeps(before, v@);
    }
    let mut r: Vec<(u64, u64)> = Vec::new();
    let mut i: usize = 0;
    while i < m
        invariant
            i <= m,
            m <= v@.len(),
            r@ == v@.take(i as int),
        decreases m - i,
    {
        r.push(v[i]);
        assert(r@ =~= v@.take(i + 1));
        i += 1;
    }
    proof {
        assert forall|a: int, b: int| 0 <= a < b < m implies pair_lt(#[trigger] r@[a], #[trigger] r@[b]) by {
            assert(pair_le(v@[a], v@[b]));
            assert(v@[a].1 != v@[b].1);
        }
        assert forall|a: int| 0 <= a < m implies before.contains(#[trigger] r@[a]) by {
            assert(v@.contains(v@[a]));
        }
        assert forall|x: (u64, u64)| #[trigger] before.contains(x) && !r@.contains(x) implies forall|a: int|
            0 <= a < m ==> pair_lt(#[trigger] r@[a], x) by {
            assert(v@.contains(x));
            let p = choose|p: int| 0 <= p < v@.len() && v@[p] == x;
            if p < m {
                assert(r@[p] == x);
                assert(r@.contains(x));
            }
            assert forall|a: int| 0 <= a < m implies pair_lt(#[trigger] r@[a], x) by {
                assert(pair_le(v@[a], v@[p]));
                assert(v@[a].1 != v@[p].1);
            }
        }
        if m == before.len() {
            assert(r@ =~= v@);
        }
    }
    r
}

/// `a` precedes or equals `b` in lexicographic order of code points (the
/// order of `str`'s `Ord`, since UTF-8 preserves code-point order).
pub open spec fn chars_le(a: Seq<char>, b: Seq<char>) -> bool
    decreases a.len(),
{
    if a.len() == 0 {
        true
    } else if b.len() == 0 {
        false
    } else if a[0] == b[0] {
        chars_le(a.drop_first(), b.drop_first())
    } else {
        (a[0] as u32) < (b[0] as u32)
    }
}

/// Lexicographic order is antisymmetric.
pub proof fn lemma_chars_le_antisym(a: Seq<char>, b: Seq<char>)
    requires
        chars_le(a, b),
        chars_le(b, a),
    ensures
        a == b,
    decreases a.len(),
{
    if a.len() == 0 {
        if b.len() > 0 {
            assert(!chars_le(b, a));
        }
        assert(a =~= b);
    } else {
        assert(b.len() > 0);
        assert(a[0] == b[0]);
        lemma_chars_le_antisym(a.drop_first(), b.drop_first());
        assert(a =~= seq![a[0]] + a.drop_first());
        assert(b =~= seq![b[0]] + b.drop_first());
    }
}

/// Lexicographic order is reflexive.
pub proof fn lemma_chars_le_refl(a: Seq<char>)
    ensures
        chars_le(a, a),
    decreases a.len(),
{
    if a.len() > 0 {
        lemma_chars_le_refl(a.drop_first());
    }
}

/// Order on (label, tag) pairs: by label, then by tag (the tuple `Ord` of std
/// on `(String, u64)`).
pub open spec fn label_le(a: (String, u64), b: (String, u64)) -> bool {
    (chars_le(a.0@, b.0@) && a.0@ != b.0@) || (a.0@ == b.0@ && a.1 <= b.1)
}

/// `slice::sort_unstable` on `(String, u64)` pairs: the same pairs, ordered by
/// label (`str`'s byte order, which is code-point order) and then by tag.
#[verifier::external_body]
pub(crate) fn sort_labels(v: &mut Vec<(String, u64)>)
    ensures
        final(v)@.to_multiset() == old(v)@.to_multiset(),
        forall|i: int, j: int|
            0 <= i < j < final(v)@.len() ==> label_le(#[trigger] final(v)@[i], #[trigger] final(v)@[j]),
{
    v.sort_unstable();
}

/// Record `a` ranks before record `b`: larger key, then smaller index.
pub open spec fn desc_before(keys: Seq<u64>, a: int, b: int) -> bool {
    keys[a] > keys[b] || (keys[a] == keys[b] && a < b)
}

/// Number of hits among the first `k` records.
pub open spec fn hit_count(hits: Seq<bool>, k: int) -> int
    decreases k,
{
    if k <= 0 {
        0
    } else {
        hit_count(hits, k - 1) + if hits[k - 1] {
            1int
        } else {
            0
        }
    }
}

/// `rows` are the first `m` hits by descending key (ties by index): in that
/// order, and every hit left out ranks after all of them.
pub open spec fn ranked_desc(keys: Seq<u64>, hits: Seq<bool>, rows: Seq<usize>, m: int) -> bool {
    &&& rows.len() == m
    &&& forall|i: int, j: int| 0 <= i < j < m ==> desc_before(keys, #[trigger] rows[i] as int, #[trigger] rows[j] as int)
    &&& forall|i: int| 0 <= i < m ==> (#[trigger] rows[i]) < hits.len() && hits[rows[i] as int]
    &&& forall|x: int|
        0 <= x < hits.len() && #[trigger] hits[x] && !rows.contains(x as usize) ==> forall|i: int|
            0 <= i < m ==> desc_before(keys, #[trigger] rows[i] as int, x)
}

/// The hits by descending key (ties by index), at most `cap` of them.
pub fn top_indices(keys: &Vec<u64>, hits: &Vec<bool>, cap: usize) -> (rows: Vec<usize>)
    requires
        keys@.len() == hits@.len(),
    ensures
        ranked_desc(
            keys@,
            hits@,
            rows@,
            if hit_count(hits@, hits@.len() as int) < cap { hit_count(hits@, hits@.len() as int) } else { cap as int },
        ),
{
    let n = hits.len();
    let mut cand: Vec<(u64, u64)> = Vec::new();
    let mut i: usize = 0;
    while i < n
        invariant
            i <= n,
            n == hits@.len(),
            n == keys@.len(),
            cand@.len() == hit_count(hits@, i as int),
            forall|k: int| 0 <= k < cand@.len() ==> (#[trigger] cand@[k]).1 < i && hits@[cand@[k].1 as int]
                && cand@[k].0 == u64::MAX - keys@[cand@[k].1 as int],
            forall|a: int, b: int| 0 <= a < b < cand@.len() ==> (#[trigger] cand@[a]).1 < (#[trigger] cand@[b]).1,
            forall|q: int| 0 <= q < i && #[trigger] hits@[q] ==> cand@.contains(((u64::MAX - keys@[q]) as u64, q as u64)),
        decreases n - i,
    {
        let ghost old_cand = cand@;
        if hits[i] {
            cand.push((u64::MAX - keys[i], i as u64));
        }
        proof {
            assert forall|q: int| 0 <= q < i + 1 && #[trigger] hits@[q] implies cand@.contains(
                ((u64::MAX - keys@[q]) as u64, q as u64),
            ) by {
                if q < i {
                    assert(old_cand.contains(((u64::MAX - keys@[q]) as u64, q as u64)));
                    let w = choose|w: int| 0 <= w < old_cand.len() && old_cand[w] == ((u64::MAX - keys@[q]) as u64, q as u64);
                    assert(cand@[w] == old_cand[w]);
                } else {
                    assert(cand@[cand@.len() - 1] == ((u64::MAX - keys@[q]) as u64, q as u64));
                }
            }
        }
        i += 1;
    }
    let c = cand.len();
    let m = if c < cap { c } else { cap };
    assert(distinct_tags(cand@)) by {
        assert forall|a: int, b: int| 0 <= a < b < cand@.len() implies (#[trigger] cand@[a]).1 != (#[trigger] cand@[b]).1 by {
            assert(cand@[a].1 < cand@[b].1);
        }
    }
    let ghost cs = cand@;
    let r = rank_prefix(cand, m);
    let mut rows: Vec<usize> = Vec::new();
    let mut k: usize = 0;
    while k < m
        invariant
            k <= m,
            r@.len() == m,
            rows@.len() == k,
            forall|x: int| 0 <= x < m ==> cs.contains(#[trigger] r@[x]),
            forall|x: int| 0 <= x < cs.len() ==> (#[trigger] cs[x]).1 < n,
            n == hits@.len(),
            forall|x: int| 0 <= x < k ==> #[trigger] rows@[x] as u64 == r@[x].1,
        decreases m - k,
    {
        proof {
            assert(cs.contains(r@[k as int]));
        }
        rows.push(r[k].1 as usize);
        k += 1;
    }
    proof {
        assert forall|x: int| 0 <= x < m implies (#[trigger] r@[x]).1 < n && hits@[r@[x].1 as int]
            && r@[x].0 == u64::MAX - keys@[r@[x].1 as int] by {
            assert(cs.contains(r@[x]));
        }
        assert forall|a: int, b: int| 0 <= a < b < m implies desc_before(keys@, #[trigger] rows@[a] as int, #[trigger] rows@[b] as int) by {
            assert(pair_lt(r@[a], r@[b]));
        }
        assert forall|x: int|
            0 <= x < hits@.len() && #[trigger] hits@[x] && !rows@.contains(x as usize) implies forall|i2: int|
                0 <= i2 < m ==> desc_before(keys@, #[trigger] rows@[i2] as int, x) by {
            let px = ((u64::MAX - keys@[x]) as u64, x as u64);
            assert(cs.contains(px));
            if r@.contains(px) {
                let p = choose|p: int| 0 <= p < r@.len() && r@[p] == px;
                assert(rows@[p] == x as usize);
                assert(rows@.contains(x as usize));
            }
            assert forall|i2: int| 0 <= i2 < m implies desc_before(keys@, #[trigger] rows@[i2] as int, x) by {
                assert(pair_lt(r@[i2], px));
            }
        }
    }
    rows
}

} // verus!
