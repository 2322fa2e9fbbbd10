//! Node searches: by (case-insensitive) name with optional size and type
//! filters, and the nodes of largest retained size.

use vstd::prelude::*;
use crate::graph::SnapshotGraph;
use crate::labels::{node_name, node_type, resolve_or_empty, resolved_or_empty};
use crate::nodes::create_node;
use crate::retained::RetainedData;
use crate::sorting::{desc_before, hit_count, ranked_desc, top_indices};
use crate::text::{chars_eq, chars_of, contains_chars, has_substring, lowercase, to_lowercase};

verus! {

/// A name search: the name (substring, or exact with `exact`), a minimum
/// self size, an optional node type, and a cap on the results (0: none).
#[derive(Debug, Clone)]
pub struct NameQuery {
    pub name: String,
    pub exact: bool,
    pub min_self: usize,
    pub type_filter: Option<String>,
    pub limit: usize,
}

/// A node found by name.
#[derive(Debug, Clone)]
pub struct NameMatch {
    pub node_index: usize,
    pub id: usize,
    pub name: String,
    pub type_: String,
    pub self_size: usize,
    pub edge_count: usize,
}

/// A node ranked by retained size.
#[derive(Debug, Clone)]
pub struct RetainedEntry {
    pub node_index: usize,
    pub name: String,
    pub type_: String,
    pub self_size: usize,
    pub retained_size: u64,
    pub approximate: bool,
}

/// The largest nodes by retained size; `approximate` when self sizes stand
/// in for retained sizes.
#[derive(Debug, Clone)]
pub struct RetainedResult {
    pub approximate: bool,
    pub retained: Vec<RetainedEntry>,
}

/// Lower-cased name of node `n` (the empty string when unresolvable).
pub open spec fn lower_name(g: SnapshotGraph, n: int) -> Seq<char> {
    lowercase(resolved_or_empty(g.strings@, g.name_idx(n) as int))
}

/// Node `n`'s lower-cased name equals `q` (`exact`) or contains it.
pub open spec fn name_matches(g: SnapshotGraph, q: Seq<char>, exact: bool, n: int) -> bool {
    if exact {
        lower_name(g, n) == q
    } else {
        has_substring(lower_name(g, n), q)
    }
}

/// Lower-cased type name of node `n` (the empty string when unresolvable).
pub open spec fn lower_type(g: SnapshotGraph, n: int) -> Seq<char> {
    if (g.type_idx(n) as int) < g.node_types@.len() {
        lowercase(g.node_types@[g.type_idx(n) as int]@)
    } else {
        Seq::empty()
    }
}

/// Node `n` answers the name query.
pub open spec fn find_hit(g: SnapshotGraph, q: NameQuery, n: int) -> bool {
    &&& name_matches(g, lowercase(q.name@), q.exact, n)
    &&& g.self_size(n) >= q.min_self
    &&& match q.type_filter {
        Some(tf) => lower_type(g, n) == lowercase(tf@),
        None => true,
    }
}

/// Self size of each node.
pub open spec fn self_keys(g: SnapshotGraph) -> Seq<u64> {
    Seq::new(g.node_count as nat, |n: int| g.self_size(n) as u64)
}

/// Retained size of each node.
pub open spec fn retained_keys(g: SnapshotGraph, rd: RetainedData) -> Seq<u64> {
    Seq::new(g.node_count as nat, |n: int| rd.retained@[n])
}

/// `m` describes node `n`.
pub open spec fn match_view(g: SnapshotGraph, n: int, m: NameMatch) -> bool {
    &&& m.node_index == n
    &&& m.id == g.id(n)
    &&& m.name@ == resolved_or_empty(g.strings@, g.name_idx(n) as int)
    &&& m.type_@ == node_type(g, n)
    &&& m.self_size == g.self_size(n)
    &&& m.edge_count == g.edge_count(n)
}

/// `e` describes node `n` with retained size `r`.
pub open spec fn entry_view(g: SnapshotGraph, n: int, r: u64, approximate: bool, e: RetainedEntry) -> bool {
    &&& e.node_index == n
    &&& e.name@ == node_name(g, n)
    &&& e.type_@ == node_type(g, n)
    &&& e.self_size == g.self_size(n)
    &&& e.retained_size == r
    &&& e.approximate == approximate
}

/// Per node: its lower-cased name equals (`exact`) or contains `q`. Each
/// string of the table that names a node is lower-cased once.
fn name_hits(g: &SnapshotGraph, q: &Vec<char>, exact: bool) -> (hits: Vec<bool>)
    requires
        g.wf(),
    ensures
        hits@.len() == g.node_count,
        forall|n: int| 0 <= n < g.node_count ==> #[trigger] hits@[n] == name_matches(*g, q@, exact, n),
{
    let n = g.node_count;
    let s = g.strings.len();
    let mut used: Vec<bool> = Vec::new();
    let mut i: usize = 0;
    while i < s
        invariant
            i <= s,
            used@.len() == i,
        decreases s - i,
    {
        used.push(false);
        i += 1;
    }
    let mut m: usize = 0;
    while m < n
        invariant
            m <= n,
            n == g.node_count,
            g.wf(),
            s == g.strings@.len(),
            used@.len() == s,
            forall|j: int| 0 <= j < m && (g.name_idx(j) as int) < s ==> #[trigger] used@[g.name_idx(j) as int],
        decreases n - m,
    {
        let idx = g.node_field(m, g.node_offsets.name) as usize;
        if idx < s {
            used.set(idx, true);
        }
        m += 1;
    }
    let mut tab: Vec<bool> = Vec::new();
    let mut t: usize = 0;
    while t < s
        invariant
            t <= s,
            s == g.strings@.len(),
            used@.len() == s,
            tab@.len() == t,
            forall|j: int| 0 <= j < t && #[trigger] used@[j] ==> tab@[j] == (if exact {
                lowercase(g.strings@[j]@) == q@
            } else {
                has_substring(lowercase(g.strings@[j]@), q@)
            }),
        decreases s - t,
    {
        if used[t] {
            let l = chars_of(to_lowercase(g.strings[t].as_str()).as_str());
            let hit = if exact {
                chars_eq(l.as_slice(), q.as_slice())
            } else {
                contains_chars(l.as_slice(), q.as_slice())
            };
            tab.push(hit);
        } else {
            tab.push(false);
        }
        t += 1;
    }
    proof {
        reveal_strlit("");
        assert(""@ =~= Seq::<char>::empty());
    }
    let le = chars_of(to_lowercase("").as_str());
    let empty_hit = if exact {
        chars_eq(le.as_slice(), q.as_slice())
    } else {
        contains_chars(le.as_slice(), q.as_slice())
    };
    let mut hits: Vec<bool> = Vec::new();
    let mut k: usize = 0;
    while k < n
        invariant
            k <= n,
            n == g.node_count,
            g.wf(),
            s == g.strings@.len(),
            used@.len() == s,
            tab@.len() == s,
            forall|j: int| 0 <= j < n && (g.name_idx(j) as int) < s ==> #[trigger] used@[g.name_idx(j) as int],
            forall|j: int| 0 <= j < s && #[trigger] used@[j] ==> tab@[j] == (if exact {
                lowercase(g.strings@[j]@) == q@
            } else {
                has_substring(lowercase(g.strings@[j]@), q@)
            }),
            le@ == lowercase(Seq::empty()),
            empty_hit == (if exact { le@ == q@ } else { has_substring(le@, q@) }),
            hits@.len() == k,
            forall|j: int| 0 <= j < k ==> #[trigger] hits@[j] == name_matches(*g, q@, exact, j),
        decreases n - k,
    {
        let idx = g.node_field(k, g.node_offsets.name) as usize;
        proof {
            assert(g.name_idx(k as int) as int == idx as int);
        }
        if idx < s {
            proof {
                assert(used@[g.name_idx(k as int) as int]);
            }
            hits.push(tab[idx]);
        } else {
            hits.push(empty_hit);
        }
        k += 1;
    }
    hits
}

/// Per node: the value of `f` on it.
pub open spec fn find_hits(g: SnapshotGraph, q: NameQuery) -> Seq<bool> {
    Seq::new(g.node_count as nat, |n: int| find_hit(g, q, n))
}

/// Number of results of a capped search: `count`, cut to `cap` unless the
/// cap is 0.
pub open spec fn capped(count: int, cap: usize) -> int {
    if cap > 0 && count > cap { cap as int } else { count }
}

/// Per node: the type filter of `q` passes.
fn type_hits(g: &SnapshotGraph, tf: &Option<String>) -> (hits: Vec<bool>)
    requires
        g.wf(),
    ensures
        hits@.len() == g.node_count,
        forall|n: int| 0 <= n < g.node_count ==> #[trigger] hits@[n] == match *tf {
            Some(t) => lower_type(*g, n) == lowercase(t@),
            None => true,
        },
{
    let n = g.node_count;
    let mut hits: Vec<bool> = Vec::new();
    match tf {
        None => {
            let mut k: usize = 0;
            while k < n
                invariant
                    k <= n,
                    n == g.node_count,
                    tf is None,
                    hits@.len() == k,
                    forall|j: int| 0 <= j < k ==> #[trigger] hits@[j],
                decreases n - k,
            {
                hits.push(true);
                k += 1;
            }
        },
        Some(t) => {
            let want = chars_of(to_lowercase(t.as_str()).as_str());
            let nt = g.node_types.len();
            let mut tab: Vec<bool> = Vec::new();
            let mut i: usize = 0;
            while i < nt
                invariant
                    i <= nt,
                    nt == g.node_types@.len(),
                    want@ == lowercase(t@),
                    tab@.len() == i,
                    forall|j: int| 0 <= j < i ==> #[trigger] tab@[j] == (lowercase(g.node_types@[j]@) == want@),
                decreases nt - i,
            {
                let l = chars_of(to_lowercase(g.node_types[i].as_str()).as_str());
                tab.push(chars_eq(l.as_slice(), want.as_slice()));
                i += 1;
            }
            let empty_hit = want.len() == 0;
            let mut k: usize = 0;
            while k < n
                invariant
                    k <= n,
                    n == g.node_count,
                    g.wf(),
                    *tf == Some(*t),
                    nt == g.node_types@.len(),
                    tab@.len() == nt,
                    forall|j: int| 0 <= j < nt ==> #[trigger] tab@[j] == (lowercase(g.node_types@[j]@) == want@),
                    want@ == lowercase(t@),
                    empty_hit == (want@.len() == 0),
                    hits@.len() == k,
                    forall|j: int| 0 <= j < k ==> #[trigger] hits@[j] == (lower_type(*g, j) == lowercase(t@)),
                decreases n - k,
            {
                let idx = g.node_field(k, g.node_offsets.type_) as usize;
                if idx < nt {
                    hits.push(tab[idx]);
                } else {
                    proof {
                        assert(empty_hit == (Seq::<char>::empty() == want@)) by {
                            if want@.len() == 0 {
                                assert(want@ =~= Seq::<char>::empty());
                            }
                        }
                    }
                    hits.push(empty_hit);
                }
                k += 1;
            }
        },
    }
    hits
}

/// Nodes answering a name query (`find_nodes`): lower-cased name equal to
/// (exact) or containing the lower-cased query name, self size at least
/// `min_self`, lower-cased type equal to the lower-cased type filter; by
/// descending self size (ties by index), cut to `limit` unless it is 0. An
/// empty lower-cased name finds nothing.
pub fn find_nodes(g: &SnapshotGraph, query: &NameQuery) -> (res: Vec<NameMatch>)
    requires
        g.wf(),
    ensures
        lowercase(query.name@).len() == 0 ==> res@.len() == 0,
        lowercase(query.name@).len() > 0 ==> exists|rows: Seq<usize>|
            ranked_desc(
                self_keys(*g),
                find_hits(*g, *query),
                rows,
                capped(hit_count(find_hits(*g, *query), g.node_count as int), query.limit),
            ) && res@.len() == rows.len() && forall|k: int|
                0 <= k < rows.len() ==> match_view(*g, rows[k] as int, #[trigger] res@[k]),
{
    let q = chars_of(to_lowercase(query.name.as_str()).as_str());
    if q.len() == 0 {
        return Vec::new();
    }
    let n = g.node_count;
    let names = name_hits(g, &q, query.exact);
    let types = type_hits(g, &query.type_filter);
    let mut hits: Vec<bool> = Vec::new();
    let mut keys: Vec<u64> = Vec::new();
    let mut i: usize = 0;
    while i < n
        invariant
            i <= n,
            n == g.node_count,
            g.wf(),
            q@ == lowercase(query.name@),
            names@.len() == n,
            forall|j: int| 0 <= j < n ==> #[trigger] names@[j] == name_matches(*g, q@, query.exact, j),
            types@.len() == n,
            forall|j: int| 0 <= j < n ==> #[trigger] types@[j] == match query.type_filter {
                Some(t) => lower_type(*g, j) == lowercase(t@),
                None => true,
            },
            hits@.len() == i,
            keys@.len() == i,
            forall|j: int| 0 <= j < i ==> #[trigger] hits@[j] == find_hit(*g, *query, j),
            forall|j: int| 0 <= j < i ==> #[trigger] keys@[j] == g.self_size(j) as u64,
        decreases n - i,
    {
        let size = g.node_field(i, g.node_offsets.self_size);
        hits.push(names[i] && size as usize >= query.min_self && types[i]);
        keys.push(size as u64);
        i += 1;
    }
    proof {
        assert(hits@ =~= find_hits(*g, *query));
        assert(keys@ =~= self_keys(*g));
    }
    let cap = if query.limit > 0 { query.limit } else { usize::MAX };
    let rows = top_indices(&keys, &hits, cap);
    let mut out: Vec<NameMatch> = Vec::new();
    let mut k: usize = 0;
    while k < rows.len()
        invariant
            k <= rows@.len(),
            g.wf(),
            forall|x: int| 0 <= x < rows@.len() ==> (#[trigger] rows@[x]) < hits@.len(),
            hits@.len() == g.node_count,
            out@.len() == k,
            forall|x: int| 0 <= x < k ==> match_view(*g, rows@[x] as int, #[trigger] out@[x]),
        decreases rows@.len() - k,
    {
        let idx = rows[k];
        out.push(NameMatch {
            node_index: idx,
            id: g.node_field(idx, g.node_offsets.id) as usize,
            name: resolve_or_empty(&g.strings, g.node_field(idx, g.node_offsets.name)),
            type_: g.type_of(idx),
            self_size: g.node_field(idx, g.node_offsets.self_size) as usize,
            edge_count: g.node_field(idx, g.node_offsets.edge_count) as usize,
        });
        k += 1;
    }
    proof {
        let c = hit_count(find_hits(*g, *query), g.node_count as int);
        lemma_hit_count_bound(find_hits(*g, *query), g.node_count as int);
        assert((if c < cap { c } else { cap as int }) == capped(c, query.limit));
    }
    out
}

pub proof fn lemma_hit_count_bound(hits: Seq<bool>, k: int)
    requires
        k >= 0,
    ensures
        0 <= hit_count(hits, k) <= k,
    decreases k,
{
    if k > 0 {
        lemma_hit_count_bound(hits, k - 1);
    }
}

/// `count`, or `top` when smaller.
pub open spec fn at_most(count: int, top: usize) -> int {
    if count < top { count } else { top as int }
}

/// Per node: its lower-cased name contains `q` and its retained size is
/// nonzero.
pub open spec fn search_hits(g: SnapshotGraph, rd: RetainedData, q: Seq<char>) -> Seq<bool> {
    Seq::new(g.node_count as nat, |n: int| name_matches(g, q, false, n) && rd.retained@[n] != 0)
}

/// Nodes whose lower-cased name contains the lower-cased `query`, with a
/// nonzero retained size, by descending retained size (ties by index), at
/// most `top` of them (`search_nodes`).
pub fn search_nodes(g: &SnapshotGraph, rd: &RetainedData, query: &str, top: usize) -> (res: Vec<RetainedEntry>)
    requires
        g.wf(),
        rd.of(*g),
    ensures
        exists|rows: Seq<usize>|
            ranked_desc(
                retained_keys(*g, *rd),
                search_hits(*g, *rd, lowercase(query@)),
                rows,
                at_most(hit_count(search_hits(*g, *rd, lowercase(query@)), g.node_count as int), top),
            ) && res@.len() == rows.len() && forall|k: int|
                0 <= k < rows.len() ==> entry_view(*g, rows[k] as int, rd.retained@[rows[k] as int], false, #[trigger] res@[k]),
{
    let q = chars_of(to_lowercase(query).as_str());
    let n = g.node_count;
    let names = name_hits(g, &q, false);
    let mut hits: Vec<bool> = Vec::new();
    let mut keys: Vec<u64> = Vec::new();
    let mut i: usize = 0;
    while i < n
        invariant
            i <= n,
            n == g.node_count,
            g.wf(),
            rd.of(*g),
            q@ == lowercase(query@),
            names@.len() == n,
            forall|j: int| 0 <= j < n ==> #[trigger] names@[j] == name_matches(*g, q@, false, j),
            hits@.len() == i,
            keys@.len() == i,
            forall|j: int| 0 <= j < i ==> #[trigger] hits@[j] == (name_matches(*g, q@, false, j) && rd.retained@[j] != 0),
            forall|j: int| 0 <= j < i ==> #[trigger] keys@[j] == rd.retained@[j],
        decreases n - i,
    {
        let r = rd.retained[i];
        hits.push(names[i] && r != 0);
        keys.push(r);
        i += 1;
    }
    proof {
        assert(hits@ =~= search_hits(*g, *rd, lowercase(query@)));
        assert(keys@ =~= retained_keys(*g, *rd));
    }
    let rows = top_indices(&keys, &hits, top);
    let mut out: Vec<RetainedEntry> = Vec::new();
    let mut k: usize = 0;
    while k < rows.len()
        invariant
            k <= rows@.len(),
            g.wf(),
            rd.of(*g),
            forall|x: int| 0 <= x < rows@.len() ==> (#[trigger] rows@[x]) < hits@.len(),
            hits@.len() == g.node_count,
            out@.len() == k,
            forall|x: int| 0 <= x < k ==> entry_view(*g, rows@[x] as int, rd.retained@[rows@[x] as int], false, #[trigger] out@[x]),
        decreases rows@.len() - k,
    {
        let idx = rows[k];
        let node = create_node(g, idx);
        out.push(RetainedEntry {
            node_index: idx,
            name: node.name,
            type_: node.type_,
            self_size: node.self_size,
            retained_size: rd.retained[idx],
            approximate: false,
        });
        k += 1;
    }
    proof {
        let c = hit_count(search_hits(*g, *rd, lowercase(query@)), g.node_count as int);
        assert(ranked_desc(retained_keys(*g, *rd), search_hits(*g, *rd, lowercase(query@)), rows@, at_most(c, top)));
    }
    out
}

/// `rows` hold `m` distinct hits, sorted by non-increasing key, and every
/// hit left out has a key no larger than any of them.
pub open spec fn top_by_key(keys: Seq<u64>, hits: Seq<bool>, rows: Seq<usize>, m: int) -> bool {
    &&& rows.len() == m
    &&& forall|i: int, j: int| 0 <= i < j < m ==> keys[#[trigger] rows[i] as int] >= keys[#[trigger] rows[j] as int]
        && rows[i] != rows[j]
    &&& forall|i: int| 0 <= i < m ==> (#[trigger] rows[i]) < hits.len() && hits[rows[i] as int]
    &&& forall|x: int|
        0 <= x < hits.len() && #[trigger] hits[x] && !rows.contains(x as usize) ==> forall|i: int|
            0 <= i < m ==> keys[x] <= keys[#[trigger] rows[i] as int]
}

/// Per node: a nonzero retained size.
pub open spec fn retained_hits(g: SnapshotGraph, rd: RetainedData) -> Seq<bool> {
    Seq::new(g.node_count as nat, |n: int| rd.retained@[n] != 0)
}

/// Per node: always.
pub open spec fn every_node(g: SnapshotGraph) -> Seq<bool> {
    Seq::new(g.node_count as nat, |n: int| true)
}

proof fn lemma_ranked_is_top(keys: Seq<u64>, hits: Seq<bool>, rows: Seq<usize>, m: int)
    requires
        ranked_desc(keys, hits, rows, m),
    ensures
        top_by_key(keys, hits, rows, m),
        forall|i: int, j: int| 0 <= i < j < m ==> desc_before(keys, #[trigger] rows[i] as int, #[trigger] rows[j] as int),
{
    assert forall|x: int|
        0 <= x < hits.len() && #[trigger] hits[x] && !rows.contains(x as usize) implies forall|i: int|
            0 <= i < m ==> keys[x] <= keys[#[trigger] rows[i] as int] by {
        assert forall|i: int| 0 <= i < m implies keys[x] <= keys[#[trigger] rows[i] as int] by {
            assert(desc_before(keys, rows[i] as int, x));
        }
    }
    assert forall|i: int, j: int| 0 <= i < j < m implies keys[#[trigger] rows[i] as int] >= keys[#[trigger] rows[j] as int]
        && rows[i] != rows[j] by {
        assert(desc_before(keys, rows[i] as int, rows[j] as int));
    }
}

/// The `top_n` nodes of largest self size, standing in for retained sizes
/// on snapshots too large for the dominator analysis (the approximate path
/// of `get_retained_entries`).
pub fn approximate_entries(g: &SnapshotGraph, top_n: usize) -> (res: RetainedResult)
    requires
        g.wf(),
    ensures
        res.approximate,
        exists|rows: Seq<usize>|
            top_by_key(self_keys(*g), every_node(*g), rows, at_most(g.node_count as int, top_n))
                && res.retained@.len() == rows.len() && forall|k: int|
                0 <= k < rows.len() ==> entry_view(*g, rows[k] as int, g.self_size(rows[k] as int) as u64, true, #[trigger] res.retained@[k]),
{
    let n = g.node_count;
    let mut hits: Vec<bool> = Vec::new();
    let mut keys: Vec<u64> = Vec::new();
    let mut i: usize = 0;
    while i < n
        invariant
            i <= n,
            n == g.node_count,
            g.wf(),
            hits@.len() == i,
            keys@.len() == i,
            forall|j: int| 0 <= j < i ==> #[trigger] hits@[j],
            forall|j: int| 0 <= j < i ==> #[trigger] keys@[j] == g.self_size(j) as u64,
        decreases n - i,
    {
        hits.push(true);
        keys.push(g.node_field(i, g.node_offsets.self_size) as u64);
        i += 1;
    }
    proof {
        assert(hits@ =~= every_node(*g));
        assert(keys@ =~= self_keys(*g));
        lemma_all_hits(hits@, n as int);
    }
    let rows = top_indices(&keys, &hits, top_n);
    proof {
        lemma_ranked_is_top(keys@, hits@, rows@, rows@.len() as int);
    }
    let mut out: Vec<RetainedEntry> = Vec::new();
    let mut k: usize = 0;
    while k < rows.len()
        invariant
            k <= rows@.len(),
            g.wf(),
            forall|x: int| 0 <= x < rows@.len() ==> (#[trigger] rows@[x]) < hits@.len(),
            hits@.len() == g.node_count,
            out@.len() == k,
            forall|x: int| 0 <= x < k ==> entry_view(*g, rows@[x] as int, g.self_size(rows@[x] as int) as u64, true, #[trigger] out@[x]),
        decreases rows@.len() - k,
    {
        let idx = rows[k];
        let node = create_node(g, idx);
        let size = node.self_size as u64;
        out.push(RetainedEntry {
            node_index: idx,
            name: node.name,
            type_: node.type_,
            self_size: node.self_size,
            retained_size: size,
            approximate: true,
        });
        k += 1;
    }
    proof {
        assert(top_by_key(self_keys(*g), every_node(*g), rows@, at_most(g.node_count as int, top_n)));
    }
    RetainedResult { approximate: true, retained: out }
}

proof fn lemma_all_hits(hits: Seq<bool>, k: int)
    requires
        0 <= k <= hits.len(),
        forall|j: int| 0 <= j < hits.len() ==> #[trigger] hits[j],
    ensures
        hit_count(hits, k) == k,
    decreases k,
{
    if k > 0 {
        lemma_all_hits(hits, k - 1);
    }
}

/// `rows` are the `top_n` nodes of largest nonzero retained size in
/// descending order (ties by index), and `entries` describe them.
pub open spec fn exact_rows(g: SnapshotGraph, rd: RetainedData, top_n: usize, rows: Seq<usize>, entries: Seq<RetainedEntry>) -> bool {
    &&& top_by_key(retained_keys(g, rd), retained_hits(g, rd), rows, at_most(hit_count(retained_hits(g, rd), g.node_count as int), top_n))
    &&& forall|i: int, j: int| 0 <= i < j < rows.len() ==> desc_before(retained_keys(g, rd), #[trigger] rows[i] as int, #[trigger] rows[j] as int)
    &&& entries.len() == rows.len()
    &&& forall|k: int| 0 <= k < rows.len() ==> entry_view(g, rows[k] as int, rd.retained@[rows[k] as int], false, #[trigger] entries[k])
}

/// The `top_n` nodes of largest nonzero retained size, by descending size
/// (ties by index) (the exact path of `get_retained_entries`).
pub fn exact_entries(g: &SnapshotGraph, rd: &RetainedData, top_n: usize) -> (res: RetainedResult)
    requires
        g.wf(),
        rd.of(*g),
    ensures
        !res.approximate,
        exists|rows: Seq<usize>| exact_rows(*g, *rd, top_n, rows, res.retained@),
{
    let n = g.node_count;
    let mut hits: Vec<bool> = Vec::new();
    let mut keys: Vec<u64> = Vec::new();
    let mut i: usize = 0;
    while i < n
        invariant
            i <= n,
            n == g.node_count,
            g.wf(),
            rd.of(*g),
            hits@.len() == i,
            keys@.len() == i,
            forall|j: int| 0 <= j < i ==> #[trigger] hits@[j] == (rd.retained@[j] != 0),
            forall|j: int| 0 <= j < i ==> #[trigger] keys@[j] == rd.retained@[j],
        decreases n - i,
    {
        let r = rd.retained[i];
        hits.push(r != 0);
        keys.push(r);
        i += 1;
    }
    proof {
        assert(hits@ =~= retained_hits(*g, *rd));
        assert(keys@ =~= retained_keys(*g, *rd));
    }
    let rows = top_indices(&keys, &hits, top_n);
    proof {
        lemma_ranked_is_top(keys@, hits@, rows@, rows@.len() as int);
    }
    let mut out: Vec<RetainedEntry> = Vec::new();
    let mut k: usize = 0;
    while k < rows.len()
        invariant
            k <= rows@.len(),
            g.wf(),
            rd.of(*g),
            forall|x: int| 0 <= x < rows@.len() ==> (#[trigger] rows@[x]) < hits@.len(),
            hits@.len() == g.node_count,
            out@.len() == k,
            forall|x: int| 0 <= x < k ==> entry_view(*g, rows@[x] as int, rd.retained@[rows@[x] as int], false, #[trigger] out@[x]),
        decreases rows@.len() - k,
    {
        let idx = rows[k];
        let node = create_node(g, idx);
        out.push(RetainedEntry {
            node_index: idx,
            name: node.name,
            type_: node.type_,
            self_size: node.self_size,
            retained_size: rd.retained[idx],
            approximate: false,
        });
        k += 1;
    }
    let res = RetainedResult { approximate: false, retained: out };
    proof {
        assert(exact_rows(*g, *rd, top_n, rows@, res.retained@));
    }
    res
}

} // verus!
