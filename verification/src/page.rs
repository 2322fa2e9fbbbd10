//! Paged node listings: the nodes that pass a type filter and a name
//! query, ranked by a numeric field or by a label, and cut to one page.

use vstd::prelude::*;
use crate::graph::SnapshotGraph;
use crate::grouping::{ascending_labels, label_of, label_ranking, rank_labels};
use crate::labels::{node_name, node_type, resolve_or};
use crate::nodes::{create_node, node_view, HeapSnapshotNode};
use crate::sorting::{chars_le, distinct_tags, lemma_chars_le_antisym, pair_lt, rank_prefix, ranked_prefix};
use crate::text::{chars_of, contains_chars, has_substring, lowercase, str_eq, to_lowercase};

verus! {

/// Field a node listing is ordered by.
#[derive(Debug, Clone, Copy, PartialEq, Eq)]
pub enum SortField {
    Id,
    Type,
    Name,
    SelfSize,
    EdgeCount,
}

/// Direction of a node listing.
#[derive(Debug, Clone, Copy, PartialEq, Eq)]
pub enum SortDir {
    Asc,
    Desc,
}

/// Which page of which listing to produce.
#[derive(Debug, Clone, Copy)]
pub struct NodePageOptions<'a> {
    pub page: usize,
    pub page_size: usize,
    pub type_filter: Option<&'a str>,
    pub query: Option<&'a str>,
    pub sort: SortField,
    pub dir: SortDir,
}

impl Default for NodePageOptions<'_> {
    /// The first page of 100 nodes, largest self size first, unfiltered.
    fn default() -> (o: Self)
        ensures
            o.page == 0,
            o.page_size == 100,
            o.type_filter is None,
            o.query is None,
            o.sort == SortField::SelfSize,
            o.dir == SortDir::Desc,
    {
        NodePageOptions {
            page: 0,
            page_size: 100,
            type_filter: None,
            query: None,
            sort: SortField::SelfSize,
            dir: SortDir::Desc,
        }
    }
}

/// One page of a node listing and the number of nodes the listing holds.
#[derive(Debug, Clone)]
pub struct NodePage {
    pub total: usize,
    pub page: usize,
    pub page_size: usize,
    pub nodes: Vec<HeapSnapshotNode>,
}

/// The order compares a numeric field.
pub open spec fn is_numeric(sort: SortField) -> bool {
    sort == SortField::SelfSize || sort == SortField::Id || sort == SortField::EdgeCount
}

/// Value of the numeric field `sort` of node `n`.
pub open spec fn numeric_key(g: SnapshotGraph, sort: SortField, n: int) -> u32 {
    if sort == SortField::SelfSize {
        g.self_size(n)
    } else if sort == SortField::Id {
        g.id(n)
    } else {
        g.edge_count(n)
    }
}

/// Label of node `n` that the order `sort` compares (name or type name).
pub open spec fn sort_label(g: SnapshotGraph, sort: SortField, n: int) -> Seq<char> {
    if sort == SortField::Name {
        node_name(g, n)
    } else {
        node_type(g, n)
    }
}

/// Strict lexicographic order.
pub open spec fn label_lt(a: Seq<char>, b: Seq<char>) -> bool {
    chars_le(a, b) && a != b
}

/// The characters of an optional string.
pub open spec fn opt_chars(s: Option<&str>) -> Option<Seq<char>> {
    match s {
        Some(x) => Some(x@),
        None => None,
    }
}

/// Node `n` passes the type filter: its type name equals it exactly.
pub open spec fn type_passes(g: SnapshotGraph, ft: Option<Seq<char>>, n: int) -> bool {
    match ft {
        Some(f) => node_type(g, n) == f,
        None => true,
    }
}

/// Node `n` passes the name query: a non-empty query, lower-cased, occurs in
/// the lower-cased name.
pub open spec fn query_passes(g: SnapshotGraph, q: Option<Seq<char>>, n: int) -> bool {
    match q {
        Some(x) => x.len() == 0 || has_substring(lowercase(node_name(g, n)), lowercase(x)),
        None => true,
    }
}

/// Node `n` belongs to the listing: it passes the type filter and the name
/// query, whatever the order.
pub open spec fn listed(g: SnapshotGraph, o: NodePageOptions, n: int) -> bool {
    &&& 0 <= n < g.node_count
    &&& type_passes(g, opt_chars(o.type_filter), n)
    &&& query_passes(g, opt_chars(o.query), n)
}

/// Number of listed nodes among the first `k`.
pub open spec fn listed_count(g: SnapshotGraph, o: NodePageOptions, k: int) -> int
    decreases k,
{
    if k <= 0 {
        0
    } else {
        listed_count(g, o, k - 1) + if listed(g, o, k - 1) {
            1int
        } else {
            0
        }
    }
}

/// Node `a` is displayed before node `b`: by the field or label, in the
/// requested direction, ties by record index in the same direction.
pub open spec fn shown_before(g: SnapshotGraph, sort: SortField, dir: SortDir, a: int, b: int) -> bool {
    if is_numeric(sort) {
        let ka = numeric_key(g, sort, a);
        let kb = numeric_key(g, sort, b);
        if dir == SortDir::Desc {
            ka > kb || (ka == kb && a > b)
        } else {
            ka < kb || (ka == kb && a < b)
        }
    } else {
        let la = sort_label(g, sort, a);
        let lb = sort_label(g, sort, b);
        if dir == SortDir::Desc {
            label_lt(lb, la) || (la == lb && a > b)
        } else {
            label_lt(la, lb) || (la == lb && a < b)
        }
    }
}

/// Node `a` is preferred to node `b` when the listing keeps only its first
/// rows. Ascending numeric listings keep, among equal keys, the higher
/// record index; otherwise this is the display order.
pub open spec fn kept_before(g: SnapshotGraph, sort: SortField, dir: SortDir, a: int, b: int) -> bool {
    if is_numeric(sort) && dir == SortDir::Asc {
        let ka = numeric_key(g, sort, a);
        let kb = numeric_key(g, sort, b);
        ka < kb || (ka == kb && a > b)
    } else {
        shown_before(g, sort, dir, a, b)
    }
}

/// `rows` are the first `m` rows of the listing, in display order.
pub open spec fn listing_rows(g: SnapshotGraph, o: NodePageOptions, rows: Seq<usize>, m: int) -> bool {
    &&& rows.len() == m
    &&& forall|i: int, j: int| 0 <= i < j < m ==> shown_before(g, o.sort, o.dir, #[trigger] rows[i] as int, #[trigger] rows[j] as int)
    &&& forall|i: int| 0 <= i < m ==> listed(g, o, #[trigger] rows[i] as int)
    &&& forall|x: int| listed(g, o, x) && !rows.contains(x as usize) ==> forall|i: int|
        0 <= i < m ==> kept_before(g, o.sort, o.dir, #[trigger] rows[i] as int, x)
}

/// Number of rows kept for page `o.page`: the first `(page + 1) * page_size`.
pub open spec fn kept_rows(g: SnapshotGraph, o: NodePageOptions) -> int {
    let total = listed_count(g, o, g.node_count as int);
    let wanted = (o.page + 1) * o.page_size;
    if wanted < total { wanted } else { total }
}

/// Number of rows on page `o.page`.
pub open spec fn page_len(g: SnapshotGraph, o: NodePageOptions) -> int {
    let m = kept_rows(g, o);
    let start = o.page * o.page_size;
    if start >= m { 0 } else if m - start < o.page_size { m - start } else { o.page_size as int }
}

/// The nodes of `p` are the rows of `rows` from `page * page_size` on.
pub open spec fn page_of_rows(g: SnapshotGraph, o: NodePageOptions, p: NodePage, rows: Seq<usize>) -> bool {
    let start = o.page * o.page_size;
    &&& listing_rows(g, o, rows, kept_rows(g, o))
    &&& p.nodes@.len() == page_len(g, o)
    &&& forall|k: int| 0 <= k < page_len(g, o) ==> node_view(g, rows[start + k] as int, #[trigger] p.nodes@[k])
}

/// `p` is the requested page of the listing: its size, the number of
/// listed nodes, and the rows from `page * page_size` on, with their fields
/// resolved.
pub open spec fn is_node_page(g: SnapshotGraph, o: NodePageOptions, p: NodePage) -> bool {
    &&& p.total == listed_count(g, o, g.node_count as int)
    &&& p.page == o.page
    &&& p.page_size == o.page_size
    &&& exists|rows: Seq<usize>| page_of_rows(g, o, p, rows)
}

/// Per node: passes the type filter.
fn type_flags(g: &SnapshotGraph, ft: Option<&str>) -> (flags: Vec<bool>)
    requires
        g.wf(),
    ensures
        flags@.len() == g.node_count,
        forall|n: int| 0 <= n < g.node_count ==> #[trigger] flags@[n] == type_passes(*g, opt_chars(ft), n),
{
    let n = g.node_count;
    let mut flags: Vec<bool> = Vec::new();
    let mut i: usize = 0;
    while i < n
        invariant
            i <= n,
            n == g.node_count,
            g.wf(),
            flags@.len() == i,
            forall|j: int| 0 <= j < i ==> #[trigger] flags@[j] == type_passes(*g, opt_chars(ft), j),
        decreases n - i,
    {
        let ok = match ft {
            Some(f) => {
                let t = g.type_of(i);
                str_eq(t.as_str(), f)
            },
            None => true,
        };
        flags.push(ok);
        i += 1;
    }
    flags
}

/// The strictly ascending labels order like their positions.
proof fn lemma_rank_order(groups: Seq<String>, x: int, y: int)
    requires
        ascending_labels(groups),
        0 <= x < groups.len(),
        0 <= y < groups.len(),
    ensures
        x < y <==> label_lt(groups[x]@, groups[y]@),
        x == y <==> groups[x]@ == groups[y]@,
{
    if x > y {
        assert(chars_le(groups[y]@, groups[x]@) && groups[y]@ != groups[x]@);
        if chars_le(groups[x]@, groups[y]@) {
            lemma_chars_le_antisym(groups[x]@, groups[y]@);
        }
    }
    if x < y {
        assert(chars_le(groups[x]@, groups[y]@) && groups[x]@ != groups[y]@);
    }
}

/// Rank of `key` among the ranked labels.
fn rank_of(d: &Vec<u32>, gid: &Vec<usize>, key: u32) -> (r: usize)
    requires
        forall|a: int, b: int| 0 <= a < b < d@.len() ==> d@[a] < d@[b],
        d@.contains(key),
        gid@.len() == d@.len(),
    ensures
        exists|j: int| 0 <= j < d@.len() && d@[j] == key && gid@[j] == r,
{
    let j = crate::grouping::find_sorted(d, key);
    gid[j]
}

/// The pair a listed node is ranked by: numeric orders use the field
/// value, label orders the label's rank; descending orders invert both
/// components, ascending numeric orders invert the record index.
pub open spec fn cand_pair(g: SnapshotGraph, o: NodePageOptions, rank: Seq<usize>, n: int) -> (u64, u64) {
    if is_numeric(o.sort) {
        let k = numeric_key(g, o.sort, n) as u64;
        if o.dir == SortDir::Desc {
            ((u64::MAX - k) as u64, (u64::MAX - n) as u64)
        } else {
            (k, (u64::MAX - n) as u64)
        }
    } else {
        let r = rank[n] as u64;
        if o.dir == SortDir::Desc {
            ((u64::MAX - r) as u64, (u64::MAX - n) as u64)
        } else {
            (r, n as u64)
        }
    }
}

/// The node a ranked pair stands for.
pub open spec fn pair_node(o: NodePageOptions, t: u64) -> int {
    if !is_numeric(o.sort) && o.dir == SortDir::Asc {
        t as int
    } else {
        u64::MAX - t
    }
}

/// `rank[n]` is the position of node `n`'s sort label among the ascending
/// labels `groups`.
pub open spec fn ranks_labels(g: SnapshotGraph, o: NodePageOptions, rank: Seq<usize>, groups: Seq<String>) -> bool {
    &&& rank.len() == g.node_count
    &&& ascending_labels(groups)
    &&& forall|n: int| 0 <= n < g.node_count ==> (#[trigger] rank[n]) < groups.len() && groups[rank[n] as int]@
        == sort_label(g, o.sort, n)
}

proof fn lemma_pair_order(g: SnapshotGraph, o: NodePageOptions, rank: Seq<usize>, groups: Seq<String>, a: int, b: int)
    requires
        g.wf(),
        0 <= a < g.node_count,
        0 <= b < g.node_count,
        !is_numeric(o.sort) ==> ranks_labels(g, o, rank, groups),
    ensures
        pair_lt(cand_pair(g, o, rank, a), cand_pair(g, o, rank, b)) <==> kept_before(g, o.sort, o.dir, a, b),
        pair_node(o, cand_pair(g, o, rank, a).1) == a,
{
    let pa = cand_pair(g, o, rank, a);
    let pb = cand_pair(g, o, rank, b);
    if !is_numeric(o.sort) {
        lemma_rank_order(groups, rank[a] as int, rank[b] as int);
        lemma_rank_order(groups, rank[b] as int, rank[a] as int);
        let ra = rank[a] as int;
        let rb = rank[b] as int;
        assert(groups[ra]@ == sort_label(g, o.sort, a));
        assert(groups[rb]@ == sort_label(g, o.sort, b));
        if o.dir == SortDir::Desc {
            assert(pa.0 == u64::MAX - ra && pa.1 == u64::MAX - a);
            assert(pb.0 == u64::MAX - rb && pb.1 == u64::MAX - b);
            assert(pair_lt(pa, pb) <==> kept_before(g, o.sort, o.dir, a, b));
        } else {
            assert(pa.0 == ra && pa.1 == a);
            assert(pb.0 == rb && pb.1 == b);
            assert(pair_lt(pa, pb) <==> kept_before(g, o.sort, o.dir, a, b));
        }
    } else {
        let ka = numeric_key(g, o.sort, a) as int;
        let kb = numeric_key(g, o.sort, b) as int;
        assert(0 <= ka <= u32::MAX);
        assert(0 <= kb <= u32::MAX);
        if o.dir == SortDir::Desc {
            assert(pa.0 == u64::MAX - ka && pa.1 == u64::MAX - a);
            assert(pb.0 == u64::MAX - kb && pb.1 == u64::MAX - b);
            assert(pair_lt(pa, pb) <==> kept_before(g, o.sort, o.dir, a, b));
        } else {
            assert(pa.0 == ka && pa.1 == u64::MAX - a);
            assert(pb.0 == kb && pb.1 == u64::MAX - b);
            assert(pair_lt(pa, pb) <==> kept_before(g, o.sort, o.dir, a, b));
        }
    }
}

/// Node `n` is listed, from the per-node flags.
fn listed_flags(g: &SnapshotGraph, o: NodePageOptions) -> (flags: Vec<bool>)
    requires
        g.wf(),
    ensures
        flags@.len() == g.node_count,
        forall|n: int| 0 <= n < g.node_count ==> #[trigger] flags@[n] == listed(*g, o, n),
{
    let n = g.node_count;
    let tf = type_flags(g, o.type_filter);
    let q = match o.query {
        Some(x) => if x.is_empty() { None } else { Some(x) },
        None => None,
    };
    if q.is_none() {
        proof {
            assert forall|m: int| 0 <= m < g.node_count implies #[trigger] tf@[m] == listed(*g, o, m) by {
                if let Some(x) = o.query {
                    assert(x@.len() == 0);
                }
            }
        }
        return tf;
    }
    let qs = q.unwrap();
    let ql = chars_of(to_lowercase(qs).as_str());
    let (names, _t, _w, _s) = crate::summary::node_columns(g);
    let mut every: Vec<bool> = Vec::new();
    let mut i: usize = 0;
    while i < n
        invariant
            i <= n,
            every@.len() == i,
            forall|j: int| 0 <= j < i ==> #[trigger] every@[j],
        decreases n - i,
    {
        every.push(true);
        i += 1;
    }
    let (d, gid, groups) = rank_labels(&names, &every, &g.strings, "<string#", ">");
    let mut qm: Vec<bool> = Vec::new();
    let mut k: usize = 0;
    while k < groups.len()
        invariant
            k <= groups@.len(),
            qm@.len() == k,
            forall|j: int| 0 <= j < k ==> #[trigger] qm@[j] == has_substring(lowercase(groups@[j]@), ql@),
        decreases groups@.len() - k,
    {
        let lower = chars_of(to_lowercase(groups[k].as_str()).as_str());
        qm.push(contains_chars(lower.as_slice(), ql.as_slice()));
        k += 1;
    }
    let mut flags: Vec<bool> = Vec::new();
    let mut m: usize = 0;
    while m < n
        invariant
            m <= n,
            n == g.node_count,
            g.wf(),
            o.query == Some(qs),
            qs@.len() > 0,
            ql@ == lowercase(qs@),
            names@ == crate::summary::name_keys(*g),
            every@.len() == n,
            forall|j: int| 0 <= j < n ==> #[trigger] every@[j],
            label_ranking(names@, every@, g.strings@, "<string#"@, ">"@, d@, gid@, groups@),
            qm@.len() == groups@.len(),
            forall|j: int| 0 <= j < groups@.len() ==> #[trigger] qm@[j] == has_substring(lowercase(groups@[j]@), ql@),
            tf@.len() == n,
            forall|j: int| 0 <= j < n ==> #[trigger] tf@[j] == type_passes(*g, opt_chars(o.type_filter), j),
            flags@.len() == m,
            forall|j: int| 0 <= j < m ==> #[trigger] flags@[j] == listed(*g, o, j),
        decreases n - m,
    {
        proof {
            assert(every@[m as int]);
        }
        let key = g.node_field(m, g.node_offsets.name);
        proof {
            assert(names@[m as int] == key);
        }
        let r = rank_of(&d, &gid, key);
        proof {
            let j = choose|j: int| 0 <= j < d@.len() && d@[j] == key && gid@[j] == r;
            assert(gid@[j] < groups@.len());
            assert(groups@[r as int]@ == label_of(g.strings@, "<string#"@, ">"@, key));
            assert(qm@[r as int] == has_substring(lowercase(groups@[r as int]@), ql@));
            assert(groups@[r as int]@ == node_name(*g, m as int));
            assert(opt_chars(o.query) == Some(qs@));
            assert(listed(*g, o, m as int) == (tf@[m as int] && qm@[r as int]));
        }
        flags.push(tf[m] && qm[r]);
        m += 1;
    }
    flags
}

/// Ranks of each node's sort label (name or type) for the label orders.
fn label_ranks(g: &SnapshotGraph, o: NodePageOptions) -> (res: (Vec<usize>, Ghost<Seq<String>>))
    requires
        g.wf(),
        !is_numeric(o.sort),
    ensures
        ranks_labels(*g, o, res.0@, res.1@),
{
    let n = g.node_count;
    let (names, types, _w, _s) = crate::summary::node_columns(g);
    let mut every: Vec<bool> = Vec::new();
    let mut i: usize = 0;
    while i < n
        invariant
            i <= n,
            every@.len() == i,
            forall|j: int| 0 <= j < i ==> #[trigger] every@[j],
        decreases n - i,
    {
        every.push(true);
        i += 1;
    }
    let by_name = match o.sort {
        SortField::Name => true,
        _ => false,
    };
    proof {
        reveal_strlit("");
        assert(""@ =~= Seq::<char>::empty());
    }
    let (keys, d, gid, groups) = if by_name {
        let (d, gid, groups) = rank_labels(&names, &every, &g.strings, "<string#", ">");
        (names, d, gid, groups)
    } else {
        let (d, gid, groups) = rank_labels(&types, &every, &g.node_types, "", "");
        (types, d, gid, groups)
    };
    let mut rank: Vec<usize> = Vec::new();
    let mut m: usize = 0;
    while m < n
        invariant
            m <= n,
            n == g.node_count,
            g.wf(),
            !is_numeric(o.sort),
            by_name == (o.sort == SortField::Name),
            by_name ==> keys@ == crate::summary::name_keys(*g) && label_ranking(keys@, every@, g.strings@, "<string#"@, ">"@, d@, gid@, groups@),
            !by_name ==> keys@ == crate::summary::type_keys(*g) && label_ranking(keys@, every@, g.node_types@, Seq::empty(), Seq::empty(), d@, gid@, groups@),
            every@.len() == n,
            forall|j: int| 0 <= j < n ==> #[trigger] every@[j],
            rank@.len() == m,
            forall|j: int| 0 <= j < m ==> (#[trigger] rank@[j]) < groups@.len() && groups@[rank@[j] as int]@ == sort_label(*g, o.sort, j),
        decreases n - m,
    {
        proof {
            assert(every@[m as int]);
        }
        let key = if by_name {
            g.node_field(m, g.node_offsets.name)
        } else {
            g.node_field(m, g.node_offsets.type_)
        };
        proof {
            assert(keys@[m as int] == key);
        }
        let r = rank_of(&d, &gid, key);
        proof {
            let j = choose|j: int| 0 <= j < d@.len() && d@[j] == key && gid@[j] == r;
            assert(gid@[j] < groups@.len());
        }
        rank.push(r);
        m += 1;
    }
    (rank, Ghost(groups@))
}

/// `x` is the ranking pair of some listed node.
pub open spec fn pair_of_listed(g: SnapshotGraph, o: NodePageOptions, rank: Seq<usize>, x: (u64, u64)) -> bool {
    exists|n: int| listed(g, o, n) && x == #[trigger] cand_pair(g, o, rank, n)
}

/// The ranking pairs of the listed nodes, in record order.
fn listed_pairs(g: &SnapshotGraph, o: NodePageOptions, flags: &Vec<bool>, rank: &Vec<usize>, groups: Ghost<Seq<String>>) -> (cand: Vec<(u64, u64)>)
    requires
        g.wf(),
        flags@.len() == g.node_count,
        forall|n: int| 0 <= n < g.node_count ==> #[trigger] flags@[n] == listed(*g, o, n),
        !is_numeric(o.sort) ==> ranks_labels(*g, o, rank@, groups@),
    ensures
        cand@.len() == listed_count(*g, o, g.node_count as int),
        distinct_tags(cand@),
        forall|k: int| 0 <= k < cand@.len() ==> pair_of_listed(*g, o, rank@, #[trigger] cand@[k]),
        forall|n: int| listed(*g, o, n) ==> cand@.contains(#[trigger] cand_pair(*g, o, rank@, n)),
{
    let n = g.node_count;
    let numeric = match o.sort {
        SortField::SelfSize => true,
        SortField::Id => true,
        SortField::EdgeCount => true,
        _ => false,
    };
    let desc = match o.dir {
        SortDir::Desc => true,
        SortDir::Asc => false,
    };
    let off = match o.sort {
        SortField::SelfSize => g.node_offsets.self_size,
        SortField::Id => g.node_offsets.id,
        _ => g.node_offsets.edge_count,
    };
    let mut cand: Vec<(u64, u64)> = Vec::new();
    let ghost mut src: Seq<int> = Seq::empty();
    let mut i: usize = 0;
    while i < n
        invariant
            i <= n,
            n == g.node_count,
            g.wf(),
            numeric == is_numeric(o.sort),
            desc == (o.dir == SortDir::Desc),
            off < g.node_field_count,
            numeric ==> forall|m: int| #[trigger] numeric_key(*g, o.sort, m) == g.nf(m, off as int),
            flags@.len() == g.node_count,
            forall|m: int| 0 <= m < g.node_count ==> #[trigger] flags@[m] == listed(*g, o, m),
            !is_numeric(o.sort) ==> ranks_labels(*g, o, rank@, groups@),
            cand@.len() == listed_count(*g, o, i as int),
            src.len() == cand@.len(),
            forall|k: int| 0 <= k < src.len() ==> 0 <= #[trigger] src[k] < i && listed(*g, o, src[k])
                && cand@[k] == cand_pair(*g, o, rank@, src[k]),
            forall|a: int, b: int| 0 <= a < b < src.len() ==> #[trigger] src[a] < #[trigger] src[b],
            forall|q: int| 0 <= q < i && listed(*g, o, q) ==> cand@.contains(#[trigger] cand_pair(*g, o, rank@, q)),
        decreases n - i,
    {
        let ghost old_cand = cand@;
        if flags[i] {
            let pair = if numeric {
                let k = g.node_field(i, off) as u64;
                if desc {
                    (u64::MAX - k, u64::MAX - i as u64)
                } else {
                    (k, u64::MAX - i as u64)
                }
            } else {
                let r = rank[i] as u64;
                if desc {
                    (u64::MAX - r, u64::MAX - i as u64)
                } else {
                    (r, i as u64)
                }
            };
            proof {
                assert(pair == cand_pair(*g, o, rank@, i as int));
            }
            cand.push(pair);
            proof {
                src = src.push(i as int);
            }
        }
        proof {
            assert forall|q: int| 0 <= q < i + 1 && listed(*g, o, q) implies cand@.contains(
                #[trigger] cand_pair(*g, o, rank@, q),
            ) by {
                if q < i {
                    assert(old_cand.contains(cand_pair(*g, o, rank@, q)));
                    let w = choose|w: int| 0 <= w < old_cand.len() && old_cand[w] == cand_pair(*g, o, rank@, q);
                    assert(cand@[w] == old_cand[w]);
                } else {
                    assert(flags@[q]);
                    assert(cand@[cand@.len() - 1] == cand_pair(*g, o, rank@, q));
                }
            }
        }
        i += 1;
    }
    proof {
        assert forall|a: int, b: int| 0 <= a < b < cand@.len() implies (#[trigger] cand@[a]).1 != (#[trigger] cand@[b]).1 by {
            lemma_pair_order(*g, o, rank@, groups@, src[a], src[a]);
            lemma_pair_order(*g, o, rank@, groups@, src[b], src[b]);
            assert(src[a] < src[b]);
        }
        assert forall|k: int| 0 <= k < cand@.len() implies pair_of_listed(*g, o, rank@, #[trigger] cand@[k]) by {
            assert(listed(*g, o, src[k]) && cand@[k] == cand_pair(*g, o, rank@, src[k]));
        }
    }
    cand
}

/// The first `m` rows of the listing, in display order.
fn listing_prefix(
    g: &SnapshotGraph,
    o: NodePageOptions,
    cand: Vec<(u64, u64)>,
    rank: Ghost<Seq<usize>>,
    groups: Ghost<Seq<String>>,
    m: usize,
) -> (rows: Vec<usize>)
    requires
        g.wf(),
        !is_numeric(o.sort) ==> ranks_labels(*g, o, rank@, groups@),
        m <= cand@.len(),
        distinct_tags(cand@),
        forall|k: int| 0 <= k < cand@.len() ==> pair_of_listed(*g, o, rank@, #[trigger] cand@[k]),
        forall|n: int| listed(*g, o, n) ==> cand@.contains(#[trigger] cand_pair(*g, o, rank@, n)),
    ensures
        listing_rows(*g, o, rows@, m as int),
{
    let numeric = match o.sort {
        SortField::SelfSize => true,
        SortField::Id => true,
        SortField::EdgeCount => true,
        _ => false,
    };
    let asc = match o.dir {
        SortDir::Desc => false,
        SortDir::Asc => true,
    };
    let ghost cs = cand@;
    let r = rank_prefix(cand, m);
    // the node behind each ranked pair
    proof {
        assert forall|i: int| 0 <= i < m implies {
            let a = pair_node(o, (#[trigger] r@[i]).1);
            &&& listed(*g, o, a)
            &&& r@[i] == cand_pair(*g, o, rank@, a)
        } by {
            assert(cs.contains(r@[i]));
            let k = choose|k: int| 0 <= k < cs.len() && cs[k] == r@[i];
            assert(pair_of_listed(*g, o, rank@, cs[k]));
            let a = choose|a: int| listed(*g, o, a) && cs[k] == #[trigger] cand_pair(*g, o, rank@, a);
            lemma_pair_order(*g, o, rank@, groups@, a, a);
        }
    }
    let mut nodes: Vec<usize> = Vec::new();
    let mut i: usize = 0;
    while i < m
        invariant
            i <= m,
            r@.len() == m,
            numeric == is_numeric(o.sort),
            asc == (o.dir == SortDir::Asc),
            nodes@.len() == i,
            forall|j: int| 0 <= j < i ==> #[trigger] nodes@[j] as int == pair_node(o, r@[j].1),
            forall|j: int| 0 <= j < m ==> listed(*g, o, pair_node(o, (#[trigger] r@[j]).1)),
        decreases m - i,
    {
        let t = r[i].1;
        proof {
            assert(listed(*g, o, pair_node(o, r@[i as int].1)));
        }
        let a = if !numeric && asc {
            t as usize
        } else {
            (u64::MAX - t) as usize
        };
        nodes.push(a);
        i += 1;
    }
    proof {
        assert forall|a: int, b: int| 0 <= a < b < m implies kept_before(*g, o.sort, o.dir, #[trigger] nodes@[a] as int, #[trigger] nodes@[b] as int) by {
            assert(pair_lt(r@[a], r@[b]));
            lemma_pair_order(*g, o, rank@, groups@, nodes@[a] as int, nodes@[b] as int);
        }
        assert forall|x: int| listed(*g, o, x) && !nodes@.contains(x as usize) implies forall|i: int|
            0 <= i < m ==> kept_before(*g, o.sort, o.dir, #[trigger] nodes@[i] as int, x) by {
            let px = cand_pair(*g, o, rank@, x);
            assert(cs.contains(px));
            if r@.contains(px) {
                let p = choose|p: int| 0 <= p < r@.len() && r@[p] == px;
                lemma_pair_order(*g, o, rank@, groups@, x, x);
                assert(nodes@[p] as int == x);
                assert(nodes@.contains(x as usize));
            }
            assert forall|i: int| 0 <= i < m implies kept_before(*g, o.sort, o.dir, #[trigger] nodes@[i] as int, x) by {
                assert(pair_lt(r@[i], px));
                lemma_pair_order(*g, o, rank@, groups@, nodes@[i] as int, x);
            }
        }
    }
    if !(numeric && asc) {
        proof {
            assert forall|a: int, b: int| 0 <= a < b < m implies shown_before(*g, o.sort, o.dir, #[trigger] nodes@[a] as int, #[trigger] nodes@[b] as int) by {
                assert(kept_before(*g, o.sort, o.dir, nodes@[a] as int, nodes@[b] as int));
            }
            assert forall|x: int| listed(*g, o, x) && !nodes@.contains(x as usize) implies forall|i: int|
                0 <= i < m ==> kept_before(*g, o.sort, o.dir, #[trigger] nodes@[i] as int, x) by {
            }
            assert forall|i: int| 0 <= i < m implies listed(*g, o, #[trigger] nodes@[i] as int) by {
                assert(listed(*g, o, pair_node(o, r@[i].1)));
            }
        }
        return nodes;
    }
    // ascending numeric listings show the kept rows by ascending key and index
    let mut again: Vec<(u64, u64)> = Vec::new();
    let mut j: usize = 0;
    while j < m
        invariant
            j <= m,
            nodes@.len() == m,
            r@.len() == m,
            numeric && asc,
            is_numeric(o.sort) && o.dir == SortDir::Asc,
            again@.len() == j,
            forall|k: int| 0 <= k < j ==> #[trigger] again@[k] == (numeric_key(*g, o.sort, nodes@[k] as int) as u64, nodes@[k] as u64),
            forall|k: int| 0 <= k < m ==> (#[trigger] r@[k]).0 == numeric_key(*g, o.sort, nodes@[k] as int) as u64,
        decreases m - j,
    {
        again.push((r[j].0, nodes[j] as u64));
        j += 1;
    }
    let ghost ag = again@;
    assert(distinct_tags(ag)) by {
        assert forall|a: int, b: int| 0 <= a < b < ag.len() implies (#[trigger] ag[a]).1 != (#[trigger] ag[b]).1 by {
            assert(nodes@[a] != nodes@[b]) by {
                assert(kept_before(*g, o.sort, o.dir, nodes@[a] as int, nodes@[b] as int));
            }
        }
    }
    let r2 = rank_prefix(again, m);
    let mut rows: Vec<usize> = Vec::new();
    let mut k: usize = 0;
    while k < m
        invariant
            k <= m,
            r2@.len() == m,
            rows@.len() == k,
            forall|q: int| 0 <= q < k ==> #[trigger] rows@[q] as u64 == r2@[q].1,
            forall|q: int| 0 <= q < m ==> ag.contains(#[trigger] r2@[q]),
            forall|q: int| 0 <= q < ag.len() ==> (#[trigger] ag[q]).1 < u32::MAX,
        decreases m - k,
    {
        proof {
            assert(ag.contains(r2@[k as int]));
        }
        rows.push(r2[k].1 as usize);
        k += 1;
    }
    proof {
        assert forall|q: int| 0 <= q < m implies exists|p: int| 0 <= p < m && #[trigger] rows@[q] == nodes@[p] by {
            assert(ag.contains(r2@[q]));
            let p = choose|p: int| 0 <= p < ag.len() && ag[p] == r2@[q];
            assert(rows@[q] == nodes@[p]);
        }
        assert forall|a: int, b: int| 0 <= a < b < m implies shown_before(*g, o.sort, o.dir, #[trigger] rows@[a] as int, #[trigger] rows@[b] as int) by {
            assert(pair_lt(r2@[a], r2@[b]));
            assert(ag.contains(r2@[a]));
            assert(ag.contains(r2@[b]));
        }
        assert forall|i: int| 0 <= i < m implies listed(*g, o, #[trigger] rows@[i] as int) by {
            let p = choose|p: int| 0 <= p < m && #[trigger] rows@[i] == nodes@[p];
            assert(listed(*g, o, pair_node(o, r@[p].1)));
        }
        assert forall|x: int| listed(*g, o, x) && !rows@.contains(x as usize) implies forall|i: int|
            0 <= i < m ==> kept_before(*g, o.sort, o.dir, #[trigger] rows@[i] as int, x) by {
            if nodes@.contains(x as usize) {
                let p = choose|p: int| 0 <= p < m && nodes@[p] == x as usize;
                assert(ag.contains(ag[p]));
                assert(r2@.contains(ag[p]));
                let q = choose|q: int| 0 <= q < m && r2@[q] == ag[p];
                assert(rows@[q] == x as usize);
                assert(rows@.contains(x as usize));
            }
            assert forall|i: int| 0 <= i < m implies kept_before(*g, o.sort, o.dir, #[trigger] rows@[i] as int, x) by {
                let p = choose|p: int| 0 <= p < m && #[trigger] rows@[i] == nodes@[p];
                assert(kept_before(*g, o.sort, o.dir, nodes@[p] as int, x));
            }
        }
    }
    rows
}

/// Page `o.page` of the node listing (`get_node_page`): the nodes that pass
/// the type filter and the name query, ordered by
/// the field or label in the requested direction with ties by record index,
/// the first `(page + 1) * page_size` of them kept, and the last
/// `page_size` of those (fewer at the end) returned with their fields
/// resolved, together with the number of listed nodes.
pub fn get_node_page(g: &SnapshotGraph, o: NodePageOptions) -> (p: NodePage)
    requires
        g.wf(),
        o.page < usize::MAX,
        (o.page + 1) * o.page_size <= usize::MAX,
    ensures
        is_node_page(*g, o, p),
{
    proof {
        assert((o.page + 1) * o.page_size == o.page * o.page_size + o.page_size) by (nonlinear_arith);
        assert(0 <= o.page * o.page_size) by (nonlinear_arith);
    }
    let wanted = (o.page + 1) * o.page_size;
    let start = o.page * o.page_size;
    let flags = listed_flags(g, o);
    let numeric = match o.sort {
        SortField::SelfSize => true,
        SortField::Id => true,
        SortField::EdgeCount => true,
        _ => false,
    };
    let (rank, groups) = if numeric {
        (Vec::new(), Ghost(Seq::empty()))
    } else {
        label_ranks(g, o)
    };
    let cand = listed_pairs(g, o, &flags, &rank, groups);
    let total = cand.len();
    let m = if wanted < total { wanted } else { total };
    let rows = listing_prefix(g, o, cand, Ghost(rank@), groups, m);
    let len = if start >= m {
        0
    } else if m - start < o.page_size {
        m - start
    } else {
        o.page_size
    };
    let mut nodes: Vec<HeapSnapshotNode> = Vec::new();
    let mut k: usize = 0;
    while k < len
        invariant
            k <= len,
            g.wf(),
            len == 0 || start + len <= m,
            rows@.len() == m,
            forall|i: int| 0 <= i < m ==> listed(*g, o, #[trigger] rows@[i] as int),
            nodes@.len() == k,
            forall|i: int| 0 <= i < k ==> node_view(*g, rows@[start + i] as int, #[trigger] nodes@[i]),
        decreases len - k,
    {
        proof {
            assert(listed(*g, o, rows@[start + k] as int));
        }
        nodes.push(create_node(g, rows[start + k]));
        k += 1;
    }
    let p = NodePage { total, page: o.page, page_size: o.page_size, nodes };
    proof {
        let tot = listed_count(*g, o, g.node_count as int);
        let w = (o.page + 1) * o.page_size;
        let mm = if w < tot { w } else { tot };
        let st = o.page * o.page_size;
        let ln = if st >= mm { 0 } else if mm - st < o.page_size { mm - st } else { o.page_size as int };
        assert(mm == m);
        assert(st == start);
        assert(ln == len);
        assert(listing_rows(*g, o, rows@, mm));
        assert(page_of_rows(*g, o, p, rows@));
    }
    p
}

} // verus!
