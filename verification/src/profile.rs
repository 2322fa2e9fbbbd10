//! Sampling heap profiles (`.heapprofile`): the call tree as a preorder
//! list of frames with parent links, the frame labels, and the flat
//! summaries by frame, by script URL and by function.

use vstd::prelude::*;
use crate::diff::{diff_entries, entries_fit, fits_i64, is_diff, ProfileDiff};
use crate::grouping::{group_by_label, grouped, total_weight, TypeSummary};
use crate::pattern::{compile_filter, filter_active, opt_view};
use crate::summary::{distinct_labels, top_entries, top_passing};
use crate::text::{decimal, push_decimal};
use crate::types::Error;


verus! {

/// One node of the call tree, in preorder: its call frame, the bytes
/// sampled in it, and its parent's position (`None` for the root).
#[derive(Debug, Clone)]
pub struct ProfileNode {
    pub function_name: String,
    pub url: String,
    pub line_number: i32,
    pub column_number: i32,
    pub self_size: u64,
    pub parent: Option<usize>,
}

/// Flat attribution of sampled bytes: per frame label, per script URL and
/// per function name (each label with its summed size and the number of
/// nodes that contributed).
#[derive(Debug, Clone)]
pub struct HeapProfileSummary {
    pub total_size: u64,
    pub by_frame: Vec<(String, TypeSummary)>,
    pub by_url: Vec<(String, TypeSummary)>,
    pub by_function: Vec<(String, TypeSummary)>,
}

/// Function name of a frame, `(anonymous)` when empty.
pub open spec fn fn_name_spec(n: ProfileNode) -> Seq<char> {
    if n.function_name@.len() == 0 {
        "(anonymous)"@
    } else {
        n.function_name@
    }
}

/// Script URL of a frame, `<no-url>` when empty.
pub open spec fn url_spec(n: ProfileNode) -> Seq<char> {
    if n.url@.len() == 0 {
        "<no-url>"@
    } else {
        n.url@
    }
}

/// An integer in decimal, with a leading `-` when negative.
pub open spec fn signed_decimal(v: int) -> Seq<char> {
    if v < 0 {
        "-"@ + decimal((-v) as nat)
    } else {
        decimal(v as nat)
    }
}

/// `function @ url:line`, the line counted from one.
pub open spec fn frame_label_spec(n: ProfileNode) -> Seq<char> {
    fn_name_spec(n) + " @ "@ + url_spec(n) + ":"@ + signed_decimal(n.line_number + 1)
}

/// The function name of a node (`fn_name_of`).
pub fn fn_name_of(n: &ProfileNode) -> (s: String)
    ensures
        s@ == fn_name_spec(*n),
{
    if n.function_name.as_str().is_empty() {
        "(anonymous)".to_owned()
    } else {
        n.function_name.clone()
    }
}

/// The script URL of a node (`url_of`).
pub fn url_of(n: &ProfileNode) -> (s: String)
    ensures
        s@ == url_spec(*n),
{
    if n.url.as_str().is_empty() {
        "<no-url>".to_owned()
    } else {
        n.url.clone()
    }
}

/// The label of a node's frame (`frame_label`).
pub fn frame_label(n: &ProfileNode) -> (s: String)
    ensures
        s@ == frame_label_spec(*n),
{
    let mut s = fn_name_of(n);
    s.append(" @ ");
    let u = url_of(n);
    s.append(u.as_str());
    s.append(":");
    let line: i64 = n.line_number as i64 + 1;
    if line < 0 {
        s.append("-");
        push_decimal(&mut s, (-line) as u64);
    } else {
        push_decimal(&mut s, line as u64);
    }
    proof {
        reveal_strlit("-");
        reveal_strlit(" @ ");
        reveal_strlit(":");
    }
    s
}

/// Summed self sizes of the first `k` nodes.
pub open spec fn self_total(nodes: Seq<ProfileNode>, k: int) -> int
    decreases k,
{
    if k <= 0 {
        0
    } else {
        self_total(nodes, k - 1) + nodes[k - 1].self_size
    }
}

/// Position `i` of the nodes as a key.
pub open spec fn iota(n: int) -> Seq<u32> {
    Seq::new(n as nat, |i: int| i as u32)
}

/// The self size of each node.
pub open spec fn self_sizes(nodes: Seq<ProfileNode>) -> Seq<u64> {
    Seq::new(nodes.len(), |i: int| nodes[i].self_size)
}

/// The nodes that were sampled.
pub open spec fn sampled(nodes: Seq<ProfileNode>) -> Seq<bool> {
    Seq::new(nodes.len(), |i: int| nodes[i].self_size > 0)
}

/// The label of node `n` in breakdown `which`: its frame label, its URL or
/// its function name.
pub open spec fn label_in(n: ProfileNode, which: int) -> Seq<char> {
    if which == 0 {
        frame_label_spec(n)
    } else if which == 1 {
        url_spec(n)
    } else {
        fn_name_spec(n)
    }
}

/// `labels[i]` is the label of node `i` in breakdown `which`.
pub open spec fn labels_by(nodes: Seq<ProfileNode>, labels: Seq<String>, which: int) -> bool {
    &&& labels.len() == nodes.len()
    &&& forall|i: int| 0 <= i < nodes.len() ==> (#[trigger] labels[i])@ == label_in(nodes[i], which)
}

/// `out` groups the sampled nodes by the labels `labels` (one per node).
pub open spec fn grouped_by(nodes: Seq<ProfileNode>, labels: Seq<String>, out: Seq<(String, TypeSummary)>) -> bool {
    grouped(iota(nodes.len() as int), self_sizes(nodes), sampled(nodes), labels, Seq::empty(), Seq::empty(), out)
}

/// `s` is the flat summary of `nodes`: the total of the self sizes, and
/// the sampled nodes grouped by frame label, by URL and by function name.
pub open spec fn is_flat_summary(nodes: Seq<ProfileNode>, s: HeapProfileSummary) -> bool {
    &&& s.total_size == self_total(nodes, nodes.len() as int)
    &&& exists|l: Seq<String>| #[trigger] labels_by(nodes, l, 0) && grouped_by(nodes, l, s.by_frame@)
    &&& exists|l: Seq<String>| #[trigger] labels_by(nodes, l, 1) && grouped_by(nodes, l, s.by_url@)
    &&& exists|l: Seq<String>| #[trigger] labels_by(nodes, l, 2) && grouped_by(nodes, l, s.by_function@)
}

proof fn lemma_total_is_self_total(nodes: Seq<ProfileNode>, k: int)
    requires
        0 <= k <= nodes.len(),
    ensures
        total_weight(self_sizes(nodes), sampled(nodes), k) == self_total(nodes, k),
    decreases k,
{
    if k > 0 {
        lemma_total_is_self_total(nodes, k - 1);
    }
}

proof fn lemma_self_total_mono(nodes: Seq<ProfileNode>, a: int, b: int)
    requires
        0 <= a <= b <= nodes.len(),
    ensures
        self_total(nodes, a) <= self_total(nodes, b),
    decreases b - a,
{
    if a < b {
        lemma_self_total_mono(nodes, a, b - 1);
    }
}

/// The labels of every node, by frame (0), URL (1) or function (2).
fn labels_of_nodes(nodes: &Vec<ProfileNode>, which: u8) -> (l: Vec<String>)
    requires
        which <= 2,
    ensures
        labels_by(nodes@, l@, which as int),
{
    let mut l: Vec<String> = Vec::new();
    let mut i: usize = 0;
    while i < nodes.len()
        invariant
            i <= nodes@.len(),
            which <= 2,
            l@.len() == i,
            forall|x: int| 0 <= x < i ==> (#[trigger] l@[x])@ == if which == 0 {
                frame_label_spec(nodes@[x])
            } else if which == 1 {
                url_spec(nodes@[x])
            } else {
                fn_name_spec(nodes@[x])
            },
        decreases nodes@.len() - i,
    {
        let n = &nodes[i];
        let s = if which == 0 {
            frame_label(n)
        } else if which == 1 {
            url_of(n)
        } else {
            fn_name_of(n)
        };
        l.push(s);
        i += 1;
    }
    l
}

/// The flat summary of a call tree (`compute_flat_summary`).
pub fn compute_flat_summary(nodes: &Vec<ProfileNode>) -> (s: HeapProfileSummary)
    requires
        nodes@.len() <= u32::MAX,
        self_total(nodes@, nodes@.len() as int) <= u64::MAX,
    ensures
        is_flat_summary(nodes@, s),
{
    let n = nodes.len();
    let mut keys: Vec<u32> = Vec::new();
    let mut weights: Vec<u64> = Vec::new();
    let mut counted: Vec<bool> = Vec::new();
    let mut total: u64 = 0;
    let mut i: usize = 0;
    while i < n
        invariant
            i <= n,
            n == nodes@.len(),
            n <= u32::MAX,
            self_total(nodes@, n as int) <= u64::MAX,
            keys@ == iota(n as int).subrange(0, i as int),
            weights@ == self_sizes(nodes@).subrange(0, i as int),
            counted@ == sampled(nodes@).subrange(0, i as int),
            total == self_total(nodes@, i as int),
        decreases n - i,
    {
        proof {
            lemma_self_total_mono(nodes@, i + 1, n as int);
        }
        keys.push(i as u32);
        weights.push(nodes[i].self_size);
        counted.push(nodes[i].self_size > 0);
        total = total + nodes[i].self_size;
        i += 1;
    }
    proof {
        assert(keys@ == iota(n as int));
        assert(weights@ == self_sizes(nodes@));
        assert(counted@ == sampled(nodes@));
        lemma_total_is_self_total(nodes@, n as int);
        reveal_strlit("");
        assert(""@ =~= Seq::<char>::empty());
    }
    let fl = labels_of_nodes(nodes, 0);
    let ul = labels_of_nodes(nodes, 1);
    let nl = labels_of_nodes(nodes, 2);
    let by_frame = group_by_label(&keys, &weights, &counted, &fl, "", "");
    let by_url = group_by_label(&keys, &weights, &counted, &ul, "", "");
    let by_function = group_by_label(&keys, &weights, &counted, &nl, "", "");
    let s = HeapProfileSummary { total_size: total, by_frame, by_url, by_function };
    proof {
        assert(labels_by(nodes@, fl@, 0) && grouped_by(nodes@, fl@, s.by_frame@));
        assert(labels_by(nodes@, ul@, 1) && grouped_by(nodes@, ul@, s.by_url@));
        assert(labels_by(nodes@, nl@, 2) && grouped_by(nodes@, nl@, s.by_function@));
    }
    s
}

/// `top`, or every entry when it is absent.
pub open spec fn cap_of(top: Option<usize>) -> usize {
    match top {
        Some(k) => k,
        None => usize::MAX,
    }
}

/// The view of a flat summary for `top` and `filter`
/// (`slice_flat_summary`): each breakdown cut to its `top` largest
/// entries that pass `filter` (an invalid pattern filters nothing); with an
/// active filter the total is that of all frames passing it, before the
/// cut to `top` (saturated at 2^64 - 1), else the full total.
pub fn slice_flat_summary(full: &HeapProfileSummary, top: Option<usize>, filter: Option<&str>) -> (s: HeapProfileSummary)
    requires
        distinct_labels(full.by_frame@),
        distinct_labels(full.by_url@),
        distinct_labels(full.by_function@),
    ensures
        top_entries(full.by_frame@, opt_view(filter), cap_of(top), s.by_frame@),
        top_entries(full.by_url@, opt_view(filter), cap_of(top), s.by_url@),
        top_entries(full.by_function@, opt_view(filter), cap_of(top), s.by_function@),
        !filter_active(opt_view(filter)) ==> s.total_size == full.total_size,
        filter_active(opt_view(filter)) ==> s.total_size == if passing_total(full.by_frame@, opt_view(filter)) <= u64::MAX {
            passing_total(full.by_frame@, opt_view(filter))
        } else {
            u64::MAX as int
        },
{
    let k: usize = match top {
        Some(k) => k,
        None => usize::MAX,
    };
    let by_frame = top_passing(&full.by_frame, k, filter);
    let by_url = top_passing(&full.by_url, k, filter);
    let by_function = top_passing(&full.by_function, k, filter);
    let re = compile_filter(filter);
    let total_size = if re.is_some() {
        let v = &full.by_frame;
        let mut t: u64 = 0;
        let mut i: usize = 0;
        while i < v.len()
            invariant
                i <= v@.len(),
                re is Some,
                re matches Some(p) ==> opt_view(filter) == Some(p.source()),
                filter_active(opt_view(filter)),
                t == if passing_total(v@.subrange(0, i as int), opt_view(filter)) <= u64::MAX {
                    passing_total(v@.subrange(0, i as int), opt_view(filter))
                } else {
                    u64::MAX as int
                },
            decreases v@.len() - i,
        {
            proof {
                assert(v@.subrange(0, i + 1).drop_last() =~= v@.subrange(0, i as int));
                lemma_passing_total_nonneg(v@.subrange(0, i as int), opt_view(filter));
            }
            if crate::pattern::passes_filter(&re, v[i].0.as_str()) {
                let w = v[i].1.size;
                t = if t > u64::MAX - w { u64::MAX } else { t + w };
            }
            i += 1;
        }
        proof {
            assert(v@.subrange(0, v@.len() as int) =~= v@);
        }
        t
    } else {
        full.total_size
    };
    HeapProfileSummary { total_size, by_frame, by_url, by_function }
}

/// Summed sizes of the entries whose labels pass `filter`.
pub open spec fn passing_total(v: Seq<(String, TypeSummary)>, filter: Option<Seq<char>>) -> int
    decreases v.len(),
{
    if v.len() == 0 {
        0
    } else {
        passing_total(v.drop_last(), filter) + if crate::pattern::passes(filter, v.last().0@) {
            v.last().1.size as int
        } else {
            0
        }
    }
}

proof fn lemma_passing_total_nonneg(v: Seq<(String, TypeSummary)>, filter: Option<Seq<char>>)
    ensures
        passing_total(v, filter) >= 0,
    decreases v.len(),
{
    if v.len() > 0 {
        lemma_passing_total_nonneg(v.drop_last(), filter);
    }
}

/// Every parent precedes its child (the list is in preorder).
pub open spec fn parents_precede(nodes: Seq<ProfileNode>) -> bool {
    forall|i: int| 0 <= i < nodes.len() ==> match (#[trigger] nodes[i]).parent {
        Some(p) => p < i,
        None => true,
    }
}

/// Positions from the root down to node `i` along the parent links.
pub open spec fn path_to(nodes: Seq<ProfileNode>, i: int) -> Seq<int>
    decreases i,
{
    if i < 0 || i >= nodes.len() {
        Seq::empty()
    } else {
        match nodes[i].parent {
            Some(p) => if (p as int) < i {
                path_to(nodes, p as int).push(i)
            } else {
                seq![i]
            },
            None => seq![i],
        }
    }
}

/// A sampled frame with the labels of its stack, root first.
#[derive(Debug, Clone)]
pub struct FlatCallFrame {
    pub function_name: String,
    pub url: String,
    pub line_number: i32,
    pub column_number: i32,
    pub self_size: u64,
    pub stack: Vec<String>,
}

/// `f` is node `i` flattened: its names, position, size and the frame
/// labels of its path from the root.
pub open spec fn flat_frame(nodes: Seq<ProfileNode>, i: int, f: FlatCallFrame) -> bool {
    let path = path_to(nodes, i);
    &&& f.function_name@ == fn_name_spec(nodes[i])
    &&& f.url@ == url_spec(nodes[i])
    &&& f.line_number == nodes[i].line_number
    &&& f.column_number == nodes[i].column_number
    &&& f.self_size == nodes[i].self_size
    &&& f.stack@.len() == path.len()
    &&& forall|j: int| 0 <= j < path.len() ==> (#[trigger] f.stack@[j])@ == frame_label_spec(nodes[path[j]])
}

/// Number of sampled nodes among the first `k`.
pub open spec fn sampled_count(nodes: Seq<ProfileNode>, k: int) -> int
    decreases k,
{
    if k <= 0 {
        0
    } else {
        sampled_count(nodes, k - 1) + if nodes[k - 1].self_size > 0 { 1int } else { 0 }
    }
}

/// `f` is the flattened form of a sampled node before position `bound`
/// that has `k` sampled nodes before it.
pub open spec fn frame_origin(nodes: Seq<ProfileNode>, f: FlatCallFrame, k: int, bound: int) -> bool {
    exists|x: int| 0 <= x < bound && nodes[x].self_size > 0 && sampled_count(nodes, x) == k && #[trigger] flat_frame(nodes, x, f)
}

proof fn lemma_path_to(nodes: Seq<ProfileNode>, i: int)
    requires
        0 <= i < nodes.len(),
        parents_precede(nodes),
    ensures
        path_to(nodes, i).len() >= 1,
        path_to(nodes, i).last() == i,
        forall|j: int| 0 <= j < path_to(nodes, i).len() ==> 0 <= #[trigger] path_to(nodes, i)[j] <= i,
    decreases i,
{
    match nodes[i].parent {
        Some(p) => {
            lemma_path_to(nodes, p as int);
        },
        None => {},
    }
}

/// The labels of the frames on the path to node `i`, root first.
fn stack_labels(nodes: &Vec<ProfileNode>, i: usize) -> (st: Vec<String>)
    requires
        i < nodes@.len(),
        parents_precede(nodes@),
    ensures
        st@.len() == path_to(nodes@, i as int).len(),
        forall|j: int| 0 <= j < st@.len() ==> (#[trigger] st@[j])@ == frame_label_spec(nodes@[path_to(nodes@, i as int)[j]]),
    decreases i,
{
    proof {
        lemma_path_to(nodes@, i as int);
    }
    let mut st = match nodes[i].parent {
        Some(p) => stack_labels(nodes, p),
        None => Vec::new(),
    };
    let ghost before = st@;
    st.push(frame_label(&nodes[i]));
    proof {
        let path = path_to(nodes@, i as int);
        assert forall|j: int| 0 <= j < st@.len() implies (#[trigger] st@[j])@ == frame_label_spec(nodes@[path[j]]) by {
            if j < before.len() {
                assert(st@[j] == before[j]);
            }
        }
    }
    st
}

/// The sampled nodes in preorder, each with its stack (`flatten`).
pub fn flatten(nodes: &Vec<ProfileNode>) -> (out: Vec<FlatCallFrame>)
    requires
        parents_precede(nodes@),
    ensures
        out@.len() == sampled_count(nodes@, nodes@.len() as int),
        forall|k: int| 0 <= k < out@.len() ==> frame_origin(nodes@, #[trigger] out@[k], k, nodes@.len() as int),
{
    let mut out: Vec<FlatCallFrame> = Vec::new();
    let mut i: usize = 0;
    while i < nodes.len()
        invariant
            i <= nodes@.len(),
            parents_precede(nodes@),
            out@.len() == sampled_count(nodes@, i as int),
            forall|k: int| 0 <= k < out@.len() ==> frame_origin(nodes@, #[trigger] out@[k], k, i as int),
        decreases nodes@.len() - i,
    {
        let n = &nodes[i];
        if n.self_size > 0 {
            let stack = stack_labels(nodes, i);
            let f = FlatCallFrame {
                function_name: fn_name_of(n),
                url: url_of(n),
                line_number: n.line_number,
                column_number: n.column_number,
                self_size: n.self_size,
                stack,
            };
            let ghost before = out@;
            out.push(f);
            proof {
                assert(flat_frame(nodes@, i as int, out@[before.len() as int]));
                assert forall|k: int| 0 <= k < out@.len() implies frame_origin(nodes@, #[trigger] out@[k], k, i + 1) by {
                    if k < before.len() {
                        assert(out@[k] == before[k]);
                        assert(frame_origin(nodes@, before[k], k, i as int));
                        let x = choose|x: int| 0 <= x < i && nodes@[x].self_size > 0 && sampled_count(nodes@, x) == k
                            && #[trigger] flat_frame(nodes@, x, before[k]);
                        assert(flat_frame(nodes@, x, out@[k]));
                    } else {
                        assert(flat_frame(nodes@, i as int, out@[k]));
                    }
                }
            }
        } else {
            proof {
                assert forall|k: int| 0 <= k < out@.len() implies frame_origin(nodes@, #[trigger] out@[k], k, i + 1) by {
                    assert(frame_origin(nodes@, out@[k], k, i as int));
                    let x = choose|x: int| 0 <= x < i && nodes@[x].self_size > 0 && sampled_count(nodes@, x) == k
                        && #[trigger] flat_frame(nodes@, x, out@[k]);
                    assert(flat_frame(nodes@, x, out@[k]));
                }
            }
        }
        i += 1;
    }
    out
}

/// `s` is what `summarize` gives of the full summary `full` for `top`
/// and `filter`.
pub open spec fn summarized(full: HeapProfileSummary, top: Option<usize>, filter: Option<&str>, s: HeapProfileSummary) -> bool {
    if top is None && filter is None {
        &&& s.total_size == full.total_size
        &&& s.by_frame@ == full.by_frame@
        &&& s.by_url@ == full.by_url@
        &&& s.by_function@ == full.by_function@
    } else {
        &&& top_entries(full.by_frame@, opt_view(filter), cap_of(top), s.by_frame@)
        &&& top_entries(full.by_url@, opt_view(filter), cap_of(top), s.by_url@)
        &&& top_entries(full.by_function@, opt_view(filter), cap_of(top), s.by_function@)
        &&& !filter_active(opt_view(filter)) ==> s.total_size == full.total_size
        &&& filter_active(opt_view(filter)) ==> s.total_size == if passing_total(full.by_frame@, opt_view(filter)) <= u64::MAX {
            passing_total(full.by_frame@, opt_view(filter))
        } else {
            u64::MAX as int
        }
    }
}

/// Self and cumulative (self plus descendants) bytes under one label, with
/// the number of nodes that contributed their self bytes.
#[derive(Debug, Clone, Copy)]
pub struct SizeEntry {
    pub self_size: u64,
    pub cumulative_size: u64,
    pub count: usize,
}

/// Self and cumulative attribution by frame, URL and function.
#[derive(Debug, Clone)]
pub struct CumulativeSummary {
    pub total_size: u64,
    pub by_frame: Vec<(String, SizeEntry)>,
    pub by_url: Vec<(String, SizeEntry)>,
    pub by_function: Vec<(String, SizeEntry)>,
}

/// The pattern `p` matches the frame label, the URL or the function name
/// of node `i`.
pub open spec fn node_matches(nodes: Seq<ProfileNode>, p: Seq<char>, i: int) -> bool {
    crate::pattern::regex_is_match(p, frame_label_spec(nodes[i])) || crate::pattern::regex_is_match(p, url_spec(nodes[i]))
        || crate::pattern::regex_is_match(p, fn_name_spec(nodes[i]))
}

/// Node `i` or one of its ancestors matches `p`.
pub open spec fn path_matches(nodes: Seq<ProfileNode>, p: Seq<char>, i: int) -> bool
    decreases i,
{
    if i < 0 || i >= nodes.len() {
        false
    } else {
        node_matches(nodes, p, i) || match nodes[i].parent {
            Some(q) => (q as int) < i && path_matches(nodes, p, q as int),
            None => false,
        }
    }
}

/// Node `i` counts: it was sampled and, under an active `focus`, it or an
/// ancestor matches the focus.
pub open spec fn contributes(nodes: Seq<ProfileNode>, focus: Option<Seq<char>>, i: int) -> bool {
    nodes[i].self_size > 0 && (!filter_active(focus) || path_matches(nodes, focus.unwrap(), i))
}

/// The node `k` parent links above node `i`, if the links lead that far.
pub open spec fn ancestor_at(nodes: Seq<ProfileNode>, i: int, k: nat) -> Option<int>
    decreases k,
{
    if k == 0 {
        if 0 <= i < nodes.len() {
            Some(i)
        } else {
            None
        }
    } else {
        match ancestor_at(nodes, i, (k - 1) as nat) {
            Some(j) => match nodes[j].parent {
                Some(q) => if (q as int) < j {
                    Some(q as int)
                } else {
                    None
                },
                None => None,
            },
            None => None,
        }
    }
}

proof fn lemma_match_descends(nodes: Seq<ProfileNode>, p: Seq<char>, i: int, k: nat, a: int)
    requires
        ancestor_at(nodes, i, k) == Some(a),
        path_matches(nodes, p, a),
    ensures
        path_matches(nodes, p, i),
    decreases k,
{
    if k > 0 {
        let j = ancestor_at(nodes, i, (k - 1) as nat).unwrap();
        lemma_ancestor_in_range(nodes, i, (k - 1) as nat);
        let q = nodes[j].parent.unwrap();
        assert(q as int == a && a < j);
        assert(path_matches(nodes, p, j));
        lemma_match_descends(nodes, p, i, (k - 1) as nat, j);
    }
}

/// Focus is a property of the stack: a sampled node counts in the
/// cumulative summary when the focus pattern matches the frame label, URL
/// or function name of any node on its parent chain, itself included.
pub proof fn lemma_focus_on_stack(nodes: Seq<ProfileNode>, focus: Option<Seq<char>>, i: int, k: nat, a: int)
    requires
        0 <= i < nodes.len(),
        nodes[i].self_size > 0,
        ancestor_at(nodes, i, k) == Some(a),
        filter_active(focus) ==> (crate::pattern::regex_is_match(focus.unwrap(), frame_label_spec(nodes[a]))
            || crate::pattern::regex_is_match(focus.unwrap(), url_spec(nodes[a])) || crate::pattern::regex_is_match(
            focus.unwrap(),
            fn_name_spec(nodes[a]),
        )),
    ensures
        contributes(nodes, focus, i),
{
    if filter_active(focus) {
        assert(0 <= a < nodes.len()) by {
            lemma_ancestor_in_range(nodes, i, k);
        }
        assert(path_matches(nodes, focus.unwrap(), a));
        lemma_match_descends(nodes, focus.unwrap(), i, k, a);
    }
}

proof fn lemma_ancestor_in_range(nodes: Seq<ProfileNode>, i: int, k: nat)
    ensures
        ancestor_at(nodes, i, k) matches Some(a) ==> 0 <= a < nodes.len(),
    decreases k,
{
    if k > 0 {
        lemma_ancestor_in_range(nodes, i, (k - 1) as nat);
    }
}

/// Under an active focus, a sampled node counts only when some node on its
/// parent chain matches.
pub proof fn lemma_focus_needs_match(nodes: Seq<ProfileNode>, focus: Option<Seq<char>>, i: int)
    requires
        0 <= i < nodes.len(),
        filter_active(focus),
        contributes(nodes, focus, i),
    ensures
        nodes[i].self_size > 0,
        exists|k: nat| #[trigger] ancestor_at(nodes, i, k) matches Some(a) && node_matches(nodes, focus.unwrap(), a),
    decreases i,
{
    lemma_path_has_match(nodes, focus.unwrap(), i);
}

proof fn lemma_path_has_match(nodes: Seq<ProfileNode>, p: Seq<char>, i: int)
    requires
        path_matches(nodes, p, i),
    ensures
        exists|k: nat| #[trigger] ancestor_at(nodes, i, k) matches Some(a) && node_matches(nodes, p, a),
    decreases i,
{
    if node_matches(nodes, p, i) {
        assert(ancestor_at(nodes, i, 0) == Some(i));
    } else {
        let q = nodes[i].parent.unwrap();
        assert((q as int) < i && path_matches(nodes, p, q as int));
        lemma_path_has_match(nodes, p, q as int);
        let k = choose|k: nat| #[trigger] ancestor_at(nodes, q as int, k) matches Some(a) && node_matches(nodes, p, a);
        lemma_ancestor_shift(nodes, i, q, k);
        assert(ancestor_at(nodes, i, k + 1) matches Some(a) && node_matches(nodes, p, a));
    }
}

/// Climbing `k + 1` links from `i` is climbing `k` from its parent `q`.
proof fn lemma_ancestor_shift(nodes: Seq<ProfileNode>, i: int, q: usize, k: nat)
    requires
        0 <= i < nodes.len(),
        nodes[i].parent == Some(q),
        q < i,
    ensures
        ancestor_at(nodes, i, k + 1) == ancestor_at(nodes, q as int, k),
    decreases k,
{
    if k == 0 {
        assert(ancestor_at(nodes, i, 0) == Some(i));
        assert(ancestor_at(nodes, i, 1) == Some(q as int));
    } else {
        lemma_ancestor_shift(nodes, i, q, (k - 1) as nat);
        assert(ancestor_at(nodes, i, k + 1) == match ancestor_at(nodes, i, k) {
            Some(j) => match nodes[j].parent {
                Some(x) => if (x as int) < j {
                    Some(x as int)
                } else {
                    None
                },
                None => None,
            },
            None => None,
        });
    }
}

/// Node `i` keeps its self bytes: it counts and an active `ignore` does not
/// match it.
pub open spec fn keeps_self(nodes: Seq<ProfileNode>, focus: Option<Seq<char>>, ignore: Option<Seq<char>>, i: int) -> bool {
    contributes(nodes, focus, i) && !(filter_active(ignore) && node_matches(nodes, ignore.unwrap(), i))
}

/// The nodes that keep their self bytes.
pub open spec fn self_flags(nodes: Seq<ProfileNode>, focus: Option<Seq<char>>, ignore: Option<Seq<char>>) -> Seq<bool> {
    Seq::new(nodes.len(), |i: int| keeps_self(nodes, focus, ignore, i))
}

/// The cumulative records of the first `k` nodes: a counting node's self
/// bytes, once for each node on its path from the root.
pub open spec fn cum_records(nodes: Seq<ProfileNode>, focus: Option<Seq<char>>, k: int) -> Seq<(u32, u64)>
    decreases k,
{
    if k <= 0 {
        Seq::empty()
    } else {
        cum_records(nodes, focus, k - 1) + if contributes(nodes, focus, k - 1) {
            path_to(nodes, k - 1).map_values(|a: int| (a as u32, nodes[k - 1].self_size))
        } else {
            Seq::empty()
        }
    }
}

/// Position `j` of the path `p` is the first there with its label in
/// breakdown `which`.
pub open spec fn first_on_path(nodes: Seq<ProfileNode>, which: int, p: Seq<int>, j: int) -> bool {
    forall|x: int| 0 <= x < j ==> label_in(nodes[p[x]], which) != label_in(nodes[p[j]], which)
}

/// For each position of the path `p`: it is the first with its label.
pub open spec fn path_firsts(nodes: Seq<ProfileNode>, which: int, p: Seq<int>) -> Seq<bool> {
    Seq::new(p.len(), |j: int| first_on_path(nodes, which, p, j))
}

/// Which cumulative records of the first `k` nodes count in breakdown
/// `which`: a counting node's bytes go once to each label on its path, at
/// the first position from the root that carries it, however often the
/// label recurs (pprof's counting).
pub open spec fn cum_firsts(nodes: Seq<ProfileNode>, focus: Option<Seq<char>>, which: int, k: int) -> Seq<bool>
    decreases k,
{
    if k <= 0 {
        Seq::empty()
    } else {
        cum_firsts(nodes, focus, which, k - 1) + if contributes(nodes, focus, k - 1) {
            path_firsts(nodes, which, path_to(nodes, k - 1))
        } else {
            Seq::empty()
        }
    }
}

/// The cumulative sums of breakdown `which`, added over its labels, pass
/// 2^64 - 1.
pub open spec fn cum_overflows(nodes: Seq<ProfileNode>, focus: Option<Seq<char>>, which: int) -> bool {
    let n = nodes.len() as int;
    let recs = cum_records(nodes, focus, n);
    crate::grouping::total_weight(recs.map_values(|r: (u32, u64)| r.1), cum_firsts(nodes, focus, which, n), recs.len() as int)
        > u64::MAX
}

/// Summed self bytes of the counting nodes among the first `k`.
pub open spec fn counted_total(nodes: Seq<ProfileNode>, focus: Option<Seq<char>>, k: int) -> int
    decreases k,
{
    if k <= 0 {
        0
    } else {
        counted_total(nodes, focus, k - 1) + if contributes(nodes, focus, k - 1) { nodes[k - 1].self_size as int } else { 0 }
    }
}

/// The entry for label `l` of breakdown `which`: the self bytes and count
/// of the nodes labelled `l` that keep them (counts by frame only), and
/// the cumulative bytes: those of each counting node with `l` on its path,
/// once.
#[verifier::opaque]
pub open spec fn cum_entry(
    nodes: Seq<ProfileNode>,
    labels: Seq<String>,
    focus: Option<Seq<char>>,
    ignore: Option<Seq<char>>,
    which: int,
    l: Seq<char>,
    e: SizeEntry,
) -> bool {
    let n = nodes.len() as int;
    let recs = cum_records(nodes, focus, n);
    &&& e.self_size == crate::grouping::group_weight(iota(n), self_sizes(nodes), self_flags(nodes, focus, ignore), labels,
        Seq::empty(), Seq::empty(), l, n)
    &&& e.count == if which == 0 {
        crate::grouping::group_count(iota(n), self_flags(nodes, focus, ignore), labels, Seq::empty(), Seq::empty(), l, n)
    } else {
        0
    }
    &&& e.cumulative_size == crate::grouping::group_weight(recs.map_values(|r: (u32, u64)| r.0), recs.map_values(
        |r: (u32, u64)| r.1,
    ), cum_firsts(nodes, focus, which, n), labels, Seq::empty(), Seq::empty(), l, recs.len() as int)
}

/// Cumulative sizes of the entries.
pub open spec fn cum_keys(all: Seq<(String, SizeEntry)>) -> Seq<u64> {
    all.map_values(|e: (String, SizeEntry)| e.1.cumulative_size)
}

/// `all` has one entry per label (by `labels`) on the path of a counting
/// node, in ascending label order, each with its sizes.
#[verifier::opaque]
pub open spec fn cum_all(
    nodes: Seq<ProfileNode>,
    focus: Option<Seq<char>>,
    ignore: Option<Seq<char>>,
    which: int,
    labels: Seq<String>,
    all: Seq<(String, SizeEntry)>,
) -> bool {
    &&& labels_by(nodes, labels, which)
    &&& forall|a: int, b: int| 0 <= a < b < all.len() ==> crate::sorting::chars_le((#[trigger] all[a]).0@, (#[trigger] all[b]).0@)
        && all[a].0@ != all[b].0@
    &&& forall|i: int| 0 <= i < all.len() ==> cum_entry(nodes, labels, focus, ignore, which, (#[trigger] all[i]).0@, all[i].1)
    &&& exists|wit: Seq<int>| #[trigger] labels_cover(all, labels, cum_records(nodes, focus, nodes.len() as int), cum_firsts(nodes, focus, which, nodes.len() as int), wit)
}

/// Each counted record's label has an entry in `all`, and each entry's
/// label is the label of record `wit[i]` (a path label, whose first
/// position on that path is counted).
pub open spec fn labels_cover(
    all: Seq<(String, SizeEntry)>,
    labels: Seq<String>,
    recs: Seq<(u32, u64)>,
    counted: Seq<bool>,
    wit: Seq<int>,
) -> bool {
    &&& forall|r: int| #![trigger counted[r]] 0 <= r < recs.len() && counted[r] ==> exists|i: int|
        #![trigger all[i]] 0 <= i < all.len() && all[i].0@ == crate::grouping::label_of(labels, Seq::empty(), Seq::empty(), recs[r].0)
    &&& wit.len() == all.len()
    &&& forall|i: int| 0 <= i < all.len() ==> 0 <= #[trigger] wit[i] < recs.len() && all[i].0@ == crate::grouping::label_of(
        labels,
        Seq::empty(),
        Seq::empty(),
        recs[wit[i]].0,
    )
}

/// `out` is `all` when `top` is `usize::MAX`, else its `top` largest
/// entries by cumulative size (ties in order), the positions `rows`.
#[verifier::opaque]
pub open spec fn cum_cut(all: Seq<(String, SizeEntry)>, top: usize, rows: Seq<usize>, out: Seq<(String, SizeEntry)>) -> bool {
    if top == usize::MAX {
        out == all
    } else {
        &&& crate::sorting::ranked_desc(
            cum_keys(all),
            Seq::new(all.len(), |i: int| true),
            rows,
            if all.len() < top { all.len() as int } else { top as int },
        )
        &&& out.len() == rows.len()
        &&& forall|k: int| 0 <= k < rows.len() ==> #[trigger] out[k] == all[rows[k] as int]
    }
}

/// `out` is breakdown `which` (frame, URL, function) of the cumulative
/// summary for `focus`, `ignore` and `top`.
pub open spec fn cum_breakdown(
    nodes: Seq<ProfileNode>,
    focus: Option<Seq<char>>,
    ignore: Option<Seq<char>>,
    which: int,
    top: usize,
    out: Seq<(String, SizeEntry)>,
) -> bool {
    exists|labels: Seq<String>, all: Seq<(String, SizeEntry)>, rows: Seq<usize>|
        #[trigger] cum_all(nodes, focus, ignore, which, labels, all) && #[trigger] cum_cut(all, top, rows, out)
}

/// The positions on the path from the root to node `i`.
fn path_indices(nodes: &Vec<ProfileNode>, i: usize) -> (v: Vec<usize>)
    requires
        i < nodes@.len(),
        parents_precede(nodes@),
    ensures
        v@.len() == path_to(nodes@, i as int).len(),
        forall|j: int| 0 <= j < v@.len() ==> (#[trigger] v@[j]) as int == path_to(nodes@, i as int)[j],
        forall|j: int| 0 <= j < v@.len() ==> (#[trigger] v@[j]) <= i,
    decreases i,
{
    proof {
        lemma_path_to(nodes@, i as int);
    }
    let mut v = match nodes[i].parent {
        Some(p) => path_indices(nodes, p),
        None => Vec::new(),
    };
    v.push(i);
    v
}

/// Whether the compiled pattern matches the frame label, URL or function of
/// node `i`.
fn matches_node(p: &crate::pattern::Pattern, fl: &Vec<String>, ul: &Vec<String>, nl: &Vec<String>, i: usize, nodes: Ghost<Seq<ProfileNode>>) -> (b: bool)
    requires
        labels_by(nodes@, fl@, 0),
        labels_by(nodes@, ul@, 1),
        labels_by(nodes@, nl@, 2),
        i < nodes@.len(),
    ensures
        b == node_matches(nodes@, p.source(), i as int),
{
    crate::pattern::is_match(p, fl[i].as_str()) || crate::pattern::is_match(p, ul[i].as_str())
        || crate::pattern::is_match(p, nl[i].as_str())
}

proof fn lemma_counted_total_bound(nodes: Seq<ProfileNode>, focus: Option<Seq<char>>, k: int)
    requires
        0 <= k <= nodes.len(),
    ensures
        0 <= counted_total(nodes, focus, k) <= self_total(nodes, k),
    decreases k,
{
    if k > 0 {
        lemma_counted_total_bound(nodes, focus, k - 1);
    }
}

proof fn lemma_keep_total_bound(nodes: Seq<ProfileNode>, flags: Seq<bool>, k: int)
    requires
        0 <= k <= nodes.len(),
        flags.len() == nodes.len(),
    ensures
        total_weight(self_sizes(nodes), flags, k) <= self_total(nodes, k),
    decreases k,
{
    if k > 0 {
        lemma_keep_total_bound(nodes, flags, k - 1);
    }
}

/// The per-node flags of the cumulative attribution: which nodes count and
/// which keep their self bytes.
fn node_flags(nodes: &Vec<ProfileNode>, focus: Option<&str>, ignore: Option<&str>, fl: &Vec<String>, ul: &Vec<String>, nl: &Vec<String>) -> (r: (Vec<bool>, Vec<bool>))
    requires
        parents_precede(nodes@),
        labels_by(nodes@, fl@, 0),
        labels_by(nodes@, ul@, 1),
        labels_by(nodes@, nl@, 2),
    ensures
        r.0@.len() == nodes@.len(),
        forall|i: int| 0 <= i < nodes@.len() ==> (#[trigger] r.0@[i]) == contributes(nodes@, opt_view(focus), i),
        r.1@ == self_flags(nodes@, opt_view(focus), opt_view(ignore)),
{
    let fre = compile_filter(focus);
    let ire = compile_filter(ignore);
    let n = nodes.len();
    let mut pm: Vec<bool> = Vec::new();
    let mut counting: Vec<bool> = Vec::new();
    let mut keep: Vec<bool> = Vec::new();
    let mut i: usize = 0;
    while i < n
        invariant
            i <= n,
            n == nodes@.len(),
            parents_precede(nodes@),
            labels_by(nodes@, fl@, 0),
            labels_by(nodes@, ul@, 1),
            labels_by(nodes@, nl@, 2),
            fre is Some <==> filter_active(opt_view(focus)),
            fre matches Some(p) ==> opt_view(focus) == Some(p.source()),
            ire is Some <==> filter_active(opt_view(ignore)),
            ire matches Some(p) ==> opt_view(ignore) == Some(p.source()),
            pm@.len() == i,
            counting@.len() == i,
            keep@.len() == i,
            forall|x: int| 0 <= x < i ==> (fre matches Some(p) ==> (#[trigger] pm@[x]) == path_matches(nodes@, p.source(), x)),
            forall|x: int| 0 <= x < i ==> (#[trigger] counting@[x]) == contributes(nodes@, opt_view(focus), x),
            forall|x: int| 0 <= x < i ==> (#[trigger] keep@[x]) == keeps_self(nodes@, opt_view(focus), opt_view(ignore), x),
        decreases n - i,
    {
        let m = match &fre {
            Some(p) => {
                let here = matches_node(p, fl, ul, nl, i, Ghost(nodes@));
                let up = match nodes[i].parent {
                    Some(q) => if q < i {
                        pm[q]
                    } else {
                        false
                    },
                    None => false,
                };
                here || up
            },
            None => false,
        };
        let c = nodes[i].self_size > 0 && (fre.is_none() || m);
        let ig = match &ire {
            Some(p) => matches_node(p, fl, ul, nl, i, Ghost(nodes@)),
            None => false,
        };
        pm.push(m);
        counting.push(c);
        keep.push(c && !ig);
        i += 1;
    }
    proof {
        assert(keep@ =~= self_flags(nodes@, opt_view(focus), opt_view(ignore)));
    }
    (counting, keep)
}

/// Every record counted.
pub open spec fn all_true(n: nat) -> Seq<bool> {
    Seq::new(n, |i: int| true)
}

proof fn lemma_cum_prefix(nodes: Seq<ProfileNode>, focus: Option<Seq<char>>, k: int, n: int)
    requires
        0 <= k <= n,
    ensures
        cum_records(nodes, focus, k).len() <= cum_records(nodes, focus, n).len(),
        forall|x: int| 0 <= x < cum_records(nodes, focus, k).len() ==> #[trigger] cum_records(nodes, focus, n)[x]
            == cum_records(nodes, focus, k)[x],
    decreases n - k,
{
    if k < n {
        lemma_cum_prefix(nodes, focus, k, n - 1);
    }
}

proof fn lemma_firsts_prefix(nodes: Seq<ProfileNode>, focus: Option<Seq<char>>, which: int, k: int, n: int)
    requires
        0 <= k <= n,
    ensures
        cum_firsts(nodes, focus, which, k).len() <= cum_firsts(nodes, focus, which, n).len(),
        forall|x: int| 0 <= x < cum_firsts(nodes, focus, which, k).len() ==> #[trigger] cum_firsts(nodes, focus, which, n)[x]
            == cum_firsts(nodes, focus, which, k)[x],
    decreases n - k,
{
    if k < n {
        lemma_firsts_prefix(nodes, focus, which, k, n - 1);
    }
}

proof fn lemma_firsts_len(nodes: Seq<ProfileNode>, focus: Option<Seq<char>>, which: int, k: int)
    ensures
        cum_firsts(nodes, focus, which, k).len() == cum_records(nodes, focus, k).len(),
    decreases k,
{
    if k > 0 {
        lemma_firsts_len(nodes, focus, which, k - 1);
    }
}

proof fn lemma_total_weight_same(w1: Seq<u64>, c1: Seq<bool>, w2: Seq<u64>, c2: Seq<bool>, k: int)
    requires
        k <= w1.len(),
        k <= c1.len(),
        k <= w2.len(),
        k <= c2.len(),
        forall|x: int| 0 <= x < k ==> w1[x] == w2[x] && c1[x] == c2[x],
    ensures
        crate::grouping::total_weight(w1, c1, k) == crate::grouping::total_weight(w2, c2, k),
    decreases k,
{
    if k > 0 {
        lemma_total_weight_same(w1, c1, w2, c2, k - 1);
    }
}

/// The cumulative records of the counting nodes: keys and weights.
fn cumulative_records(nodes: &Vec<ProfileNode>, counting: &Vec<bool>, focus: Ghost<Option<Seq<char>>>) -> (r: (Vec<u32>, Vec<u64>))
    requires
        parents_precede(nodes@),
        nodes@.len() <= u32::MAX,
        counting@.len() == nodes@.len(),
        forall|i: int| 0 <= i < nodes@.len() ==> (#[trigger] counting@[i]) == contributes(nodes@, focus@, i),
    ensures
        r.0@ == cum_records(nodes@, focus@, nodes@.len() as int).map_values(|x: (u32, u64)| x.0),
        r.1@ == cum_records(nodes@, focus@, nodes@.len() as int).map_values(|x: (u32, u64)| x.1),
{
    let n = nodes.len();
    let mut keys: Vec<u32> = Vec::new();
    let mut weights: Vec<u64> = Vec::new();
    let mut i: usize = 0;
    while i < n
        invariant
            i <= n,
            n == nodes@.len(),
            n <= u32::MAX,
            parents_precede(nodes@),
            counting@.len() == n,
            forall|x: int| 0 <= x < n ==> (#[trigger] counting@[x]) == contributes(nodes@, focus@, x),
            keys@ == cum_records(nodes@, focus@, i as int).map_values(|x: (u32, u64)| x.0),
            weights@ == cum_records(nodes@, focus@, i as int).map_values(|x: (u32, u64)| x.1),
        decreases n - i,
    {
        let ghost rec_i = cum_records(nodes@, focus@, i as int);
        let ghost rec_next = cum_records(nodes@, focus@, i + 1);
        if counting[i] {
            let path = path_indices(nodes, i);
            let size = nodes[i].self_size;
            let ghost k0 = keys@;
            let ghost w0 = weights@;
            let ghost p = path_to(nodes@, i as int);
            let mut j: usize = 0;
            while j < path.len()
                invariant
                    j <= path@.len(),
                    i < n,
                    n == nodes@.len(),
                    n <= u32::MAX,
                    size == nodes@[i as int].self_size,
                    p == path_to(nodes@, i as int),
                    path@.len() == p.len(),
                    forall|x: int| 0 <= x < path@.len() ==> (#[trigger] path@[x]) as int == p[x],
                    forall|x: int| 0 <= x < path@.len() ==> (#[trigger] path@[x]) <= i,
                    rec_i == cum_records(nodes@, focus@, i as int),
                    rec_next == cum_records(nodes@, focus@, i + 1),
                    k0 == rec_i.map_values(|x: (u32, u64)| x.0),
                    w0 == rec_i.map_values(|x: (u32, u64)| x.1),
                    rec_next == rec_i + p.map_values(|a: int| (a as u32, size)),
                    keys@ == k0 + p.subrange(0, j as int).map_values(|a: int| a as u32),
                    weights@ == w0 + Seq::new(j as nat, |x: int| size),
                decreases path@.len() - j,
            {
                keys.push(path[j] as u32);
                weights.push(size);
                proof {
                    assert(keys@ =~= k0 + p.subrange(0, j + 1).map_values(|a: int| a as u32));
                    assert(weights@ =~= w0 + Seq::new((j + 1) as nat, |x: int| size));
                }
                j += 1;
            }
            proof {
                assert(keys@ =~= rec_next.map_values(|x: (u32, u64)| x.0));
                assert(weights@ =~= rec_next.map_values(|x: (u32, u64)| x.1));
            }
        } else {
            proof {
                assert(rec_next =~= rec_i);
            }
        }
        i += 1;
    }
    (keys, weights)
}

/// Which cumulative records count in breakdown `which` (the first position
/// of each label on a path); `None` when the counted bytes, added over the
/// labels, pass 2^64 - 1.
#[verifier::rlimit(40)]
fn first_flags(
    nodes: &Vec<ProfileNode>,
    counting: &Vec<bool>,
    labels: &Vec<String>,
    which: u8,
    cweights: &Vec<u64>,
    focus: Ghost<Option<Seq<char>>>,
) -> (r: Option<Vec<bool>>)
    requires
        parents_precede(nodes@),
        nodes@.len() <= u32::MAX,
        counting@.len() == nodes@.len(),
        forall|i: int| 0 <= i < nodes@.len() ==> (#[trigger] counting@[i]) == contributes(nodes@, focus@, i),
        labels_by(nodes@, labels@, which as int),
        cweights@ == cum_records(nodes@, focus@, nodes@.len() as int).map_values(|x: (u32, u64)| x.1),
    ensures
        match r {
            Some(f) => f@ == cum_firsts(nodes@, focus@, which as int, nodes@.len() as int)
                && crate::grouping::total_weight(cweights@, f@, cweights@.len() as int) <= u64::MAX,
            None => cum_overflows(nodes@, focus@, which as int),
        },
{
    let n = nodes.len();
    let ghost w = which as int;
    let ghost full = cum_firsts(nodes@, focus@, w, n as int);
    let mut flags: Vec<bool> = Vec::new();
    let mut total: u64 = 0;
    proof {
        lemma_firsts_len(nodes@, focus@, w, n as int);
    }
    let mut i: usize = 0;
    while i < n
        invariant
            i <= n,
            n == nodes@.len(),
            n <= u32::MAX,
            w == which as int,
            parents_precede(nodes@),
            counting@.len() == n,
            forall|x: int| 0 <= x < n ==> (#[trigger] counting@[x]) == contributes(nodes@, focus@, x),
            labels_by(nodes@, labels@, w),
            cweights@ == cum_records(nodes@, focus@, n as int).map_values(|x: (u32, u64)| x.1),
            full == cum_firsts(nodes@, focus@, w, n as int),
            full.len() == cweights@.len(),
            flags@ == cum_firsts(nodes@, focus@, w, i as int),
            total == crate::grouping::total_weight(cweights@, flags@, flags@.len() as int),
        decreases n - i,
    {
        proof {
            lemma_firsts_len(nodes@, focus@, w, i as int);
            lemma_firsts_len(nodes@, focus@, w, i + 1);
            lemma_firsts_prefix(nodes@, focus@, w, i + 1, n as int);
            lemma_cum_prefix(nodes@, focus@, i + 1, n as int);
        }
        let ghost f_i = cum_firsts(nodes@, focus@, w, i as int);
        let ghost f_next = cum_firsts(nodes@, focus@, w, i + 1);
        if counting[i] {
            let path = path_indices(nodes, i);
            let size = nodes[i].self_size;
            let ghost p = path_to(nodes@, i as int);
            let ghost rec_i = cum_records(nodes@, focus@, i as int);
            let ghost rec_next = cum_records(nodes@, focus@, i + 1);
            proof {
                assert(rec_next == rec_i + p.map_values(|a: int| (a as u32, size)));
                assert(f_next == f_i + path_firsts(nodes@, w, p));
            }
            let mut j: usize = 0;
            while j < path.len()
                invariant
                    j <= path@.len(),
                    i < n,
                    n == nodes@.len(),
                    w == which as int,
                    labels_by(nodes@, labels@, w),
                    size == nodes@[i as int].self_size,
                    p == path_to(nodes@, i as int),
                    path@.len() == p.len(),
                    forall|x: int| 0 <= x < path@.len() ==> (#[trigger] path@[x]) as int == p[x],
                    forall|x: int| 0 <= x < path@.len() ==> (#[trigger] path@[x]) <= i,
                    f_i.len() == rec_i.len(),
                    rec_next == rec_i + p.map_values(|a: int| (a as u32, size)),
                    f_next == f_i + path_firsts(nodes@, w, p),
                    rec_next.len() <= cum_records(nodes@, focus@, n as int).len(),
                    forall|x: int| 0 <= x < rec_next.len() ==> #[trigger] cum_records(nodes@, focus@, n as int)[x] == rec_next[x],
                    f_next.len() <= full.len(),
                    forall|x: int| 0 <= x < f_next.len() ==> #[trigger] full[x] == f_next[x],
                    cweights@ == cum_records(nodes@, focus@, n as int).map_values(|x: (u32, u64)| x.1),
                    full.len() == cweights@.len(),
                    full == cum_firsts(nodes@, focus@, w, n as int),
                    flags@ == f_i + path_firsts(nodes@, w, p).subrange(0, j as int),
                    total == crate::grouping::total_weight(cweights@, flags@, flags@.len() as int),
                decreases path@.len() - j,
            {
                let pj = path[j];
                let mut x: usize = 0;
                while x < j && !crate::text::str_eq(labels[path[x]].as_str(), labels[pj].as_str())
                    invariant
                        x <= j,
                        j < path@.len(),
                        pj == path@[j as int],
                        labels@.len() == nodes@.len(),
                        forall|y: int| 0 <= y < path@.len() ==> (#[trigger] path@[y]) <= i,
                        i < nodes@.len(),
                        forall|y: int| 0 <= y < x ==> (#[trigger] labels@[path@[y] as int])@ != labels@[pj as int]@,
                    decreases j - x,
                {
                    x += 1;
                }
                let first = x == j;
                proof {
                    let pf = path_firsts(nodes@, w, p);
                    assert(labels@[pj as int]@ == label_in(nodes@[p[j as int]], w));
                    if first {
                        assert forall|y: int| 0 <= y < j implies label_in(nodes@[p[y]], w) != label_in(nodes@[p[j as int]], w) by {
                            assert(labels@[path@[y] as int]@ == label_in(nodes@[p[y]], w));
                        }
                    } else {
                        assert(labels@[path@[x as int] as int]@ == label_in(nodes@[p[x as int]], w));
                    }
                    assert(pf[j as int] == first);
                }
                let ghost before = flags@;
                let ghost pos = flags@.len() as int;
                proof {
                    assert(pos == f_i.len() + j);
                    assert(pos < f_next.len());
                    assert(full[pos] == f_next[pos]);
                    assert(f_next[pos] == path_firsts(nodes@, w, p)[j as int]);
                    assert(cum_records(nodes@, focus@, n as int)[pos] == rec_next[pos]);
                    assert(rec_next[pos] == (p[j as int] as u32, size));
                    assert(cweights@[pos] == size);
                }
                if first {
                    if total > u64::MAX - size {
                        proof {
                            let fp = flags@.push(true);
                            lemma_total_weight_same(cweights@, fp, cweights@, before, pos);
                            assert forall|y: int| 0 <= y < pos + 1 implies cweights@[y] == cweights@[y] && fp[y] == full[y] by {
                                if y < pos {
                                    assert(fp[y] == before[y]);
                                    if y < f_i.len() {
                                        assert(before[y] == f_i[y]);
                                        assert(f_next[y] == f_i[y]);
                                    } else {
                                        assert(before[y] == path_firsts(nodes@, w, p)[y - f_i.len()]);
                                        assert(f_next[y] == path_firsts(nodes@, w, p)[y - f_i.len()]);
                                    }
                                }
                            }
                            lemma_total_weight_same(cweights@, fp, cweights@, full, pos + 1);
                            crate::grouping::lemma_total_weight_mono(cweights@, full, pos + 1, cweights@.len() as int);
                            assert(cum_records(nodes@, focus@, n as int).map_values(|r: (u32, u64)| r.1) == cweights@);
                        }
                        return None;
                    }
                    total = total + size;
                }
                flags.push(first);
                proof {
                    lemma_total_weight_same(cweights@, flags@, cweights@, before, pos);
                    assert(flags@ =~= f_i + path_firsts(nodes@, w, p).subrange(0, j + 1));
                }
                j += 1;
            }
            proof {
                assert(flags@ =~= f_next);
            }
        } else {
            proof {
                assert(f_next =~= f_i);
            }
        }
        i += 1;
    }
    proof {
        assert(flags@.len() == cweights@.len());
    }
    Some(flags)
}

proof fn lemma_hits_all(n: int)
    requires
        0 <= n,
    ensures
        crate::sorting::hit_count(all_true(n as nat), n) == n,
    decreases n,
{
    if n > 0 {
        lemma_hits_all(n - 1);
        assert(forall|i: int| 0 <= i < n - 1 ==> #[trigger] all_true((n - 1) as nat)[i] == all_true(n as nat)[i]);
        lemma_hit_prefix(all_true((n - 1) as nat), all_true(n as nat), n - 1);
    }
}

proof fn lemma_hit_prefix(a: Seq<bool>, b: Seq<bool>, k: int)
    requires
        0 <= k <= a.len(),
        k <= b.len(),
        forall|i: int| 0 <= i < k ==> a[i] == b[i],
    ensures
        crate::sorting::hit_count(a, k) == crate::sorting::hit_count(b, k),
    decreases k,
{
    if k > 0 {
        lemma_hit_prefix(a, b, k - 1);
    }
}

/// One breakdown of the cumulative summary (`merge_size_entries`): the
/// labels of the cumulative records, each with its self size, cumulative
/// size and (by frame) count; cut to the `top` largest by cumulative size
/// unless `top` is `usize::MAX`.
#[verifier::rlimit(80)]
fn breakdown(
    nodes: &Vec<ProfileNode>,
    labels: &Vec<String>,
    which: u8,
    keep: &Vec<bool>,
    ckeys: &Vec<u32>,
    cweights: &Vec<u64>,
    firsts: &Vec<bool>,
    top: usize,
    focus: Ghost<Option<Seq<char>>>,
    ignore: Ghost<Option<Seq<char>>>,
) -> (out: Vec<(String, SizeEntry)>)
    requires
        which <= 2,
        nodes@.len() <= u32::MAX,
        self_total(nodes@, nodes@.len() as int) <= u64::MAX,
        labels_by(nodes@, labels@, which as int),
        keep@ == self_flags(nodes@, focus@, ignore@),
        ckeys@ == cum_records(nodes@, focus@, nodes@.len() as int).map_values(|x: (u32, u64)| x.0),
        cweights@ == cum_records(nodes@, focus@, nodes@.len() as int).map_values(|x: (u32, u64)| x.1),
        firsts@ == cum_firsts(nodes@, focus@, which as int, nodes@.len() as int),
        crate::grouping::total_weight(cweights@, firsts@, cweights@.len() as int) <= u64::MAX,
    ensures
        cum_breakdown(nodes@, focus@, ignore@, which as int, top, out@),
{
    let n = nodes.len();
    let ghost recs = cum_records(nodes@, focus@, n as int);
    let mut keys: Vec<u32> = Vec::new();
    let mut sizes: Vec<u64> = Vec::new();
    let mut i: usize = 0;
    while i < n
        invariant
            i <= n,
            n == nodes@.len(),
            n <= u32::MAX,
            keys@ == iota(n as int).subrange(0, i as int),
            sizes@ == self_sizes(nodes@).subrange(0, i as int),
        decreases n - i,
    {
        keys.push(i as u32);
        sizes.push(nodes[i].self_size);
        i += 1;
    }
    let cn = ckeys.len();
    proof {
        assert(keys@ == iota(n as int));
        assert(sizes@ == self_sizes(nodes@));
        lemma_keep_total_bound(nodes@, keep@, n as int);
        lemma_firsts_len(nodes@, focus@, which as int, n as int);
        reveal_strlit("");
        assert(""@ =~= Seq::<char>::empty());
    }
    let own = group_by_label(&keys, &sizes, keep, labels, "", "");
    let cum = group_by_label(ckeys, cweights, firsts, labels, "", "");
    let mut all: Vec<(String, SizeEntry)> = Vec::new();
    let mut g: usize = 0;
    while g < cum.len()
        invariant
            g <= cum@.len(),
            n == nodes@.len(),
            cn == ckeys@.len(),
            keys@ == iota(n as int),
            sizes@ == self_sizes(nodes@),
            keep@ == self_flags(nodes@, focus@, ignore@),
            firsts@ == cum_firsts(nodes@, focus@, which as int, n as int),
            firsts@.len() == cn,
            recs == cum_records(nodes@, focus@, n as int),
            ckeys@ == recs.map_values(|x: (u32, u64)| x.0),
            cweights@ == recs.map_values(|x: (u32, u64)| x.1),
            grouped(keys@, sizes@, keep@, labels@, Seq::empty(), Seq::empty(), own@),
            grouped(ckeys@, cweights@, firsts@, labels@, Seq::empty(), Seq::empty(), cum@),
            all@.len() == g,
            forall|x: int| 0 <= x < g ==> (#[trigger] all@[x]).0 == cum@[x].0,
            forall|x: int| 0 <= x < g ==> cum_entry(nodes@, labels@, focus@, ignore@, which as int, (#[trigger] all@[x]).0@, all@[x].1),
        decreases cum@.len() - g,
    {
        let l = &cum[g].0;
        let mut j: usize = 0;
        while j < own.len() && !crate::text::str_eq(own[j].0.as_str(), l.as_str())
            invariant
                j <= own@.len(),
                forall|y: int| 0 <= y < j ==> (#[trigger] own@[y]).0@ != l@,
            decreases own@.len() - j,
        {
            j += 1;
        }
        let (self_size, count) = if j < own.len() {
            (own[j].1.size, if which == 0 { own[j].1.count } else { 0 })
        } else {
            proof {
                crate::grouping::lemma_absent_label(keys@, sizes@, keep@, labels@, Seq::empty(), Seq::empty(), own@, l@, n as int);
            }
            (0, 0)
        };
        let e = SizeEntry { self_size, cumulative_size: cum[g].1.size, count };
        proof {
            assert(recs.map_values(|r: (u32, u64)| r.0) == ckeys@);
            assert(cum_entry(nodes@, labels@, focus@, ignore@, which as int, l@, e)) by {
                reveal(cum_entry);
            }
        }
        all.push((l.clone(), e));
        g += 1;
    }
    proof {
        assert forall|a: int, b: int| 0 <= a < b < all@.len() implies crate::sorting::chars_le((#[trigger] all@[a]).0@, (#[trigger] all@[b]).0@)
            && all@[a].0@ != all@[b].0@ by {
            assert(all@[a].0 == cum@[a].0);
            assert(all@[b].0 == cum@[b].0);
        }
        assert(exists|wit: Seq<int>| #[trigger] labels_cover(all@, labels@, recs, firsts@, wit)) by {
            assert forall|r: int| #![trigger firsts@[r]] 0 <= r < recs.len() && firsts@[r] implies exists|i: int|
                #![trigger all@[i]] 0 <= i < all@.len() && all@[i].0@ == crate::grouping::label_of(labels@, Seq::empty(), Seq::empty(), recs[r].0) by {
                assert(firsts@[r]);
                assert(ckeys@[r] == recs[r].0);
                let i = choose|i: int| 0 <= i < cum@.len() && (#[trigger] cum@[i]).0@ == crate::grouping::label_of(labels@, Seq::empty(), Seq::empty(), ckeys@[r]);
                assert(all@[i].0 == cum@[i].0);
            }
            let wit = Seq::new(all@.len(), |i: int| choose|r: int| 0 <= r < recs.len() && (#[trigger] all@[i]).0@ == crate::grouping::label_of(labels@, Seq::empty(), Seq::empty(), (#[trigger] recs[r]).0));
            assert forall|i: int| 0 <= i < all@.len() implies 0 <= #[trigger] wit[i] < recs.len() && all@[i].0@ == crate::grouping::label_of(
                labels@,
                Seq::empty(),
                Seq::empty(),
                recs[wit[i]].0,
            ) by {
                assert(all@[i].0 == cum@[i].0);
                crate::grouping::lemma_group_nonempty(ckeys@, firsts@, labels@, Seq::empty(), Seq::empty(), cum@[i].0@, cn as int);
                let r = choose|r: int| 0 <= r < cn && #[trigger] firsts@[r] && crate::grouping::label_of(labels@, Seq::empty(), Seq::empty(), ckeys@[r]) == cum@[i].0@;
                assert(ckeys@[r] == recs[r].0);
                assert(0 <= r < recs.len() && (#[trigger] all@[i]).0@ == crate::grouping::label_of(labels@, Seq::empty(), Seq::empty(), (#[trigger] recs[r]).0));
            }
            assert(labels_cover(all@, labels@, recs, firsts@, wit));
        }
        assert(cum_all(nodes@, focus@, ignore@, which as int, labels@, all@)) by {
            reveal(cum_all);
        }
    }
    if top == usize::MAX {
        proof {
            assert(cum_cut(all@, top, Seq::empty(), all@)) by {
                reveal(cum_cut);
            }
        }
        return all;
    }
    let m = all.len();
    let mut ck: Vec<u64> = Vec::new();
    let mut hits: Vec<bool> = Vec::new();
    let mut x: usize = 0;
    while x < m
        invariant
            x <= m,
            m == all@.len(),
            ck@ == cum_keys(all@).subrange(0, x as int),
            hits@ == all_true(x as nat),
        decreases m - x,
    {
        ck.push(all[x].1.cumulative_size);
        hits.push(true);
        x += 1;
        proof {
            assert(hits@ =~= all_true(x as nat));
        }
    }
    proof {
        assert(ck@ =~= cum_keys(all@));
        lemma_hits_all(m as int);
    }
    let rows = crate::sorting::top_indices(&ck, &hits, top);
    let mut out: Vec<(String, SizeEntry)> = Vec::new();
    let mut k: usize = 0;
    while k < rows.len()
        invariant
            k <= rows@.len(),
            m == all@.len(),
            forall|y: int| 0 <= y < rows@.len() ==> (#[trigger] rows@[y]) < m,
            out@.len() == k,
            forall|y: int| 0 <= y < k ==> #[trigger] out@[y] == all@[rows@[y] as int],
        decreases rows@.len() - k,
    {
        let e = &all[rows[k]];
        out.push((e.0.clone(), e.1));
        k += 1;
    }
    proof {
        assert(Seq::new(all@.len(), |i: int| true) =~= hits@);
        assert(cum_cut(all@, top, rows@, out@)) by {
            reveal(cum_cut);
        }
    }
    out
}

/// Self and cumulative attribution (`compute_cumulative_summary`): a node
/// counts when it was sampled and, under an active `focus`, it or an
/// ancestor matches the focus; an active `ignore` drops a matching node's
/// self bytes (not its cumulative ones). Each counting node adds its bytes
/// once to every label on its path. `None` when a breakdown's cumulative
/// sums, added over its labels, pass 2^64 - 1.
#[verifier::rlimit(60)]
pub fn compute_cumulative_summary(nodes: &Vec<ProfileNode>, top: usize, focus: Option<&str>, ignore: Option<&str>) -> (r: Option<CumulativeSummary>)
    requires
        parents_precede(nodes@),
        nodes@.len() <= u32::MAX,
        self_total(nodes@, nodes@.len() as int) <= u64::MAX,
    ensures
        r is None <==> cum_overflows(nodes@, opt_view(focus), 0) || cum_overflows(nodes@, opt_view(focus), 1)
            || cum_overflows(nodes@, opt_view(focus), 2),
        r matches Some(s) ==> {
            &&& s.total_size == counted_total(nodes@, opt_view(focus), nodes@.len() as int)
            &&& cum_breakdown(nodes@, opt_view(focus), opt_view(ignore), 0, top, s.by_frame@)
            &&& cum_breakdown(nodes@, opt_view(focus), opt_view(ignore), 1, top, s.by_url@)
            &&& cum_breakdown(nodes@, opt_view(focus), opt_view(ignore), 2, top, s.by_function@)
        },
{
    let fl = labels_of_nodes(nodes, 0);
    let ul = labels_of_nodes(nodes, 1);
    let nl = labels_of_nodes(nodes, 2);
    let (counting, keep) = node_flags(nodes, focus, ignore, &fl, &ul, &nl);
    let (ckeys, cweights) = cumulative_records(nodes, &counting, Ghost(opt_view(focus)));
    let ff = match first_flags(nodes, &counting, &fl, 0, &cweights, Ghost(opt_view(focus))) {
        Some(f) => f,
        None => return None,
    };
    let fu = match first_flags(nodes, &counting, &ul, 1, &cweights, Ghost(opt_view(focus))) {
        Some(f) => f,
        None => return None,
    };
    let fnm = match first_flags(nodes, &counting, &nl, 2, &cweights, Ghost(opt_view(focus))) {
        Some(f) => f,
        None => return None,
    };
    let n = nodes.len();
    let mut total: u64 = 0;
    let mut i: usize = 0;
    while i < n
        invariant
            i <= n,
            n == nodes@.len(),
            self_total(nodes@, n as int) <= u64::MAX,
            counting@.len() == n,
            forall|x: int| 0 <= x < n ==> (#[trigger] counting@[x]) == contributes(nodes@, opt_view(focus), x),
            total == counted_total(nodes@, opt_view(focus), i as int),
        decreases n - i,
    {
        proof {
            lemma_counted_total_bound(nodes@, opt_view(focus), i + 1);
            lemma_self_total_mono(nodes@, i + 1, n as int);
        }
        if counting[i] {
            total = total + nodes[i].self_size;
        }
        i += 1;
    }
    let by_frame = breakdown(nodes, &fl, 0, &keep, &ckeys, &cweights, &ff, top, Ghost(opt_view(focus)), Ghost(opt_view(ignore)));
    let by_url = breakdown(nodes, &ul, 1, &keep, &ckeys, &cweights, &fu, top, Ghost(opt_view(focus)), Ghost(opt_view(ignore)));
    let by_function = breakdown(nodes, &nl, 2, &keep, &ckeys, &cweights, &fnm, top, Ghost(opt_view(focus)), Ghost(opt_view(ignore)));
    Some(CumulativeSummary { total_size: total, by_frame, by_url, by_function })
}

/// The inclusive call tree of a profile: per node, its self size plus the
/// sizes of all its descendants, and whether it or a descendant passes the
/// filters.
pub struct CallTree {
    pub inclusive: Vec<u64>,
    pub shown: Vec<bool>,
    pub hidden: Vec<bool>,
}

/// A sampling heap profile: its call tree in preorder and the flat
/// summary computed from it.
pub struct HeapProfile {
    nodes: Vec<ProfileNode>,
    full: HeapProfileSummary,
}

impl HeapProfile {
    /// The call tree.
    pub closed spec fn tree(&self) -> Seq<ProfileNode> {
        self.nodes@
    }

    /// The tree is in preorder and its full flat summary is cached.
    pub closed spec fn wf(&self) -> bool {
        &&& parents_precede(self.nodes@)
        &&& self.nodes@.len() <= u32::MAX
        &&& self_total(self.nodes@, self.nodes@.len() as int) <= u64::MAX
        &&& is_flat_summary(self.nodes@, self.full)
    }

    /// A profile from its call tree (`parse_profile` hands it over): a
    /// parent after its child is malformed; more than 2^32 - 1 nodes, or
    /// sizes summing past 2^64 - 1, do not fit.
    pub fn from_nodes(nodes: Vec<ProfileNode>) -> (res: Result<HeapProfile, Error>)
        ensures
            res is Ok <==> parents_precede(nodes@) && nodes@.len() <= u32::MAX && self_total(nodes@, nodes@.len() as int) <= u64::MAX,
            res matches Ok(h) ==> h.wf() && h.tree() == nodes@,
            res matches Err(e) ==> (e == Error::Malformed <==> !parents_precede(nodes@)) && (e == Error::Malformed || e == Error::SizeOverflow),
    {
        let n = nodes.len();
        let mut i: usize = 0;
        while i < n
            invariant
                i <= n,
                n == nodes@.len(),
                forall|x: int| 0 <= x < i ==> match (#[trigger] nodes@[x]).parent {
                    Some(p) => p < x,
                    None => true,
                },
            decreases n - i,
        {
            match nodes[i].parent {
                Some(p) => {
                    if p >= i {
                        proof {
                            assert(!parents_precede(nodes@)) by {
                                assert(match nodes@[i as int].parent {
                                    Some(p) => p >= i,
                                    None => false,
                                });
                            }
                        }
                        return Err(Error::Malformed);
                    }
                },
                None => {},
            }
            i += 1;
        }
        proof {
            assert(parents_precede(nodes@));
        }
        if n > 0xffff_ffff {
            return Err(Error::SizeOverflow);
        }
        let mut total: u64 = 0;
        let mut j: usize = 0;
        while j < n
            invariant
                j <= n,
                n == nodes@.len(),
                parents_precede(nodes@),
                total == self_total(nodes@, j as int),
            decreases n - j,
        {
            if total > u64::MAX - nodes[j].self_size {
                proof {
                    lemma_self_total_mono(nodes@, j + 1, n as int);
                }
                return Err(Error::SizeOverflow);
            }
            total = total + nodes[j].self_size;
            j += 1;
        }
        let full = compute_flat_summary(&nodes);
        Ok(HeapProfile { nodes, full })
    }

    /// Flat attribution (`summarize`): the full summary when neither `top`
    /// nor `filter` is given, else its slice for them.
    pub fn summarize(&self, top: Option<usize>, filter: Option<&str>) -> (s: HeapProfileSummary)
        requires
            self.wf(),
        ensures
            exists|full: HeapProfileSummary| #[trigger] is_flat_summary(self.tree(), full) && summarized(full, top, filter, s),
    {
        proof {
            let l0 = choose|l: Seq<String>| #[trigger] labels_by(self.nodes@, l, 0) && grouped_by(self.nodes@, l, self.full.by_frame@);
            let l1 = choose|l: Seq<String>| #[trigger] labels_by(self.nodes@, l, 1) && grouped_by(self.nodes@, l, self.full.by_url@);
            let l2 = choose|l: Seq<String>| #[trigger] labels_by(self.nodes@, l, 2) && grouped_by(self.nodes@, l, self.full.by_function@);
            crate::summary::lemma_grouped_distinct(iota(self.nodes@.len() as int), self_sizes(self.nodes@), sampled(self.nodes@), l0, Seq::empty(), Seq::empty(), self.full.by_frame@);
            crate::summary::lemma_grouped_distinct(iota(self.nodes@.len() as int), self_sizes(self.nodes@), sampled(self.nodes@), l1, Seq::empty(), Seq::empty(), self.full.by_url@);
            crate::summary::lemma_grouped_distinct(iota(self.nodes@.len() as int), self_sizes(self.nodes@), sampled(self.nodes@), l2, Seq::empty(), Seq::empty(), self.full.by_function@);
        }
        let s = if top.is_none() && filter.is_none() {
            HeapProfileSummary {
                total_size: self.full.total_size,
                by_frame: crate::summary::clone_entries(&self.full.by_frame),
                by_url: crate::summary::clone_entries(&self.full.by_url),
                by_function: crate::summary::clone_entries(&self.full.by_function),
            }
        } else {
            slice_flat_summary(&self.full, top, filter)
        };
        proof {
            assert(is_flat_summary(self.tree(), self.full));
            assert(summarized(self.full, top, filter, s));
        }
        s
    }

    /// Self and cumulative attribution (`summarize_cumulative`) for the
    /// pprof-style `focus` and `ignore` patterns, cut to `top` entries per
    /// breakdown (all when absent); fails when the cumulative sums pass
    /// 2^64 - 1.
    pub fn summarize_cumulative(&self, top: Option<usize>, focus: Option<&str>, ignore: Option<&str>) -> (res: Result<CumulativeSummary, Error>)
        requires
            self.wf(),
        ensures
            res is Err <==> cum_overflows(self.tree(), opt_view(focus), 0) || cum_overflows(self.tree(), opt_view(focus), 1)
                || cum_overflows(self.tree(), opt_view(focus), 2),
            res is Err ==> res == Err::<CumulativeSummary, Error>(Error::SizeOverflow),
            res matches Ok(s) ==> {
                &&& s.total_size == counted_total(self.tree(), opt_view(focus), self.tree().len() as int)
                &&& cum_breakdown(self.tree(), opt_view(focus), opt_view(ignore), 0, cap_of(top), s.by_frame@)
                &&& cum_breakdown(self.tree(), opt_view(focus), opt_view(ignore), 1, cap_of(top), s.by_url@)
                &&& cum_breakdown(self.tree(), opt_view(focus), opt_view(ignore), 2, cap_of(top), s.by_function@)
                &&& forall|i: int| 0 <= i < s.by_frame@.len() ==> (#[trigger] s.by_frame@[i]).1.self_size
                    <= s.by_frame@[i].1.cumulative_size <= s.total_size
                &&& forall|i: int| 0 <= i < s.by_url@.len() ==> (#[trigger] s.by_url@[i]).1.self_size
                    <= s.by_url@[i].1.cumulative_size <= s.total_size
                &&& forall|i: int| 0 <= i < s.by_function@.len() ==> (#[trigger] s.by_function@[i]).1.self_size
                    <= s.by_function@[i].1.cumulative_size <= s.total_size
            },
    {
        let k: usize = match top {
            Some(k) => k,
            None => usize::MAX,
        };
        match compute_cumulative_summary(&self.nodes, k, focus, ignore) {
            Some(s) => {
                proof {
                    lemma_cumulative_within_total(self.nodes@, opt_view(focus), opt_view(ignore), 0, k, s.by_frame@);
                    lemma_cumulative_within_total(self.nodes@, opt_view(focus), opt_view(ignore), 1, k, s.by_url@);
                    lemma_cumulative_within_total(self.nodes@, opt_view(focus), opt_view(ignore), 2, k, s.by_function@);
                }
                Ok(s)
            },
            None => Err(Error::SizeOverflow),
        }
    }

    /// What changed from `baseline` to this profile (`diff`): both totals
    /// and their change, and the per-frame, per-URL and per-function diffs of
    /// the two full flat summaries; fails when a size does not fit in an
    /// `i64`.
    pub fn diff(&self, baseline: &HeapProfile) -> (res: Result<ProfileDiff, Error>)
        requires
            self.wf(),
            baseline.wf(),
        ensures
            exists|cur: HeapProfileSummary, base: HeapProfileSummary| {
                &&& #[trigger] is_flat_summary(self.tree(), cur)
                &&& #[trigger] is_flat_summary(baseline.tree(), base)
                &&& (res is Ok <==> cur.total_size <= i64::MAX && base.total_size <= i64::MAX && fits_i64(cur.by_frame@)
                    && fits_i64(cur.by_url@) && fits_i64(cur.by_function@) && fits_i64(base.by_frame@) && fits_i64(base.by_url@)
                    && fits_i64(base.by_function@))
                &&& (res is Err ==> res == Err::<ProfileDiff, Error>(Error::SizeOverflow))
                &&& (res matches Ok(d) ==> {
                    &&& d.baseline_total == base.total_size
                    &&& d.profile_total == cur.total_size
                    &&& d.delta_total == cur.total_size - base.total_size
                    &&& is_diff(base.by_frame@, cur.by_frame@, d.by_frame@)
                    &&& is_diff(base.by_url@, cur.by_url@, d.by_url@)
                    &&& is_diff(base.by_function@, cur.by_function@, d.by_function@)
                })
            },
    {
        let cur = &self.full;
        let base = &baseline.full;
        proof {
            assert(is_flat_summary(self.tree(), *cur));
            assert(is_flat_summary(baseline.tree(), *base));
        }
        if cur.total_size > 0x7fff_ffff_ffff_ffff || base.total_size > 0x7fff_ffff_ffff_ffff || !entries_fit(&cur.by_frame)
            || !entries_fit(&cur.by_url) || !entries_fit(&cur.by_function) || !entries_fit(&base.by_frame) || !entries_fit(
            &base.by_url,
        ) || !entries_fit(&base.by_function) {
            return Err(Error::SizeOverflow);
        }
        Ok(ProfileDiff {
            baseline_total: base.total_size,
            profile_total: cur.total_size,
            delta_total: cur.total_size as i64 - base.total_size as i64,
            by_frame: diff_entries(&base.by_frame, &cur.by_frame),
            by_url: diff_entries(&base.by_url, &cur.by_url),
            by_function: diff_entries(&base.by_function, &cur.by_function),
        })
    }

    /// The nodes of the call tree, in preorder.
    pub fn nodes(&self) -> (r: &Vec<ProfileNode>)
        ensures
            r@ == self.tree(),
    {
        &self.nodes
    }

    /// The inclusive call tree (`calltree`): per node its inclusive size and
    /// whether it or a descendant passes the URL, focus and hide filters.
    pub fn calltree(&self, url: Option<&str>, focus: Option<&str>, hide: Option<&str>) -> (res: Result<CallTree, Error>)
        requires
            self.wf(),
        ensures
            res is Ok <==> forall|i: int| 0 <= i < self.tree().len() ==> #[trigger] crate::calltree::inclusive(self.tree(), i) <= u64::MAX,
            res matches Err(e) ==> e == Error::SizeOverflow,
            res matches Ok(t) ==> t.hidden@.len() == self.tree().len() && forall|i: int|
                0 <= i < self.tree().len() ==> #[trigger] t.hidden@[i] == crate::calltree::is_hidden(self.tree()[i], opt_view(hide)),
            res matches Ok(t) ==> t.inclusive@.len() == self.tree().len() && t.shown@.len() == self.tree().len() && forall|i: int|
                0 <= i < self.tree().len() ==> #[trigger] t.inclusive@[i] == crate::calltree::inclusive(self.tree(), i)
                    && t.shown@[i] == crate::calltree::shown_below(
                    self.tree(),
                    crate::calltree::passing_flags(self.tree(), opt_view(url), opt_view(focus), opt_view(hide)),
                    i,
                ),
    {
        proof {
            assert(self.tree() == self.nodes@);
        }
        let inclusive = match crate::calltree::inclusive_sizes(&self.nodes) {
            Ok(v) => v,
            Err(e) => {
                return Err(e);
            },
        };
        let flags = crate::calltree::calltree_flags(&self.nodes, url, focus, hide);
        proof {
            assert(flags@ == crate::calltree::passing_flags(self.nodes@, opt_view(url), opt_view(focus), opt_view(hide)));
        }
        let shown = crate::calltree::shown_nodes(&self.nodes, &flags);
        let hidden = crate::calltree::hidden_flags(&self.nodes, hide);
        Ok(CallTree { inclusive, shown, hidden })
    }

    /// The sampled frames with their stacks (`flatten`).
    pub fn flatten(&self) -> (out: Vec<FlatCallFrame>)
        requires
            self.wf(),
        ensures
            out@.len() == sampled_count(self.tree(), self.tree().len() as int),
            forall|k: int| 0 <= k < out@.len() ==> frame_origin(self.tree(), #[trigger] out@[k], k, self.tree().len() as int),
    {
        let out = flatten(&self.nodes);
        proof {
            assert(self.tree() == self.nodes@);
        }
        out
    }
}

/// Within one path: the counted records of labels `l` among its first `j`
/// positions weigh `size` if `l` occurs there, else nothing.
proof fn lemma_path_segment(
    nodes: Seq<ProfileNode>,
    which: int,
    labels: Seq<String>,
    keys: Seq<u32>,
    weights: Seq<u64>,
    counted: Seq<bool>,
    l: Seq<char>,
    p: Seq<int>,
    size: u64,
    base: int,
    j: int,
)
    requires
        labels_by(nodes, labels, which),
        0 <= base,
        0 <= j <= p.len(),
        base + p.len() <= keys.len(),
        base + p.len() <= weights.len(),
        base + p.len() <= counted.len(),
        forall|x: int| 0 <= x < p.len() ==> 0 <= #[trigger] p[x] < nodes.len() && p[x] <= u32::MAX,
        forall|x: int| 0 <= x < p.len() ==> keys[base + x] == #[trigger] p[x] as u32 && weights[base + x] == size
            && counted[base + x] == first_on_path(nodes, which, p, x),
    ensures
        crate::grouping::group_weight(keys, weights, counted, labels, Seq::empty(), Seq::empty(), l, base + j)
            == crate::grouping::group_weight(keys, weights, counted, labels, Seq::empty(), Seq::empty(), l, base) + if exists|y: int|
            0 <= y < j && #[trigger] label_in(nodes[p[y]], which) == l {
            size as int
        } else {
            0
        },
    decreases j,
{
    if j > 0 {
        lemma_path_segment(nodes, which, labels, keys, weights, counted, l, p, size, base, j - 1);
        let x = j - 1;
        assert(keys[base + x] == p[x] as u32);
        assert((p[x] as u32) as int == p[x]);
        assert(labels[p[x]]@ == label_in(nodes[p[x]], which));
        assert(crate::grouping::label_of(labels, Seq::empty(), Seq::empty(), keys[base + x]) == label_in(nodes[p[x]], which));
        if exists|y: int| 0 <= y < x && #[trigger] label_in(nodes[p[y]], which) == l {
            let y = choose|y: int| 0 <= y < x && #[trigger] label_in(nodes[p[y]], which) == l;
            if label_in(nodes[p[x]], which) == l {
                assert(!first_on_path(nodes, which, p, x));
            }
        } else {
            if label_in(nodes[p[x]], which) == l {
                assert(first_on_path(nodes, which, p, x));
            }
        }
    }
}

/// The cumulative records of the first `k` nodes weigh, for any label, at
/// most the counted bytes of those nodes.
proof fn lemma_cum_weight_bound(
    nodes: Seq<ProfileNode>,
    focus: Option<Seq<char>>,
    which: int,
    labels: Seq<String>,
    l: Seq<char>,
    k: int,
)
    requires
        parents_precede(nodes),
        nodes.len() <= u32::MAX,
        labels_by(nodes, labels, which),
        0 <= k <= nodes.len(),
    ensures
        crate::grouping::group_weight(
            cum_records(nodes, focus, nodes.len() as int).map_values(|r: (u32, u64)| r.0),
            cum_records(nodes, focus, nodes.len() as int).map_values(|r: (u32, u64)| r.1),
            cum_firsts(nodes, focus, which, nodes.len() as int),
            labels,
            Seq::empty(),
            Seq::empty(),
            l,
            cum_records(nodes, focus, k).len() as int,
        ) <= counted_total(nodes, focus, k),
    decreases k,
{
    let n = nodes.len() as int;
    let recs = cum_records(nodes, focus, n);
    let keys = recs.map_values(|r: (u32, u64)| r.0);
    let weights = recs.map_values(|r: (u32, u64)| r.1);
    let firsts = cum_firsts(nodes, focus, which, n);
    if k > 0 {
        let i = k - 1;
        lemma_cum_weight_bound(nodes, focus, which, labels, l, i);
        lemma_cum_prefix(nodes, focus, k, n);
        lemma_firsts_prefix(nodes, focus, which, k, n);
        lemma_firsts_len(nodes, focus, which, k);
        lemma_firsts_len(nodes, focus, which, i);
        lemma_firsts_len(nodes, focus, which, n);
        let base = cum_records(nodes, focus, i).len() as int;
        if contributes(nodes, focus, i) {
            let p = path_to(nodes, i);
            let size = nodes[i].self_size;
            lemma_path_to(nodes, i);
            assert(cum_records(nodes, focus, k) == cum_records(nodes, focus, i) + p.map_values(|a: int| (a as u32, size)));
            assert(cum_firsts(nodes, focus, which, k) == cum_firsts(nodes, focus, which, i) + path_firsts(nodes, which, p));
            assert forall|x: int| 0 <= x < p.len() implies keys[base + x] == #[trigger] p[x] as u32 && weights[base + x] == size
                && firsts[base + x] == first_on_path(nodes, which, p, x) by {
                assert(recs[base + x] == cum_records(nodes, focus, k)[base + x]);
                assert(firsts[base + x] == cum_firsts(nodes, focus, which, k)[base + x]);
            }
            lemma_path_segment(nodes, which, labels, keys, weights, firsts, l, p, size, base, p.len() as int);
        } else {
            assert(cum_records(nodes, focus, k) == cum_records(nodes, focus, i));
        }
    }
}

/// For any label, the self bytes of the first `k` nodes are at most the
/// cumulative bytes of their records: a node that keeps its self bytes
/// counts, and its own label is on its path.
proof fn lemma_self_weight_bound(
    nodes: Seq<ProfileNode>,
    focus: Option<Seq<char>>,
    ignore: Option<Seq<char>>,
    which: int,
    labels: Seq<String>,
    l: Seq<char>,
    k: int,
)
    requires
        parents_precede(nodes),
        nodes.len() <= u32::MAX,
        labels_by(nodes, labels, which),
        0 <= k <= nodes.len(),
    ensures
        crate::grouping::group_weight(
            iota(nodes.len() as int),
            self_sizes(nodes),
            self_flags(nodes, focus, ignore),
            labels,
            Seq::empty(),
            Seq::empty(),
            l,
            k,
        ) <= crate::grouping::group_weight(
            cum_records(nodes, focus, nodes.len() as int).map_values(|r: (u32, u64)| r.0),
            cum_records(nodes, focus, nodes.len() as int).map_values(|r: (u32, u64)| r.1),
            cum_firsts(nodes, focus, which, nodes.len() as int),
            labels,
            Seq::empty(),
            Seq::empty(),
            l,
            cum_records(nodes, focus, k).len() as int,
        ),
    decreases k,
{
    let n = nodes.len() as int;
    let recs = cum_records(nodes, focus, n);
    let keys = recs.map_values(|r: (u32, u64)| r.0);
    let weights = recs.map_values(|r: (u32, u64)| r.1);
    let firsts = cum_firsts(nodes, focus, which, n);
    if k > 0 {
        let i = k - 1;
        lemma_self_weight_bound(nodes, focus, ignore, which, labels, l, i);
        lemma_cum_prefix(nodes, focus, k, n);
        lemma_firsts_prefix(nodes, focus, which, k, n);
        lemma_firsts_len(nodes, focus, which, k);
        lemma_firsts_len(nodes, focus, which, i);
        lemma_firsts_len(nodes, focus, which, n);
        let base = cum_records(nodes, focus, i).len() as int;
        assert(iota(n)[i] == i as u32);
        assert(labels[i]@ == label_in(nodes[i], which));
        if contributes(nodes, focus, i) {
            let p = path_to(nodes, i);
            let size = nodes[i].self_size;
            lemma_path_to(nodes, i);
            assert(cum_records(nodes, focus, k) == cum_records(nodes, focus, i) + p.map_values(|a: int| (a as u32, size)));
            assert(cum_firsts(nodes, focus, which, k) == cum_firsts(nodes, focus, which, i) + path_firsts(nodes, which, p));
            assert forall|x: int| 0 <= x < p.len() implies keys[base + x] == #[trigger] p[x] as u32 && weights[base + x] == size
                && firsts[base + x] == first_on_path(nodes, which, p, x) by {
                assert(recs[base + x] == cum_records(nodes, focus, k)[base + x]);
                assert(firsts[base + x] == cum_firsts(nodes, focus, which, k)[base + x]);
            }
            lemma_path_segment(nodes, which, labels, keys, weights, firsts, l, p, size, base, p.len() as int);
            if label_in(nodes[i], which) == l {
                let y = p.len() - 1;
                assert(label_in(nodes[p[y]], which) == l);
            }
        } else {
            assert(cum_records(nodes, focus, k) == cum_records(nodes, focus, i));
            assert(!self_flags(nodes, focus, ignore)[i]);
        }
    }
}

/// pprof's counting: in every breakdown of the cumulative summary, each
/// entry's self size is at most its cumulative size, which is at most the
/// summary's total, since a sample counts at most once per label however
/// often the label recurs on its path.
pub proof fn lemma_cumulative_within_total(
    nodes: Seq<ProfileNode>,
    focus: Option<Seq<char>>,
    ignore: Option<Seq<char>>,
    which: int,
    top: usize,
    out: Seq<(String, SizeEntry)>,
)
    requires
        parents_precede(nodes),
        nodes.len() <= u32::MAX,
        cum_breakdown(nodes, focus, ignore, which, top, out),
    ensures
        forall|i: int| 0 <= i < out.len() ==> (#[trigger] out[i]).1.self_size <= out[i].1.cumulative_size
            <= counted_total(nodes, focus, nodes.len() as int),
{
    let n = nodes.len() as int;
    let (labels, all, rows) = choose|labels: Seq<String>, all: Seq<(String, SizeEntry)>, rows: Seq<usize>|
        #[trigger] cum_all(nodes, focus, ignore, which, labels, all) && #[trigger] cum_cut(all, top, rows, out);
    reveal(cum_all);
    reveal(cum_cut);
    reveal(cum_entry);
    assert forall|j: int| 0 <= j < all.len() implies (#[trigger] all[j]).1.self_size <= all[j].1.cumulative_size
        <= counted_total(nodes, focus, n) by {
        assert(cum_entry(nodes, labels, focus, ignore, which, all[j].0@, all[j].1));
        lemma_cum_weight_bound(nodes, focus, which, labels, all[j].0@, n);
        lemma_self_weight_bound(nodes, focus, ignore, which, labels, all[j].0@, n);
    }
    assert forall|i: int| 0 <= i < out.len() implies (#[trigger] out[i]).1.self_size <= out[i].1.cumulative_size
        <= counted_total(nodes, focus, n) by {
        if top != usize::MAX {
            assert(out[i] == all[rows[i] as int]);
        }
    }
}

/// A flat summary's breakdowns each add up to its total, and their counts
/// to the number of sampled nodes.
pub proof fn lemma_flat_summary_adds_up(nodes: Seq<ProfileNode>, s: HeapProfileSummary)
    requires
        is_flat_summary(nodes, s),
    ensures
        crate::grouping::sizes_of(s.by_frame@, s.by_frame@.len() as int) == s.total_size,
        crate::grouping::sizes_of(s.by_url@, s.by_url@.len() as int) == s.total_size,
        crate::grouping::sizes_of(s.by_function@, s.by_function@.len() as int) == s.total_size,
        crate::grouping::counts_of(s.by_frame@, s.by_frame@.len() as int) == crate::grouping::counted_records(
            sampled(nodes),
            nodes.len() as int,
        ),
{
    let n = nodes.len() as int;
    let l0 = choose|l: Seq<String>| #[trigger] labels_by(nodes, l, 0) && grouped_by(nodes, l, s.by_frame@);
    let l1 = choose|l: Seq<String>| #[trigger] labels_by(nodes, l, 1) && grouped_by(nodes, l, s.by_url@);
    let l2 = choose|l: Seq<String>| #[trigger] labels_by(nodes, l, 2) && grouped_by(nodes, l, s.by_function@);
    crate::grouping::lemma_groups_add_up(iota(n), self_sizes(nodes), sampled(nodes), l0, Seq::empty(), Seq::empty(), s.by_frame@);
    crate::grouping::lemma_groups_add_up(iota(n), self_sizes(nodes), sampled(nodes), l1, Seq::empty(), Seq::empty(), s.by_url@);
    crate::grouping::lemma_groups_add_up(iota(n), self_sizes(nodes), sampled(nodes), l2, Seq::empty(), Seq::empty(), s.by_function@);
    lemma_total_is_self_total(nodes, n);
}

} // verus!
