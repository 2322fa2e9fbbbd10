//! Analyses of a parsed allocation timeline: allocated bytes by node type
//! and by name, the growth samples, and the allocation stacks of the trace
//! tree.

use vstd::prelude::*;
use crate::grouping::{group_by_label, grouped, total_weight, TypeSummary};
use crate::labels::resolve_or;
use crate::pattern::{compile_filter, filter_active, opt_view};
use crate::snapshot::{first_matches, search_table, SearchMatch};
use crate::summary::{distinct_labels, top_entries, top_passing};
use crate::text::{decimal, lowercase, push_decimal};
use crate::timeline::{parse_timeline, sizes_sum, TimelineData, TraceNode};
use crate::types::{Error, SnapshotMeta};

verus! {

/// Bytes allocated and objects counted under one node type.
#[derive(Debug, Clone, Copy)]
pub struct TimelineTypeSummary {
    pub allocated: u64,
    pub freed: u64,
    pub count: usize,
}

/// Allocated bytes of a timeline, by node type.
#[derive(Debug, Clone)]
pub struct HeapTimelineSummary {
    pub total_allocated: u64,
    pub total_freed: u64,
    pub by_type: Vec<(String, TimelineTypeSummary)>,
}

/// The object-growth profile: (timestamp in µs, last assigned id) samples.
#[derive(Debug, Clone)]
pub struct TimelineGrowth {
    pub span_us: u64,
    pub objects_start: u64,
    pub objects_end: u64,
    pub samples: Vec<(u64, u64)>,
}

/// One frame of an allocation stack.
#[derive(Debug, Clone)]
pub struct TimelineStackFrame {
    pub name: String,
    pub script: String,
    pub line: u32,
    pub column: u32,
}

/// Allocations under one name.
#[derive(Debug, Clone)]
pub struct TimelineNameEntry {
    pub name: String,
    pub size: u64,
    pub count: usize,
    pub types: Vec<TimelineNameType>,
}

/// The share of one node type in a name's allocations.
#[derive(Debug, Clone)]
pub struct TimelineNameType {
    pub name: String,
    pub size: u64,
    pub count: usize,
}

/// A parsed allocation timeline with its header.
pub struct HeapTimeline {
    meta: SnapshotMeta,
    data: TimelineData,
}

/// Node type index of each record.
pub open spec fn timeline_type_keys(t: TimelineData) -> Seq<u32> {
    Seq::new(t.node_count as nat, |i: int| t.types@[i] as u32)
}

/// Size of each record.
pub open spec fn timeline_weights(t: TimelineData) -> Seq<u64> {
    Seq::new(t.node_count as nat, |i: int| t.sizes@[i] as u64)
}

/// The records that count: those with a size.
pub open spec fn timeline_counted(t: TimelineData) -> Seq<bool> {
    Seq::new(t.node_count as nat, |i: int| t.sizes@[i] != 0)
}

/// The columns of `t` hold one entry per record.
pub open spec fn columns_wf(t: TimelineData) -> bool {
    &&& t.types@.len() == t.node_count
    &&& t.names@.len() == t.node_count
    &&& t.sizes@.len() == t.node_count
    &&& t.tids@.len() == t.node_count
}

/// The type entries with their counters renamed.
pub open spec fn as_type_summaries(v: Seq<(String, TimelineTypeSummary)>) -> Seq<(String, TypeSummary)> {
    v.map_values(|e: (String, TimelineTypeSummary)| (e.0, TypeSummary { size: e.1.allocated, count: e.1.count }))
}

proof fn lemma_total_is_sizes_sum(t: TimelineData, k: int)
    requires
        columns_wf(t),
        0 <= k <= t.node_count,
    ensures
        total_weight(timeline_weights(t), timeline_counted(t), k) == sizes_sum(t.sizes@, k),
    decreases k,
{
    if k > 0 {
        lemma_total_is_sizes_sum(t, k - 1);
    }
}

proof fn lemma_sizes_sum_mono(s: Seq<u32>, a: int, b: int)
    requires
        0 <= a <= b <= s.len(),
    ensures
        sizes_sum(s, a) <= sizes_sum(s, b),
    decreases b - a,
{
    if a < b {
        lemma_sizes_sum_mono(s, a, b - 1);
    }
}

/// The type breakdown of a timeline (`stream_summary`): records with a
/// size grouped by the name of their node type (the index in decimal when
/// the header lists no such type), the `top` largest groups that pass
/// `filter` (an invalid pattern filters nothing), largest first.
pub fn type_summary(t: &TimelineData, top: usize, filter: Option<&str>) -> (s: HeapTimelineSummary)
    requires
        columns_wf(*t),
        sizes_sum(t.sizes@, t.node_count as int) <= u64::MAX,
    ensures
        s.total_allocated == t.total_allocated,
        s.total_freed == 0,
        forall|i: int| 0 <= i < s.by_type@.len() ==> (#[trigger] s.by_type@[i]).1.freed == 0,
        exists|groups: Seq<(String, TypeSummary)>|
            grouped(timeline_type_keys(*t), timeline_weights(*t), timeline_counted(*t), t.type_names@, Seq::empty(), Seq::empty(), groups)
            && #[trigger] top_entries(groups, opt_view(filter), top, as_type_summaries(s.by_type@)),
{
    let n = t.node_count;
    let mut keys: Vec<u32> = Vec::new();
    let mut weights: Vec<u64> = Vec::new();
    let mut counted: Vec<bool> = Vec::new();
    let mut i: usize = 0;
    while i < n
        invariant
            i <= n,
            n == t.node_count,
            columns_wf(*t),
            keys@ == timeline_type_keys(*t).subrange(0, i as int),
            weights@ == timeline_weights(*t).subrange(0, i as int),
            counted@ == timeline_counted(*t).subrange(0, i as int),
        decreases n - i,
    {
        keys.push(t.types[i] as u32);
        weights.push(t.sizes[i] as u64);
        counted.push(t.sizes[i] != 0);
        i += 1;
    }
    proof {
        assert(keys@ == timeline_type_keys(*t));
        assert(weights@ == timeline_weights(*t));
        assert(counted@ == timeline_counted(*t));
        lemma_total_is_sizes_sum(*t, n as int);
    }
    let groups = group_by_label(&keys, &weights, &counted, &t.type_names, "", "");
    proof {
        reveal_strlit("");
        assert(""@ =~= Seq::<char>::empty());
        crate::summary::lemma_grouped_distinct(keys@, weights@, counted@, t.type_names@, Seq::empty(), Seq::empty(), groups@);
    }
    let kept = top_passing(&groups, top, filter);
    let mut by_type: Vec<(String, TimelineTypeSummary)> = Vec::new();
    let mut j: usize = 0;
    while j < kept.len()
        invariant
            j <= kept@.len(),
            by_type@.len() == j,
            forall|x: int| 0 <= x < j ==> (#[trigger] by_type@[x]).0 == kept@[x].0 && by_type@[x].1.allocated
                == kept@[x].1.size && by_type@[x].1.count == kept@[x].1.count && by_type@[x].1.freed == 0,
        decreases kept@.len() - j,
    {
        let e = &kept[j];
        by_type.push((e.0.clone(), TimelineTypeSummary { allocated: e.1.size, freed: 0, count: e.1.count }));
        j += 1;
    }
    proof {
        let v = as_type_summaries(by_type@);
        assert forall|x: int| 0 <= x < kept@.len() implies #[trigger] v[x] == kept@[x] by {
            assert(by_type@[x].0 == kept@[x].0);
        }
        assert(v =~= kept@);
        assert(grouped(timeline_type_keys(*t), timeline_weights(*t), timeline_counted(*t), t.type_names@, Seq::empty(), Seq::empty(), groups@));
        assert(top_entries(groups@, opt_view(filter), top, as_type_summaries(by_type@)));
    }
    let ghost bt = by_type@;
    let out = HeapTimelineSummary { total_allocated: t.total_allocated, total_freed: 0, by_type };
    proof {
        assert(out.by_type@ == bt);
        assert(top_entries(groups@, opt_view(filter), top, as_type_summaries(out.by_type@)));
    }
    out
}

/// `top`, or `d` when it is absent.
pub open spec fn top_or(top: Option<usize>, d: usize) -> usize {
    match top {
        Some(k) => k,
        None => d,
    }
}

/// The growth profile of the samples (`growth`): the last timestamp, the
/// first and last object ids (0 without samples), and the samples.
pub fn growth_of(samples: &Vec<(u64, u64)>) -> (g: TimelineGrowth)
    ensures
        g.samples@ == samples@,
        samples@.len() == 0 ==> g.span_us == 0 && g.objects_start == 0 && g.objects_end == 0,
        samples@.len() > 0 ==> g.span_us == samples@.last().0 && g.objects_start == samples@[0].1
            && g.objects_end == samples@.last().1,
{
    let n = samples.len();
    let (span_us, objects_start, objects_end) = if n == 0 {
        (0, 0, 0)
    } else {
        (samples[n - 1].0, samples[0].1, samples[n - 1].1)
    };
    let mut copy: Vec<(u64, u64)> = Vec::new();
    let mut i: usize = 0;
    while i < n
        invariant
            i <= n,
            n == samples@.len(),
            copy@ == samples@.subrange(0, i as int),
        decreases n - i,
    {
        copy.push(samples[i]);
        i += 1;
    }
    proof {
        assert(copy@ =~= samples@);
    }
    TimelineGrowth { span_us, objects_start, objects_end, samples: copy }
}

/// Index `k` steps up the parent chain from trace node `ti` (`None` once a
/// step leaves the tree or reaches the root's parent).
pub open spec fn walk(t: TimelineData, ti: usize, k: nat) -> Option<usize>
    decreases k,
{
    if k == 0 {
        Some(ti)
    } else {
        match walk(t, ti, (k - 1) as nat) {
            Some(c) => if c < t.trace_nodes@.len() {
                t.trace_nodes@[c as int].parent
            } else {
                None
            },
            None => None,
        }
    }
}

/// `w` names a node of the trace tree.
pub open spec fn live(t: TimelineData, w: Option<usize>) -> bool {
    w matches Some(c) && c < t.trace_nodes@.len()
}

/// Number of frames of the stack of `ti` from step `k` on: the walk stops
/// at the first step off the tree, and after 129 frames.
pub open spec fn depth_from(t: TimelineData, ti: usize, k: nat) -> nat
    decreases 129 - k,
{
    if k >= 129 || !live(t, walk(t, ti, k)) {
        k
    } else {
        depth_from(t, ti, k + 1)
    }
}

/// `strings[idx]`, or `<str idx>` when out of range (`resolve_string`).
pub open spec fn string_of(t: TimelineData, idx: u32) -> Seq<char> {
    crate::labels::resolved(t.strings@, idx as int, "<str "@, ">"@)
}

/// `f` is the frame of trace node `c`: its function's name (`(root)` for
/// name index 0) and script, line and column; a function index out of
/// range reads as all zeros.
pub open spec fn frame_of(t: TimelineData, c: int, f: TimelineStackFrame) -> bool {
    let fii = t.trace_nodes@[c].func_idx;
    let known = (fii as int) < t.trace_infos@.len();
    let name_idx: u32 = if known { t.trace_infos@[fii as int].name_idx } else { 0 };
    let script_idx: u32 = if known { t.trace_infos@[fii as int].script_idx } else { 0 };
    &&& f.name@ == if name_idx == 0 { "(root)"@ } else { string_of(t, name_idx) }
    &&& f.script@ == string_of(t, script_idx)
    &&& f.line == if known { t.trace_infos@[fii as int].line } else { 0 }
    &&& f.column == if known { t.trace_infos@[fii as int].column } else { 0 }
}

/// `frames` is the stack of trace node `ti`, root first: the nodes met
/// walking up from `ti` (at most 129), reversed.
pub open spec fn stack_of(t: TimelineData, ti: usize, frames: Seq<TimelineStackFrame>) -> bool {
    let m = depth_from(t, ti, 0);
    &&& frames.len() == m
    &&& forall|j: int| 0 <= j < m ==> frame_of(t, walk(t, ti, (m - 1 - j) as nat).unwrap() as int, #[trigger] frames[j])
}

proof fn lemma_depth_from(t: TimelineData, ti: usize, k: nat)
    requires
        k <= 129,
        forall|j: nat| j < k ==> live(t, #[trigger] walk(t, ti, j)),
    ensures
        k <= depth_from(t, ti, k) <= 129,
        forall|j: nat| j < depth_from(t, ti, k) ==> live(t, #[trigger] walk(t, ti, j)),
        depth_from(t, ti, k) < 129 ==> !live(t, walk(t, ti, depth_from(t, ti, k))),
    decreases 129 - k,
{
    if !(k >= 129 || !live(t, walk(t, ti, k))) {
        assert forall|j: nat| j < k + 1 implies live(t, #[trigger] walk(t, ti, j)) by {
            if j < k {
            }
        }
        lemma_depth_from(t, ti, k + 1);
    }
}

proof fn lemma_depth_prefix(t: TimelineData, ti: usize, k: nat)
    requires
        k <= 129,
        forall|j: nat| j < k ==> live(t, #[trigger] walk(t, ti, j)),
    ensures
        depth_from(t, ti, 0) == depth_from(t, ti, k),
    decreases k,
{
    if k > 0 {
        assert(live(t, walk(t, ti, (k - 1) as nat)));
        lemma_depth_prefix(t, ti, (k - 1) as nat);
    }
}

/// The frame of trace node `c` (`stack_frames`' loop body).
fn frame_at(t: &TimelineData, c: usize) -> (f: TimelineStackFrame)
    requires
        c < t.trace_nodes@.len(),
    ensures
        frame_of(*t, c as int, f),
{
    let fii = t.trace_nodes[c].func_idx;
    let (name_idx, script_idx, line, column) = if (fii as usize) < t.trace_infos.len() {
        let info = &t.trace_infos[fii as usize];
        (info.name_idx, info.script_idx, info.line, info.column)
    } else {
        (0, 0, 0, 0)
    };
    let name = if name_idx == 0 {
        "(root)".to_owned()
    } else {
        resolve_or(&t.strings, name_idx, "<str ", ">")
    };
    let script = resolve_or(&t.strings, script_idx, "<str ", ">");
    TimelineStackFrame { name, script, line, column }
}

/// The stack of trace node `ti`, root first (`stack_frames`).
pub fn stack_frames(t: &TimelineData, ti: usize) -> (frames: Vec<TimelineStackFrame>)
    ensures
        stack_of(*t, ti, frames@),
{
    let mut up: Vec<TimelineStackFrame> = Vec::new();
    let mut cur: Option<usize> = Some(ti);
    let mut guard: usize = 0;
    loop
        invariant_except_break
            guard <= 128,
            cur == walk(*t, ti, guard as nat),
        invariant
            up@.len() == guard,
            forall|j: nat| j < guard ==> live(*t, #[trigger] walk(*t, ti, j)),
            forall|j: int| 0 <= j < guard ==> frame_of(*t, walk(*t, ti, j as nat).unwrap() as int, #[trigger] up@[j]),
        ensures
            guard == depth_from(*t, ti, 0),
        decreases 129 - guard,
    {
        let c = match cur {
            Some(c) => c,
            None => {
                proof {
                    lemma_depth_prefix(*t, ti, guard as nat);
                }
                break;
            },
        };
        if c >= t.trace_nodes.len() {
            proof {
                lemma_depth_prefix(*t, ti, guard as nat);
            }
            break;
        }
        let f = frame_at(t, c);
        up.push(f);
        proof {
            assert(walk(*t, ti, (guard + 1) as nat) == t.trace_nodes@[c as int].parent);
            assert forall|j: nat| j < guard + 1 implies live(*t, #[trigger] walk(*t, ti, j)) by {
            }
        }
        cur = t.trace_nodes[c].parent;
        guard += 1;
        if guard > 128 {
            proof {
                lemma_depth_prefix(*t, ti, guard as nat);
            }
            break;
        }
    }
    let m = up.len();
    let mut frames: Vec<TimelineStackFrame> = Vec::new();
    let mut j: usize = 0;
    while j < m
        invariant
            j <= m,
            m == up@.len(),
            m == depth_from(*t, ti, 0),
            forall|x: int| 0 <= x < m ==> frame_of(*t, walk(*t, ti, x as nat).unwrap() as int, #[trigger] up@[x]),
            frames@.len() == j,
            forall|x: int| 0 <= x < j ==> frames@[x] == up@[m - 1 - x],
        decreases m - j,
    {
        let f = &up[m - 1 - j];
        frames.push(TimelineStackFrame { name: f.name.clone(), script: f.script.clone(), line: f.line, column: f.column });
        j += 1;
    }
    proof {
        assert forall|x: int| 0 <= x < m implies frame_of(*t, walk(*t, ti, (m - 1 - x) as nat).unwrap() as int, #[trigger] frames@[x]) by {
            assert(frames@[x] == up@[m - 1 - x]);
        }
    }
    frames
}

/// Frame `f` is named in a printed stack: not the root, not unnamed.
pub open spec fn named_frame(f: TimelineStackFrame) -> bool {
    f.name@ != "(root)"@ && f.name@.len() > 0
}

/// The named frames among the first `k` of a root-first stack, leaf
/// first, each followed by its callers, joined by ` <- `.
pub open spec fn joined_names(stack: Seq<TimelineStackFrame>, k: int) -> Seq<char>
    decreases k,
{
    if k <= 0 {
        Seq::empty()
    } else {
        let prev = joined_names(stack, k - 1);
        let f = stack[k - 1];
        if named_frame(f) {
            if prev.len() == 0 {
                f.name@
            } else {
                f.name@ + " <- "@ + prev
            }
        } else {
            prev
        }
    }
}

/// A root-first stack printed leaf first (`leaf <- caller`): the frames'
/// names joined by ` <- `, the root and unnamed frames left out
/// (`format_stack`).
pub fn format_stack(stack: &[TimelineStackFrame]) -> (s: String)
    ensures
        s@ == joined_names(stack@, stack@.len() as int),
{
    let mut out = String::new();
    let mut i: usize = 0;
    proof {
        reveal_strlit("(root)");
    }
    while i < stack.len()
        invariant
            i <= stack@.len(),
            out@ == joined_names(stack@, i as int),
            "(root)"@ == seq!['(', 'r', 'o', 'o', 't', ')'],
        decreases stack@.len() - i,
    {
        let f = &stack[i];
        let keep = !crate::text::str_eq(f.name.as_str(), "(root)") && !f.name.as_str().is_empty();
        if keep {
            if out.as_str().is_empty() {
                out = f.name.clone();
            } else {
                let mut next = crate::text::concat(f.name.as_str(), " <- ");
                next.append(out.as_str());
                out = next;
            }
        }
        i += 1;
    }
    out
}

/// Name index of each record.
pub open spec fn timeline_name_keys(t: TimelineData) -> Seq<u32> {
    Seq::new(t.node_count as nat, |i: int| t.names@[i])
}

/// `groups` holds the records with a size grouped by their resolved name.
pub open spec fn names_grouped(t: TimelineData, groups: Seq<(String, TypeSummary)>) -> bool {
    grouped(timeline_name_keys(t), timeline_weights(t), timeline_counted(t), t.strings@, "<str "@, ">"@, groups)
}

/// The labels of the entries.
pub open spec fn labels_of(v: Seq<(String, TypeSummary)>) -> Seq<String> {
    v.map_values(|e: (String, TypeSummary)| e.0)
}

/// `e` reports the group `g` with no type split.
pub open spec fn plain_entry(g: (String, TypeSummary), e: TimelineNameEntry) -> bool {
    e.name@ == g.0@ && e.size == g.1.size && e.count == g.1.count && e.types@.len() == 0
}

/// The records with a size grouped by resolved name.
fn name_groups(t: &TimelineData) -> (groups: Vec<(String, TypeSummary)>)
    requires
        columns_wf(*t),
        sizes_sum(t.sizes@, t.node_count as int) <= u64::MAX,
    ensures
        names_grouped(*t, groups@),
        distinct_labels(groups@),
{
    let n = t.node_count;
    let mut keys: Vec<u32> = Vec::new();
    let mut weights: Vec<u64> = Vec::new();
    let mut counted: Vec<bool> = Vec::new();
    let mut i: usize = 0;
    while i < n
        invariant
            i <= n,
            n == t.node_count,
            columns_wf(*t),
            keys@ == timeline_name_keys(*t).subrange(0, i as int),
            weights@ == timeline_weights(*t).subrange(0, i as int),
            counted@ == timeline_counted(*t).subrange(0, i as int),
        decreases n - i,
    {
        keys.push(t.names[i]);
        weights.push(t.sizes[i] as u64);
        counted.push(t.sizes[i] != 0);
        i += 1;
    }
    proof {
        assert(keys@ == timeline_name_keys(*t));
        assert(weights@ == timeline_weights(*t));
        assert(counted@ == timeline_counted(*t));
        lemma_total_is_sizes_sum(*t, n as int);
    }
    let groups = group_by_label(&keys, &weights, &counted, &t.strings, "<str ", ">");
    proof {
        crate::summary::lemma_grouped_distinct(keys@, weights@, counted@, t.strings@, "<str "@, ">"@, groups@);
    }
    groups
}

/// The name groups of `t`, largest first.
fn ranked_names(t: &TimelineData) -> (ranked: Vec<(String, TypeSummary)>)
    requires
        columns_wf(*t),
        sizes_sum(t.sizes@, t.node_count as int) <= u64::MAX,
    ensures
        exists|groups: Seq<(String, TypeSummary)>| names_grouped(*t, groups) && #[trigger] top_entries(groups, None, usize::MAX, ranked@),
        distinct_labels(ranked@),
{
    let groups = name_groups(t);
    let ranked = top_passing(&groups, usize::MAX, None);
    proof {
        assert(opt_view(None) == None::<Seq<char>>);
    }
    ranked
}

/// Names containing `query` case-insensitively, the first 100 by
/// descending size (`search_strings`): records with a size grouped by name.
pub fn search_names(t: &TimelineData, query: &str) -> (res: Vec<TimelineNameEntry>)
    requires
        columns_wf(*t),
        sizes_sum(t.sizes@, t.node_count as int) <= u64::MAX,
    ensures
        exists|groups: Seq<(String, TypeSummary)>, ranked: Seq<(String, TypeSummary)>, m: Seq<SearchMatch>| {
            &&& #[trigger] names_grouped(*t, groups)
            &&& #[trigger] top_entries(groups, None, usize::MAX, ranked)
            &&& #[trigger] first_matches(labels_of(ranked), lowercase(query@), 100, m)
            &&& res@.len() == m.len()
            &&& forall|k: int| 0 <= k < m.len() ==> plain_entry(ranked[m[k].index as int], #[trigger] res@[k])
        },
{
    let ranked = ranked_names(t);
    let mut labels: Vec<String> = Vec::new();
    let mut i: usize = 0;
    while i < ranked.len()
        invariant
            i <= ranked@.len(),
            labels@ == labels_of(ranked@).subrange(0, i as int),
        decreases ranked@.len() - i,
    {
        labels.push(ranked[i].0.clone());
        i += 1;
    }
    proof {
        assert(labels@ == labels_of(ranked@));
    }
    let m = search_table(&labels, query, 100);
    let mut res: Vec<TimelineNameEntry> = Vec::new();
    let mut k: usize = 0;
    while k < m.len()
        invariant
            k <= m@.len(),
            labels@ == labels_of(ranked@),
            first_matches(labels@, lowercase(query@), 100, m@),
            res@.len() == k,
            forall|x: int| 0 <= x < k ==> plain_entry(ranked@[m@[x].index as int], #[trigger] res@[x]),
        decreases m@.len() - k,
    {
        let g = &ranked[m[k].index];
        res.push(TimelineNameEntry { name: g.0.clone(), size: g.1.size, count: g.1.count, types: Vec::new() });
        k += 1;
    }
    res
}

/// Resolved name of record `i`.
pub open spec fn name_label(t: TimelineData, i: int) -> Seq<char> {
    string_of(t, t.names@[i])
}

/// Position of the first entry of type `ty` in `s` at or after `j`, or -1.
pub open spec fn find_type(s: Seq<(u8, u64, usize)>, ty: u8, j: int) -> int
    decreases s.len() - j,
{
    if j < 0 || j >= s.len() {
        -1
    } else if s[j].0 == ty {
        j
    } else {
        find_type(s, ty, j + 1)
    }
}

/// Per-type split of the records with a size named `l` among the first
/// `k`: (type index, summed size, count), types in the order first met.
pub open spec fn type_split(t: TimelineData, l: Seq<char>, k: int) -> Seq<(u8, u64, usize)>
    decreases k,
{
    if k <= 0 {
        Seq::empty()
    } else {
        let prev = type_split(t, l, k - 1);
        let i = k - 1;
        if t.sizes@[i] != 0 && name_label(t, i) == l {
            let ty = t.types@[i];
            let j = find_type(prev, ty, 0);
            if j < 0 {
                prev.push((ty, t.sizes@[i] as u64, 1usize))
            } else {
                prev.update(j, (ty, (prev[j].1 + t.sizes@[i]) as u64, (prev[j].2 + 1) as usize))
            }
        } else {
            prev
        }
    }
}

/// Summed sizes of the split's entries.
pub open spec fn split_size(s: Seq<(u8, u64, usize)>) -> int
    decreases s.len(),
{
    if s.len() == 0 {
        0
    } else {
        split_size(s.drop_last()) + s.last().1
    }
}

/// Summed counts of the split's entries.
pub open spec fn split_count(s: Seq<(u8, u64, usize)>) -> int
    decreases s.len(),
{
    if s.len() == 0 {
        0
    } else {
        split_count(s.drop_last()) + s.last().2
    }
}

proof fn lemma_find_type(s: Seq<(u8, u64, usize)>, ty: u8, j: int)
    requires
        0 <= j,
    ensures
        find_type(s, ty, j) == -1 || (j <= find_type(s, ty, j) < s.len() && s[find_type(s, ty, j)].0 == ty),
        find_type(s, ty, j) == -1 ==> forall|x: int| j <= x < s.len() ==> s[x].0 != ty,
        find_type(s, ty, j) >= 0 ==> forall|x: int| j <= x < find_type(s, ty, j) ==> s[x].0 != ty,
    decreases s.len() - j,
{
    if j < s.len() && s[j].0 != ty {
        lemma_find_type(s, ty, j + 1);
    }
}

proof fn lemma_split_sums_push(s: Seq<(u8, u64, usize)>, e: (u8, u64, usize))
    ensures
        split_size(s.push(e)) == split_size(s) + e.1,
        split_count(s.push(e)) == split_count(s) + e.2,
{
    assert(s.push(e).drop_last() =~= s);
}

proof fn lemma_split_sums_update(s: Seq<(u8, u64, usize)>, j: int, e: (u8, u64, usize))
    requires
        0 <= j < s.len(),
    ensures
        split_size(s.update(j, e)) == split_size(s) - s[j].1 + e.1,
        split_count(s.update(j, e)) == split_count(s) - s[j].2 + e.2,
    decreases s.len(),
{
    if j == s.len() - 1 {
        assert(s.update(j, e).drop_last() =~= s.drop_last());
    } else {
        lemma_split_sums_update(s.drop_last(), j, e);
        assert(s.update(j, e).drop_last() =~= s.drop_last().update(j, e));
    }
}

proof fn lemma_split_sums_bound(s: Seq<(u8, u64, usize)>, j: int)
    requires
        0 <= j < s.len(),
    ensures
        s[j].1 <= split_size(s),
        s[j].2 <= split_count(s),
        split_size(s) >= 0,
        split_count(s) >= 0,
    decreases s.len(),
{
    if j < s.len() - 1 {
        lemma_split_sums_bound(s.drop_last(), j);
        assert(s.drop_last()[j] == s[j]);
    } else if s.len() > 1 {
        lemma_split_sums_bound(s.drop_last(), 0);
        assert(s.last() == s[j]);
    } else {
        assert(s.drop_last().len() == 0);
        assert(split_size(s.drop_last()) == 0);
        assert(split_count(s.drop_last()) == 0);
        assert(s.last() == s[j]);
    }
}

proof fn lemma_split_sums_nonneg(s: Seq<(u8, u64, usize)>)
    ensures
        split_size(s) >= 0,
        split_count(s) >= 0,
{
    if s.len() > 0 {
        lemma_split_sums_bound(s, 0);
    }
}

/// A name's split by node type adds up to the name's group: its sizes to
/// the group's size, its counts to the group's count.
pub proof fn lemma_split_sums(t: TimelineData, l: Seq<char>, k: int)
    requires
        columns_wf(t),
        0 <= k <= t.node_count,
        sizes_sum(t.sizes@, t.node_count as int) <= u64::MAX,
    ensures
        split_size(type_split(t, l, k)) == crate::grouping::group_weight(timeline_name_keys(t), timeline_weights(t),
            timeline_counted(t), t.strings@, "<str "@, ">"@, l, k),
        split_count(type_split(t, l, k)) == crate::grouping::group_count(timeline_name_keys(t), timeline_counted(t),
            t.strings@, "<str "@, ">"@, l, k),
    decreases k,
{
    if k > 0 {
        lemma_split_sums(t, l, k - 1);
        let prev = type_split(t, l, k - 1);
        let i = k - 1;
        if t.sizes@[i] != 0 && name_label(t, i) == l {
            let ty = t.types@[i];
            let j = find_type(prev, ty, 0);
            lemma_find_type(prev, ty, 0);
            if j < 0 {
                lemma_split_sums_push(prev, (ty, t.sizes@[i] as u64, 1usize));
            } else {
                lemma_split_sums_bound(prev, j);
                crate::grouping::lemma_group_weight_bound(timeline_name_keys(t), timeline_weights(t), timeline_counted(t),
                    t.strings@, "<str "@, ">"@, l, k);
                lemma_total_is_sizes_sum(t, k);
                lemma_sizes_sum_mono(t.sizes@, k, t.node_count as int);
                lemma_split_sums_update(prev, j, (ty, (prev[j].1 + t.sizes@[i]) as u64, (prev[j].2 + 1) as usize));
            }
        }
    }
}

/// Whether record `i` is named `l`, without copying the name.
fn has_label(t: &TimelineData, i: usize, l: &str) -> (b: bool)
    requires
        columns_wf(*t),
        i < t.node_count,
    ensures
        b == (name_label(*t, i as int) == l@),
{
    let idx = t.names[i];
    if (idx as usize) < t.strings.len() {
        crate::text::str_eq(t.strings[idx as usize].as_str(), l)
    } else {
        let s = resolve_or(&t.strings, idx, "<str ", ">");
        crate::text::str_eq(s.as_str(), l)
    }
}

/// The per-type split of the records named `l` (`top_names`' split).
fn split_of(t: &TimelineData, l: &str) -> (out: Vec<(u8, u64, usize)>)
    requires
        columns_wf(*t),
        sizes_sum(t.sizes@, t.node_count as int) <= u64::MAX,
    ensures
        out@ == type_split(*t, l@, t.node_count as int),
{
    let n = t.node_count;
    let mut out: Vec<(u8, u64, usize)> = Vec::new();
    let mut i: usize = 0;
    while i < n
        invariant
            i <= n,
            n == t.node_count,
            columns_wf(*t),
            sizes_sum(t.sizes@, n as int) <= u64::MAX,
            out@ == type_split(*t, l@, i as int),
        decreases n - i,
    {
        if t.sizes[i] != 0 && has_label(t, i, l) {
            let ty = t.types[i];
            let ghost prev = out@;
            proof {
                lemma_find_type(prev, ty, 0);
                lemma_split_sums(*t, l@, i as int);
                lemma_split_sums(*t, l@, i + 1);
                crate::grouping::lemma_group_weight_bound(timeline_name_keys(*t), timeline_weights(*t), timeline_counted(*t),
                    t.strings@, "<str "@, ">"@, l@, i + 1);
                lemma_total_is_sizes_sum(*t, i + 1);
                lemma_sizes_sum_mono(t.sizes@, i + 1, n as int);
                lemma_split_sums_nonneg(prev);
            }
            let mut j: usize = 0;
            while j < out.len() && out[j].0 != ty
                invariant
                    j <= out@.len(),
                    out@ == prev,
                    find_type(prev, ty, 0) == find_type(prev, ty, j as int),
                decreases out@.len() - j,
            {
                j += 1;
            }
            if j < out.len() {
                let e = out[j];
                proof {
                    lemma_split_sums_bound(prev, j as int);
                    lemma_split_sums_update(prev, j as int, (ty, (prev[j as int].1 + t.sizes@[i as int]) as u64, (prev[j as int].2 + 1) as usize));
                    assert(find_type(prev, ty, j as int) == j);
                }
                out.set(j, (ty, e.1 + t.sizes[i] as u64, e.2 + 1));
            } else {
                proof {
                    assert(find_type(prev, ty, j as int) == -1);
                }
                out.push((ty, t.sizes[i] as u64, 1));
            }
        }
        i += 1;
    }
    out
}

/// Allocations by name, with the totals of the whole timeline.
#[derive(Debug, Clone)]
pub struct TimelineNamesResult {
    pub total_size: u64,
    pub total_count: usize,
    pub entries: Vec<TimelineNameEntry>,
}

/// The entries as (name, size and count) pairs.
pub open spec fn name_summaries(v: Seq<TimelineNameEntry>) -> Seq<(String, TypeSummary)> {
    v.map_values(|e: TimelineNameEntry| (e.name, TypeSummary { size: e.size, count: e.count }))
}

/// The type split of entry `e`: per node type (named as the header names
/// it, or the index in decimal), in the order first met.
pub open spec fn split_shown(t: TimelineData, e: TimelineNameEntry) -> bool {
    let sp = type_split(t, e.name@, t.node_count as int);
    &&& e.types@.len() == sp.len()
    &&& forall|j: int| 0 <= j < sp.len() ==> {
        &&& (#[trigger] e.types@[j]).name@ == crate::grouping::label_of(t.type_names@, Seq::empty(), Seq::empty(), sp[j].0 as u32)
        &&& e.types@[j].size == sp[j].1
        &&& e.types@[j].count == sp[j].2
    }
}

/// Top allocation names (`top_names`): records with a size grouped by
/// name, the `top` largest that pass `filter`, each with
/// its split by node type.
pub fn top_names_of(t: &TimelineData, top: usize, filter: Option<&str>) -> (r: TimelineNamesResult)
    requires
        columns_wf(*t),
        sizes_sum(t.sizes@, t.node_count as int) <= u64::MAX,
    ensures
        r.total_size == t.total_allocated,
        r.total_count == t.node_count,
        exists|groups: Seq<(String, TypeSummary)>| #[trigger] names_grouped(*t, groups)
            && top_entries(groups, opt_view(filter), top, name_summaries(r.entries@)),
        forall|k: int| 0 <= k < r.entries@.len() ==> split_shown(*t, #[trigger] r.entries@[k]),
{
    let groups = name_groups(t);
    let kept = top_passing(&groups, top, filter);
    let mut entries: Vec<TimelineNameEntry> = Vec::new();
    let mut k: usize = 0;
    while k < kept.len()
        invariant
            k <= kept@.len(),
            columns_wf(*t),
            sizes_sum(t.sizes@, t.node_count as int) <= u64::MAX,
            entries@.len() == k,
            forall|x: int| 0 <= x < k ==> (#[trigger] entries@[x]).name == kept@[x].0 && entries@[x].size == kept@[x].1.size
                && entries@[x].count == kept@[x].1.count,
            forall|x: int| 0 <= x < k ==> split_shown(*t, #[trigger] entries@[x]),
        decreases kept@.len() - k,
    {
        let e = &kept[k];
        let sp = split_of(t, e.0.as_str());
        let mut types: Vec<TimelineNameType> = Vec::new();
        let mut j: usize = 0;
        while j < sp.len()
            invariant
                j <= sp@.len(),
                types@.len() == j,
                forall|y: int| 0 <= y < j ==> {
                    &&& (#[trigger] types@[y]).name@ == crate::grouping::label_of(t.type_names@, Seq::empty(), Seq::empty(), sp@[y].0 as u32)
                    &&& types@[y].size == sp@[y].1
                    &&& types@[y].count == sp@[y].2
                },
            decreases sp@.len() - j,
        {
            let name = resolve_or(&t.type_names, sp[j].0 as u32, "", "");
            proof {
                reveal_strlit("");
                assert(""@ =~= Seq::<char>::empty());
            }
            types.push(TimelineNameType { name, size: sp[j].1, count: sp[j].2 });
            j += 1;
        }
        let entry = TimelineNameEntry { name: e.0.clone(), size: e.1.size, count: e.1.count, types };
        proof {
            assert(split_shown(*t, entry));
        }
        entries.push(entry);
        k += 1;
    }
    let ghost ev = entries@;
    let r = TimelineNamesResult { total_size: t.total_allocated, total_count: t.node_count, entries };
    proof {
        assert(name_summaries(ev) =~= kept@) by {
            assert forall|x: int| 0 <= x < kept@.len() implies #[trigger] name_summaries(ev)[x] == kept@[x] by {
                assert(ev[x].name == kept@[x].0);
            }
        }
        assert(r.entries@ == ev);
        assert(top_entries(groups@, opt_view(filter), top, name_summaries(r.entries@)));
    }
    r
}

/// One frame in a stack key: the name and the script each preceded by its
/// length, then the line and the column.
pub open spec fn frame_key(f: TimelineStackFrame) -> Seq<char> {
    decimal(f.name@.len()) + ":"@ + f.name@ + decimal(f.script@.len()) + ":"@ + f.script@ + decimal(f.line as nat) + ","@
        + decimal(f.column as nat) + ";"@
}

/// The key of the first `k` frames of a stack; stacks with equal frames
/// have equal keys.
pub open spec fn stack_key(frames: Seq<TimelineStackFrame>, k: int) -> Seq<char>
    decreases k,
{
    if k <= 0 {
        Seq::empty()
    } else {
        stack_key(frames, k - 1) + frame_key(frames[k - 1])
    }
}

/// The key of a whole stack.
pub open spec fn key_of(frames: Seq<TimelineStackFrame>) -> Seq<char> {
    stack_key(frames, frames.len() as int)
}

/// Some frame of the stack is named by a match of the compiled filter.
pub open spec fn stack_passes(p: Option<Seq<char>>, frames: Seq<TimelineStackFrame>) -> bool {
    !filter_active(p) || exists|j: int| 0 <= j < frames.len() && crate::pattern::regex_is_match(p.unwrap(), (#[trigger] frames[j]).name@)
}

/// Trace node `i` takes part in the stack breakdown: it has allocations
/// and its stack passes `filter`.
pub open spec fn site_counted(t: TimelineData, filter: Option<Seq<char>>, i: int) -> bool {
    t.trace_nodes@[i].count > 0 && exists|frames: Seq<TimelineStackFrame>| #[trigger] stack_of(t, i as usize, frames) && stack_passes(filter, frames)
}

/// Position of each trace node as its key.
pub open spec fn site_iota(n: int) -> Seq<u32> {
    Seq::new(n as nat, |i: int| i as u32)
}

/// Bytes of each trace node.
pub open spec fn site_sizes(t: TimelineData) -> Seq<u64> {
    Seq::new(t.trace_nodes@.len(), |i: int| t.trace_nodes@[i].size as u64)
}

/// Allocation count of each trace node.
pub open spec fn site_counts(t: TimelineData) -> Seq<u64> {
    Seq::new(t.trace_nodes@.len(), |i: int| t.trace_nodes@[i].count as u64)
}

/// `keys` holds the stack key of every counted trace node, and `counted`
/// which nodes count.
pub open spec fn site_keys(t: TimelineData, filter: Option<Seq<char>>, keys: Seq<String>, counted: Seq<bool>) -> bool {
    &&& keys.len() == t.trace_nodes@.len()
    &&& counted.len() == t.trace_nodes@.len()
    &&& forall|i: int| 0 <= i < keys.len() ==> (#[trigger] counted[i]) == site_counted(t, filter, i)
    &&& forall|i: int| 0 <= i < keys.len() && counted[i] ==> exists|frames: Seq<TimelineStackFrame>|
        #[trigger] stack_of(t, i as usize, frames) && (#[trigger] keys[i])@ == key_of(frames)
}

/// An allocation site: a stack with the bytes and allocations recorded at
/// its leaf.
#[derive(Debug, Clone)]
pub struct TimelineStackEntry {
    pub size: u64,
    pub count: u64,
    pub stack: Vec<TimelineStackFrame>,
}

/// Allocation sites, with the totals over every counted site.
#[derive(Debug, Clone)]
pub struct TimelineStacksResult {
    pub total_size: u64,
    pub total_count: u64,
    pub entries: Vec<TimelineStackEntry>,
}

/// The key of one frame.
#[verifier::rlimit(30)]
fn frame_key_of(f: &TimelineStackFrame) -> (s: String)
    ensures
        s@ == frame_key(*f),
{
    proof {
        reveal_strlit(":");
        reveal_strlit(",");
        reveal_strlit(";");
    }
    let nl = crate::text::chars_of(f.name.as_str()).len();
    let sl = crate::text::chars_of(f.script.as_str()).len();
    let mut s = String::new();
    push_decimal(&mut s, nl as u64);
    s.append(":");
    s.append(f.name.as_str());
    push_decimal(&mut s, sl as u64);
    s.append(":");
    s.append(f.script.as_str());
    push_decimal(&mut s, f.line as u64);
    s.append(",");
    push_decimal(&mut s, f.column as u64);
    s.append(";");
    proof {
        assert(s@ =~= frame_key(*f));
    }
    s
}

/// The key of a stack.
fn stack_key_of(frames: &Vec<TimelineStackFrame>) -> (s: String)
    ensures
        s@ == key_of(frames@),
{
    let mut s = String::new();
    let mut i: usize = 0;
    while i < frames.len()
        invariant
            i <= frames@.len(),
            s@ == stack_key(frames@, i as int),
        decreases frames@.len() - i,
    {
        let k = frame_key_of(&frames[i]);
        s.append(k.as_str());
        i += 1;
    }
    s
}

/// Whether some frame's name matches the compiled filter.
fn stack_matches(re: &Option<crate::pattern::Pattern>, frames: &Vec<TimelineStackFrame>, filter: Ghost<Option<Seq<char>>>) -> (b: bool)
    requires
        re is Some <==> filter_active(filter@),
        re matches Some(p) ==> filter@ == Some(p.source()),
    ensures
        b == stack_passes(filter@, frames@),
{
    match re {
        None => true,
        Some(p) => {
            let mut j: usize = 0;
            while j < frames.len()
                invariant
                    j <= frames@.len(),
                    filter@ == Some(p.source()),
                    forall|x: int| 0 <= x < j ==> !crate::pattern::regex_is_match(p.source(), (#[trigger] frames@[x]).name@),
                decreases frames@.len() - j,
            {
                if crate::pattern::is_match(p, frames[j].name.as_str()) {
                    return true;
                }
                j += 1;
            }
            false
        },
    }
}

proof fn lemma_same_stack_passes(t: TimelineData, ti: usize, a: Seq<TimelineStackFrame>, b: Seq<TimelineStackFrame>, p: Option<Seq<char>>)
    requires
        stack_of(t, ti, a),
        stack_of(t, ti, b),
    ensures
        stack_passes(p, a) == stack_passes(p, b),
{
    assert forall|j: int| 0 <= j < a.len() implies (#[trigger] a[j]).name@ == b[j].name@ by {
        let m = depth_from(t, ti, 0);
        assert(frame_of(t, walk(t, ti, (m - 1 - j) as nat).unwrap() as int, a[j]));
        assert(frame_of(t, walk(t, ti, (m - 1 - j) as nat).unwrap() as int, b[j]));
    }
    if stack_passes(p, a) && filter_active(p) {
        let j = choose|j: int| 0 <= j < a.len() && crate::pattern::regex_is_match(p.unwrap(), (#[trigger] a[j]).name@);
        assert(crate::pattern::regex_is_match(p.unwrap(), b[j].name@));
    }
    if stack_passes(p, b) && filter_active(p) {
        let j = choose|j: int| 0 <= j < b.len() && crate::pattern::regex_is_match(p.unwrap(), (#[trigger] b[j]).name@);
        assert(a[j].name@ == b[j].name@);
        assert(crate::pattern::regex_is_match(p.unwrap(), a[j].name@));
    }
}

/// The stack key, whether it counts, and the stack of every trace node.
fn site_table(t: &TimelineData, filter: Option<&str>) -> (r: (Vec<String>, Vec<bool>, Vec<Vec<TimelineStackFrame>>))
    ensures
        site_keys(*t, opt_view(filter), r.0@, r.1@),
        r.2@.len() == t.trace_nodes@.len(),
        forall|i: int| 0 <= i < r.2@.len() && r.1@[i] ==> stack_of(*t, i as usize, (#[trigger] r.2@[i])@)
            && r.0@[i]@ == key_of(r.2@[i]@),
{
    let re = compile_filter(filter);
    let n = t.trace_nodes.len();
    let mut keys: Vec<String> = Vec::new();
    let mut counted: Vec<bool> = Vec::new();
    let mut stacks: Vec<Vec<TimelineStackFrame>> = Vec::new();
    let mut i: usize = 0;
    while i < n
        invariant
            i <= n,
            n == t.trace_nodes@.len(),
            re is Some <==> filter_active(opt_view(filter)),
            re matches Some(p) ==> opt_view(filter) == Some(p.source()),
            keys@.len() == i,
            counted@.len() == i,
            stacks@.len() == i,
            forall|x: int| 0 <= x < i ==> (#[trigger] counted@[x]) == site_counted(*t, opt_view(filter), x),
            forall|x: int| 0 <= x < i && counted@[x] ==> stack_of(*t, x as usize, (#[trigger] stacks@[x])@)
                && keys@[x]@ == key_of(stacks@[x]@),
        decreases n - i,
    {
        if t.trace_nodes[i].count > 0 {
            let frames = stack_frames(t, i);
            let pass = stack_matches(&re, &frames, Ghost(opt_view(filter)));
            proof {
                if !pass {
                    let ii: int = i as int;
                    assert(ii as usize == i);
                    assert forall|f: Seq<TimelineStackFrame>| #[trigger] stack_of(*t, ii as usize, f) implies !stack_passes(opt_view(filter), f) by {
                        lemma_same_stack_passes(*t, i, frames@, f, opt_view(filter));
                    }
                }
            }
            if pass {
                proof {
                    let ii: int = i as int;
                    assert(ii as usize == i);
                    assert(stack_of(*t, ii as usize, frames@) && stack_passes(opt_view(filter), frames@));
                    assert(site_counted(*t, opt_view(filter), ii));
                }
                keys.push(stack_key_of(&frames));
                counted.push(true);
                stacks.push(frames);
            } else {
                proof {
                    assert(!site_counted(*t, opt_view(filter), i as int));
                }
                keys.push(String::new());
                counted.push(false);
                stacks.push(Vec::new());
            }
        } else {
            proof {
                assert(!site_counted(*t, opt_view(filter), i as int));
            }
            keys.push(String::new());
            counted.push(false);
            stacks.push(Vec::new());
        }
        i += 1;
    }
    proof {
        assert forall|x: int| 0 <= x < keys@.len() && counted@[x] implies exists|frames: Seq<TimelineStackFrame>|
            #[trigger] stack_of(*t, x as usize, frames) && (#[trigger] keys@[x])@ == key_of(frames) by {
            assert(stack_of(*t, x as usize, stacks@[x]@));
        }
    }
    (keys, counted, stacks)
}

/// `e` reports the group labelled `l`: its bytes `size`, the summed
/// allocation counts of its trace nodes, and the stack of one of them.
pub open spec fn site_entry(t: TimelineData, keys: Seq<String>, counted: Seq<bool>, l: Seq<char>, size: u64, e: TimelineStackEntry) -> bool {
    let n = t.trace_nodes@.len() as int;
    &&& e.size == size
    &&& e.count == crate::grouping::group_weight(site_iota(n), site_counts(t), counted, keys, Seq::empty(), Seq::empty(), l, n)
    &&& key_of(e.stack@) == l
    &&& exists|i: int| 0 <= i < n && counted[i] && #[trigger] stack_of(t, i as usize, e.stack@)
}

/// `r` is the allocation-site breakdown of `t` (`top_stacks`): the trace
/// nodes that count grouped by stack key, the `top` largest groups by
/// bytes, and the totals over all counted nodes.
pub open spec fn stacks_result(t: TimelineData, filter: Option<Seq<char>>, top: usize, r: TimelineStacksResult) -> bool {
    exists|keys: Seq<String>, counted: Seq<bool>, groups: Seq<(String, TypeSummary)>, ranked: Seq<(String, TypeSummary)>| {
        &&& #[trigger] site_keys(t, filter, keys, counted)
        &&& #[trigger] grouped(site_iota(t.trace_nodes@.len() as int), site_sizes(t), counted, keys, Seq::empty(), Seq::empty(), groups)
        &&& #[trigger] top_entries(groups, None, top, ranked)
        &&& r.total_size == total_weight(site_sizes(t), counted, t.trace_nodes@.len() as int)
        &&& r.total_count == total_weight(site_counts(t), counted, t.trace_nodes@.len() as int)
        &&& r.entries@.len() == ranked.len()
        &&& forall|k: int| 0 <= k < ranked.len() ==> site_entry(t, keys, counted, ranked[k].0@, ranked[k].1.size, #[trigger] r.entries@[k])
    }
}

/// Copy of a stack.
fn copy_stack(v: &Vec<TimelineStackFrame>) -> (out: Vec<TimelineStackFrame>)
    ensures
        out@ == v@,
{
    let mut out: Vec<TimelineStackFrame> = Vec::new();
    let mut i: usize = 0;
    while i < v.len()
        invariant
            i <= v@.len(),
            out@ == v@.subrange(0, i as int),
        decreases v@.len() - i,
    {
        let f = &v[i];
        out.push(TimelineStackFrame { name: f.name.clone(), script: f.script.clone(), line: f.line, column: f.column });
        i += 1;
    }
    out
}

/// Summed weights of the counted records (no overflow: each weight fits in
/// 32 bits and there are fewer than 2^32 records).
fn counted_sum(weights: &Vec<u64>, counted: &Vec<bool>) -> (s: u64)
    requires
        weights@.len() == counted@.len(),
        weights@.len() <= u32::MAX,
        forall|i: int| 0 <= i < weights@.len() ==> weights@[i] <= u32::MAX,
    ensures
        s == total_weight(weights@, counted@, weights@.len() as int),
{
    let mut s: u64 = 0;
    let mut i: usize = 0;
    while i < weights.len()
        invariant
            i <= weights@.len(),
            weights@.len() == counted@.len(),
            weights@.len() <= u32::MAX,
            forall|x: int| 0 <= x < weights@.len() ==> weights@[x] <= u32::MAX,
            s == total_weight(weights@, counted@, i as int),
        decreases weights@.len() - i,
    {
        proof {
            crate::summary::lemma_total_weight_bound(weights@, counted@, i as int);
            assert(i * (u32::MAX as int) <= (u32::MAX as int) * (u32::MAX as int)) by (nonlinear_arith)
                requires
                    i <= u32::MAX,
            ;
        }
        if counted[i] {
            s = s + weights[i];
        }
        i += 1;
    }
    s
}

/// Allocation sites (`top_stacks`): trace nodes with allocations whose
/// stack has a frame named by a match of `filter` (all, when the filter is
/// absent or invalid), grouped by stack, the `top` largest by bytes.
#[verifier::rlimit(40)]
pub fn top_stacks_of(t: &TimelineData, top: usize, filter: Option<&str>) -> (r: TimelineStacksResult)
    requires
        t.trace_nodes@.len() <= u32::MAX,
    ensures
        stacks_result(*t, opt_view(filter), top, r),
{
    let (keys, counted, stacks) = site_table(t, filter);
    let n = t.trace_nodes.len();
    let mut ids: Vec<u32> = Vec::new();
    let mut sizes: Vec<u64> = Vec::new();
    let mut counts: Vec<u64> = Vec::new();
    let mut i: usize = 0;
    while i < n
        invariant
            i <= n,
            n == t.trace_nodes@.len(),
            n <= u32::MAX,
            ids@ == site_iota(n as int).subrange(0, i as int),
            sizes@ == site_sizes(*t).subrange(0, i as int),
            counts@ == site_counts(*t).subrange(0, i as int),
        decreases n - i,
    {
        ids.push(i as u32);
        sizes.push(t.trace_nodes[i].size as u64);
        counts.push(t.trace_nodes[i].count as u64);
        i += 1;
    }
    proof {
        assert(ids@ == site_iota(n as int));
        assert(sizes@ == site_sizes(*t));
        assert(counts@ == site_counts(*t));
    }
    let total_size = counted_sum(&sizes, &counted);
    let total_count = counted_sum(&counts, &counted);
    proof {
        reveal_strlit("");
        assert(""@ =~= Seq::<char>::empty());
    }
    let groups = group_by_label(&ids, &sizes, &counted, &keys, "", "");
    proof {
        crate::summary::lemma_grouped_distinct(ids@, sizes@, counted@, keys@, Seq::empty(), Seq::empty(), groups@);
    }
    let ranked = top_passing(&groups, top, None);
    proof {
        assert(opt_view(None) == None::<Seq<char>>);
    }
    let mut entries: Vec<TimelineStackEntry> = Vec::new();
    let mut k: usize = 0;
    while k < ranked.len()
        invariant
            k <= ranked@.len(),
            n == t.trace_nodes@.len(),
            n <= u32::MAX,
            ids@ == site_iota(n as int),
            counts@ == site_counts(*t),
            site_keys(*t, opt_view(filter), keys@, counted@),
            stacks@.len() == n,
            forall|x: int| 0 <= x < stacks@.len() && counted@[x] ==> stack_of(*t, x as usize, (#[trigger] stacks@[x])@)
                && keys@[x]@ == key_of(stacks@[x]@),
            grouped(ids@, sizes@, counted@, keys@, Seq::empty(), Seq::empty(), groups@),
            top_entries(groups@, None, top, ranked@),
            entries@.len() == k,
            forall|x: int| 0 <= x < k ==> site_entry(*t, keys@, counted@, ranked@[x].0@, ranked@[x].1.size, #[trigger] entries@[x]),
        decreases ranked@.len() - k,
    {
        let l = &ranked[k].0;
        proof {
            assert(crate::summary::from_entry(groups@, None, ranked@[k as int]));
            let gi = choose|gi: int| 0 <= gi < groups@.len() && crate::summary::shown(None, #[trigger] groups@[gi])
                && ranked@[k as int].0@ == groups@[gi].0@ && ranked@[k as int].1 == groups@[gi].1;
            assert(groups@[gi].1.count > 0);
            crate::grouping::lemma_group_nonempty(ids@, counted@, keys@, Seq::empty(), Seq::empty(), l@, n as int);
        }
        let mut c: u64 = 0;
        let mut first: usize = n;
        let mut j: usize = 0;
        while j < n
            invariant
                j <= n,
                n == t.trace_nodes@.len(),
                n <= u32::MAX,
                ids@ == site_iota(n as int),
                counts@ == site_counts(*t),
                keys@.len() == n,
                counted@.len() == n,
                c == crate::grouping::group_weight(ids@, counts@, counted@, keys@, Seq::empty(), Seq::empty(), l@, j as int),
                c <= j * (u32::MAX as int),
                first == n || (first < j && counted@[first as int] && keys@[first as int]@ == l@),
                first == n ==> forall|y: int| 0 <= y < j ==> !(counted@[y] && #[trigger] keys@[y]@ == l@),
            decreases n - j,
        {
            let hit = counted[j] && crate::text::str_eq(keys[j].as_str(), l.as_str());
            proof {
                assert(crate::grouping::label_of(keys@, Seq::empty(), Seq::empty(), ids@[j as int]) == keys@[j as int]@);
                assert(j * (u32::MAX as int) + (u32::MAX as int) <= (u32::MAX as int) * (u32::MAX as int)) by (nonlinear_arith)
                    requires
                        j < u32::MAX,
                ;
            }
            if hit {
                c = c + counts[j];
                if first == n {
                    first = j;
                }
            }
            j += 1;
        }
        proof {
            if first == n {
                let r = choose|r: int| 0 <= r < n && #[trigger] counted@[r] && crate::grouping::label_of(keys@, Seq::empty(), Seq::empty(), ids@[r]) == l@;
                assert(keys@[r]@ == l@);
            }
        }
        let stack = copy_stack(&stacks[first]);
        let e = TimelineStackEntry { size: ranked[k].1.size, count: c, stack };
        proof {
            let fi: int = first as int;
            assert(fi as usize == first);
            assert(stack_of(*t, fi as usize, stacks@[fi]@));
            assert(e.stack@ == stacks@[fi]@);
            assert(key_of(e.stack@) == l@);
            assert(e.count == crate::grouping::group_weight(site_iota(n as int), site_counts(*t), counted@, keys@, Seq::empty(), Seq::empty(), l@, n as int));
            assert(0 <= fi < n && counted@[fi] && stack_of(*t, fi as usize, e.stack@));
            assert(site_entry(*t, keys@, counted@, ranked@[k as int].0@, ranked@[k as int].1.size, e));
        }
        entries.push(e);
        k += 1;
    }
    let r = TimelineStacksResult { total_size, total_count, entries };
    proof {
        assert(sizes@ == site_sizes(*t));
        assert(site_keys(*t, opt_view(filter), keys@, counted@) && grouped(site_iota(n as int), site_sizes(*t), counted@, keys@, Seq::empty(), Seq::empty(), groups@)
            && top_entries(groups@, None, top, ranked@));
    }
    r
}

impl HeapTimeline {
    /// A timeline from its header and parsed data.
    pub fn new(meta: SnapshotMeta, data: TimelineData) -> (h: HeapTimeline)
        requires
            columns_wf(data),
            data.total_allocated == if sizes_sum(data.sizes@, data.node_count as int) <= u64::MAX {
                sizes_sum(data.sizes@, data.node_count as int)
            } else {
                u64::MAX as int
            },
        ensures
            h.wf(),
            h.header() == meta,
            h.timeline() == data,
    {
        HeapTimeline { meta, data }
    }

    /// Parses a timeline from the bytes of its file and its header.
    pub fn from_bytes(bytes: &[u8], meta: SnapshotMeta) -> (res: Result<HeapTimeline, Error>)
        requires
            bytes@.len() + 12 <= usize::MAX,
            meta.meta.node_fields@.len() <= 16,
        ensures
            res matches Ok(h) ==> h.wf() && h.header() == meta && exists|o: crate::timeline::TimelineOffsets|
                #[trigger] crate::timeline::timeline_offsets(meta.meta.node_fields@, o) && crate::timeline::timeline_of(
                bytes@,
                meta.meta.node_fields@.len() as int,
                o,
                crate::timeline::first_types(meta),
                h.timeline(),
            ),
            res matches Err(Error::UnsupportedLayout) <==> !crate::timeline::has_timeline_fields(meta.meta.node_fields@),
            crate::timeline::has_timeline_fields(meta.meta.node_fields@) ==> (res is Ok <==> crate::timeline::has_timeline_arrays(bytes@)
                && crate::timeline::timeline_strings_decode(bytes@)),
            res is Err ==> res matches Err(Error::UnsupportedLayout) || res matches Err(Error::HeaderParseFailed),
    {
        match parse_timeline(bytes, &meta) {
            Ok(data) => {
                proof {
                    let o = choose|o: crate::timeline::TimelineOffsets| #[trigger] crate::timeline::timeline_offsets(meta.meta.node_fields@, o)
                        && crate::timeline::timeline_of(bytes@, meta.meta.node_fields@.len() as int, o, crate::timeline::first_types(meta), data);
                    let p = choose|p: int| #[trigger] crate::load::first_occurrence(bytes@, crate::bytes::nodes_key(), p)
                        && crate::timeline::columns_of(crate::load::array_numbers(bytes@, crate::bytes::nodes_key(), p), meta.meta.node_fields@.len() as int, o, data)
                        && data.total_allocated == if sizes_sum(data.sizes@, data.node_count as int) <= u64::MAX {
                            sizes_sum(data.sizes@, data.node_count as int)
                        } else {
                            u64::MAX as int
                        };
                }
                Ok(HeapTimeline { meta, data })
            },
            Err(e) => Err(e),
        }
    }

    /// The header.
    pub closed spec fn header(&self) -> SnapshotMeta {
        self.meta
    }

    /// The parsed data.
    pub closed spec fn timeline(&self) -> TimelineData {
        self.data
    }

    /// The columns are consistent and the total is the saturated sum of the
    /// sizes.
    pub closed spec fn wf(&self) -> bool {
        &&& columns_wf(self.data)
        &&& self.data.total_allocated == if sizes_sum(self.data.sizes@, self.data.node_count as int) <= u64::MAX {
            sizes_sum(self.data.sizes@, self.data.node_count as int)
        } else {
            u64::MAX as int
        }
    }

    /// The header (`meta`).
    pub fn meta(&self) -> (m: &SnapshotMeta)
        ensures
            *m == self.header(),
    {
        &self.meta
    }

    /// The parsed data.
    pub fn data(&self) -> (d: &TimelineData)
        ensures
            *d == self.timeline(),
    {
        &self.data
    }

    /// Allocated bytes by node type (`stream_summary`): the `top` (30 by
    /// default) largest types that pass `filter`. When the sizes sum to
    /// 2^64 - 1 or more the totals do not fit and the summary fails.
    pub fn stream_summary(&self, top: Option<usize>, filter: Option<&str>) -> (res: Result<HeapTimelineSummary, Error>)
        requires
            self.wf(),
        ensures
            res is Err <==> self.timeline().total_allocated == u64::MAX,
            res is Err ==> res == Err::<HeapTimelineSummary, Error>(Error::SizeOverflow),
            res matches Ok(s) ==> {
                let t = self.timeline();
                &&& s.total_allocated == t.total_allocated
                &&& s.total_freed == 0
                &&& forall|i: int| 0 <= i < s.by_type@.len() ==> (#[trigger] s.by_type@[i]).1.freed == 0
                &&& exists|groups: Seq<(String, TypeSummary)>|
                    grouped(timeline_type_keys(t), timeline_weights(t), timeline_counted(t), t.type_names@, Seq::empty(), Seq::empty(), groups)
                    && #[trigger] top_entries(groups, opt_view(filter), top_or(top, 30), as_type_summaries(s.by_type@))
            },
    {
        if self.data.total_allocated == u64::MAX {
            return Err(Error::SizeOverflow);
        }
        let k: usize = match top {
            Some(k) => k,
            None => 30,
        };
        let r = type_summary(&self.data, k, filter);
        proof {
            let t = self.data;
            let g = choose|g: Seq<(String, TypeSummary)>|
                grouped(timeline_type_keys(t), timeline_weights(t), timeline_counted(t), t.type_names@, Seq::empty(), Seq::empty(), g)
                && #[trigger] top_entries(g, opt_view(filter), k, as_type_summaries(r.by_type@));
            assert(top_entries(g, opt_view(filter), k, as_type_summaries(r.by_type@)));
            assert(t == self.timeline());
            assert(k == top_or(top, 30));
            assert(exists|groups: Seq<(String, TypeSummary)>|
                grouped(timeline_type_keys(self.timeline()), timeline_weights(self.timeline()), timeline_counted(self.timeline()),
                    self.timeline().type_names@, Seq::empty(), Seq::empty(), groups)
                && #[trigger] top_entries(groups, opt_view(filter), k, as_type_summaries(r.by_type@)));
        }
        Ok(r)
    }

    /// The object-growth profile (`growth`).
    pub fn growth(&self) -> (g: TimelineGrowth)
        ensures
            g.samples@ == self.timeline().samples@,
            self.timeline().samples@.len() == 0 ==> g.span_us == 0 && g.objects_start == 0 && g.objects_end == 0,
            self.timeline().samples@.len() > 0 ==> g.span_us == self.timeline().samples@.last().0
                && g.objects_start == self.timeline().samples@[0].1 && g.objects_end == self.timeline().samples@.last().1,
    {
        growth_of(&self.data.samples)
    }

    /// Names containing `query` case-insensitively, the first 100 by size
    /// (`search_strings`); fails as `stream_summary` does.
    pub fn search_strings(&self, query: &str) -> (res: Result<Vec<TimelineNameEntry>, Error>)
        requires
            self.wf(),
        ensures
            res is Err <==> self.timeline().total_allocated == u64::MAX,
            res is Err ==> res == Err::<Vec<TimelineNameEntry>, Error>(Error::SizeOverflow),
            res matches Ok(v) ==> exists|groups: Seq<(String, TypeSummary)>, ranked: Seq<(String, TypeSummary)>, m: Seq<SearchMatch>| {
                &&& #[trigger] names_grouped(self.timeline(), groups)
                &&& #[trigger] top_entries(groups, None, usize::MAX, ranked)
                &&& #[trigger] first_matches(labels_of(ranked), lowercase(query@), 100, m)
                &&& v@.len() == m.len()
                &&& forall|k: int| 0 <= k < m.len() ==> plain_entry(ranked[m[k].index as int], #[trigger] v@[k])
            },
    {
        if self.data.total_allocated == u64::MAX {
            return Err(Error::SizeOverflow);
        }
        let v = search_names(&self.data, query);
        proof {
            let t = self.data;
            let (g, r, m) = choose|groups: Seq<(String, TypeSummary)>, ranked: Seq<(String, TypeSummary)>, m: Seq<SearchMatch>| {
                &&& #[trigger] names_grouped(t, groups)
                &&& #[trigger] top_entries(groups, None, usize::MAX, ranked)
                &&& #[trigger] first_matches(labels_of(ranked), lowercase(query@), 100, m)
                &&& v@.len() == m.len()
                &&& forall|k: int| 0 <= k < m.len() ==> plain_entry(ranked[m[k].index as int], #[trigger] v@[k])
            };
            assert(names_grouped(t, g) && top_entries(g, None, usize::MAX, r) && first_matches(labels_of(r), lowercase(query@), 100, m));
            assert(t == self.timeline());
            assert(exists|groups: Seq<(String, TypeSummary)>, ranked: Seq<(String, TypeSummary)>, m: Seq<SearchMatch>| {
                &&& #[trigger] names_grouped(self.timeline(), groups)
                &&& #[trigger] top_entries(groups, None, usize::MAX, ranked)
                &&& #[trigger] first_matches(labels_of(ranked), lowercase(query@), 100, m)
                &&& v@.len() == m.len()
                &&& forall|k: int| 0 <= k < m.len() ==> plain_entry(ranked[m[k].index as int], #[trigger] v@[k])
            });
        }
        Ok(v)
    }

    /// Top allocation names with their split by node type (`top_names`):
    /// the `top` (30 by default) largest names that pass
    /// `filter`; fails as `stream_summary` does.
    pub fn top_names(&self, top: Option<usize>, filter: Option<&str>) -> (res: Result<TimelineNamesResult, Error>)
        requires
            self.wf(),
        ensures
            res is Err <==> self.timeline().total_allocated == u64::MAX,
            res is Err ==> res == Err::<TimelineNamesResult, Error>(Error::SizeOverflow),
            res matches Ok(r) ==> {
                &&& r.total_size == self.timeline().total_allocated
                &&& r.total_count == self.timeline().node_count
                &&& exists|groups: Seq<(String, TypeSummary)>| #[trigger] names_grouped(self.timeline(), groups)
                    && top_entries(groups, opt_view(filter), top_or(top, 30), name_summaries(r.entries@))
                &&& forall|k: int| 0 <= k < r.entries@.len() ==> split_shown(self.timeline(), #[trigger] r.entries@[k])
            },
    {
        if self.data.total_allocated == u64::MAX {
            return Err(Error::SizeOverflow);
        }
        let k: usize = match top {
            Some(k) => k,
            None => 30,
        };
        let r = top_names_of(&self.data, k, filter);
        proof {
            let g = choose|g: Seq<(String, TypeSummary)>| #[trigger] names_grouped(self.data, g)
                && top_entries(g, opt_view(filter), k, name_summaries(r.entries@));
            assert(k == top_or(top, 30));
            assert(names_grouped(self.timeline(), g) && top_entries(g, opt_view(filter), top_or(top, 30), name_summaries(r.entries@)));
        }
        Ok(r)
    }

    /// Allocation sites (`top_stacks`): the `top` (30 by default) largest
    /// stacks whose frames pass `filter`; more than 2^32 - 1 trace nodes do
    /// not fit.
    pub fn top_stacks(&self, top: Option<usize>, filter: Option<&str>) -> (res: Result<TimelineStacksResult, Error>)
        ensures
            res is Err <==> self.timeline().trace_nodes@.len() > u32::MAX,
            res is Err ==> res == Err::<TimelineStacksResult, Error>(Error::SizeOverflow),
            res matches Ok(r) ==> stacks_result(self.timeline(), opt_view(filter), top_or(top, 30), r),
    {
        if self.data.trace_nodes.len() > 0xffff_ffff {
            return Err(Error::SizeOverflow);
        }
        let k: usize = match top {
            Some(k) => k,
            None => 30,
        };
        let r = top_stacks_of(&self.data, k, filter);
        proof {
            assert(k == top_or(top, 30));
            assert(self.timeline() == self.data);
        }
        Ok(r)
    }

    /// The stack of trace node `ti`, root first (`stack_frames`).
    pub fn stack_frames(&self, ti: usize) -> (frames: Vec<TimelineStackFrame>)
        ensures
            stack_of(self.timeline(), ti, frames@),
    {
        stack_frames(&self.data, ti)
    }
}

/// The type breakdown of a timeline partitions it: the groups' sizes add
/// up to the summed sizes of the records, as do the name groups'.
pub proof fn lemma_timeline_groups_add_up(t: TimelineData, by_type: Seq<(String, TypeSummary)>, by_name: Seq<(String, TypeSummary)>)
    requires
        columns_wf(t),
        grouped(timeline_type_keys(t), timeline_weights(t), timeline_counted(t), t.type_names@, Seq::empty(), Seq::empty(), by_type),
        names_grouped(t, by_name),
    ensures
        crate::grouping::sizes_of(by_type, by_type.len() as int) == sizes_sum(t.sizes@, t.node_count as int),
        crate::grouping::sizes_of(by_name, by_name.len() as int) == sizes_sum(t.sizes@, t.node_count as int),
{
    crate::grouping::lemma_groups_add_up(timeline_type_keys(t), timeline_weights(t), timeline_counted(t), t.type_names@, Seq::empty(), Seq::empty(), by_type);
    crate::grouping::lemma_groups_add_up(timeline_name_keys(t), timeline_weights(t), timeline_counted(t), t.strings@, "<str "@, ">"@, by_name);
    lemma_total_is_sizes_sum(t, t.node_count as int);
}

} // verus!
