//! A loaded heap snapshot with its analyses cached: the full summary, the
//! dominator-tree analysis and the owner (first-parent) map are each built
//! on first use and shared by the queries that need them.

use vstd::prelude::*;
use crate::graph::SnapshotGraph;
use crate::grouping::TypeSummary;
use crate::nodes::{HeapSnapshotEdge, HeapSnapshotNode, NodeProperty};
use crate::owners::OwnerAnalysis;
use crate::page::{NodePage, NodePageOptions};
use crate::diff::{diff_entries, entries_fit, fits_i64, is_diff, SnapshotDiff};
use crate::path::ShortestPath;
use crate::queries::{NameMatch, NameQuery, RetainedEntry, RetainedResult};
use crate::reach::{all_reachable, dfs_preorder};
use crate::retained::{compute_retained, RetainedData};
use crate::retainers::{build_parent_map, ParentMap, RetainerChainNode, RetainerRef};
use crate::summary::{compute_full_summary, is_full_summary, lemma_grouped_distinct, slice_summary, HeapSnapshotSummary};
use crate::text::{chars_of, contains_chars, has_substring, lowercase, to_lowercase};
use crate::types::{Error, SnapshotMeta};

verus! {

/// A string of the table that matched a search.
#[derive(Debug, Clone)]
pub struct SearchMatch {
    pub index: usize,
    pub value: String,
}

/// A parsed heap snapshot and the analyses computed on it so far.
pub struct HeapSnapshot {
    meta: SnapshotMeta,
    graph: SnapshotGraph,
    full_summary: Option<HeapSnapshotSummary>,
    retained_data: Option<RetainedData>,
    parents: Option<ParentMap>,
}

/// Every node of `g` is reachable from the root (the dominator analysis
/// needs it).
pub fn check_reachable(g: &SnapshotGraph) -> (b: bool)
    requires
        g.wf(),
    ensures
        b == all_reachable(*g),
{
    if g.node_count == 0 {
        return false;
    }
    let p = dfs_preorder(g);
    let mut i: usize = 0;
    while i < g.node_count
        invariant
            g.wf(),
            g.node_count >= 1,
            p.of(*g),
            i <= g.node_count,
            forall|m: int| 0 <= m < i ==> #[trigger] crate::reach::reachable(*g, m),
        decreases g.node_count - i,
    {
        if p.preorder[i] == u32::MAX {
            proof {
                assert(!crate::reach::reachable(*g, i as int));
            }
            return false;
        }
        i += 1;
    }
    true
}

impl HeapSnapshot {
    /// The parsed snapshot.
    pub closed spec fn graph(self) -> SnapshotGraph {
        self.graph
    }

    /// The header the snapshot was built from.
    pub closed spec fn header(self) -> SnapshotMeta {
        self.meta
    }

    /// The cached analyses belong to the snapshot.
    pub closed spec fn wf(self) -> bool {
        &&& self.graph.wf()
        &&& self.full_summary matches Some(s) ==> is_full_summary(self.graph, s)
        &&& self.retained_data matches Some(rd) ==> rd.of(self.graph)
        &&& self.parents matches Some(pm) ==> pm.of(self.graph)
    }

    /// A snapshot with no analysis computed yet.
    pub fn new(meta: SnapshotMeta, graph: SnapshotGraph) -> (s: HeapSnapshot)
        requires
            graph.wf(),
        ensures
            s.wf(),
            s.graph() == graph,
            s.header() == meta,
    {
        HeapSnapshot { meta, graph, full_summary: None, retained_data: None, parents: None }
    }

    /// The header of the snapshot.
    pub fn meta(&self) -> (m: &SnapshotMeta)
        ensures
            *m == self.header(),
    {
        &self.meta
    }

    /// The parsed snapshot.
    pub fn snapshot_graph(&self) -> (g: &SnapshotGraph)
        ensures
            *g == self.graph(),
    {
        &self.graph
    }

    /// Record width of the node array.
    pub fn node_field_count(&self) -> (r: Option<usize>)
        ensures
            r == Some(self.graph().node_field_count),
    {
        Some(self.graph.node_field_count)
    }

    /// Record width of the edge array.
    pub fn edge_field_count(&self) -> (r: Option<usize>)
        ensures
            r == Some(self.graph().edge_field_count),
    {
        Some(self.graph.edge_field_count)
    }

    fn ensure_full_summary(&mut self)
        requires
            old(self).wf(),
        ensures
            final(self).wf(),
            final(self).graph() == old(self).graph(),
            final(self).header() == old(self).header(),
            final(self).full_summary is Some,
            final(self).retained_data == old(self).retained_data,
            final(self).parents == old(self).parents,
    {
        if self.full_summary.is_none() {
            let s = compute_full_summary(&self.graph);
            self.full_summary = Some(s);
        }
    }

    /// The summary cut to the `top` largest names passing `filter`
    /// (`stream_summary`); the full summary is computed once and kept.
    pub fn stream_summary(&mut self, top: usize, filter: Option<&str>) -> (s: HeapSnapshotSummary)
        requires
            old(self).wf(),
        ensures
            final(self).wf(),
            final(self).graph() == old(self).graph(),
            final(self).header() == old(self).header(),
            exists|full: HeapSnapshotSummary| {
                &&& is_full_summary(old(self).graph(), full)
                &&& s.total_size == full.total_size
                &&& s.total_count == full.total_count
                &&& s.by_node_type@.len() == full.by_node_type@.len()
                &&& forall|i: int| 0 <= i < full.by_node_type@.len() ==> (#[trigger] s.by_node_type@[i]).0@
                    == full.by_node_type@[i].0@ && s.by_node_type@[i].1 == full.by_node_type@[i].1
                &&& crate::summary::top_entries(full.by_node_name@, crate::pattern::opt_view(filter), top, s.by_node_name@)
            },
    {
        self.ensure_full_summary();
        let full = self.full_summary.as_ref().unwrap();
        proof {
            let g = self.graph;
            lemma_grouped_distinct(
                crate::summary::name_keys(g),
                crate::summary::self_weights(g),
                crate::summary::has_size(g),
                g.strings@,
                "<string#"@,
                ">"@,
                full.by_node_name@,
            );
        }
        slice_summary(full, top, filter)
    }

    /// A single node by record index (`get_node`).
    pub fn get_node(&self, node_index: usize) -> (res: Result<HeapSnapshotNode, Error>)
        requires
            self.wf(),
        ensures
            match res {
                Ok(v) => node_index < self.graph().node_count && crate::nodes::node_view(self.graph(), node_index as int, v),
                Err(e) => node_index >= self.graph().node_count && e == Error::NodeNotFound(node_index),
            },
    {
        crate::nodes::get_node(&self.graph, node_index)
    }

    /// What changed from `baseline` to this snapshot (`diff`): both totals
    /// and their change, and the per-name and per-type diffs of the two full
    /// summaries; fails when a size does not fit in an `i64`.
    pub fn diff(&mut self, baseline: &mut HeapSnapshot) -> (res: Result<SnapshotDiff, Error>)
        requires
            old(self).wf(),
            old(baseline).wf(),
        ensures
            final(self).wf(),
            final(baseline).wf(),
            final(self).graph() == old(self).graph(),
            final(baseline).graph() == old(baseline).graph(),
            exists|cur: HeapSnapshotSummary, base: HeapSnapshotSummary| {
                &&& #[trigger] is_full_summary(old(self).graph(), cur)
                &&& #[trigger] is_full_summary(old(baseline).graph(), base)
                &&& (res is Ok <==> cur.total_size <= i64::MAX && base.total_size <= i64::MAX && fits_i64(cur.by_node_name@)
                    && fits_i64(cur.by_node_type@) && fits_i64(base.by_node_name@) && fits_i64(base.by_node_type@))
                &&& (res is Err ==> res == Err::<SnapshotDiff, Error>(Error::SizeOverflow))
                &&& (res matches Ok(d) ==> {
                    &&& d.baseline_total == base.total_size
                    &&& d.profile_total == cur.total_size
                    &&& d.delta_total == cur.total_size - base.total_size
                    &&& is_diff(base.by_node_name@, cur.by_node_name@, d.by_node_name@)
                    &&& is_diff(base.by_node_type@, cur.by_node_type@, d.by_node_type@)
                })
            },
    {
        self.ensure_full_summary();
        baseline.ensure_full_summary();
        let cur = self.full_summary.as_ref().unwrap();
        let base = baseline.full_summary.as_ref().unwrap();
        proof {
            assert(is_full_summary(self.graph, *cur));
            assert(is_full_summary(baseline.graph, *base));
        }
        if cur.total_size > 0x7fff_ffff_ffff_ffff || base.total_size > 0x7fff_ffff_ffff_ffff || !entries_fit(&cur.by_node_name)
            || !entries_fit(&cur.by_node_type) || !entries_fit(&base.by_node_name) || !entries_fit(&base.by_node_type) {
            return Err(Error::SizeOverflow);
        }
        let d = SnapshotDiff {
            baseline_total: base.total_size,
            profile_total: cur.total_size,
            delta_total: cur.total_size as i64 - base.total_size as i64,
            by_node_name: diff_entries(&base.by_node_name, &cur.by_node_name),
            by_node_type: diff_entries(&base.by_node_type, &cur.by_node_type),
        };
        Ok(d)
    }

    /// One page of the node listing (`get_node_page`).
    pub fn get_node_page(&self, options: NodePageOptions) -> (p: NodePage)
        requires
            self.wf(),
            options.page < usize::MAX,
            (options.page + 1) * options.page_size <= usize::MAX,
        ensures
            crate::page::is_node_page(self.graph(), options, p),
    {
        crate::page::get_node_page(&self.graph, options)
    }

    /// A node and its outgoing edges (`get_node_edges`).
    pub fn get_node_edges(&self, node_index: usize) -> (res: Result<(HeapSnapshotNode, Vec<HeapSnapshotEdge>), Error>)
        requires
            self.wf(),
        ensures
            match res {
                Ok((v, edges)) => {
                    let g = self.graph();
                    &&& node_index < g.node_count
                    &&& crate::nodes::node_view(g, node_index as int, v)
                    &&& edges@.len() == g.first_edge(node_index + 1) - g.first_edge(node_index as int)
                    &&& forall|k: int| 0 <= k < edges@.len() ==> crate::nodes::edge_view(g, g.first_edge(node_index as int) + k, #[trigger] edges@[k])
                },
                Err(e) => node_index >= self.graph().node_count && e == Error::NodeNotFound(node_index),
            },
    {
        crate::nodes::get_node_edges(&self.graph, node_index)
    }

    /// A node and its properties with primitive values inlined
    /// (`get_node_properties`).
    pub fn get_node_properties(&self, node_index: usize) -> (res: Result<(HeapSnapshotNode, Vec<NodeProperty>), Error>)
        requires
            self.wf(),
        ensures
            match res {
                Ok((v, props)) => {
                    let g = self.graph();
                    &&& node_index < g.node_count
                    &&& crate::nodes::node_view(g, node_index as int, v)
                    &&& props@.len() == g.edge_count(node_index as int)
                    &&& forall|i: int| 0 <= i < props@.len() ==> {
                        let e = g.first_edge(node_index as int) + i;
                        &&& (#[trigger] props@[i]).name@ == crate::labels::edge_label(g, e)
                        &&& props@[i].edge_type@ == crate::labels::edge_type(g, e)
                        &&& crate::nodes::property_value(g, e, props@[i].value)
                    }
                },
                Err(e) => node_index >= self.graph().node_count && e == Error::NodeNotFound(node_index),
            },
    {
        crate::nodes::get_node_properties(&self.graph, node_index)
    }

    /// Record index of the first node with DevTools id `id` (`find_by_id`).
    pub fn find_by_id(&self, id: usize) -> (res: Option<usize>)
        requires
            self.wf(),
        ensures
            match res {
                Some(n) => n < self.graph().node_count && self.graph().id(n as int) == id && forall|m: int|
                    0 <= m < n ==> #[trigger] self.graph().id(m) != id,
                None => forall|m: int| 0 <= m < self.graph().node_count ==> #[trigger] self.graph().id(m) != id,
            },
    {
        crate::nodes::find_by_id(&self.graph, id)
    }

    /// Every node of the snapshot is reachable from the root.
    pub fn is_fully_reachable(&self) -> (b: bool)
        requires
            self.wf(),
        ensures
            b == all_reachable(self.graph()),
    {
        check_reachable(&self.graph)
    }

    /// Computes and keeps the dominator-tree analysis (`ensure_retained`).
    pub fn ensure_retained(&mut self)
        requires
            old(self).wf(),
            old(self).has_analysis() || all_reachable(old(self).graph()),
        ensures
            final(self).wf(),
            final(self).graph() == old(self).graph(),
            final(self).header() == old(self).header(),
            final(self).has_analysis(),
            final(self).analysis().of(final(self).graph()),
            old(self).has_analysis() ==> final(self).analysis() == old(self).analysis(),
    {
        if self.retained_data.is_none() {
            let rd = compute_retained(&self.graph);
            self.retained_data = Some(rd);
        }
    }

    /// The dominator-tree analysis has been computed.
    pub closed spec fn has_analysis(self) -> bool {
        self.retained_data is Some
    }

    /// The dominator-tree analysis of the snapshot, once computed.
    pub closed spec fn analysis(self) -> RetainedData {
        self.retained_data.unwrap()
    }

    fn ensure_parent_map(&mut self)
        requires
            old(self).wf(),
        ensures
            final(self).wf(),
            final(self).graph() == old(self).graph(),
            final(self).header() == old(self).header(),
            final(self).retained_data == old(self).retained_data,
            final(self).parents is Some,
    {
        if self.parents.is_none() {
            let pm = build_parent_map(&self.graph);
            self.parents = Some(pm);
        }
    }

    /// The owner (first-parent) map of the snapshot, once computed.
    pub closed spec fn owners_map(self) -> ParentMap {
        self.parents.unwrap()
    }

    /// Retained size of one node (`retained_size_of`).
    pub fn retained_size_of(&mut self, node_index: usize) -> (res: Result<u64, Error>)
        requires
            old(self).wf(),
            old(self).has_analysis() || all_reachable(old(self).graph()),
        ensures
            final(self).wf(),
            final(self).graph() == old(self).graph(),
            match res {
                Ok(r) => node_index < old(self).graph().node_count && r == final(self).analysis().retained@[node_index as int]
                    && final(self).analysis().of(old(self).graph()),
                Err(e) => node_index >= old(self).graph().node_count && e == Error::NodeNotFound(node_index),
            },
    {
        self.ensure_retained();
        let rd = self.retained_data.as_ref().unwrap();
        if node_index >= self.graph.node_count {
            return Err(Error::NodeNotFound(node_index));
        }
        Ok(rd.retained[node_index])
    }

    /// The nodes of largest retained size (`get_retained_entries`): self
    /// sizes stand in for retained sizes above five million nodes.
    pub fn get_retained_entries(&mut self, top_n: usize) -> (res: RetainedResult)
        requires
            old(self).wf(),
            old(self).graph().node_count <= 5_000_000 ==> old(self).has_analysis() || all_reachable(old(self).graph()),
        ensures
            final(self).wf(),
            final(self).graph() == old(self).graph(),
            res.approximate == (old(self).graph().node_count > 5_000_000),
            res.approximate ==> exists|rows: Seq<usize>|
                crate::queries::top_by_key(
                    crate::queries::self_keys(old(self).graph()),
                    crate::queries::every_node(old(self).graph()),
                    rows,
                    crate::queries::at_most(old(self).graph().node_count as int, top_n),
                ) && res.retained@.len() == rows.len() && forall|k: int|
                    0 <= k < rows.len() ==> crate::queries::entry_view(
                        old(self).graph(),
                        rows[k] as int,
                        old(self).graph().self_size(rows[k] as int) as u64,
                        true,
                        #[trigger] res.retained@[k],
                    ),
            !res.approximate ==> final(self).analysis().of(old(self).graph()) && exists|rows: Seq<usize>|
                crate::queries::exact_rows(old(self).graph(), final(self).analysis(), top_n, rows, res.retained@),
    {
        if self.graph.node_count > 5_000_000 {
            return crate::queries::approximate_entries(&self.graph, top_n);
        }
        self.ensure_retained();
        crate::queries::exact_entries(&self.graph, self.retained_data.as_ref().unwrap(), top_n)
    }

    /// Exclusive retained sizes by name and type (`retained_summary`).
    pub fn retained_summary(&mut self, top: usize, filter: Option<&str>) -> (res: Result<HeapSnapshotSummary, Error>)
        requires
            old(self).wf(),
            old(self).has_analysis() || all_reachable(old(self).graph()),
        ensures
            final(self).wf(),
            final(self).graph() == old(self).graph(),
            final(self).analysis().of(old(self).graph()),
            res is Ok <==> crate::summary::exclusive_totals_fit(old(self).graph(), final(self).analysis()),
            res matches Ok(s) ==> {
                &&& s.total_size == crate::grouping::total_weight(
                    crate::summary::self_weights(old(self).graph()),
                    crate::summary::has_size(old(self).graph()),
                    old(self).graph().node_count as int,
                )
                &&& s.total_count == old(self).graph().node_count
                &&& exists|names: Seq<(String, TypeSummary)>|
                    crate::summary::retained_by_name(old(self).graph(), final(self).analysis(), names)
                        && crate::summary::top_entries(names, crate::pattern::opt_view(filter), top, s.by_node_name@)
                &&& exists|types: Seq<(String, TypeSummary)>|
                    crate::summary::retained_by_type(old(self).graph(), final(self).analysis(), types)
                        && crate::summary::top_entries(types, crate::pattern::opt_view(filter), top, s.by_node_type@)
            },
    {
        self.ensure_retained();
        self.ensure_full_summary();
        let full = self.full_summary.as_ref().unwrap();
        crate::summary::retained_summary(&self.graph, self.retained_data.as_ref().unwrap(), full, top, filter)
    }

    /// Nodes whose name contains `query`, by retained size (`search_nodes`).
    pub fn search_nodes(&mut self, query: &str, top: usize) -> (res: Vec<RetainedEntry>)
        requires
            old(self).wf(),
            old(self).has_analysis() || all_reachable(old(self).graph()),
        ensures
            final(self).wf(),
            final(self).graph() == old(self).graph(),
            final(self).analysis().of(old(self).graph()),
            exists|rows: Seq<usize>|
                crate::sorting::ranked_desc(
                    crate::queries::retained_keys(old(self).graph(), final(self).analysis()),
                    crate::queries::search_hits(old(self).graph(), final(self).analysis(), lowercase(query@)),
                    rows,
                    crate::queries::at_most(
                        crate::sorting::hit_count(
                            crate::queries::search_hits(old(self).graph(), final(self).analysis(), lowercase(query@)),
                            old(self).graph().node_count as int,
                        ),
                        top,
                    ),
                ) && res@.len() == rows.len() && forall|k: int|
                    0 <= k < rows.len() ==> crate::queries::entry_view(
                        old(self).graph(),
                        rows[k] as int,
                        final(self).analysis().retained@[rows[k] as int],
                        false,
                        #[trigger] res@[k],
                    ),
    {
        self.ensure_retained();
        crate::queries::search_nodes(&self.graph, self.retained_data.as_ref().unwrap(), query, top)
    }

    /// Nodes answering a name query (`find_nodes`).
    pub fn find_nodes(&self, query: &NameQuery) -> (res: Vec<NameMatch>)
        requires
            self.wf(),
        ensures
            lowercase(query.name@).len() == 0 ==> res@.len() == 0,
            lowercase(query.name@).len() > 0 ==> exists|rows: Seq<usize>|
                crate::sorting::ranked_desc(
                    crate::queries::self_keys(self.graph()),
                    crate::queries::find_hits(self.graph(), *query),
                    rows,
                    crate::queries::capped(
                        crate::sorting::hit_count(crate::queries::find_hits(self.graph(), *query), self.graph().node_count as int),
                        query.limit,
                    ),
                ) && res@.len() == rows.len() && forall|k: int|
                    0 <= k < rows.len() ==> crate::queries::match_view(self.graph(), rows[k] as int, #[trigger] res@[k]),
    {
        let res = crate::queries::find_nodes(&self.graph, query);
        proof {
            let g = self.graph;
            if lowercase(query.name@).len() > 0 {
                let rows = choose|rows: Seq<usize>|
                    crate::sorting::ranked_desc(
                        crate::queries::self_keys(g),
                        crate::queries::find_hits(g, *query),
                        rows,
                        crate::queries::capped(
                            crate::sorting::hit_count(crate::queries::find_hits(g, *query), g.node_count as int),
                            query.limit,
                        ),
                    ) && res@.len() == rows.len() && forall|k: int|
                        0 <= k < rows.len() ==> crate::queries::match_view(g, rows[k] as int, #[trigger] res@[k]);
                assert(self.graph() == g);
            }
        }
        res
    }

    /// Shortest retention path from the root to a node (`shortest_path`).
    pub fn shortest_path(&mut self, node_index: usize, max_depth: usize) -> (res: Result<ShortestPath, Error>)
        requires
            old(self).wf(),
            old(self).has_analysis() || all_reachable(old(self).graph()),
        ensures
            final(self).wf(),
            final(self).graph() == old(self).graph(),
            match res {
                Err(e) => node_index >= old(self).graph().node_count && e == Error::NodeNotFound(node_index),
                Ok(sp) => {
                    let g = old(self).graph();
                    &&& node_index < g.node_count
                    &&& !sp.found ==> sp.nodes@.len() == 0 && sp.edges@.len() == 0
                    &&& sp.found <==> crate::path::reaches_within(g, 0, node_index as int, (max_depth as u32) as int)
                    &&& sp.found ==> !crate::path::reaches_within(g, 0, node_index as int, sp.nodes@.len() - 2)
                    &&& sp.found ==> {
                        &&& sp.nodes@.len() >= 1
                        &&& sp.nodes@.len() <= (max_depth as u32) + 1
                        &&& sp.nodes@[0].index == 0
                        &&& sp.nodes@.last().index == node_index
                        &&& forall|i: int| 0 <= i < sp.nodes@.len() ==> crate::path::describes(g, #[trigger] sp.nodes@[i].index as int, sp.nodes@[i])
                        &&& forall|i: int| 0 <= i < sp.nodes@.len() - 1 ==> #[trigger] g.succ(sp.nodes@[i].index as int, sp.nodes@[i + 1].index as int)
                        &&& sp.edges@.len() == sp.nodes@.len() - 1
                        &&& forall|i: int| 0 <= i < sp.edges@.len() ==> crate::path::labels_edge(g, sp.nodes@[i].index as int, sp.nodes@[i + 1].index as int, #[trigger] sp.edges@[i])
                    }
                },
            },
    {
        self.ensure_retained();
        crate::path::shortest_path(&self.graph, self.retained_data.as_ref().unwrap(), node_index, max_depth)
    }

    /// Incoming edges of a node (`get_retainers`): every edge into it once,
    /// in edge order (hence by source), with its source, type and label.
    pub fn get_retainers(&self, node_index: usize) -> (res: Result<Vec<RetainerRef>, Error>)
        requires
            self.wf(),
        ensures
            match res {
                Ok(out) => {
                    let g = self.graph();
                    let h = crate::retainers::hits_upto(g, node_index as int, g.total_edges());
                    &&& node_index < g.node_count
                    &&& out@.len() == h.len()
                    &&& forall|i: int| 0 <= i < out@.len() ==> {
                        &&& g.owns((#[trigger] out@[i]).source as int, h[i])
                        &&& out@[i].edge_type@ == crate::labels::edge_type(g, h[i])
                        &&& out@[i].name@ == crate::labels::edge_label(g, h[i])
                    }
                },
                Err(e) => node_index >= self.graph().node_count && e == Error::NodeNotFound(node_index),
            },
    {
        crate::retainers::get_retainers(&self.graph, node_index)
    }

    /// The owner chain of a node (`retainer_chain`).
    pub fn retainer_chain(&mut self, node_index: usize, max_depth: usize) -> (res: Result<Vec<RetainerChainNode>, Error>)
        requires
            old(self).wf(),
        ensures
            final(self).wf(),
            final(self).graph() == old(self).graph(),
            final(self).owners_map().of(old(self).graph()),
            match res {
                Err(e) => node_index >= old(self).graph().node_count && e == Error::NodeNotFound(node_index),
                Ok(chain) => node_index < old(self).graph().node_count && crate::retainers::is_retainer_chain(
                    old(self).graph(),
                    final(self).owners_map(),
                    node_index,
                    max_depth,
                    chain@,
                ),
            },
    {
        self.ensure_parent_map();
        crate::retainers::retainer_chain(&self.graph, self.parents.as_ref().unwrap(), node_index, max_depth)
    }

    /// Owner groups of a name query (`owner_groups`).
    pub fn owner_groups(&mut self, query: &NameQuery, depth: usize, top: usize) -> (res: OwnerAnalysis)
        requires
            old(self).wf(),
        ensures
            final(self).wf(),
            final(self).graph() == old(self).graph(),
            final(self).owners_map().of(old(self).graph()),
            crate::owners::owner_result(old(self).graph(), final(self).owners_map(), *query, depth, top, res),
    {
        self.ensure_parent_map();
        crate::owners::owner_groups(&self.graph, self.parents.as_ref().unwrap(), query, depth, top)
    }

    /// Strings of the table containing `query`, case-insensitively, the first
    /// 100 in table order (`search_strings`).
    pub fn search_strings(&self, query: &str) -> (res: Vec<SearchMatch>)
        requires
            self.wf(),
        ensures
            crate::snapshot::first_matches(self.graph().strings@, lowercase(query@), 100, res@),
    {
        search_table(&self.graph.strings, query, 100)
    }
}

/// Why a node could not be addressed.
#[derive(Debug, Clone, PartialEq, Eq)]
pub enum TargetError {
    /// No node carries this DevTools id.
    NoSuchId(usize),
    /// Neither a record index nor an id was given.
    Missing,
}

/// The record index that `--index` or `--id` addresses (`resolve_target`):
/// the index when given, else the first node with the id.
pub fn resolve_target(snapshot: &HeapSnapshot, index: Option<usize>, id: Option<usize>) -> (res: Result<usize, TargetError>)
    requires
        snapshot.wf(),
    ensures
        index matches Some(i) ==> res == Ok::<usize, TargetError>(i),
        index is None && id is None ==> res == Err::<usize, TargetError>(TargetError::Missing),
        index is None && id is Some ==> match res {
            Ok(n) => n < snapshot.graph().node_count && snapshot.graph().id(n as int) == id.unwrap() && forall|m: int|
                0 <= m < n ==> #[trigger] snapshot.graph().id(m) != id.unwrap(),
            Err(e) => e == TargetError::NoSuchId(id.unwrap()) && forall|m: int|
                0 <= m < snapshot.graph().node_count ==> #[trigger] snapshot.graph().id(m) != id.unwrap(),
        },
{
    match (index, id) {
        (Some(i), _) => Ok(i),
        (None, Some(d)) => match snapshot.find_by_id(d) {
            Some(n) => Ok(n),
            None => Err(TargetError::NoSuchId(d)),
        },
        (None, None) => Err(TargetError::Missing),
    }
}

/// Entry `i` of the table contains `q` case-insensitively.
pub open spec fn string_hit(table: Seq<String>, q: Seq<char>, i: int) -> bool {
    has_substring(lowercase(table[i]@), q)
}

/// `res` lists, in table order, the first (at most `limit`) entries of the
/// table containing `q` case-insensitively.
pub open spec fn first_matches(table: Seq<String>, q: Seq<char>, limit: usize, res: Seq<SearchMatch>) -> bool {
    &&& res.len() <= limit
    &&& forall|k: int| 0 <= k < res.len() ==> (#[trigger] res[k]).index < table.len() && string_hit(table, q, res[k].index as int)
        && res[k].value@ == table[res[k].index as int]@
    &&& forall|a: int, b: int| 0 <= a < b < res.len() ==> (#[trigger] res[a]).index < (#[trigger] res[b]).index
    &&& forall|i: int| 0 <= i < table.len() && string_hit(table, q, i) && (res.len() < limit || (res.len() > 0 && i < res.last().index))
        ==> exists|k: int| 0 <= k < res.len() && (#[trigger] res[k]).index == i
}

/// The strings of `table` containing `query`, case-insensitively, in table
/// order, up to `limit` of them (`StringTable::search`).
pub fn search_table(table: &Vec<String>, query: &str, limit: usize) -> (res: Vec<SearchMatch>)
    ensures
        first_matches(table@, lowercase(query@), limit, res@),
{
    let mut out: Vec<SearchMatch> = Vec::new();
    if limit == 0 {
        return out;
    }
    let q = chars_of(to_lowercase(query).as_str());
    let mut i: usize = 0;
    while i < table.len()
        invariant
            i <= table@.len(),
            q@ == lowercase(query@),
            out@.len() < limit,
            forall|k: int| 0 <= k < out@.len() ==> (#[trigger] out@[k]).index < i && string_hit(table@, q@, out@[k].index as int)
                && out@[k].value@ == table@[out@[k].index as int]@,
            forall|a: int, b: int| 0 <= a < b < out@.len() ==> (#[trigger] out@[a]).index < (#[trigger] out@[b]).index,
            forall|j: int| 0 <= j < i && string_hit(table@, q@, j) ==> exists|k: int|
                0 <= k < out@.len() && (#[trigger] out@[k]).index == j,
        decreases table@.len() - i,
    {
        let l = chars_of(to_lowercase(table[i].as_str()).as_str());
        if contains_chars(l.as_slice(), q.as_slice()) {
            let ghost old_out = out@;
            out.push(SearchMatch { index: i, value: table[i].clone() });
            proof {
                assert forall|j: int| 0 <= j < i + 1 && string_hit(table@, q@, j) implies exists|k: int|
                    0 <= k < out@.len() && (#[trigger] out@[k]).index == j by {
                    if j < i {
                        let k = choose|k: int| 0 <= k < old_out.len() && (#[trigger] old_out[k]).index == j;
                        assert(out@[k] == old_out[k]);
                    } else {
                        assert(out@[out@.len() - 1].index == j);
                    }
                }
            }
            if out.len() >= limit {
                proof {
                    assert(out@.last().index == i);
                    assert forall|j: int| 0 <= j < table@.len() && string_hit(table@, q@, j) && (out@.len() < limit || (out@.len() > 0 && j < out@.last().index)) implies exists|k: int|
                        0 <= k < out@.len() && (#[trigger] out@[k]).index == j by {
                    }
                }
                return out;
            }
        }
        i += 1;
    }
    out
}

} // verus!
