//! Flat records of the analysis results, in the shape that the embedding
//! interface serialises them: nodes, summaries, node pages, string matches
//! and retained sizes.

use vstd::prelude::*;
use crate::grouping::TypeSummary;
use crate::nodes::{EdgeName, HeapSnapshotEdge, HeapSnapshotNode, NodeProperty};
use crate::page::NodePage;
use crate::queries::{RetainedEntry, RetainedResult};
use crate::snapshot::SearchMatch;
use crate::summary::HeapSnapshotSummary;

verus! {

/// A node as a record.
#[derive(Debug, Clone)]
pub struct HprofNodeJson {
    pub type_: String,
    pub name: String,
    pub self_size: usize,
    pub id: usize,
    pub edge_count: usize,
}

/// Size and count of one summary entry.
#[derive(Debug, Clone, Copy)]
pub struct TypeSummaryJson {
    pub size: u64,
    pub count: usize,
}

/// A snapshot summary as a record.
#[derive(Debug, Clone)]
pub struct HprofSummaryJson {
    pub total_size: u64,
    pub total_count: usize,
    pub by_node_type: Vec<(String, TypeSummaryJson)>,
    pub by_node_name: Vec<(String, TypeSummaryJson)>,
}

/// A page of nodes as a record.
#[derive(Debug, Clone)]
pub struct HprofNodePageJson {
    pub total: usize,
    pub page: usize,
    pub page_size: usize,
    pub nodes: Vec<HprofNodeJson>,
}

/// A node with its properties.
#[derive(Debug, Clone)]
pub struct HprofPropertiesResult {
    pub node: HprofNodeJson,
    pub properties: Vec<NodeProperty>,
}

/// A string-table match as a record.
#[derive(Debug, Clone)]
pub struct HprofSearchMatchJson {
    pub index: usize,
    pub value: String,
}

/// A retained-size entry as a record.
#[derive(Debug, Clone)]
pub struct HprofRetainedEntryJson {
    pub node_index: usize,
    pub name: String,
    pub type_: String,
    pub self_size: usize,
    pub retained_size: u64,
    pub approximate: bool,
}

/// Retained sizes as a record.
#[derive(Debug, Clone)]
pub struct HprofRetainedResultJson {
    pub approximate: bool,
    pub retained: Vec<HprofRetainedEntryJson>,
}

/// `j` carries the fields of node `n`.
pub open spec fn node_record(n: HeapSnapshotNode, j: HprofNodeJson) -> bool {
    &&& j.type_@ == n.type_@
    &&& j.name@ == n.name@
    &&& j.self_size == n.self_size
    &&& j.id == n.id
    &&& j.edge_count == n.edge_count
}

/// `out` carries the entries of `v`, in order.
pub open spec fn entry_records(v: Seq<(String, TypeSummary)>, out: Seq<(String, TypeSummaryJson)>) -> bool {
    &&& out.len() == v.len()
    &&& forall|i: int| 0 <= i < v.len() ==> (#[trigger] out[i]).0@ == v[i].0@ && out[i].1.size == v[i].1.size
        && out[i].1.count == v[i].1.count
}

impl HprofNodeJson {
    /// The record of a node (`from_node`).
    pub fn from_node(n: &HeapSnapshotNode) -> (j: HprofNodeJson)
        ensures
            node_record(*n, j),
    {
        HprofNodeJson {
            type_: n.type_.clone(),
            name: n.name.clone(),
            self_size: n.self_size,
            id: n.id,
            edge_count: n.edge_count,
        }
    }
}

fn entries_json(v: &Vec<(String, TypeSummary)>) -> (out: Vec<(String, TypeSummaryJson)>)
    ensures
        entry_records(v@, out@),
{
    let mut out: Vec<(String, TypeSummaryJson)> = Vec::new();
    let mut i: usize = 0;
    while i < v.len()
        invariant
            i <= v@.len(),
            out@.len() == i,
            forall|x: int| 0 <= x < i ==> (#[trigger] out@[x]).0@ == v@[x].0@ && out@[x].1.size == v@[x].1.size
                && out@[x].1.count == v@[x].1.count,
        decreases v@.len() - i,
    {
        out.push((v[i].0.clone(), TypeSummaryJson { size: v[i].1.size, count: v[i].1.count }));
        i += 1;
    }
    out
}

impl HprofSummaryJson {
    /// The record of a summary.
    pub fn from_summary(s: &HeapSnapshotSummary) -> (j: HprofSummaryJson)
        ensures
            j.total_size == s.total_size,
            j.total_count == s.total_count,
            entry_records(s.by_node_type@, j.by_node_type@),
            entry_records(s.by_node_name@, j.by_node_name@),
    {
        HprofSummaryJson {
            total_size: s.total_size,
            total_count: s.total_count,
            by_node_type: entries_json(&s.by_node_type),
            by_node_name: entries_json(&s.by_node_name),
        }
    }
}

impl HprofNodePageJson {
    /// The record of a page of nodes.
    pub fn from_page(p: &NodePage) -> (j: HprofNodePageJson)
        ensures
            j.total == p.total,
            j.page == p.page,
            j.page_size == p.page_size,
            j.nodes@.len() == p.nodes@.len(),
            forall|i: int| 0 <= i < p.nodes@.len() ==> node_record(p.nodes@[i], #[trigger] j.nodes@[i]),
    {
        let mut nodes: Vec<HprofNodeJson> = Vec::new();
        let mut i: usize = 0;
        while i < p.nodes.len()
            invariant
                i <= p.nodes@.len(),
                nodes@.len() == i,
                forall|x: int| 0 <= x < i ==> node_record(p.nodes@[x], #[trigger] nodes@[x]),
            decreases p.nodes@.len() - i,
        {
            nodes.push(HprofNodeJson::from_node(&p.nodes[i]));
            i += 1;
        }
        HprofNodePageJson { total: p.total, page: p.page, page_size: p.page_size, nodes }
    }
}

impl HprofSearchMatchJson {
    /// The record of a string match.
    pub fn from_match(m: &SearchMatch) -> (j: HprofSearchMatchJson)
        ensures
            j.index == m.index,
            j.value@ == m.value@,
    {
        HprofSearchMatchJson { index: m.index, value: m.value.clone() }
    }
}

/// `j` carries the fields of the retained entry `e`.
pub open spec fn retained_record(e: RetainedEntry, j: HprofRetainedEntryJson) -> bool {
    &&& j.node_index == e.node_index
    &&& j.name@ == e.name@
    &&& j.type_@ == e.type_@
    &&& j.self_size == e.self_size
    &&& j.retained_size == e.retained_size
    &&& j.approximate == e.approximate
}

impl HprofRetainedResultJson {
    /// The record of retained sizes.
    pub fn from_result(r: &RetainedResult) -> (j: HprofRetainedResultJson)
        ensures
            j.approximate == r.approximate,
            j.retained@.len() == r.retained@.len(),
            forall|i: int| 0 <= i < r.retained@.len() ==> retained_record(r.retained@[i], #[trigger] j.retained@[i]),
    {
        let mut retained: Vec<HprofRetainedEntryJson> = Vec::new();
        let mut i: usize = 0;
        while i < r.retained.len()
            invariant
                i <= r.retained@.len(),
                retained@.len() == i,
                forall|x: int| 0 <= x < i ==> retained_record(r.retained@[x], #[trigger] retained@[x]),
            decreases r.retained@.len() - i,
        {
            let e = &r.retained[i];
            retained.push(HprofRetainedEntryJson {
                node_index: e.node_index,
                name: e.name.clone(),
                type_: e.type_.clone(),
                self_size: e.self_size,
                retained_size: e.retained_size,
                approximate: e.approximate,
            });
            i += 1;
        }
        HprofRetainedResultJson { approximate: r.approximate, retained }
    }
}

/// A JSON scalar of a record: a string or a non-negative number.
#[derive(Debug, Clone)]
pub enum JsonScalar {
    Text(String),
    Number(usize),
}

/// An outgoing edge as a record; its name is a string, or a number for an
/// element index.
#[derive(Debug, Clone)]
pub struct HprofEdgeJson {
    pub type_: String,
    pub name_or_index: JsonScalar,
    pub to_node: usize,
}

/// `j` is the record of the edge `e`.
pub open spec fn edge_record(e: HeapSnapshotEdge, j: HprofEdgeJson) -> bool {
    &&& j.type_@ == e.type_@
    &&& j.to_node == e.to_node
    &&& match e.name_or_index {
        EdgeName::String(s) => j.name_or_index matches JsonScalar::Text(t) && t@ == s@,
        EdgeName::Index(i) => j.name_or_index matches JsonScalar::Number(k) && k == i,
    }
}

impl HprofEdgeJson {
    /// The record of an edge (`from_edge`).
    pub fn from_edge(e: HeapSnapshotEdge) -> (j: HprofEdgeJson)
        ensures
            edge_record(e, j),
    {
        let HeapSnapshotEdge { type_, name_or_index, to_node } = e;
        let name_or_index = match name_or_index {
            EdgeName::String(s) => JsonScalar::Text(s),
            EdgeName::Index(i) => JsonScalar::Number(i),
        };
        HprofEdgeJson { type_, name_or_index, to_node }
    }
}

} // verus!
