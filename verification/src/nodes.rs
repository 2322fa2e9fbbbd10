//! Node-level queries on a snapshot: single nodes, their edges and
//! properties, incoming edges, and lookups by DevTools id.

use vstd::prelude::*;
use crate::graph::SnapshotGraph;
use crate::labels::{edge_label, edge_type, is_element, node_name, node_type, resolve_or, resolve_or_empty, resolved, resolved_or_empty};
use crate::text::decimal;
use crate::types::Error;

verus! {

/// A node with its fields resolved.
#[derive(Debug, Clone)]
pub struct HeapSnapshotNode {
    pub type_: String,
    pub name: String,
    pub self_size: usize,
    pub retention_size: Option<usize>,
    pub id: usize,
    pub edge_count: usize,
}

/// Property name of an edge, or its element index.
#[derive(Debug, Clone)]
pub enum EdgeName {
    String(String),
    Index(usize),
}

/// An outgoing edge with its type and name resolved.
#[derive(Debug, Clone)]
pub struct HeapSnapshotEdge {
    pub type_: String,
    pub name_or_index: EdgeName,
    pub to_node: usize,
}

/// `v` is node `n` of `g` with its fields resolved.
pub open spec fn node_view(g: SnapshotGraph, n: int, v: HeapSnapshotNode) -> bool {
    &&& v.type_@ == node_type(g, n)
    &&& v.name@ == node_name(g, n)
    &&& v.self_size == g.self_size(n)
    &&& v.retention_size is None
    &&& v.id == g.id(n)
    &&& v.edge_count == g.edge_count(n)
}

/// Node `n` with its type and name resolved (`create_node`).
pub fn create_node(g: &SnapshotGraph, n: usize) -> (v: HeapSnapshotNode)
    requires
        g.wf(),
        n < g.node_count,
    ensures
        node_view(*g, n as int, v),
{
    HeapSnapshotNode {
        type_: g.type_of(n),
        name: g.name_of(n),
        self_size: g.node_field(n, g.node_offsets.self_size) as usize,
        retention_size: None,
        id: g.node_field(n, g.node_offsets.id) as usize,
        edge_count: g.node_field(n, g.node_offsets.edge_count) as usize,
    }
}

/// A single node by record index; an index at or past the node count is
/// not found.
pub fn get_node(g: &SnapshotGraph, node_index: usize) -> (res: Result<HeapSnapshotNode, Error>)
    requires
        g.wf(),
    ensures
        match res {
            Ok(v) => node_index < g.node_count && node_view(*g, node_index as int, v),
            Err(e) => node_index >= g.node_count && e == Error::NodeNotFound(node_index),
        },
{
    if node_index >= g.node_count {
        return Err(Error::NodeNotFound(node_index));
    }
    Ok(create_node(g, node_index))
}

/// Record index of the first node whose DevTools id is `id`.
pub fn find_by_id(g: &SnapshotGraph, id: usize) -> (res: Option<usize>)
    requires
        g.wf(),
    ensures
        match res {
            Some(n) => n < g.node_count && g.id(n as int) == id && forall|m: int| 0 <= m < n ==> #[trigger] g.id(m) != id,
            None => forall|m: int| 0 <= m < g.node_count ==> #[trigger] g.id(m) != id,
        },
{
    let mut n: usize = 0;
    while n < g.node_count
        invariant
            g.wf(),
            n <= g.node_count,
            forall|m: int| 0 <= m < n ==> #[trigger] g.id(m) != id,
        decreases g.node_count - n,
    {
        if g.node_field(n, g.node_offsets.id) as usize == id {
            return Some(n);
        }
        n += 1;
    }
    None
}

/// `v` is edge `e` of `g` as an outgoing-edge listing shows it.
pub open spec fn edge_view(g: SnapshotGraph, e: int, v: HeapSnapshotEdge) -> bool {
    &&& v.type_@ == edge_type(g, e)
    &&& v.to_node == g.target(e)
    &&& if edge_type(g, e) == "element"@ {
        v.name_or_index == EdgeName::Index(g.edge_name_idx(e) as usize)
    } else if (g.edge_name_idx(e) as int) < g.strings@.len() {
        v.name_or_index matches EdgeName::String(s) && s@ == g.strings@[g.edge_name_idx(e) as int]@
    } else {
        v.name_or_index == EdgeName::Index(g.edge_name_idx(e) as usize)
    }
}

/// A node and its outgoing edges in order (element edges carry their
/// index, other edges their resolved property name, or the raw index when
/// it cannot be resolved).
pub fn get_node_edges(g: &SnapshotGraph, node_index: usize) -> (res: Result<(HeapSnapshotNode, Vec<HeapSnapshotEdge>), Error>)
    requires
        g.wf(),
    ensures
        match res {
            Ok((v, edges)) => {
                &&& node_index < g.node_count
                &&& node_view(*g, node_index as int, v)
                &&& edges@.len() == g.edge_count(node_index as int)
                &&& forall|i: int| 0 <= i < edges@.len() ==> edge_view(*g, g.first_edge(node_index as int) + i, #[trigger] edges@[i])
            },
            Err(e) => node_index >= g.node_count && e == Error::NodeNotFound(node_index),
        },
{
    if node_index >= g.node_count {
        return Err(Error::NodeNotFound(node_index));
    }
    let node = create_node(g, node_index);
    let (start, end) = g.edge_range(node_index);
    let mut edges: Vec<HeapSnapshotEdge> = Vec::new();
    let mut e = start;
    while e < end
        invariant
            g.wf(),
            node_index < g.node_count,
            start == g.first_edge(node_index as int),
            end == g.first_edge(node_index + 1),
            start <= e <= end,
            end <= g.total_edges(),
            edges@.len() == e - start,
            forall|i: int| 0 <= i < edges@.len() ==> edge_view(*g, start + i, #[trigger] edges@[i]),
        decreases end - e,
    {
        let t = g.edge_type_of(e);
        let idx = g.edge_field(e, g.edge_offsets.name_or_index);
        let to = g.edge_target(e);
        let name = if is_element(&t) {
            EdgeName::Index(idx as usize)
        } else if (idx as usize) < g.strings.len() {
            EdgeName::String(g.strings[idx as usize].clone())
        } else {
            EdgeName::Index(idx as usize)
        };
        edges.push(HeapSnapshotEdge { type_: t, name_or_index: name, to_node: to });
        e += 1;
    }
    proof {
        g.lemma_first_edge_step(node_index as int);
    }
    Ok((node, edges))
}

/// Value of a property: numbers and strings inline, objects by reference.
/// A number (or bigint) node's value is its name text; rendering it as a
/// float is the caller's part.
#[derive(Debug, Clone)]
pub enum PropertyValue {
    NumberText(String),
    Str(String),
    Ref { index: usize, id: usize, node_type: String, name: String },
}

/// An edge of a node shown as a property.
#[derive(Debug, Clone)]
pub struct NodeProperty {
    pub name: String,
    pub edge_type: String,
    pub value: PropertyValue,
}

/// `v` is the value that edge `e` shows.
pub open spec fn property_value(g: SnapshotGraph, e: int, v: PropertyValue) -> bool {
    let t = g.target(e);
    if t >= g.node_count {
        v matches PropertyValue::Ref { index, id, node_type, name } && index == t && id == 0
            && node_type@.len() == 0 && name@ == "<out of range #"@ + decimal(t as nat) + ">"@
    } else {
        let ttype = node_type(g, t);
        let tname = resolved_or_empty(g.strings@, g.name_idx(t) as int);
        if ttype == "number"@ || ttype == "bigint"@ {
            v matches PropertyValue::NumberText(s) && s@ == tname
        } else if ttype == "string"@ {
            v matches PropertyValue::Str(s) && s@ == tname
        } else {
            v matches PropertyValue::Ref { index, id, node_type, name } && index == t && id == g.id(t)
                && node_type@ == ttype && name@ == tname
        }
    }
}

fn text_is(s: &String, lit: &str) -> (b: bool)
    ensures
        b == (s@ == lit@),
{
    crate::text::str_eq(s.as_str(), lit)
}

/// A node and its edges as properties: name (`[i]` for elements), edge
/// type, and the target's value — numbers and strings inline, other
/// targets as references, targets past the node count as out-of-range
/// references.
pub fn get_node_properties(g: &SnapshotGraph, node_index: usize) -> (res: Result<(HeapSnapshotNode, Vec<NodeProperty>), Error>)
    requires
        g.wf(),
    ensures
        match res {
            Ok((v, props)) => {
                &&& node_index < g.node_count
                &&& node_view(*g, node_index as int, v)
                &&& props@.len() == g.edge_count(node_index as int)
                &&& forall|i: int| 0 <= i < props@.len() ==> {
                    let e = g.first_edge(node_index as int) + i;
                    &&& (#[trigger] props@[i]).name@ == edge_label(*g, e)
                    &&& props@[i].edge_type@ == edge_type(*g, e)
                    &&& property_value(*g, e, props@[i].value)
                }
            },
            Err(e) => node_index >= g.node_count && e == Error::NodeNotFound(node_index),
        },
{
    if node_index >= g.node_count {
        return Err(Error::NodeNotFound(node_index));
    }
    let node = create_node(g, node_index);
    let (start, end) = g.edge_range(node_index);
    let mut props: Vec<NodeProperty> = Vec::new();
    let mut e = start;
    while e < end
        invariant
            g.wf(),
            node_index < g.node_count,
            start == g.first_edge(node_index as int),
            end == g.first_edge(node_index + 1),
            start <= e <= end,
            end <= g.total_edges(),
            props@.len() == e - start,
            forall|i: int| 0 <= i < props@.len() ==> {
                let f = start + i;
                &&& (#[trigger] props@[i]).name@ == edge_label(*g, f)
                &&& props@[i].edge_type@ == edge_type(*g, f)
                &&& property_value(*g, f, props@[i].value)
            },
        decreases end - e,
    {
        let edge_type_name = g.edge_type_of(e);
        let name = g.edge_label_of(e);
        let to = g.edge_target(e);
        let value = if to >= g.node_count {
            let mut label = String::new();
            label.append("<out of range #");
            crate::text::push_decimal(&mut label, to as u64);
            label.append(">");
            proof {
                assert(Seq::<char>::empty() + "<out of range #"@ =~= "<out of range #"@);
            }
            PropertyValue::Ref { index: to, id: 0, node_type: String::new(), name: label }
        } else {
            let ttype = g.type_of(to);
            let tname = resolve_or_empty(&g.strings, g.node_field(to, g.node_offsets.name));
            if text_is(&ttype, "number") || text_is(&ttype, "bigint") {
                PropertyValue::NumberText(tname)
            } else if text_is(&ttype, "string") {
                PropertyValue::Str(tname)
            } else {
                PropertyValue::Ref {
                    index: to,
                    id: g.node_field(to, g.node_offsets.id) as usize,
                    node_type: ttype,
                    name: tname,
                }
            }
        };
        props.push(NodeProperty { name, edge_type: edge_type_name, value });
        e += 1;
    }
    proof {
        g.lemma_first_edge_step(node_index as int);
    }
    Ok((node, props))
}

} // verus!
