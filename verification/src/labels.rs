//! Display names of nodes and edges: resolved from the string table and the
//! type lists, with the fallbacks used when an index is out of range.

use vstd::prelude::*;
use crate::graph::SnapshotGraph;
use crate::text::{chars_eq, chars_of, decimal, push_decimal};

verus! {

/// `strings[idx]`, or `prefix ++ idx ++ suffix` when `idx` is out of range.
pub open spec fn resolved(strings: Seq<String>, idx: int, prefix: Seq<char>, suffix: Seq<char>) -> Seq<char> {
    if 0 <= idx < strings.len() {
        strings[idx]@
    } else {
        prefix + decimal(idx as nat) + suffix
    }
}

/// `strings[idx]`, or the empty string when `idx` is out of range.
pub open spec fn resolved_or_empty(strings: Seq<String>, idx: int) -> Seq<char> {
    if 0 <= idx < strings.len() {
        strings[idx]@
    } else {
        Seq::empty()
    }
}

/// `strings[idx]` (cloned), or `prefix`, the index in decimal and `suffix`.
pub fn resolve_or(strings: &Vec<String>, idx: u32, prefix: &str, suffix: &str) -> (s: String)
    ensures
        s@ == resolved(strings@, idx as int, prefix@, suffix@),
{
    if (idx as usize) < strings.len() {
        strings[idx as usize].clone()
    } else {
        let mut out = prefix.to_owned();
        push_decimal(&mut out, idx as u64);
        out.append(suffix);
        out
    }
}

/// `strings[idx]` (cloned), or the empty string.
pub fn resolve_or_empty(strings: &Vec<String>, idx: u32) -> (s: String)
    ensures
        s@ == resolved_or_empty(strings@, idx as int),
{
    if (idx as usize) < strings.len() {
        strings[idx as usize].clone()
    } else {
        String::new()
    }
}

/// Node name as node listings show it (`<string#i>` when unresolvable).
pub open spec fn node_name(g: SnapshotGraph, n: int) -> Seq<char> {
    resolved(g.strings@, g.name_idx(n) as int, "<string#"@, ">"@)
}

/// Node type name (the index in decimal when unresolvable).
pub open spec fn node_type(g: SnapshotGraph, n: int) -> Seq<char> {
    resolved(g.node_types@, g.type_idx(n) as int, Seq::empty(), Seq::empty())
}

/// Edge type name (the index in decimal when unresolvable).
pub open spec fn edge_type(g: SnapshotGraph, e: int) -> Seq<char> {
    resolved(g.edge_types@, g.edge_type_idx(e) as int, Seq::empty(), Seq::empty())
}

/// Edge label as property listings show it: `[i]` for element edges,
/// otherwise the property name (`#i` when unresolvable).
pub open spec fn edge_label(g: SnapshotGraph, e: int) -> Seq<char> {
    if edge_type(g, e) == "element"@ {
        "["@ + decimal(g.edge_name_idx(e) as nat) + "]"@
    } else {
        resolved(g.strings@, g.edge_name_idx(e) as int, "#"@, Seq::empty())
    }
}

/// Edge label as retention paths show it: the bare index for element
/// edges, otherwise the property name (`#i` when unresolvable).
pub open spec fn path_label(g: SnapshotGraph, e: int) -> Seq<char> {
    if edge_type(g, e) == "element"@ {
        decimal(g.edge_name_idx(e) as nat)
    } else {
        resolved(g.strings@, g.edge_name_idx(e) as int, "#"@, Seq::empty())
    }
}

impl SnapshotGraph {
    /// Name of node `n` (`<string#i>` when unresolvable).
    pub fn name_of(&self, n: usize) -> (s: String)
        requires
            self.wf(),
            n < self.node_count,
        ensures
            s@ == node_name(*self, n as int),
    {
        let idx = self.node_field(n, self.node_offsets.name);
        resolve_or(&self.strings, idx, "<string#", ">")
    }

    /// Type name of node `n`.
    pub fn type_of(&self, n: usize) -> (s: String)
        requires
            self.wf(),
            n < self.node_count,
        ensures
            s@ == node_type(*self, n as int),
    {
        let idx = self.node_field(n, self.node_offsets.type_);
        proof {
            reveal_strlit("");
        }
        resolve_or(&self.node_types, idx, "", "")
    }

    /// Type name of edge `e`.
    pub fn edge_type_of(&self, e: usize) -> (s: String)
        requires
            self.wf(),
            e < self.total_edges(),
        ensures
            s@ == edge_type(*self, e as int),
    {
        let idx = self.edge_field(e, self.edge_offsets.type_);
        proof {
            reveal_strlit("");
        }
        resolve_or(&self.edge_types, idx, "", "")
    }

    /// Label of edge `e` as property listings show it.
    pub fn edge_label_of(&self, e: usize) -> (s: String)
        requires
            self.wf(),
            e < self.total_edges(),
        ensures
            s@ == edge_label(*self, e as int),
    {
        let t = self.edge_type_of(e);
        let idx = self.edge_field(e, self.edge_offsets.name_or_index);
        proof {
            reveal_strlit("");
        }
        if is_element(&t) {
            let mut out = String::new();
            push_char_str(&mut out, "[");
            push_decimal(&mut out, idx as u64);
            out.append("]");
            proof {
                assert(Seq::<char>::empty() + "["@ =~= "["@);
            }
            out
        } else {
            resolve_or(&self.strings, idx, "#", "")
        }
    }

    /// Label of edge `e` as retention paths show it.
    pub fn path_label_of(&self, e: usize) -> (s: String)
        requires
            self.wf(),
            e < self.total_edges(),
        ensures
            s@ == path_label(*self, e as int),
    {
        let t = self.edge_type_of(e);
        let idx = self.edge_field(e, self.edge_offsets.name_or_index);
        proof {
            reveal_strlit("");
        }
        if is_element(&t) {
            crate::text::decimal_string(idx as u64)
        } else {
            resolve_or(&self.strings, idx, "#", "")
        }
    }
}

fn push_char_str(out: &mut String, s: &str)
    ensures
        final(out)@ == old(out)@ + s@,
{
    out.append(s);
}

/// `true` for the edge type `element`.
pub fn is_element(t: &String) -> (b: bool)
    ensures
        b == (t@ == "element"@),
{
    let a = chars_of(t.as_str());
    let b = chars_of("element");
    chars_eq(a.as_slice(), b.as_slice())
}

} // verus!
