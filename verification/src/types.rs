//! Data types shared by the heap snapshot, heap profile and timeline
//! analyses, with the small conversions that belong with them.

use vstd::prelude::*;
use crate::text::{chars_of, chars_eq, decimal, digit_char, push_char, push_decimal};

verus! {

/// Failures of the analyses.
#[derive(Debug, Clone, PartialEq, Eq)]
pub enum Error {
    /// A required node or edge field is missing from the snapshot header.
    UnsupportedLayout,
    /// The record index is not below the snapshot's node count.
    NodeNotFound(usize),
    /// The snapshot header (or one of its arrays) could not be located.
    HeaderParseFailed,
    /// The file extension is not one of the three profile kinds.
    UnsupportedType(String),
    /// The arrays of the snapshot are shorter than its header announces.
    Malformed,
    /// A summed size does not fit in 64 bits.
    SizeOverflow,
}

/// Header of a heap snapshot.
#[derive(Debug, Clone)]
pub struct SnapshotMeta {
    pub node_count: usize,
    pub edge_count: usize,
    pub extra_native_bytes: Option<usize>,
    pub meta: SnapshotMetaFields,
}

/// Field layout of a heap snapshot's flat node and edge arrays.
#[derive(Debug, Clone)]
pub struct SnapshotMetaFields {
    pub node_fields: Vec<String>,
    pub node_types: Vec<Vec<String>>,
    pub edge_fields: Vec<String>,
    pub edge_types: Vec<Vec<String>>,
}

/// `i` is the first position of `key` in `fields`.
pub open spec fn first_position(fields: Seq<String>, key: Seq<char>, i: int) -> bool {
    &&& 0 <= i < fields.len()
    &&& fields[i]@ == key
    &&& forall|j: int| 0 <= j < i ==> fields[j]@ != key
}

/// `key` occurs somewhere in `fields`.
pub open spec fn has_field(fields: Seq<String>, key: Seq<char>) -> bool {
    exists|i: int| 0 <= i < fields.len() && fields[i]@ == key
}

/// First position of `key` in `fields` (`iter().position(|f| f == key)`).
pub fn position_of(fields: &[String], key: &str) -> (res: Option<usize>)
    ensures
        match res {
            Some(i) => first_position(fields@, key@, i as int),
            None => !has_field(fields@, key@),
        },
{
    let k = chars_of(key);
    let mut i: usize = 0;
    while i < fields.len()
        invariant
            i <= fields.len(),
            k@ == key@,
            forall|j: int| 0 <= j < i ==> fields@[j]@ != key@,
        decreases fields.len() - i,
    {
        let f = chars_of(fields[i].as_str());
        if chars_eq(f.as_slice(), k.as_slice()) {
            return Some(i);
        }
        i += 1;
    }
    None
}

/// Offsets of the node fields that the analyses read, within one node record.
#[derive(Debug, Clone, Copy)]
pub struct NodeFieldOffsets {
    pub type_: usize,
    pub name: usize,
    pub self_size: usize,
    pub id: usize,
    pub edge_count: usize,
}

impl NodeFieldOffsets {
    /// Locates `type`, `name`, `self_size`, `id` and `edge_count` in the
    /// header's node field list; a missing one is an unsupported layout.
    pub fn from_fields(fields: &[String]) -> (res: Result<Self, Error>)
        ensures
            match res {
                Ok(o) => {
                    &&& first_position(fields@, "type"@, o.type_ as int)
                    &&& first_position(fields@, "name"@, o.name as int)
                    &&& first_position(fields@, "self_size"@, o.self_size as int)
                    &&& first_position(fields@, "id"@, o.id as int)
                    &&& first_position(fields@, "edge_count"@, o.edge_count as int)
                },
                Err(e) => {
                    &&& e == Error::UnsupportedLayout
                    &&& !(has_field(fields@, "type"@) && has_field(fields@, "name"@) && has_field(
                        fields@,
                        "self_size"@,
                    ) && has_field(fields@, "id"@) && has_field(fields@, "edge_count"@))
                },
            },
    {
        let type_ = match position_of(fields, "type") {
            Some(i) => i,
            None => return Err(Error::UnsupportedLayout),
        };
        let name = match position_of(fields, "name") {
            Some(i) => i,
            None => return Err(Error::UnsupportedLayout),
        };
        let self_size = match position_of(fields, "self_size") {
            Some(i) => i,
            None => return Err(Error::UnsupportedLayout),
        };
        let id = match position_of(fields, "id") {
            Some(i) => i,
            None => return Err(Error::UnsupportedLayout),
        };
        let edge_count = match position_of(fields, "edge_count") {
            Some(i) => i,
            None => return Err(Error::UnsupportedLayout),
        };
        Ok(NodeFieldOffsets { type_, name, self_size, id, edge_count })
    }
}

/// Offsets of the edge fields that the analyses read, within one edge record.
#[derive(Debug, Clone, Copy)]
pub struct EdgeFieldOffsets {
    pub type_: usize,
    pub name_or_index: usize,
    pub to_node: usize,
}

impl EdgeFieldOffsets {
    /// Locates `type`, `name_or_index` and `to_node` in the header's edge
    /// field list; a missing one is an unsupported layout.
    pub fn from_fields(fields: &[String]) -> (res: Result<Self, Error>)
        ensures
            match res {
                Ok(o) => {
                    &&& first_position(fields@, "type"@, o.type_ as int)
                    &&& first_position(fields@, "name_or_index"@, o.name_or_index as int)
                    &&& first_position(fields@, "to_node"@, o.to_node as int)
                },
                Err(e) => {
                    &&& e == Error::UnsupportedLayout
                    &&& !(has_field(fields@, "type"@) && has_field(fields@, "name_or_index"@)
                        && has_field(fields@, "to_node"@))
                },
            },
    {
        let type_ = match position_of(fields, "type") {
            Some(i) => i,
            None => return Err(Error::UnsupportedLayout),
        };
        let name_or_index = match position_of(fields, "name_or_index") {
            Some(i) => i,
            None => return Err(Error::UnsupportedLayout),
        };
        let to_node = match position_of(fields, "to_node") {
            Some(i) => i,
            None => return Err(Error::UnsupportedLayout),
        };
        Ok(EdgeFieldOffsets { type_, name_or_index, to_node })
    }
}

/// The part of `path` after its last `.` (the whole path when it has none).
pub open spec fn extension(path: Seq<char>) -> Seq<char>
    decreases path.len(),
{
    if path.len() == 0 {
        path
    } else if path.last() == '.' {
        Seq::empty()
    } else {
        extension(path.drop_last()).push(path.last())
    }
}

fn extension_of(path: &[char]) -> (ext: Vec<char>)
    ensures
        ext@ == extension(path@),
{
    let mut start: usize = path.len();
    proof {
        assert(path@.take(path@.len() as int) =~= path@);
        assert(path@.skip(path@.len() as int) =~= Seq::<char>::empty());
    }
    while start > 0 && path[start - 1] != '.'
        invariant
            start <= path.len(),
            extension(path@) == extension(path@.take(start as int)) + path@.skip(start as int),
        decreases start,
    {
        proof {
            let t = path@.take(start as int);
            assert(t.drop_last() =~= path@.take(start - 1));
            assert(path@.skip(start - 1) =~= seq![t.last()] + path@.skip(start as int));
            assert(extension(t) == extension(t.drop_last()).push(t.last()));
            assert(extension(t) + path@.skip(start as int) =~= extension(path@.take(start - 1))
                + path@.skip(start - 1));
        }
        start -= 1;
    }
    proof {
        let t = path@.take(start as int);
        if start == 0 {
            assert(t =~= Seq::<char>::empty());
        } else {
            assert(t.last() == '.');
        }
        assert(extension(t) =~= Seq::<char>::empty());
        assert(path@.skip(start as int) =~= path@.subrange(start as int, path@.len() as int));
    }
    let mut ext: Vec<char> = Vec::new();
    let mut i = start;
    while i < path.len()
        invariant
            start <= i <= path.len(),
            ext@ == path@.subrange(start as int, i as int),
        decreases path.len() - i,
    {
        ext.push(path[i]);
        assert(ext@ =~= path@.subrange(start as int, i + 1));
        i += 1;
    }
    assert(Seq::<char>::empty() + path@.skip(start as int) =~= ext@);
    ext
}

/// Kind of a profile file, by extension.
pub open spec fn profile_kind(path: Seq<char>) -> Option<Seq<char>> {
    let ext = extension(path);
    if ext == "heapsnapshot"@ {
        Some("heapsnapshot"@)
    } else if ext == "heapprofile"@ {
        Some("heapprofile"@)
    } else if ext == "heaptimeline"@ {
        Some("heaptimeline"@)
    } else {
        None
    }
}

/// Kind of a profile file from its extension; any other extension is
/// refused and named in the error.
pub fn detect_profile_type(path: &str) -> (res: Result<&'static str, Error>)
    ensures
        match res {
            Ok(kind) => profile_kind(path@) == Some(kind@),
            Err(e) => {
                &&& profile_kind(path@) is None
                &&& (e matches Error::UnsupportedType(x) && x@ == extension(path@))
            },
        },
{
    let p = chars_of(path);
    let ext = extension_of(p.as_slice());
    let snap = chars_of("heapsnapshot");
    let prof = chars_of("heapprofile");
    let tl = chars_of("heaptimeline");
    if chars_eq(ext.as_slice(), snap.as_slice()) {
        Ok("heapsnapshot")
    } else if chars_eq(ext.as_slice(), prof.as_slice()) {
        Ok("heapprofile")
    } else if chars_eq(ext.as_slice(), tl.as_slice()) {
        Ok("heaptimeline")
    } else {
        Err(Error::UnsupportedType(crate::text::string_from_chars(ext.as_slice())))
    }
}

} // verus!
