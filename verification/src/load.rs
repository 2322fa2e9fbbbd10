//! Building a snapshot from the bytes of a `.heapsnapshot` file and its
//! parsed header: the node and edge arrays and the string table are located
//! by their keys and parsed.

use vstd::prelude::*;
use crate::bytes::{
    array_close, decode_strings, decoded_at, edges_key, edges_key_bytes, find_array_end, find_marker, nodes_key,
    nodes_key_bytes, numbers_from, occurs_at, parse_numbers_par, scan_string_spans, span_text, spans_from, strings_key,
    strings_key_bytes,
};
use crate::graph::{arrays_fit, header_fields_ok, SnapshotGraph};
use crate::snapshot::HeapSnapshot;
use crate::types::{Error, SnapshotMeta};

verus! {

/// `p` is the first occurrence of `key` in `data`.
pub open spec fn first_occurrence(data: Seq<u8>, key: Seq<u8>, p: int) -> bool {
    occurs_at(data, key, p) && forall|q: int| 0 <= q < p ==> !occurs_at(data, key, q)
}

/// `key` occurs in `data`.
pub open spec fn has_key(data: Seq<u8>, key: Seq<u8>) -> bool {
    exists|p: int| occurs_at(data, key, p)
}

/// The numbers of the array whose key `"...":[` first occurs at `p`.
pub open spec fn array_numbers(data: Seq<u8>, key: Seq<u8>, p: int) -> Seq<u32> {
    let open = p + key.len() - 1;
    let end = array_close(data, open + 1, 1);
    numbers_from(data.subrange(open + 1, end + 1), 0)
}

/// The numbers of the array introduced by `key`.
pub fn parse_array(data: &[u8], key: &Vec<u8>) -> (r: Option<Vec<u32>>)
    requires
        key@.len() >= 1,
        key@[key@.len() - 1] == 91u8,
        data@.len() + 12 <= usize::MAX,
    ensures
        match r {
            Some(v) => exists|p: int| first_occurrence(data@, key@, p) && v@ == array_numbers(data@, key@, p),
            None => !has_key(data@, key@),
        },
{
    match find_marker(data, key.as_slice()) {
        None => {
            proof {
                assert(!has_key(data@, key@));
            }
            None
        },
        Some(p) => {
            let open = p + key.len() - 1;
            proof {
                assert(data@.subrange(p as int, p + key@.len())[key@.len() - 1] == data@[open as int]);
            }
            let end = find_array_end(data, open);
            proof {
                lemma_array_close_bound(data@, open + 1, 1);
            }
            let body = &data[open + 1..end + 1];
            let v = parse_numbers_par(body);
            proof {
                assert(body@ == data@.subrange(open + 1, end + 1));
                assert(first_occurrence(data@, key@, p as int));
            }
            Some(v)
        },
    }
}

pub proof fn lemma_array_close_bound(data: Seq<u8>, i: int, depth: int)
    requires
        data.len() > 0,
        0 <= i,
    ensures
        array_close(data, i, depth) < data.len(),
        i <= data.len() ==> i - 1 <= array_close(data, i, depth),
    decreases data.len() + 3 - i,
{
    if i < data.len() {
        if data[i] == 91u8 {
            lemma_array_close_bound(data, i + 1, depth + 1);
        } else if data[i] == 93u8 {
            if depth - 1 != 0 {
                lemma_array_close_bound(data, i + 1, depth - 1);
            }
        } else if data[i] == 34u8 {
            let c = crate::bytes::string_close(data, i + 1);
            if c >= i && c <= data.len() + 1 {
                lemma_array_close_bound(data, c + 1, depth);
            }
        } else {
            lemma_array_close_bound(data, i + 1, depth);
        }
    }
}

/// `g` holds the arrays of the file `data`: nodes and edges parsed from
/// their keys, the string table decoded.
pub open spec fn loaded_from(data: Seq<u8>, g: SnapshotGraph) -> bool {
    &&& exists|p: int| first_occurrence(data, nodes_key(), p) && g.nodes@ == array_numbers(data, nodes_key(), p)
    &&& exists|p: int| first_occurrence(data, edges_key(), p) && g.edges@ == array_numbers(data, edges_key(), p)
    &&& exists|p: int, spans: Seq<(usize, usize)>| #[trigger] table_from(data, p, spans, g.strings@)
}

/// `table` is the string table whose key first occurs at `p`, its bodies
/// spanning `spans`.
pub open spec fn table_from(data: Seq<u8>, p: int, spans: Seq<(usize, usize)>, table: Seq<String>) -> bool {
    &&& first_occurrence(data, strings_key(), p)
    &&& spans.len() == spans_from(data, p + strings_key().len()).len()
    &&& forall|k: int| 0 <= k < spans.len() ==> (#[trigger] spans[k]).0 as int == spans_from(data, p + strings_key().len())[k].0
        && spans[k].1 as int == spans_from(data, p + strings_key().len())[k].1
    &&& table.len() == spans.len()
    &&& forall|k: int| 0 <= k < spans.len() ==> #[trigger] decoded_at(data, spans, table, k)
}

/// A key has one first occurrence.
pub proof fn lemma_first_occurrence_unique(data: Seq<u8>, key: Seq<u8>, p: int, q: int)
    requires
        first_occurrence(data, key, p),
        first_occurrence(data, key, q),
    ensures
        p == q,
{
}

/// Every string of the table that `"strings":[` introduces decodes (no
/// `\u` escape lacks its digits).
pub open spec fn table_decodes(data: Seq<u8>) -> bool {
    forall|p: int, k: int| #![trigger first_occurrence(data, strings_key(), p), spans_from(data, p + strings_key().len())[k]]
        first_occurrence(data, strings_key(), p) && 0 <= k < spans_from(data, p + strings_key().len()).len()
            ==> span_text(
            data,
            (
                spans_from(data, p + strings_key().len())[k].0 as usize,
                spans_from(data, p + strings_key().len())[k].1 as usize,
            ),
        ) is Some
}

/// The node and edge arrays at their keys' first occurrences hold what
/// the header announces.
pub open spec fn snapshot_arrays_fit(data: Seq<u8>, meta: SnapshotMeta) -> bool {
    forall|pn: int, pe: int|
        #![trigger first_occurrence(data, nodes_key(), pn), first_occurrence(data, edges_key(), pe)]
        first_occurrence(data, nodes_key(), pn) && first_occurrence(data, edges_key(), pe) ==> arrays_fit(
            meta,
            array_numbers(data, nodes_key(), pn),
            array_numbers(data, edges_key(), pe),
        )
}

/// The three arrays are present and every string decodes.
pub open spec fn snapshot_keys_ok(data: Seq<u8>) -> bool {
    &&& has_key(data, nodes_key())
    &&& has_key(data, edges_key())
    &&& has_key(data, strings_key())
    &&& table_decodes(data)
}

/// A snapshot from the bytes of its file and its header (`ensure_raw` and
/// `ensure_edges`): the `"nodes"`, `"edges"` and `"strings"` arrays are
/// found by their first occurrence (a missing one, or a string with an
/// incomplete `\u` escape, fails to parse), then laid out by the header.
pub fn load_snapshot(data: &[u8], meta: SnapshotMeta) -> (res: Result<HeapSnapshot, Error>)
    requires
        data@.len() + 12 <= usize::MAX,
    ensures
        res matches Ok(s) ==> s.wf() && s.header() == meta && s.graph().node_count == meta.node_count
            && loaded_from(data@, s.graph()),
        !snapshot_keys_ok(data@) ==> res == Err::<HeapSnapshot, Error>(Error::HeaderParseFailed),
        snapshot_keys_ok(data@) && !header_fields_ok(meta) ==> res == Err::<HeapSnapshot, Error>(Error::UnsupportedLayout),
        snapshot_keys_ok(data@) && header_fields_ok(meta) ==> (res is Ok <==> snapshot_arrays_fit(data@, meta)),
        snapshot_keys_ok(data@) && header_fields_ok(meta) && res is Err ==> res == Err::<HeapSnapshot, Error>(Error::Malformed),
{
    let nk = nodes_key_bytes();
    let ek = edges_key_bytes();
    let sk = strings_key_bytes();
    let nodes = match parse_array(data, &nk) {
        Some(v) => v,
        None => return Err(Error::HeaderParseFailed),
    };
    let strings_at = match find_marker(data, sk.as_slice()) {
        Some(p) => p,
        None => return Err(Error::HeaderParseFailed),
    };
    let edges = match parse_array(data, &ek) {
        Some(v) => v,
        None => return Err(Error::HeaderParseFailed),
    };
    let open = strings_at + sk.len() - 1;
    proof {
        assert(data@.subrange(strings_at as int, strings_at + sk@.len())[sk@.len() - 1] == data@[open as int]);
    }
    let spans = scan_string_spans(data, open);
    let strings = match decode_strings(data, &spans) {
        Some(v) => v,
        None => {
            proof {
                let k = choose|k: int| 0 <= k < spans@.len() && #[trigger] span_text(data@, spans@[k]) is None;
                let sf = spans_from(data@, strings_at + strings_key().len());
                assert(first_occurrence(data@, strings_key(), strings_at as int));
                assert(spans@[k] == (sf[k].0 as usize, sf[k].1 as usize));
                assert(!table_decodes(data@));
            }
            return Err(Error::HeaderParseFailed);
        },
    };
    let ghost nodes_v = nodes@;
    let ghost edges_v = edges@;
    let ghost strings_v = strings@;
    proof {
        let pn = choose|p: int| first_occurrence(data@, nodes_key(), p) && nodes_v == array_numbers(data@, nodes_key(), p);
        let pe = choose|p: int| first_occurrence(data@, edges_key(), p) && edges_v == array_numbers(data@, edges_key(), p);
        assert(first_occurrence(data@, strings_key(), strings_at as int));
        assert(has_key(data@, nodes_key()));
        assert(has_key(data@, edges_key()));
        assert(has_key(data@, strings_key()));
        assert(table_decodes(data@)) by {
            assert forall|p: int, k: int|
                first_occurrence(data@, strings_key(), p) && 0 <= k < spans_from(data@, p + strings_key().len()).len()
                implies #[trigger] span_text(
                data@,
                (
                    spans_from(data@, p + strings_key().len())[k].0 as usize,
                    spans_from(data@, p + strings_key().len())[k].1 as usize,
                ),
            ) is Some by {
                lemma_first_occurrence_unique(data@, strings_key(), p, strings_at as int);
                assert(decoded_at(data@, spans@, strings_v, k));
                assert(spans@[k] == (spans_from(data@, p + strings_key().len())[k].0 as usize,
                    spans_from(data@, p + strings_key().len())[k].1 as usize));
            }
        }
        assert(snapshot_arrays_fit(data@, meta) <==> arrays_fit(meta, nodes_v, edges_v)) by {
            assert forall|a: int, b: int| first_occurrence(data@, nodes_key(), a) && first_occurrence(data@, edges_key(), b)
                implies a == pn && b == pe by {
                lemma_first_occurrence_unique(data@, nodes_key(), a, pn);
                lemma_first_occurrence_unique(data@, edges_key(), b, pe);
            }
        }
    }
    let g = match SnapshotGraph::from_parts(&meta, nodes, edges, strings) {
        Ok(g) => g,
        Err(e) => return Err(e),
    };
    proof {
        assert(first_occurrence(data@, strings_key(), strings_at as int));
        assert(g.strings@ == strings_v);
        assert(table_from(data@, strings_at as int, spans@, g.strings@));
        assert(loaded_from(data@, g));
    }
    Ok(HeapSnapshot::new(meta, g))
}

} // verus!
