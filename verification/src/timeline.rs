//! Heap allocation timelines (`.heaptimeline`): the node records in compact
//! columns, the string table, the allocation trace tree with its function
//! infos, and the growth samples.

use vstd::prelude::*;
use crate::bytes::{
    array_close, decode_strings, decoded_at, digits_end, digits_value, find_array_end, find_marker, is_digit,
    lemma_string_close_ge, numbers_from, occurs_at, parse_numbers_fast, scan_string_spans, span_text, spans_from, string_close,
    strings_key, strings_key_bytes,
};
use crate::types::{first_position, has_field, position_of, Error, SnapshotMeta};
use crate::load::{array_numbers, first_occurrence, has_key, parse_array, table_from};

verus! {

/// A function of the allocation trace tree.
#[derive(Debug, Clone, Copy)]
pub struct TraceInfo {
    pub name_idx: u32,
    pub script_idx: u32,
    pub line: u32,
    pub column: u32,
}

/// A node of the allocation trace tree.
#[derive(Debug, Clone, Copy)]
pub struct TraceNode {
    pub func_idx: u32,
    pub node_id: u32,
    pub count: u32,
    pub size: u32,
    pub parent: Option<usize>,
}

/// Byte `b` separates numbers: a comma or ASCII whitespace.
pub open spec fn is_sep(b: u8) -> bool {
    b == 44u8 || b == 32u8 || b == 9u8 || b == 10u8 || b == 12u8 || b == 13u8
}

/// First position at or after `p` that is not a separator.
pub open spec fn skip_seps(data: Seq<u8>, p: int) -> int
    decreases data.len() - p,
{
    if p >= data.len() || p < 0 {
        p
    } else if is_sep(data[p]) {
        skip_seps(data, p + 1)
    } else {
        p
    }
}

/// The number `read_num` reads at `p` (separators skipped, digits read in
/// decimal modulo 2^64; none read gives 0) and the position after it.
pub open spec fn read_num_at(data: Seq<u8>, p: int) -> (u64, int) {
    let s = skip_seps(data, p);
    let e = digits_end(data, s);
    ((digits_value(data, s, e) % 0x1_0000_0000_0000_0000) as u64, e)
}

proof fn lemma_skip_seps(data: Seq<u8>, p: int)
    requires
        0 <= p,
    ensures
        skip_seps(data, p) >= p,
        p <= data.len() ==> skip_seps(data, p) <= data.len(),
        forall|k: int| p <= k < skip_seps(data, p) ==> is_sep(#[trigger] data[k]),
        skip_seps(data, p) < data.len() ==> !is_sep(data[skip_seps(data, p)]),
    decreases data.len() - p,
{
    if p < data.len() && is_sep(data[p]) {
        lemma_skip_seps(data, p + 1);
    }
}

proof fn lemma_digits_end(data: Seq<u8>, i: int)
    requires
        0 <= i,
    ensures
        digits_end(data, i) >= i,
        i <= data.len() ==> digits_end(data, i) <= data.len(),
        forall|k: int| i <= k < digits_end(data, i) ==> is_digit(#[trigger] data[k]),
        digits_end(data, i) < data.len() ==> !is_digit(data[digits_end(data, i)]),
    decreases data.len() - i,
{
    if i < data.len() && is_digit(data[i]) {
        lemma_digits_end(data, i + 1);
    }
}

/// Reads one number at `pos` (`read_num`): separators skipped, then the
/// digits; at a `]` or another byte nothing is read and 0 returned.
pub fn read_num(data: &[u8], pos: &mut usize) -> (v: u64)
    requires
        *old(pos) <= data@.len(),
    ensures
        (v, *final(pos) as int) == read_num_at(data@, *old(pos) as int),
        *final(pos) <= data@.len(),
{
    let len = data.len();
    let ghost p0 = *pos as int;
    proof {
        lemma_skip_seps(data@, p0);
    }
    while *pos < len && (data[*pos] == 44u8 || data[*pos] == 32u8 || data[*pos] == 9u8 || data[*pos] == 10u8
        || data[*pos] == 12u8 || data[*pos] == 13u8)
        invariant
            len == data@.len(),
            p0 <= *pos <= len,
            skip_seps(data@, *pos as int) == skip_seps(data@, p0),
        decreases len - *pos,
    {
        *pos = *pos + 1;
    }
    let ghost s = *pos as int;
    proof {
        lemma_digits_end(data@, s);
    }
    let mut v: u64 = 0;
    while *pos < len && 48u8 <= data[*pos] && data[*pos] <= 57u8
        invariant
            len == data@.len(),
            s <= *pos <= len,
            s == skip_seps(data@, p0),
            digits_end(data@, *pos as int) == digits_end(data@, s),
            v as nat == digits_value(data@, s, *pos as int) % 0x1_0000_0000_0000_0000,
        decreases len - *pos,
    {
        let d = (data[*pos] - 48u8) as u64;
        proof {
            let dv: int = digits_value(data@, s, *pos as int) as int;
            let m: int = 0x1_0000_0000_0000_0000;
            let di: int = d as int;
            let w: int = (v as int * 10) % m;
            vstd::arithmetic::div_mod::lemma_mul_mod_noop_left(dv, 10, m);
            vstd::arithmetic::div_mod::lemma_add_mod_noop(dv * 10, di, m);
            vstd::arithmetic::div_mod::lemma_small_mod(d as nat, m as nat);
            vstd::arithmetic::div_mod::lemma_mod_twice(dv * 10, m);
            vstd::arithmetic::div_mod::lemma_add_mod_noop(w, di, m);
            vstd::arithmetic::div_mod::lemma_small_mod(w as nat, m as nat);
            assert((w + di) % m == (dv * 10 + di) % m);
            assert(digits_value(data@, s, *pos + 1) == dv * 10 + di);
            assert(vstd::wrapping::u64_specs::wrapping_mul(v, 10) as int == w);
        }
        v = v.wrapping_mul(10).wrapping_add(d);
        *pos = *pos + 1;
    }
    v
}

/// The first `[` at or after `p` (the length when none).
pub open spec fn next_bracket(data: Seq<u8>, p: int) -> int
    decreases data.len() - p,
{
    if p >= data.len() || p < 0 {
        p
    } else if data[p] == 91u8 {
        p
    } else {
        next_bracket(data, p + 1)
    }
}

proof fn lemma_next_bracket(data: Seq<u8>, p: int)
    requires
        0 <= p <= data.len(),
    ensures
        p <= next_bracket(data, p) <= data.len(),
        next_bracket(data, p) < data.len() ==> data[next_bracket(data, p)] == 91u8,
    decreases data.len() - p,
{
    if p < data.len() && data[p] != 91u8 {
        lemma_next_bracket(data, p + 1);
    }
}

/// `v` modulo 2^32.
pub open spec fn low32(v: u64) -> u32 {
    (v % 0x1_0000_0000) as u32
}

/// The trace nodes of a flat children array whose body starts at `pos`
/// (just past its `[`): each child is four numbers (id, function info,
/// count, size) and its own children array; the nodes come in preorder,
/// `first` being the index the first of them gets, `parent` the index of
/// their parent. The position after the array comes second.
pub open spec fn kids(data: Seq<u8>, pos: int, parent: Option<usize>, first: int) -> (Seq<TraceNode>, int)
    decreases data.len() + 1 - pos,
{
    let p = skip_seps(data, pos);
    if pos < 0 || pos > data.len() || p >= data.len() || p < pos {
        (Seq::empty(), p)
    } else if data[p] == 93u8 {
        (Seq::empty(), p + 1)
    } else {
        let (id, p1) = read_num_at(data, p);
        let (fii, p2) = read_num_at(data, p1);
        let (count, p3) = read_num_at(data, p2);
        let (size, p4) = read_num_at(data, p3);
        let node = TraceNode { func_idx: low32(fii), node_id: low32(id), count: low32(count), size: low32(size), parent };
        let q = next_bracket(data, p4);
        if q < pos || q > data.len() {
            (seq![node], q)
        } else if q < data.len() {
            let (sub, q2) = kids(data, q + 1, Some(first as usize), first + 1);
            if q2 <= pos || q2 > data.len() + 1 {
                (seq![node] + sub, q2)
            } else {
                let (rest, q3) = kids(data, q2, parent, first + 1 + sub.len());
                (seq![node] + sub + rest, q3)
            }
        } else {
            (seq![node], q)
        }
    }
}

proof fn lemma_read_num_range(data: Seq<u8>, p: int)
    requires
        0 <= p <= data.len(),
    ensures
        p <= read_num_at(data, p).1 <= data.len(),
{
    lemma_skip_seps(data, p);
    lemma_digits_end(data, skip_seps(data, p));
}

proof fn lemma_kids_range(data: Seq<u8>, pos: int, parent: Option<usize>, first: int)
    requires
        0 <= pos <= data.len(),
    ensures
        pos <= kids(data, pos, parent, first).1 <= data.len(),
    decreases data.len() + 1 - pos,
{
    lemma_skip_seps(data, pos);
    let p = skip_seps(data, pos);
    if p < data.len() && data[p] != 93u8 {
        let (id, p1) = read_num_at(data, p);
        lemma_read_num_range(data, p);
        let (fii, p2) = read_num_at(data, p1);
        lemma_read_num_range(data, p1);
        let (count, p3) = read_num_at(data, p2);
        lemma_read_num_range(data, p2);
        let (size, p4) = read_num_at(data, p3);
        lemma_read_num_range(data, p3);
        lemma_next_bracket(data, p4);
        let q = next_bracket(data, p4);
        if q < data.len() {
            lemma_kids_range(data, q + 1, Some(first as usize), first + 1);
            let (sub, q2) = kids(data, q + 1, Some(first as usize), first + 1);
            lemma_kids_range(data, q2, parent, first + 1 + sub.len());
        }
    }
}

/// Parses the children array at `pos` (which holds its `[`) into `out`
/// (`parse_children`).
#[verifier::rlimit(80)]
pub fn parse_children(data: &[u8], pos: &mut usize, parent: Option<usize>, out: &mut Vec<TraceNode>)
    requires
        *old(pos) < data@.len(),
        data@[*old(pos) as int] == 91u8,
    ensures
        final(out)@ == old(out)@ + kids(data@, *old(pos) + 1, parent, old(out)@.len() as int).0,
        *final(pos) as int == kids(data@, *old(pos) + 1, parent, old(out)@.len() as int).1,
        *final(pos) <= data@.len(),
    decreases data@.len() - *old(pos),
{
    let len = data.len();
    let ghost start = *pos + 1;
    let ghost base = out@;
    let ghost whole = kids(data@, start, parent, base.len() as int);
    *pos = *pos + 1;
    proof {
        assert(out@ =~= base + Seq::<TraceNode>::empty());
    }
    loop
        invariant
            len == data@.len(),
            start <= *pos <= len,
            start == *old(pos) + 1,
            base == old(out)@,
            whole == kids(data@, start, parent, base.len() as int),
            out@.len() >= base.len(),
            base == out@.subrange(0, base.len() as int),
            whole.0 == out@.subrange(base.len() as int, out@.len() as int) + kids(data@, *pos as int, parent, out@.len() as int).0,
            whole.1 == kids(data@, *pos as int, parent, out@.len() as int).1,
        decreases len - *pos,
    {
        let ghost p0 = *pos as int;
        let ghost k0 = kids(data@, p0, parent, out@.len() as int);
        proof {
            lemma_skip_seps(data@, p0);
        }
        while *pos < len && (data[*pos] == 44u8 || data[*pos] == 32u8 || data[*pos] == 9u8 || data[*pos] == 10u8
            || data[*pos] == 12u8 || data[*pos] == 13u8)
            invariant
                len == data@.len(),
                p0 <= *pos <= len,
                skip_seps(data@, *pos as int) == skip_seps(data@, p0),
            decreases len - *pos,
        {
            *pos = *pos + 1;
        }
        if *pos >= len {
            proof {
                assert(k0 == (Seq::<TraceNode>::empty(), *pos as int));
                assert(out@ =~= base + whole.0) by {
                    assert(out@.subrange(base.len() as int, out@.len() as int) + Seq::<TraceNode>::empty()
                        =~= out@.subrange(base.len() as int, out@.len() as int));
                    assert(out@ =~= out@.subrange(0, base.len() as int) + out@.subrange(base.len() as int, out@.len() as int));
                }
            }
            return;
        }
        if data[*pos] == 93u8 {
            *pos = *pos + 1;
            proof {
                assert(k0 == (Seq::<TraceNode>::empty(), *pos as int));
                assert(out@ =~= base + whole.0) by {
                    assert(out@.subrange(base.len() as int, out@.len() as int) + Seq::<TraceNode>::empty()
                        =~= out@.subrange(base.len() as int, out@.len() as int));
                    assert(out@ =~= out@.subrange(0, base.len() as int) + out@.subrange(base.len() as int, out@.len() as int));
                }
            }
            return;
        }
        let ghost p = *pos as int;
        proof {
            lemma_read_num_range(data@, p);
        }
        let id = read_num(data, pos);
        proof {
            lemma_read_num_range(data@, *pos as int);
        }
        let fii = read_num(data, pos);
        proof {
            lemma_read_num_range(data@, *pos as int);
        }
        let count = read_num(data, pos);
        proof {
            lemma_read_num_range(data@, *pos as int);
        }
        let size = read_num(data, pos);
        let idx = out.len();
        let node = TraceNode {
            func_idx: (fii % 0x1_0000_0000) as u32,
            node_id: (id % 0x1_0000_0000) as u32,
            count: (count % 0x1_0000_0000) as u32,
            size: (size % 0x1_0000_0000) as u32,
            parent,
        };
        let ghost before_push = out@;
        out.push(node);
        let ghost p4 = *pos as int;
        proof {
            lemma_next_bracket(data@, p4);
        }
        while *pos < len && data[*pos] != 91u8
            invariant
                len == data@.len(),
                p4 <= *pos <= len,
                next_bracket(data@, *pos as int) == next_bracket(data@, p4),
            decreases len - *pos,
        {
            *pos = *pos + 1;
        }
        let ghost q = *pos as int;
        if *pos < len {
            let ghost before_sub = out@;
            parse_children(data, pos, Some(idx), out);
            proof {
                let (sub, q2) = kids(data@, q + 1, Some(idx), idx + 1);
                lemma_kids_range(data@, q + 1, Some(idx), idx + 1);
                assert(out@ == before_sub + sub);
                assert(k0 == (seq![node] + sub + kids(data@, q2, parent, idx + 1 + sub.len()).0, kids(data@, q2, parent, idx + 1 + sub.len()).1));
                assert(out@.len() == idx + 1 + sub.len());
                assert(out@.subrange(base.len() as int, out@.len() as int) =~= before_push.subrange(base.len() as int, idx as int) + (seq![node] + sub));
                assert(out@.subrange(0, base.len() as int) =~= base);
                assert(whole.0 =~= out@.subrange(base.len() as int, out@.len() as int) + kids(data@, *pos as int, parent, out@.len() as int).0);
            }
        } else {
            proof {
                assert(k0 == (seq![node], q));
                assert(out@.subrange(0, base.len() as int) =~= base);
                assert(out@ =~= base + whole.0) by {
                    assert(out@.subrange(base.len() as int, out@.len() as int) =~= before_push.subrange(base.len() as int, idx as int) + seq![node]);
                    assert(out@ =~= out@.subrange(0, base.len() as int) + out@.subrange(base.len() as int, out@.len() as int));
                }
            }
            return;
        }
    }
}

/// Timeline arrays in compact per-record columns, with the string table,
/// the trace functions and tree, and the growth samples.
pub struct TimelineData {
    pub node_count: usize,
    pub types: Vec<u8>,
    pub names: Vec<u32>,
    pub sizes: Vec<u32>,
    pub tids: Vec<u32>,
    pub type_names: Vec<String>,
    pub total_allocated: u64,
    pub strings: Vec<String>,
    pub trace_infos: Vec<TraceInfo>,
    pub trace_nodes: Vec<TraceNode>,
    pub samples: Vec<(u64, u64)>,
}

/// `"trace_function_infos":[` in bytes.
pub open spec fn infos_key() -> Seq<u8> {
    seq![34u8, 116u8, 114u8, 97u8, 99u8, 101u8, 95u8, 102u8, 117u8, 110u8, 99u8, 116u8, 105u8, 111u8, 110u8, 95u8,
        105u8, 110u8, 102u8, 111u8, 115u8, 34u8, 58u8, 91u8]
}

/// `"trace_tree":[` in bytes.
pub open spec fn tree_key() -> Seq<u8> {
    seq![34u8, 116u8, 114u8, 97u8, 99u8, 101u8, 95u8, 116u8, 114u8, 101u8, 101u8, 34u8, 58u8, 91u8]
}

/// `"samples":[` in bytes.
pub open spec fn samples_key() -> Seq<u8> {
    seq![34u8, 115u8, 97u8, 109u8, 112u8, 108u8, 101u8, 115u8, 34u8, 58u8, 91u8]
}

fn infos_key_bytes() -> (v: Vec<u8>)
    ensures
        v@ == infos_key(),
{
    let v = vec![34u8, 116u8, 114u8, 97u8, 99u8, 101u8, 95u8, 102u8, 117u8, 110u8, 99u8, 116u8, 105u8, 111u8,
        110u8, 95u8, 105u8, 110u8, 102u8, 111u8, 115u8, 34u8, 58u8, 91u8];
    assert(v@ =~= infos_key());
    v
}

fn tree_key_bytes() -> (v: Vec<u8>)
    ensures
        v@ == tree_key(),
{
    let v = vec![34u8, 116u8, 114u8, 97u8, 99u8, 101u8, 95u8, 116u8, 114u8, 101u8, 101u8, 34u8, 58u8, 91u8];
    assert(v@ =~= tree_key());
    v
}

fn samples_key_bytes() -> (v: Vec<u8>)
    ensures
        v@ == samples_key(),
{
    let v = vec![34u8, 115u8, 97u8, 109u8, 112u8, 108u8, 101u8, 115u8, 34u8, 58u8, 91u8];
    assert(v@ =~= samples_key());
    v
}

/// Field offsets of a timeline's node records.
pub struct TimelineOffsets {
    pub type_: usize,
    pub name: usize,
    pub self_size: usize,
    pub trace_node: usize,
}

/// The records of the node numbers `nums` (`nfc` numbers each; an
/// incomplete last record is dropped) laid out in columns.
pub open spec fn columns_of(nums: Seq<u32>, nfc: int, o: TimelineOffsets, t: TimelineData) -> bool {
    let count = nums.len() as int / nfc;
    &&& t.node_count == count
    &&& t.types@.len() == count
    &&& t.names@.len() == count
    &&& t.sizes@.len() == count
    &&& t.tids@.len() == count
    &&& forall|r: int| 0 <= r < count ==> {
        &&& #[trigger] t.types@[r] == (nums[r * nfc + o.type_] % 256) as u8
        &&& t.names@[r] == nums[r * nfc + o.name]
        &&& t.sizes@[r] == nums[r * nfc + o.self_size]
        &&& t.tids@[r] == nums[r * nfc + o.trace_node]
    }
}

/// Summed sizes of the first `k` records.
pub open spec fn sizes_sum(sizes: Seq<u32>, k: int) -> int
    decreases k,
{
    if k <= 0 {
        0
    } else {
        sizes_sum(sizes, k - 1) + sizes[k - 1]
    }
}

/// The trace functions of the flat numbers `nums`: six per record (an
/// incomplete last record dropped), keeping name, script, line, column.
pub open spec fn infos_of(nums: Seq<u32>) -> Seq<TraceInfo> {
    Seq::new(nums.len() / 6, |i: int| TraceInfo {
        name_idx: nums[i * 6 + 1],
        script_idx: nums[i * 6 + 2],
        line: nums[i * 6 + 4],
        column: nums[i * 6 + 5],
    })
}

/// The samples of the flat numbers `nums`: (timestamp, last id) pairs.
pub open spec fn pairs_of(nums: Seq<u32>) -> Seq<(u64, u64)> {
    Seq::new(nums.len() / 2, |i: int| (nums[i * 2] as u64, nums[i * 2 + 1] as u64))
}

/// The trace tree of the array `tt` (its `[` first): the root's four
/// numbers, then its children array.
pub open spec fn tree_of(tt: Seq<u8>) -> Seq<TraceNode> {
    let (id, p1) = read_num_at(tt, 1);
    let (fii, p2) = read_num_at(tt, p1);
    let (count, p3) = read_num_at(tt, p2);
    let (size, p4) = read_num_at(tt, p3);
    let root = TraceNode { func_idx: low32(fii), node_id: low32(id), count: low32(count), size: low32(size), parent: None };
    let q = next_bracket(tt, p4);
    if q < tt.len() {
        seq![root] + kids(tt, q + 1, Some(0usize), 1).0
    } else {
        seq![root]
    }
}

/// The bytes of the array whose key first occurs at `p`, from its `[` to
/// its closing `]`.
pub open spec fn array_bytes(data: Seq<u8>, key: Seq<u8>, p: int) -> Seq<u8> {
    let open = p + key.len() - 1;
    data.subrange(open, array_close(data, open + 1, 1) + 1)
}

/// `t` holds the timeline of `data` laid out with node record width `nfc`
/// and offsets `o`.
pub open spec fn timeline_of(data: Seq<u8>, nfc: int, o: TimelineOffsets, types: Seq<String>, t: TimelineData) -> bool {
    &&& exists|p: int| #[trigger] first_occurrence(data, crate::bytes::nodes_key(), p)
        && columns_of(array_numbers(data, crate::bytes::nodes_key(), p), nfc, o, t)
        && t.total_allocated == if sizes_sum(t.sizes@, t.node_count as int) <= u64::MAX {
            sizes_sum(t.sizes@, t.node_count as int)
        } else {
            u64::MAX as int
        }
    &&& t.type_names@ == types
    &&& exists|p: int, spans: Seq<(usize, usize)>| #[trigger] table_from(data, p, spans, t.strings@)
    &&& exists|p: int| #[trigger] first_occurrence(data, infos_key(), p) && t.trace_infos@ == infos_of(array_numbers(data, infos_key(), p))
    &&& exists|p: int| #[trigger] first_occurrence(data, tree_key(), p) && t.trace_nodes@ == tree_of(array_bytes(data, tree_key(), p))
    &&& exists|p: int| #[trigger] first_occurrence(data, samples_key(), p) && t.samples@ == pairs_of(array_numbers(data, samples_key(), p))
}

/// Position of each required node field.
pub open spec fn timeline_offsets(fields: Seq<String>, o: TimelineOffsets) -> bool {
    &&& first_position(fields, "type"@, o.type_ as int)
    &&& first_position(fields, "name"@, o.name as int)
    &&& first_position(fields, "self_size"@, o.self_size as int)
    &&& first_position(fields, "trace_node_id"@, o.trace_node as int)
}

/// All four node fields a timeline needs are present.
pub open spec fn has_timeline_fields(fields: Seq<String>) -> bool {
    has_field(fields, "type"@) && has_field(fields, "name"@) && has_field(fields, "self_size"@) && has_field(
        fields,
        "trace_node_id"@,
    )
}

fn timeline_columns(nums: &Vec<u32>, nfc: usize, o: &TimelineOffsets) -> (t: (usize, Vec<u8>, Vec<u32>, Vec<u32>, Vec<u32>, u64))
    requires
        nfc >= 1,
        o.type_ < nfc,
        o.name < nfc,
        o.self_size < nfc,
        o.trace_node < nfc,
    ensures
        t.0 == nums@.len() as int / (nfc as int),
        t.1@.len() == t.0,
        t.2@.len() == t.0,
        t.3@.len() == t.0,
        t.4@.len() == t.0,
        forall|r: int| 0 <= r < t.0 ==> {
            &&& #[trigger] t.1@[r] == (nums@[r * nfc + o.type_] % 256) as u8
            &&& t.2@[r] == nums@[r * nfc + o.name]
            &&& t.3@[r] == nums@[r * nfc + o.self_size]
            &&& t.4@[r] == nums@[r * nfc + o.trace_node]
        },
        t.5 == if sizes_sum(t.3@, t.0 as int) <= u64::MAX { sizes_sum(t.3@, t.0 as int) } else { u64::MAX as int },
{
    let n = nums.len();
    let count = n / nfc;
    let mut types: Vec<u8> = Vec::new();
    let mut names: Vec<u32> = Vec::new();
    let mut sizes: Vec<u32> = Vec::new();
    let mut tids: Vec<u32> = Vec::new();
    let mut total: u64 = 0;
    let mut r: usize = 0;
    while r < count
        invariant
            r <= count,
            n == nums@.len(),
            count == nums@.len() as int / (nfc as int),
            nfc >= 1,
            o.type_ < nfc,
            o.name < nfc,
            o.self_size < nfc,
            o.trace_node < nfc,
            types@.len() == r,
            names@.len() == r,
            sizes@.len() == r,
            tids@.len() == r,
            forall|q: int| 0 <= q < r ==> {
                &&& #[trigger] types@[q] == (nums@[q * nfc + o.type_] % 256) as u8
                &&& names@[q] == nums@[q * nfc + o.name]
                &&& sizes@[q] == nums@[q * nfc + o.self_size]
                &&& tids@[q] == nums@[q * nfc + o.trace_node]
            },
            total == if sizes_sum(sizes@, r as int) <= u64::MAX { sizes_sum(sizes@, r as int) } else { u64::MAX as int },
        decreases count - r,
    {
        proof {
            crate::graph::lemma_record_index(r as int, count as int, nfc as int, o.type_ as int);
            crate::graph::lemma_record_index(r as int, count as int, nfc as int, o.name as int);
            crate::graph::lemma_record_index(r as int, count as int, nfc as int, o.self_size as int);
            crate::graph::lemma_record_index(r as int, count as int, nfc as int, o.trace_node as int);
            assert(count * nfc <= nums@.len()) by (nonlinear_arith)
                requires
                    count == nums@.len() as int / (nfc as int),
                    nfc >= 1,
            ;
            assert(r * nfc + o.type_ < nums@.len());
            assert(r * nfc + o.name < nums@.len());
            assert(r * nfc + o.self_size < nums@.len());
            assert(r * nfc + o.trace_node < nums@.len());
            assert(r * nfc <= r * nfc + o.type_);
        }
        let base = r * nfc;
        let t = nums[base + o.type_];
        let ghost old_sizes = sizes@;
        let ghost old_types = types@;
        let ghost old_names = names@;
        let ghost old_tids = tids@;
        types.push((t % 256) as u8);
        names.push(nums[base + o.name]);
        let size = nums[base + o.self_size];
        sizes.push(size);
        tids.push(nums[base + o.trace_node]);
        proof {
            assert(sizes_sum(sizes@, r + 1) == sizes_sum(old_sizes, r as int) + size) by {
                assert(sizes@.subrange(0, r as int) =~= old_sizes.subrange(0, r as int));
                lemma_sizes_sum_prefix(sizes@, old_sizes, r as int);
            }
            assert forall|q: int| 0 <= q < r + 1 implies {
                &&& #[trigger] types@[q] == (nums@[q * nfc + o.type_] % 256) as u8
                &&& names@[q] == nums@[q * nfc + o.name]
                &&& sizes@[q] == nums@[q * nfc + o.self_size]
                &&& tids@[q] == nums@[q * nfc + o.trace_node]
            } by {
                if q < r {
                    assert(types@[q] == old_types[q]);
                    assert(names@[q] == old_names[q]);
                    assert(sizes@[q] == old_sizes[q]);
                    assert(tids@[q] == old_tids[q]);
                }
            }
        }
        total = if total > u64::MAX - size as u64 { u64::MAX } else { total + size as u64 };
        r += 1;
    }
    (count, types, names, sizes, tids, total)
}

proof fn lemma_sizes_sum_prefix(a: Seq<u32>, b: Seq<u32>, k: int)
    requires
        0 <= k <= a.len(),
        k <= b.len(),
        forall|i: int| 0 <= i < k ==> a[i] == b[i],
    ensures
        sizes_sum(a, k) == sizes_sum(b, k),
    decreases k,
{
    if k > 0 {
        lemma_sizes_sum_prefix(a, b, k - 1);
    }
}

/// The trace functions of the flat numbers (six per record).
fn trace_infos_of(nums: &Vec<u32>) -> (v: Vec<TraceInfo>)
    ensures
        v@ == infos_of(nums@),
{
    let n = nums.len();
    let count = n / 6;
    let mut v: Vec<TraceInfo> = Vec::new();
    let mut i: usize = 0;
    while i < count
        invariant
            i <= count,
            n == nums@.len(),
            count == nums@.len() / 6,
            v@.len() == i,
            forall|k: int| 0 <= k < i ==> #[trigger] v@[k] == infos_of(nums@)[k],
        decreases count - i,
    {
        proof {
            crate::graph::lemma_record_index(i as int, count as int, 6, 5);
            assert(i * 6 + 5 < nums@.len());
        }
        v.push(TraceInfo {
            name_idx: nums[i * 6 + 1],
            script_idx: nums[i * 6 + 2],
            line: nums[i * 6 + 4],
            column: nums[i * 6 + 5],
        });
        i += 1;
    }
    assert(v@ =~= infos_of(nums@));
    v
}

/// The samples of the flat numbers (pairs).
fn samples_of(nums: &Vec<u32>) -> (v: Vec<(u64, u64)>)
    ensures
        v@ == pairs_of(nums@),
{
    let n = nums.len();
    let count = n / 2;
    let mut v: Vec<(u64, u64)> = Vec::new();
    let mut i: usize = 0;
    while i < count
        invariant
            i <= count,
            n == nums@.len(),
            count == nums@.len() / 2,
            v@.len() == i,
            forall|k: int| 0 <= k < i ==> #[trigger] v@[k] == pairs_of(nums@)[k],
        decreases count - i,
    {
        proof {
            crate::graph::lemma_record_index(i as int, count as int, 2, 1);
            assert(i * 2 + 1 < nums@.len());
        }
        v.push((nums[i * 2] as u64, nums[i * 2 + 1] as u64));
        i += 1;
    }
    assert(v@ =~= pairs_of(nums@));
    v
}

/// The trace tree of the array introduced by `"trace_tree":[`.
fn parse_tree(data: &[u8]) -> (r: Option<Vec<TraceNode>>)
    requires
        data@.len() + 12 <= usize::MAX,
    ensures
        match r {
            Some(v) => exists|p: int| #[trigger] first_occurrence(data@, tree_key(), p) && v@ == tree_of(array_bytes(data@, tree_key(), p)),
            None => !has_key(data@, tree_key()),
        },
{
    let key = tree_key_bytes();
    let p = match find_marker(data, key.as_slice()) {
        Some(p) => p,
        None => return None,
    };
    let open = p + key.len() - 1;
    proof {
        assert(data@.subrange(p as int, p + key@.len())[key@.len() - 1] == data@[open as int]);
    }
    let end = find_array_end(data, open);
    proof {
        crate::load::lemma_array_close_bound(data@, open + 1, 1);
    }
    let tt = &data[open..end + 1];
    proof {
        assert(tt@ == array_bytes(data@, tree_key(), p as int));
        assert(tt@[0] == 91u8);
    }
    let mut pos: usize = 1;
    let id = read_num(tt, &mut pos);
    proof {
        lemma_read_num_range(tt@, 1);
    }
    let ghost p1 = pos as int;
    let fii = read_num(tt, &mut pos);
    proof {
        lemma_read_num_range(tt@, p1);
    }
    let ghost p2 = pos as int;
    let count = read_num(tt, &mut pos);
    proof {
        lemma_read_num_range(tt@, p2);
    }
    let ghost p3 = pos as int;
    let size = read_num(tt, &mut pos);
    proof {
        lemma_read_num_range(tt@, p3);
    }
    let mut nodes: Vec<TraceNode> = Vec::new();
    nodes.push(TraceNode {
        func_idx: (fii % 0x1_0000_0000) as u32,
        node_id: (id % 0x1_0000_0000) as u32,
        count: (count % 0x1_0000_0000) as u32,
        size: (size % 0x1_0000_0000) as u32,
        parent: None,
    });
    let ghost p4 = pos as int;
    proof {
        lemma_next_bracket(tt@, p4);
    }
    while pos < tt.len() && tt[pos] != 91u8
        invariant
            p4 <= pos <= tt@.len(),
            next_bracket(tt@, pos as int) == next_bracket(tt@, p4),
        decreases tt@.len() - pos,
    {
        pos = pos + 1;
    }
    if pos < tt.len() {
        let ghost before = nodes@;
        parse_children(tt, &mut pos, Some(0), &mut nodes);
        proof {
            assert(nodes@ =~= tree_of(tt@));
        }
    } else {
        proof {
            assert(nodes@ =~= tree_of(tt@));
        }
    }
    proof {
        assert(first_occurrence(data@, tree_key(), p as int));
    }
    Some(nodes)
}

/// The node type names a timeline reports: the header's first `node_types`
/// list, or none.
pub open spec fn first_types(meta: SnapshotMeta) -> Seq<String> {
    if meta.meta.node_types@.len() > 0 {
        meta.meta.node_types@[0]@
    } else {
        Seq::empty()
    }
}

/// Every string of the table that `"strings":[` introduces decodes (no
/// `\u` escape lacks its digits).
pub open spec fn timeline_strings_decode(data: Seq<u8>) -> bool {
    forall|p: int, k: int| #![trigger first_occurrence(data, strings_key(), p), spans_from(data, p + strings_key().len())[k]]
        first_occurrence(data, strings_key(), p) && 0 <= k < spans_from(data, p + strings_key().len()).len()
            ==> span_text(
            data,
            (
                spans_from(data, p + strings_key().len())[k].0 as usize,
                spans_from(data, p + strings_key().len())[k].1 as usize,
            ),
        ) is Some
}

/// All five arrays a timeline is read from are present.
pub open spec fn has_timeline_arrays(data: Seq<u8>) -> bool {
    &&& has_key(data, crate::bytes::nodes_key())
    &&& has_key(data, strings_key())
    &&& has_key(data, infos_key())
    &&& has_key(data, tree_key())
    &&& has_key(data, samples_key())
}

/// Reads a timeline from the bytes of its file and its header
/// (`parse_timeline`): the node records by the header's layout, the
/// string table, the trace functions and tree, and the samples.
#[verifier::rlimit(40)]
pub fn parse_timeline(data: &[u8], meta: &SnapshotMeta) -> (res: Result<TimelineData, Error>)
    requires
        data@.len() + 12 <= usize::MAX,
        meta.meta.node_fields@.len() <= 16,
    ensures
        res matches Err(Error::UnsupportedLayout) <==> !has_timeline_fields(meta.meta.node_fields@),
        has_timeline_fields(meta.meta.node_fields@) ==> (res is Ok <==> has_timeline_arrays(data@)
            && timeline_strings_decode(data@)),
        res is Err ==> res matches Err(Error::UnsupportedLayout) || res matches Err(Error::HeaderParseFailed),
        res matches Ok(t) ==> exists|o: TimelineOffsets| #[trigger] timeline_offsets(meta.meta.node_fields@, o)
            && timeline_of(data@, meta.meta.node_fields@.len() as int, o, first_types(*meta), t),
{
    let fields = meta.meta.node_fields.as_slice();
    let type_ = match position_of(fields, "type") {
        Some(i) => i,
        None => return Err(Error::UnsupportedLayout),
    };
    let name = match position_of(fields, "name") {
        Some(i) => i,
        None => return Err(Error::UnsupportedLayout),
    };
    let self_size = match position_of(fields, "self_size") {
        Some(i) => i,
        None => return Err(Error::UnsupportedLayout),
    };
    let trace_node = match position_of(fields, "trace_node_id") {
        Some(i) => i,
        None => return Err(Error::UnsupportedLayout),
    };
    let o = TimelineOffsets { type_, name, self_size, trace_node };
    let nfc = fields.len();
    proof {
        assert(has_timeline_fields(meta.meta.node_fields@));
        assert(timeline_offsets(meta.meta.node_fields@, o));
    }
    let nk = crate::bytes::nodes_key_bytes();
    let nums = match parse_array(data, &nk) {
        Some(v) => v,
        None => return Err(Error::HeaderParseFailed),
    };
    let (node_count, types, names, sizes, tids, total_allocated) = timeline_columns(&nums, nfc, &o);
    let sk = strings_key_bytes();
    let strings_at = match find_marker(data, sk.as_slice()) {
        Some(p) => p,
        None => return Err(Error::HeaderParseFailed),
    };
    let fk = infos_key_bytes();
    let fi = match parse_array(data, &fk) {
        Some(v) => v,
        None => return Err(Error::HeaderParseFailed),
    };
    let trace_infos = trace_infos_of(&fi);
    let trace_nodes = match parse_tree(data) {
        Some(v) => v,
        None => return Err(Error::HeaderParseFailed),
    };
    let mk = samples_key_bytes();
    let smp = match parse_array(data, &mk) {
        Some(v) => v,
        None => return Err(Error::HeaderParseFailed),
    };
    let samples = samples_of(&smp);
    let open = strings_at + sk.len() - 1;
    proof {
        assert(data@.subrange(strings_at as int, strings_at + sk@.len())[sk@.len() - 1] == data@[open as int]);
        assert(first_occurrence(data@, strings_key(), strings_at as int));
        assert(has_key(data@, strings_key()));
    }
    let spans = scan_string_spans(data, open);
    let strings = match decode_strings(data, &spans) {
        Some(v) => v,
        None => {
            proof {
                let k = choose|k: int| 0 <= k < spans@.len() && #[trigger] span_text(data@, spans@[k]) is None;
                let sf = spans_from(data@, strings_at + strings_key().len());
                assert(spans@[k] == (sf[k].0 as usize, sf[k].1 as usize));
                assert(!timeline_strings_decode(data@));
            }
            return Err(Error::HeaderParseFailed);
        },
    };
    let type_names = if meta.meta.node_types.len() > 0 {
        crate::graph::clone_strings(&meta.meta.node_types[0])
    } else {
        Vec::new()
    };
    let t = TimelineData {
        node_count,
        types,
        names,
        sizes,
        tids,
        type_names,
        total_allocated,
        strings,
        trace_infos,
        trace_nodes,
        samples,
    };
    proof {
        assert(table_from(data@, strings_at as int, spans@, t.strings@));
        assert(timeline_strings_decode(data@)) by {
            assert forall|p: int, k: int|
                first_occurrence(data@, strings_key(), p) && 0 <= k < spans_from(data@, p + strings_key().len()).len()
                implies #[trigger] span_text(
                data@,
                (
                    spans_from(data@, p + strings_key().len())[k].0 as usize,
                    spans_from(data@, p + strings_key().len())[k].1 as usize,
                ),
            ) is Some by {
                assert(p == strings_at as int);
                assert(decoded_at(data@, spans@, t.strings@, k));
                assert(spans@[k] == (spans_from(data@, p + strings_key().len())[k].0 as usize,
                    spans_from(data@, p + strings_key().len())[k].1 as usize));
            }
        }
        let pn = choose|p: int| first_occurrence(data@, crate::bytes::nodes_key(), p)
            && nums@ == array_numbers(data@, crate::bytes::nodes_key(), p);
        assert(columns_of(nums@, nfc as int, o, t));
        assert(first_occurrence(data@, crate::bytes::nodes_key(), pn) && columns_of(
            array_numbers(data@, crate::bytes::nodes_key(), pn),
            nfc as int,
            o,
            t,
        ));
        let pf = choose|p: int| first_occurrence(data@, infos_key(), p) && fi@ == array_numbers(data@, infos_key(), p);
        assert(first_occurrence(data@, infos_key(), pf) && t.trace_infos@ == infos_of(array_numbers(data@, infos_key(), pf)));
        let ps = choose|p: int| first_occurrence(data@, samples_key(), p) && smp@ == array_numbers(data@, samples_key(), p);
        assert(first_occurrence(data@, samples_key(), ps) && t.samples@ == pairs_of(array_numbers(data@, samples_key(), ps)));
        assert(t.type_names@ == first_types(*meta));
        assert(timeline_of(data@, nfc as int, o, first_types(*meta), t));
    }
    Ok(t)
}

} // verus!
