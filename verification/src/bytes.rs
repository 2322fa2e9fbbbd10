//! Byte-level scanning of a snapshot file: markers, the extent of arrays and
//! objects, flat number arrays, and the string table with its JSON escapes.

use vstd::prelude::*;

verus! {

/// `memchr::memchr`: the position of the first `needle` byte in `hay`.
#[verifier::external_body]
fn memchr_first(needle: u8, hay: &[u8]) -> (r: Option<usize>)
    ensures
        match r {
            Some(i) => i < hay@.len() && hay@[i as int] == needle && forall|j: int| 0 <= j < i ==> hay@[j] != needle,
            None => forall|j: int| 0 <= j < hay@.len() ==> hay@[j] != needle,
        },
{
    memchr::memchr(needle, hay)
}

/// `marker` occurs in `data` at position `p`.
pub open spec fn occurs_at(data: Seq<u8>, marker: Seq<u8>, p: int) -> bool {
    0 <= p && p + marker.len() <= data.len() && data.subrange(p, p + marker.len()) == marker
}

/// `data[at..at + marker.len()]` equals `marker` (which fits).
fn bytes_equal_at(data: &[u8], at: usize, marker: &[u8]) -> (b: bool)
    requires
        at + marker@.len() <= data@.len(),
    ensures
        b == (data@.subrange(at as int, at + marker@.len()) == marker@),
{
    let mut k: usize = 0;
    let dl = data.len();
    while k < marker.len()
        invariant
            dl == data@.len(),
            at + marker@.len() <= data@.len(),
            k <= marker@.len(),
            forall|j: int| 0 <= j < k ==> data@[at + j] == marker@[j],
        decreases marker@.len() - k,
    {
        if data[at + k] != marker[k] {
            proof {
                assert(data@.subrange(at as int, at + marker@.len())[k as int] != marker@[k as int]);
            }
            return false;
        }
        k += 1;
    }
    assert(data@.subrange(at as int, at + marker@.len()) =~= marker@);
    true
}

/// Position of the first occurrence of `marker` in `data` (`find_marker`).
pub fn find_marker(data: &[u8], marker: &[u8]) -> (r: Option<usize>)
    requires
        marker@.len() > 0,
    ensures
        match r {
            Some(p) => occurs_at(data@, marker@, p as int) && forall|q: int| 0 <= q < p ==> !occurs_at(data@, marker@, q),
            None => forall|q: int| !occurs_at(data@, marker@, q),
        },
{
    let m = marker.len();
    if m > data.len() {
        return None;
    }
    let first = marker[0];
    let mut pos: usize = 0;
    while pos <= data.len() - m
        invariant
            m == marker@.len(),
            m >= 1,
            m <= data@.len(),
            first == marker@[0],
            forall|q: int| 0 <= q < pos ==> !occurs_at(data@, marker@, q),
        decreases data@.len() - pos,
    {
        let rest = &data[pos..data.len()];
        match memchr_first(first, rest) {
            None => {
                proof {
                    assert forall|q: int| !occurs_at(data@, marker@, q) by {
                        if q >= pos && occurs_at(data@, marker@, q) {
                            assert(data@.subrange(q, q + m)[0] == marker@[0]);
                            assert(rest@[q - pos] == data@[q]);
                        }
                    }
                }
                return None;
            },
            Some(f) => {
                let abs = pos + f;
                proof {
                    assert forall|q: int| pos <= q < abs implies !occurs_at(data@, marker@, q) by {
                        if occurs_at(data@, marker@, q) {
                            assert(data@.subrange(q, q + m)[0] == marker@[0]);
                            assert(rest@[q - pos] == data@[q]);
                        }
                    }
                }
                if abs > data.len() - m {
                    proof {
                        assert forall|q: int| !occurs_at(data@, marker@, q) by {
                        }
                    }
                    return None;
                }
                if bytes_equal_at(data, abs, marker) {
                    return Some(abs);
                }
                pos = abs + 1;
            },
        }
    }
    None
}

/// Position just past the JSON string body that starts at `i`: the index of
/// its closing quote (a backslash skips the byte after it), or at least the
/// length when unterminated.
pub open spec fn string_close(data: Seq<u8>, i: int) -> int
    decreases data.len() + 2 - i,
{
    if i >= data.len() || i < 0 {
        i
    } else if data[i] == 92u8 {
        string_close(data, i + 2)
    } else if data[i] == 34u8 {
        i
    } else {
        string_close(data, i + 1)
    }
}

pub proof fn lemma_string_close_ge(data: Seq<u8>, i: int)
    requires
        0 <= i,
    ensures
        string_close(data, i) >= i,
        string_close(data, i) <= data.len() + 1 || string_close(data, i) == i,
        string_close(data, i) < data.len() ==> data[string_close(data, i)] == 34u8,
    decreases data.len() + 2 - i,
{
    if i < data.len() {
        if data[i] == 92u8 {
            lemma_string_close_ge(data, i + 2);
        } else if data[i] != 34u8 {
            lemma_string_close_ge(data, i + 1);
        }
    }
}

/// The closing `]` of the array being scanned from `i` at nesting `depth`,
/// skipping strings; the last index when the data ends first.
pub open spec fn array_close(data: Seq<u8>, i: int, depth: int) -> int
    decreases data.len() + 3 - i,
{
    if i >= data.len() || i < 0 {
        data.len() - 1
    } else if data[i] == 91u8 {
        array_close(data, i + 1, depth + 1)
    } else if data[i] == 93u8 {
        if depth - 1 == 0 {
            i
        } else {
            array_close(data, i + 1, depth - 1)
        }
    } else if data[i] == 34u8 {
        let c = string_close(data, i + 1);
        if c >= i && c <= data.len() + 1 {
            array_close(data, c + 1, depth)
        } else {
            data.len() - 1
        }
    } else {
        array_close(data, i + 1, depth)
    }
}

/// Index of the `]` closing the array opened at `open` (`find_array_end`);
/// the last index when the data ends first.
pub fn find_array_end(data: &[u8], open: usize) -> (end: usize)
    requires
        data@.len() > 0,
        data@.len() + 3 <= usize::MAX,
        open < data@.len(),
    ensures
        end == array_close(data@, open + 1, 1),
{
    let len = data.len();
    let mut i = open + 1;
    let mut depth: u64 = 1;
    while i < len
        invariant
            len == data@.len(),
            len > 0,
            len + 3 <= usize::MAX,
            i <= len + 2,
            depth >= 1,
            depth <= i,
            array_close(data@, i as int, depth as int) == array_close(data@, open + 1, 1),
        decreases len + 3 - i,
    {
        let b = data[i];
        if b == 91u8 {
            depth = depth + 1;
        } else if b == 93u8 {
            if depth - 1 == 0 {
                return i;
            }
            depth = depth - 1;
        } else if b == 34u8 {
            let ghost start = i;
            i = i + 1;
            while i < len
                invariant
                    len == data@.len(),
                    len + 3 <= usize::MAX,
                    start < i <= len + 1,
                    string_close(data@, i as int) == string_close(data@, start + 1),
                ensures
                    start < i <= len + 1,
                    string_close(data@, start + 1) == i,
                decreases len + 2 - i,
            {
                if data[i] == 92u8 {
                    i = i + 2;
                } else if data[i] == 34u8 {
                    break;
                } else {
                    i = i + 1;
                }
            }
            proof {
                lemma_string_close_ge(data@, start + 1);
            }
        }
        i = i + 1;
    }
    len - 1
}

/// Whether byte `b` is an ASCII digit.
pub open spec fn is_digit(b: u8) -> bool {
    48u8 <= b && b <= 57u8
}

/// End of the run of digits starting at `i`.
pub open spec fn digits_end(data: Seq<u8>, i: int) -> int
    decreases data.len() - i,
{
    if i >= data.len() || i < 0 || !is_digit(data[i]) {
        i
    } else {
        digits_end(data, i + 1)
    }
}

/// Decimal value of `data[i..j]`.
pub open spec fn digits_value(data: Seq<u8>, i: int, j: int) -> nat
    decreases j - i,
{
    if j <= i {
        0
    } else {
        digits_value(data, i, j - 1) * 10 + (data[j - 1] - 48u8) as nat
    }
}

/// The numbers of `data` from `i` on: each maximal run of digits read in
/// decimal, modulo 2^32, up to the first `]` outside a run.
pub open spec fn numbers_from(data: Seq<u8>, i: int) -> Seq<u32>
    decreases data.len() - i,
{
    if i >= data.len() || i < 0 {
        Seq::empty()
    } else if data[i] == 93u8 {
        Seq::empty()
    } else if is_digit(data[i]) {
        let e = digits_end(data, i);
        if e > i && e <= data.len() {
            seq![(digits_value(data, i, e) % 0x1_0000_0000) as u32] + numbers_from(data, e)
        } else {
            Seq::empty()
        }
    } else {
        numbers_from(data, i + 1)
    }
}

proof fn lemma_digits_end_ge(data: Seq<u8>, i: int)
    requires
        0 <= i,
    ensures
        digits_end(data, i) >= i,
        digits_end(data, i) <= data.len() || digits_end(data, i) == i,
        forall|k: int| i <= k < digits_end(data, i) ==> is_digit(#[trigger] data[k]),
        digits_end(data, i) < data.len() ==> !is_digit(data[digits_end(data, i)]),
    decreases data.len() - i,
{
    if i < data.len() && is_digit(data[i]) {
        lemma_digits_end_ge(data, i + 1);
    }
}

/// The numbers of a flat array body (`parse_numbers_fast`): each maximal
/// run of ASCII digits in decimal, wrapping modulo 2^32, up to the first `]`.
pub fn parse_numbers_fast(data: &[u8]) -> (out: Vec<u32>)
    ensures
        out@ == numbers_from(data@, 0),
{
    let len = data.len();
    let mut out: Vec<u32> = Vec::new();
    let mut i: usize = 0;
    while i < len
        invariant
            len == data@.len(),
            i <= len,
            out@ + numbers_from(data@, i as int) == numbers_from(data@, 0),
        decreases len - i,
    {
        let ch = data[i];
        if ch == 93u8 {
            proof {
                assert(numbers_from(data@, i as int) == Seq::<u32>::empty());
                assert(out@ + Seq::<u32>::empty() =~= out@);
            }
            return out;
        }
        if 48u8 <= ch && ch <= 57u8 {
            let ghost start = i;
            let mut val: u32 = 0;
            proof {
                lemma_digits_end_ge(data@, start as int);
            }
            while i < len && 48u8 <= data[i] && data[i] <= 57u8
                invariant
                    len == data@.len(),
                    start <= i <= len,
                    start < len,
                    is_digit(data@[start as int]),
                    forall|k: int| start <= k < i ==> is_digit(#[trigger] data@[k]),
                    val as nat == digits_value(data@, start as int, i as int) % 0x1_0000_0000,
                decreases len - i,
            {
                let d = (data[i] - 48u8) as u32;
                proof {
                    let v: int = digits_value(data@, start as int, i as int) as int;
                    let m: int = 0x1_0000_0000;
                    let di: int = d as int;
                    let w: int = (val as int * 10) % m;
                    vstd::arithmetic::div_mod::lemma_mul_mod_noop_left(v, 10, m);
                    assert(w == (v * 10) % m);
                    vstd::arithmetic::div_mod::lemma_add_mod_noop(v * 10, di, m);
                    vstd::arithmetic::div_mod::lemma_small_mod(d as nat, m as nat);
                    vstd::arithmetic::div_mod::lemma_mod_twice(v * 10, m);
                    vstd::arithmetic::div_mod::lemma_add_mod_noop(w, di, m);
                    vstd::arithmetic::div_mod::lemma_small_mod(w as nat, m as nat);
                    assert((w + di) % m == (v * 10 + di) % m);
                    assert(digits_value(data@, start as int, i + 1) == v * 10 + di);
                    assert(vstd::wrapping::u32_specs::wrapping_mul(val, 10) as int == w) by {
                        assert(vstd::wrapping::u32_specs::wrapping_mul(val, 10) as int == (val as nat * 10nat) % (0x1_0000_0000nat));
                    }
                }
                val = val.wrapping_mul(10).wrapping_add(d);
                i += 1;
            }
            proof {
                assert(digits_end(data@, start as int) == i) by {
                    lemma_digits_end_unique(data@, start as int, i as int);
                }
                let e = i as int;
                assert(numbers_from(data@, start as int) == seq![(digits_value(data@, start as int, e) % 0x1_0000_0000) as u32] + numbers_from(data@, e));
            }
            let ghost before = out@;
            out.push(val);
            proof {
                assert(out@ =~= before + seq![val]);
                assert(before + numbers_from(data@, start as int) == numbers_from(data@, 0));
                assert(out@ + numbers_from(data@, i as int) =~= before + (seq![val] + numbers_from(data@, i as int)));
            }
            continue;
        }
        i += 1;
    }
    proof {
        assert(numbers_from(data@, i as int) == Seq::<u32>::empty());
        assert(out@ + Seq::<u32>::empty() =~= out@);
    }
    out
}

proof fn lemma_digits_end_unique(data: Seq<u8>, i: int, e: int)
    requires
        0 <= i <= e <= data.len(),
        forall|k: int| i <= k < e ==> is_digit(#[trigger] data[k]),
        e == data.len() || !is_digit(data[e]),
    ensures
        digits_end(data, i) == e,
    decreases e - i,
{
    if i < e {
        lemma_digits_end_unique(data, i + 1, e);
    }
}

/// The numbers of a flat array body (`parse_numbers_par`), the same as
/// `parse_numbers_fast`.
pub fn parse_numbers_par(data: &[u8]) -> (out: Vec<u32>)
    ensures
        out@ == numbers_from(data@, 0),
{
    parse_numbers_fast(data)
}

/// Scanning state of `find_matching_brace`: the closing `}` of the object
/// being scanned from `i` at nesting `depth`, strings (with escapes) skipped.
pub open spec fn brace_close(s: Seq<u8>, i: int, depth: int, in_str: bool, esc: bool) -> Option<int>
    decreases s.len() - i,
{
    if i >= s.len() || i < 0 {
        None
    } else {
        let ch = s[i];
        if in_str {
            if esc {
                brace_close(s, i + 1, depth, true, false)
            } else if ch == 92u8 {
                brace_close(s, i + 1, depth, true, true)
            } else if ch == 34u8 {
                brace_close(s, i + 1, depth, false, false)
            } else {
                brace_close(s, i + 1, depth, true, false)
            }
        } else if ch == 34u8 {
            brace_close(s, i + 1, depth, true, false)
        } else if ch == 123u8 {
            brace_close(s, i + 1, depth + 1, false, false)
        } else if ch == 125u8 {
            if depth - 1 == 0 {
                Some(i)
            } else {
                brace_close(s, i + 1, depth - 1, false, false)
            }
        } else {
            brace_close(s, i + 1, depth, false, false)
        }
    }
}

/// Index of the `}` that closes the object whose scan starts at `start`
/// (`find_matching_brace`).
pub fn find_matching_brace(s: &[u8], start: usize) -> (r: Option<usize>)
    requires
        s@.len() <= i64::MAX,
    ensures
        match r {
            Some(i) => brace_close(s@, start as int, 0, false, false) == Some(i as int) && start <= i < s@.len(),
            None => brace_close(s@, start as int, 0, false, false) is None,
        },
{
    let len = s.len();
    let mut depth: i64 = 0;
    let mut in_str = false;
    let mut esc = false;
    let mut i = start;
    proof {
        lemma_brace_close_range(s@, start as int, 0, false, false);
    }
    while i < len
        invariant
            len == s@.len(),
            len <= i64::MAX,
            start <= i,
            -(i as int) <= depth <= i,
            !in_str ==> !esc,
            brace_close(s@, i as int, depth as int, in_str, esc) == brace_close(s@, start as int, 0, false, false),
        decreases len - i,
    {
        let ch = s[i];
        if in_str {
            if esc {
                esc = false;
            } else if ch == 92u8 {
                esc = true;
            } else if ch == 34u8 {
                in_str = false;
            }
        } else if ch == 34u8 {
            in_str = true;
        } else if ch == 123u8 {
            depth = depth + 1;
        } else if ch == 125u8 {
            depth = depth - 1;
            if depth == 0 {
                return Some(i);
            }
        }
        i += 1;
    }
    None
}

proof fn lemma_brace_close_range(s: Seq<u8>, i: int, depth: int, in_str: bool, esc: bool)
    ensures
        brace_close(s, i, depth, in_str, esc) matches Some(k) ==> i <= k < s.len(),
    decreases s.len() - i,
{
    if 0 <= i < s.len() {
        let ch = s[i];
        lemma_brace_close_range(s, i + 1, depth, true, false);
        lemma_brace_close_range(s, i + 1, depth, true, true);
        lemma_brace_close_range(s, i + 1, depth, false, false);
        lemma_brace_close_range(s, i + 1, depth + 1, false, false);
        lemma_brace_close_range(s, i + 1, depth - 1, false, false);
    }
}

/// `"snapshot":` in bytes.
pub open spec fn snapshot_key() -> Seq<u8> {
    seq![34u8, 115u8, 110u8, 97u8, 112u8, 115u8, 104u8, 111u8, 116u8, 34u8, 58u8]
}

/// `"nodes":[` in bytes.
pub open spec fn nodes_key() -> Seq<u8> {
    seq![34u8, 110u8, 111u8, 100u8, 101u8, 115u8, 34u8, 58u8, 91u8]
}

/// `"edges":[` in bytes.
pub open spec fn edges_key() -> Seq<u8> {
    seq![34u8, 101u8, 100u8, 103u8, 101u8, 115u8, 34u8, 58u8, 91u8]
}

/// `"strings":[` in bytes.
pub open spec fn strings_key() -> Seq<u8> {
    seq![34u8, 115u8, 116u8, 114u8, 105u8, 110u8, 103u8, 115u8, 34u8, 58u8, 91u8]
}

/// The bytes of `"snapshot":`.
pub fn snapshot_key_bytes() -> (v: Vec<u8>)
    ensures
        v@ == snapshot_key(),
{
    let v = vec![34u8, 115u8, 110u8, 97u8, 112u8, 115u8, 104u8, 111u8, 116u8, 34u8, 58u8];
    assert(v@ =~= snapshot_key());
    v
}

/// The bytes of `"nodes":[`.
pub fn nodes_key_bytes() -> (v: Vec<u8>)
    ensures
        v@ == nodes_key(),
{
    let v = vec![34u8, 110u8, 111u8, 100u8, 101u8, 115u8, 34u8, 58u8, 91u8];
    assert(v@ =~= nodes_key());
    v
}

/// The bytes of `"edges":[`.
pub fn edges_key_bytes() -> (v: Vec<u8>)
    ensures
        v@ == edges_key(),
{
    let v = vec![34u8, 101u8, 100u8, 103u8, 101u8, 115u8, 34u8, 58u8, 91u8];
    assert(v@ =~= edges_key());
    v
}

/// The bytes of `"strings":[`.
pub fn strings_key_bytes() -> (v: Vec<u8>)
    ensures
        v@ == strings_key(),
{
    let v = vec![34u8, 115u8, 116u8, 114u8, 105u8, 110u8, 103u8, 115u8, 34u8, 58u8, 91u8];
    assert(v@ =~= strings_key());
    v
}

/// Where the snapshot header stands in a file prefix.
#[derive(Debug, Clone, Copy, PartialEq, Eq)]
pub enum HeaderScan {
    /// The header object spans `start..=end`.
    Found(usize, usize),
    /// The prefix does not reach the nodes array yet: read more.
    NeedMore,
    /// The header cannot be located.
    Failed,
}

/// The header object of a snapshot prefix (the search of `parse_meta`):
/// the object after `"snapshot":` when that key precedes `"nodes":[`,
/// delimited by its matching brace.
pub fn locate_header(prefix: &[u8]) -> (r: HeaderScan)
    ensures
        r matches HeaderScan::Found(a, b) ==> a <= b < prefix@.len() && prefix@[a as int] == 123u8
            && brace_close(prefix@, a as int, 0, false, false) == Some(b as int),
        r == HeaderScan::NeedMore <==> forall|q: int| !occurs_at(prefix@, nodes_key(), q),
{
    let snap = snapshot_key_bytes();
    let nodes = nodes_key_bytes();
    let s = find_marker(prefix, snap.as_slice());
    let n = find_marker(prefix, nodes.as_slice());
    if let (Some(ss), Some(ns)) = (s, n) {
        if ss < ns {
            let rest = &prefix[ss..prefix.len()];
            if let Some(off) = memchr_first(123u8, rest) {
                let obj = ss + off;
                proof {
                    assert(rest@[off as int] == prefix@[obj as int]);
                }
                if prefix.len() as u64 > 0x7fff_ffff_ffff_ffffu64 {
                    return HeaderScan::Failed;
                }
                if let Some(end) = find_matching_brace(prefix, obj) {
                    return HeaderScan::Found(obj, end);
                }
            }
        }
    }
    if n.is_none() {
        return HeaderScan::NeedMore;
    }
    HeaderScan::Failed
}

/// Byte spans of the string bodies of the table scanned from `i`: each
/// string opened by `"` runs to its closing quote; the scan stops at a `]`
/// between strings or at an unterminated string.
pub open spec fn spans_from(data: Seq<u8>, i: int) -> Seq<(int, int)>
    decreases data.len() + 3 - i,
{
    if i >= data.len() || i < 0 {
        Seq::empty()
    } else if data[i] != 34u8 {
        if data[i] == 93u8 {
            Seq::empty()
        } else {
            spans_from(data, i + 1)
        }
    } else {
        let c = string_close(data, i + 1);
        if c >= data.len() || c < i + 1 {
            Seq::empty()
        } else {
            seq![(i + 1, c)] + spans_from(data, c + 1)
        }
    }
}

/// The spans of the string bodies of the table whose `[` is at
/// `strings_open` (`StringTable::scan`), as absolute byte ranges.
pub fn scan_string_spans(data: &[u8], strings_open: usize) -> (spans: Vec<(usize, usize)>)
    requires
        data@.len() + 3 <= usize::MAX,
        strings_open < data@.len(),
    ensures
        spans@.len() == spans_from(data@, strings_open + 1).len(),
        forall|k: int| 0 <= k < spans@.len() ==> (#[trigger] spans@[k]).0 as int == spans_from(data@, strings_open + 1)[k].0
            && spans@[k].1 as int == spans_from(data@, strings_open + 1)[k].1,
        forall|k: int| 0 <= k < spans@.len() ==> (#[trigger] spans@[k]).0 <= spans@[k].1 < data@.len(),
{
    let len = data.len();
    let mut spans: Vec<(usize, usize)> = Vec::new();
    let mut i = strings_open + 1;
    let ghost whole = spans_from(data@, strings_open + 1);
    while i < len
        invariant
            len == data@.len(),
            len + 3 <= usize::MAX,
            strings_open + 1 <= i <= len + 2,
            whole == spans_from(data@, strings_open + 1),
            spans@.len() + spans_from(data@, i as int).len() == whole.len(),
            forall|k: int| 0 <= k < spans@.len() ==> (#[trigger] spans@[k]).0 as int == whole[k].0 && spans@[k].1 as int == whole[k].1,
            forall|k: int| 0 <= k < spans_from(data@, i as int).len() ==> #[trigger] spans_from(data@, i as int)[k] == whole[spans@.len() + k],
            forall|k: int| 0 <= k < spans@.len() ==> (#[trigger] spans@[k]).0 <= spans@[k].1 < data@.len(),
        decreases len + 3 - i,
    {
        if data[i] != 34u8 {
            if data[i] == 93u8 {
                proof {
                    assert(spans_from(data@, i as int).len() == 0);
                    assert(spans@.len() == whole.len());
                }
                return spans;
            }
            i += 1;
            continue;
        }
        let s0 = i + 1;
        let ghost open_at = i;
        i += 1;
        let mut closed = false;
        while i < len
            invariant_except_break
                !closed,
            invariant
                len == data@.len(),
                len + 3 <= usize::MAX,
                s0 <= i <= len + 1,
                string_close(data@, i as int) == string_close(data@, s0 as int),
            ensures
                s0 <= i <= len + 1,
                closed ==> i < len && string_close(data@, s0 as int) == i,
                !closed ==> i >= len && string_close(data@, s0 as int) == i,
            decreases len + 2 - i,
        {
            if data[i] == 92u8 {
                i += 2;
            } else if data[i] == 34u8 {
                closed = true;
                break;
            } else {
                i += 1;
            }
        }
        proof {
            lemma_string_close_ge(data@, s0 as int);
        }
        if !closed {
            proof {
                assert(spans_from(data@, open_at as int).len() == 0);
                assert(spans@.len() == whole.len());
            }
            return spans;
        }
        proof {
            let rest = spans_from(data@, i + 1);
            assert(spans_from(data@, open_at as int) == seq![(s0 as int, i as int)] + rest);
            assert(spans_from(data@, open_at as int)[0] == (s0 as int, i as int));
            assert(whole[spans@.len() as int] == (s0 as int, i as int));
            assert forall|k: int| 0 <= k < rest.len() implies #[trigger] rest[k] == whole[spans@.len() + 1 + k] by {
                assert(spans_from(data@, open_at as int)[k + 1] == rest[k]);
            }
        }
        spans.push((s0, i));
        i += 1;
    }
    proof {
        assert(spans_from(data@, i as int).len() == 0);
    }
    spans
}

/// Value of a hexadecimal digit (other bytes count as 0).
pub open spec fn hex_val(b: u8) -> int {
    if 48u8 <= b && b <= 57u8 {
        b - 48
    } else if 97u8 <= b && b <= 102u8 {
        b - 87
    } else if 65u8 <= b && b <= 70u8 {
        b - 55
    } else {
        0
    }
}

/// The four hexadecimal digits at `raw[i..i + 4]`.
pub open spec fn hex4(raw: Seq<u8>, i: int) -> int {
    ((hex_val(raw[i]) * 16 + hex_val(raw[i + 1])) * 16 + hex_val(raw[i + 2])) * 16 + hex_val(raw[i + 3])
}

/// `cp` is a Unicode scalar value (`char::from_u32` accepts it).
pub open spec fn is_scalar(cp: int) -> bool {
    0 <= cp < 0x110000 && !(0xD800 <= cp < 0xE000)
}

/// UTF-8 encoding of the code point `cp`.
pub open spec fn utf8_of(cp: int) -> Seq<u8> {
    if cp < 0x80 {
        seq![cp as u8]
    } else if cp < 0x800 {
        seq![(0xC0 + cp / 64) as u8, (0x80 + cp % 64) as u8]
    } else if cp < 0x10000 {
        seq![(0xE0 + cp / 4096) as u8, (0x80 + (cp / 64) % 64) as u8, (0x80 + cp % 64) as u8]
    } else {
        seq![
            (0xF0 + cp / 262144) as u8,
            (0x80 + (cp / 4096) % 64) as u8,
            (0x80 + (cp / 64) % 64) as u8,
            (0x80 + cp % 64) as u8,
        ]
    }
}

/// The byte a one-letter escape `\x` stands for.
pub open spec fn escape_byte(e: u8) -> u8 {
    if e == 98u8 {
        8u8
    } else if e == 102u8 {
        12u8
    } else if e == 110u8 {
        10u8
    } else if e == 114u8 {
        13u8
    } else if e == 116u8 {
        9u8
    } else {
        e
    }
}

/// `a` followed by the bytes of `r`, if any.
pub open spec fn prepend(a: Seq<u8>, r: Option<Seq<u8>>) -> Option<Seq<u8>> {
    match r {
        Some(x) => Some(a + x),
        None => None,
    }
}

/// The bytes a JSON string body stands for, from `i` on: one-letter
/// escapes, `\uXXXX` escapes (a high surrogate followed by a low one makes
/// one code point; other surrogates are dropped); `None` when a `\u` escape
/// lacks its four digits.
pub open spec fn unescape(raw: Seq<u8>, i: int) -> Option<Seq<u8>>
    decreases raw.len() - i,
{
    if i >= raw.len() || i < 0 {
        Some(Seq::empty())
    } else if raw[i] == 92u8 && i + 1 < raw.len() {
        let e = raw[i + 1];
        if e == 117u8 {
            if i + 6 > raw.len() {
                None
            } else {
                let cp = hex4(raw, i + 2);
                let j = i + 6;
                if 0xD800 <= cp < 0xDC00 && j + 6 <= raw.len() && raw[j] == 92u8 && raw[j + 1] == 117u8
                    && 0xDC00 <= hex4(raw, j + 2) < 0xE000 {
                    let full = 0x10000 + (cp - 0xD800) * 1024 + (hex4(raw, j + 2) - 0xDC00);
                    prepend(utf8_of(full), unescape(raw, j + 6))
                } else {
                    prepend(if is_scalar(cp) { utf8_of(cp) } else { Seq::empty() }, unescape(raw, j))
                }
            }
        } else {
            prepend(seq![escape_byte(e)], unescape(raw, i + 2))
        }
    } else {
        prepend(seq![raw[i]], unescape(raw, i + 1))
    }
}

fn hex_digit(b: u8) -> (v: u32)
    ensures
        v as int == hex_val(b),
{
    if 48u8 <= b && b <= 57u8 {
        (b - 48u8) as u32
    } else if 97u8 <= b && b <= 102u8 {
        (b - 87u8) as u32
    } else if 65u8 <= b && b <= 70u8 {
        (b - 55u8) as u32
    } else {
        0
    }
}

fn read_hex4(raw: &[u8], i: usize) -> (v: u32)
    requires
        i + 4 <= raw@.len(),
    ensures
        v as int == hex4(raw@, i as int),
        v < 0x10000,
{
    let a = hex_digit(raw[i]);
    let b = hex_digit(raw[i + 1]);
    let c = hex_digit(raw[i + 2]);
    let d = hex_digit(raw[i + 3]);
    ((a * 16 + b) * 16 + c) * 16 + d
}

/// Appends the UTF-8 encoding of `cp`.
fn push_utf8(out: &mut Vec<u8>, cp: u32)
    requires
        cp < 0x110000,
    ensures
        final(out)@ == old(out)@ + utf8_of(cp as int),
{
    let ghost before = out@;
    if cp < 0x80 {
        out.push(cp as u8);
    } else if cp < 0x800 {
        out.push((0xC0 + cp / 64) as u8);
        out.push((0x80 + cp % 64) as u8);
    } else if cp < 0x10000 {
        out.push((0xE0 + cp / 4096) as u8);
        out.push((0x80 + (cp / 64) % 64) as u8);
        out.push((0x80 + cp % 64) as u8);
    } else {
        out.push((0xF0 + cp / 262144) as u8);
        out.push((0x80 + (cp / 4096) % 64) as u8);
        out.push((0x80 + (cp / 64) % 64) as u8);
        out.push((0x80 + cp % 64) as u8);
    }
    assert(out@ =~= before + utf8_of(cp as int));
}

/// The bytes a JSON string body stands for (`unescape`), or `None` when a
/// `\u` escape lacks its digits.
#[verifier::rlimit(40)]
pub fn unescape_bytes(raw: &[u8]) -> (r: Option<Vec<u8>>)
    requires
        raw@.len() + 12 <= usize::MAX,
    ensures
        match r {
            Some(v) => unescape(raw@, 0) == Some(v@),
            None => unescape(raw@, 0) is None,
        },
{
    let len = raw.len();
    let mut out: Vec<u8> = Vec::new();
    let mut i: usize = 0;
    while i < len
        invariant
            len == raw@.len(),
            len + 12 <= usize::MAX,
            i <= len,
            unescape(raw@, 0) == prepend(out@, unescape(raw@, i as int)),
        decreases len - i,
    {
        let c = raw[i];
        let ghost prev = out@;
        if c == 92u8 && i + 1 < len {
            let e = raw[i + 1];
            if e == 117u8 {
                if i + 6 > len {
                    return None;
                }
                let cp = read_hex4(raw, i + 2);
                let j = i + 6;
                if 0xD800 <= cp && cp < 0xDC00 && j + 6 <= len && raw[j] == 92u8 && raw[j + 1] == 117u8 {
                    let lo = read_hex4(raw, j + 2);
                    if 0xDC00 <= lo && lo < 0xE000 {
                        let full = 0x10000 + (cp - 0xD800) * 1024 + (lo - 0xDC00);
                        push_utf8(&mut out, full);
                        proof {
                            assert(prepend(prev, unescape(raw@, i as int)) == prepend(out@, unescape(raw@, j + 6))) by {
                                match unescape(raw@, j + 6) {
                                    Some(x) => {
                                        assert(prev + (utf8_of(full as int) + x) =~= out@ + x);
                                    },
                                    None => {},
                                }
                            }
                        }
                        i = j + 6;
                        continue;
                    }
                }
                if cp < 0xD800 || cp >= 0xE000 {
                    push_utf8(&mut out, cp);
                }
                proof {
                    let emitted = if is_scalar(cp as int) { utf8_of(cp as int) } else { Seq::<u8>::empty() };
                    assert(out@ =~= prev + emitted);
                    assert(prepend(prev, unescape(raw@, i as int)) == prepend(out@, unescape(raw@, j as int))) by {
                        match unescape(raw@, j as int) {
                            Some(x) => {
                                assert(prev + (emitted + x) =~= out@ + x);
                            },
                            None => {},
                        }
                    }
                }
                i = j;
                continue;
            }
            let b = if e == 98u8 {
                8u8
            } else if e == 102u8 {
                12u8
            } else if e == 110u8 {
                10u8
            } else if e == 114u8 {
                13u8
            } else if e == 116u8 {
                9u8
            } else {
                e
            };
            out.push(b);
            proof {
                assert(prepend(prev, unescape(raw@, i as int)) == prepend(out@, unescape(raw@, i + 2))) by {
                    match unescape(raw@, i + 2) {
                        Some(x) => {
                            assert(prev + (seq![b] + x) =~= out@ + x);
                        },
                        None => {},
                    }
                }
            }
            i = i + 2;
            continue;
        }
        out.push(c);
        proof {
            assert(prepend(prev, unescape(raw@, i as int)) == prepend(out@, unescape(raw@, i + 1))) by {
                match unescape(raw@, i + 1) {
                    Some(x) => {
                        assert(prev + (seq![c] + x) =~= out@ + x);
                    },
                    None => {},
                }
            }
        }
        i = i + 1;
    }
    proof {
        assert(out@ + Seq::<u8>::empty() =~= out@);
    }
    Some(out)
}

/// What `String::from_utf8_lossy` makes of `bytes`.
pub uninterp spec fn utf8_lossy(bytes: Seq<u8>) -> Seq<char>;

/// `String::from_utf8_lossy`: the bytes decoded as UTF-8, invalid sequences
/// replaced by U+FFFD.
#[verifier::external_body]
fn from_utf8_lossy(bytes: &[u8]) -> (s: String)
    ensures
        s@ == utf8_lossy(bytes@),
{
    String::from_utf8_lossy(bytes).into_owned()
}

/// Decodes one JSON string body (`decode_json_string`): escapes resolved,
/// the bytes then read as UTF-8 with invalid sequences replaced.
pub fn decode_json_string(raw: &[u8]) -> (s: String)
    requires
        raw@.len() + 12 <= usize::MAX,
        unescape(raw@, 0) is Some,
    ensures
        s@ == utf8_lossy(unescape(raw@, 0).unwrap()),
{
    let bytes = unescape_bytes(raw).unwrap();
    from_utf8_lossy(bytes.as_slice())
}

/// Decodes one JSON string body when its escapes are well formed: escapes
/// resolved, the bytes then read as UTF-8 with invalid sequences replaced.
pub fn decode_json_checked(raw: &[u8]) -> (r: Option<String>)
    requires
        raw@.len() + 12 <= usize::MAX,
    ensures
        match unescape(raw@, 0) {
            Some(b) => r matches Some(s) && s@ == utf8_lossy(b),
            None => r is None,
        },
{
    match unescape_bytes(raw) {
        Some(bytes) => Some(from_utf8_lossy(bytes.as_slice())),
        None => None,
    }
}

/// The bytes span `sp` of `data` stands for.
#[verifier::opaque]
pub open spec fn span_text(data: Seq<u8>, sp: (usize, usize)) -> Option<Seq<u8>> {
    unescape(data.subrange(sp.0 as int, sp.1 as int), 0)
}

/// Entry `x` of `out` is span `x` of `data` decoded.
pub open spec fn decoded_at(data: Seq<u8>, spans: Seq<(usize, usize)>, out: Seq<String>, x: int) -> bool {
    &&& span_text(data, spans[x]) is Some
    &&& out[x]@ == utf8_lossy(span_text(data, spans[x]).unwrap())
}

/// The decoded string table: each span decoded, or `None` when a span
/// holds a `\u` escape without its digits.
#[verifier::rlimit(30)]
pub fn decode_strings(data: &[u8], spans: &Vec<(usize, usize)>) -> (r: Option<Vec<String>>)
    requires
        data@.len() + 12 <= usize::MAX,
        forall|k: int| 0 <= k < spans@.len() ==> (#[trigger] spans@[k]).0 <= spans@[k].1 <= data@.len(),
    ensures
        match r {
            Some(v) => v@.len() == spans@.len() && forall|k: int| 0 <= k < spans@.len() ==> #[trigger] decoded_at(data@, spans@, v@, k),
            None => exists|k: int| 0 <= k < spans@.len() && #[trigger] span_text(data@, spans@[k]) is None,
        },
{
    let mut out: Vec<String> = Vec::new();
    let mut k: usize = 0;
    while k < spans.len()
        invariant
            k <= spans@.len(),
            data@.len() + 12 <= usize::MAX,
            forall|x: int| 0 <= x < spans@.len() ==> (#[trigger] spans@[x]).0 <= spans@[x].1 <= data@.len(),
            out@.len() == k,
            forall|x: int| 0 <= x < k ==> #[trigger] decoded_at(data@, spans@, out@, x),
        decreases spans@.len() - k,
    {
        let sp = spans[k];
        let raw = &data[sp.0..sp.1];
        proof {
            assert(raw@ == data@.subrange(sp.0 as int, sp.1 as int));
        }
        let decoded = unescape_bytes(raw);
        if decoded.is_none() {
            proof {
                assert(span_text(data@, spans@[k as int]) is None) by {
                    reveal(span_text);
                }
            }
            return None;
        }
        let bytes = decoded.unwrap();
        let ghost old_out = out@;
        let text = from_utf8_lossy(bytes.as_slice());
        proof {
            assert(span_text(data@, spans@[k as int]) == Some(bytes@)) by {
                reveal(span_text);
            }
        }
        out.push(text);
        proof {
            assert forall|x: int| 0 <= x < k + 1 implies #[trigger] decoded_at(data@, spans@, out@, x) by {
                if x < k {
                    assert(decoded_at(data@, spans@, old_out, x));
                    assert(out@[x] == old_out[x]);
                }
            }
        }
        k += 1;
    }
    Some(out)
}

} // verus!
