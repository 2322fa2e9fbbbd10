//! The `.heapprofile` reader: a forgiving recursive-descent scan of the
//! JSON call tree under `"head":`, flattened into preorder with parent
//! links. Object keys may come in any order; unknown keys are skipped;
//! line and column numbers are handed back as the spans of their number
//! text.

use vstd::prelude::*;
use crate::bytes::{decode_json_checked, digits_end, digits_value, find_marker, is_digit, occurs_at, unescape, utf8_lossy};
use crate::profile::{parents_precede, ProfileNode};
use crate::text::str_eq;
use crate::types::Error;

verus! {

/// Byte `b` is JSON white space.
pub open spec fn is_ws(b: u8) -> bool {
    b == 32u8 || b == 10u8 || b == 9u8 || b == 13u8
}

/// The first position from `p` on that holds no white space.
pub open spec fn ws(d: Seq<u8>, p: int) -> int
    decreases d.len() - p,
{
    if 0 <= p < d.len() && is_ws(d[p]) {
        ws(d, p + 1)
    } else {
        p
    }
}

pub proof fn lemma_ws(d: Seq<u8>, p: int)
    ensures
        p <= ws(d, p),
        0 <= p <= d.len() ==> ws(d, p) <= d.len(),
        (p < 0 || p > d.len()) ==> ws(d, p) == p,
        0 <= ws(d, p) < d.len() ==> !is_ws(d[ws(d, p)]),
    decreases d.len() - p,
{
    if 0 <= p < d.len() && is_ws(d[p]) {
        lemma_ws(d, p + 1);
    }
}

/// End of a string body scanned from `i`: the closing quote, a backslash
/// skipping the byte after it; the length (or one past it) when unclosed.
pub open spec fn str_scan(d: Seq<u8>, i: int) -> int
    decreases d.len() + 2 - i,
{
    if i < 0 || i >= d.len() {
        i
    } else if d[i] == 92u8 {
        str_scan(d, i + 2)
    } else if d[i] == 34u8 {
        i
    } else {
        str_scan(d, i + 1)
    }
}

/// The string whose opening quote is at `p`: the end of its body and the
/// position after it; `None` when the body runs past the end.
pub open spec fn string_at(d: Seq<u8>, p: int) -> Option<(int, int)> {
    if p < 0 || p >= d.len() {
        None
    } else {
        let e = str_scan(d, p + 1);
        if e > d.len() {
            None
        } else if e < d.len() {
            Some((e, e + 1))
        } else {
            Some((e, e))
        }
    }
}

/// The text of the string body `d[s..e]`, when its escapes are well formed.
pub open spec fn text_of(d: Seq<u8>, s: int, e: int) -> Option<Seq<char>> {
    match unescape(d.subrange(s, e), 0) {
        Some(b) => Some(utf8_lossy(b)),
        None => None,
    }
}

/// Byte `b` may occur in the text of a number.
pub open spec fn is_num_byte(b: u8) -> bool {
    is_digit(b) || b == 46u8 || b == 101u8 || b == 69u8 || b == 45u8 || b == 43u8
}

/// End of the number text starting at `i`.
pub open spec fn num_end(d: Seq<u8>, i: int) -> int
    decreases d.len() - i,
{
    if 0 <= i < d.len() && is_num_byte(d[i]) {
        num_end(d, i + 1)
    } else {
        i
    }
}

/// The number text at `p`, after white space: its start and end.
pub open spec fn number_at(d: Seq<u8>, p: int) -> (int, int) {
    let q = ws(d, p);
    (q, num_end(d, q))
}

/// The unsigned number at `p` (white space and a minus sign skipped, then
/// the digits) and the position after it; `None` past 2^64 - 1.
pub open spec fn u64_at(d: Seq<u8>, p: int) -> Option<(u64, int)> {
    let q = ws(d, p);
    let s = if 0 <= q < d.len() && d[q] == 45u8 {
        q + 1
    } else {
        q
    };
    let e = digits_end(d, s);
    if digits_value(d, s, e) > u64::MAX {
        None
    } else {
        Some((digits_value(d, s, e) as u64, e))
    }
}

/// The position after a bracketed value scanned from `i` with `depth` open
/// brackets (strings skipped whole); the length when unclosed.
pub open spec fn nest_end(d: Seq<u8>, i: int, depth: int) -> Option<int>
    decreases d.len() + 2 - i,
{
    if i < 0 || i >= d.len() {
        Some(i)
    } else if d[i] == 34u8 {
        match string_at(d, i) {
            None => None,
            Some((_e, n)) => if n <= i || n > d.len() {
                None
            } else {
                nest_end(d, n, depth)
            },
        }
    } else if d[i] == 123u8 || d[i] == 91u8 {
        nest_end(d, i + 1, depth + 1)
    } else if d[i] == 125u8 || d[i] == 93u8 {
        if depth <= 1 {
            Some(i + 1)
        } else {
            nest_end(d, i + 1, depth - 1)
        }
    } else {
        nest_end(d, i + 1, depth)
    }
}

/// The position after the value at `p`: a string, an object or array, or
/// number text.
pub open spec fn skip_at(d: Seq<u8>, p: int) -> Option<int> {
    let q = ws(d, p);
    if q < 0 || q >= d.len() {
        Some(q)
    } else if d[q] == 34u8 {
        match string_at(d, q) {
            None => None,
            Some((_e, n)) => Some(n),
        }
    } else if d[q] == 123u8 || d[q] == 91u8 {
        nest_end(d, q, 0)
    } else {
        Some(num_end(d, q))
    }
}

/// Where a value starts after its key ends at `k`: white space, an
/// optional colon, white space.
pub open spec fn value_start(d: Seq<u8>, k: int) -> int {
    let a = ws(d, k);
    ws(
        d,
        if 0 <= a < d.len() && d[a] == 58u8 {
            a + 1
        } else {
            a
        },
    )
}

/// Where the next key starts after a value ends at `n`: white space and an
/// optional comma.
pub open spec fn after_value(d: Seq<u8>, n: int) -> int {
    let a = ws(d, n);
    if 0 <= a < d.len() && d[a] == 44u8 {
        a + 1
    } else {
        a
    }
}

/// A call frame as read: names, and the spans of the line and column
/// number texts (empty when absent).
pub ghost struct FrameSpec {
    pub name: Seq<char>,
    pub url: Seq<char>,
    pub line: (int, int),
    pub column: (int, int),
}

/// A frame with no key read yet.
pub open spec fn empty_frame() -> FrameSpec {
    FrameSpec { name: Seq::empty(), url: Seq::empty(), line: (0, 0), column: (0, 0) }
}

/// The value of frame key `key` at `v`, applied to `f`, and the position
/// after it.
pub open spec fn frame_value(d: Seq<u8>, key: Seq<char>, v: int, f: FrameSpec) -> Option<(FrameSpec, int)> {
    if key == "functionName"@ || key == "url"@ {
        match string_at(d, v) {
            None => None,
            Some((e, n)) => match text_of(d, v + 1, e) {
                None => None,
                Some(t) => if key == "url"@ {
                    Some((FrameSpec { url: t, ..f }, n))
                } else {
                    Some((FrameSpec { name: t, ..f }, n))
                },
            },
        }
    } else if key == "scriptId"@ {
        if 0 <= v < d.len() && d[v] == 34u8 {
            match string_at(d, v) {
                None => None,
                Some((_e, n)) => Some((f, n)),
            }
        } else {
            Some((f, number_at(d, v).1))
        }
    } else if key == "lineNumber"@ {
        Some((FrameSpec { line: number_at(d, v), ..f }, number_at(d, v).1))
    } else if key == "columnNumber"@ {
        Some((FrameSpec { column: number_at(d, v), ..f }, number_at(d, v).1))
    } else {
        match skip_at(d, v) {
            None => None,
            Some(n) => Some((f, n)),
        }
    }
}

/// The keys of a call frame object from `p` on, applied to `f`, and the
/// position after its closing brace.
pub open spec fn frame_fields(d: Seq<u8>, p: int, f: FrameSpec) -> Option<(FrameSpec, int)>
    decreases d.len() + 2 - p,
{
    let q = ws(d, p);
    if p < 0 || p > d.len() + 1 {
        None
    } else if q >= d.len() || d[q] == 125u8 {
        Some((f, q + 1))
    } else {
        match string_at(d, q) {
            None => None,
            Some((ke, kn)) => match text_of(d, q + 1, ke) {
                None => None,
                Some(key) => match frame_value(d, key, value_start(d, kn), f) {
                    None => None,
                    Some((f2, n)) => {
                        let m = after_value(d, n);
                        if m <= p || m > d.len() + 1 {
                            None
                        } else {
                            frame_fields(d, m, f2)
                        }
                    },
                },
            },
        }
    }
}

/// The call frame object at `p` and the position after it.
pub open spec fn call_frame_at(d: Seq<u8>, p: int) -> Option<(FrameSpec, int)> {
    let q = ws(d, p);
    frame_fields(
        d,
        if 0 <= q < d.len() && d[q] == 123u8 {
            q + 1
        } else {
            q
        },
        empty_frame(),
    )
}

/// A node of the call tree as read.
pub ghost struct PNode {
    pub frame: FrameSpec,
    pub size: u64,
    pub parent: Option<usize>,
}

/// The keys read so far of a node object.
pub ghost struct NodeAcc {
    pub frame: FrameSpec,
    pub size: u64,
}

/// A node with no key read yet.
pub open spec fn empty_node() -> NodeAcc {
    NodeAcc { frame: empty_frame(), size: 0 }
}

/// The value of node key `key` (other than `children`) at `v`, applied to
/// `a`, and the position after it.
pub open spec fn node_value(d: Seq<u8>, key: Seq<char>, v: int, a: NodeAcc) -> Option<(NodeAcc, int)> {
    if key == "callFrame"@ {
        match call_frame_at(d, v) {
            None => None,
            Some((f, n)) => Some((NodeAcc { frame: f, ..a }, n)),
        }
    } else if key == "selfSize"@ {
        match u64_at(d, v) {
            None => None,
            Some((s, n)) => Some((NodeAcc { size: s, ..a }, n)),
        }
    } else if key == "id"@ {
        match u64_at(d, v) {
            None => None,
            Some((_s, n)) => Some((a, n)),
        }
    } else {
        match skip_at(d, v) {
            None => None,
            Some(n) => Some((a, n)),
        }
    }
}

/// Where the elements of a `children` value at `v` start: past its `[`.
pub open spec fn kids_start(d: Seq<u8>, v: int) -> int {
    let c = ws(d, v);
    if 0 <= c < d.len() && d[c] == 91u8 {
        c + 1
    } else {
        c
    }
}

/// The keys of a node object from `p` on: the node (numbered `first`, with
/// `parent`) first, then the subtrees of its children, in preorder; and the
/// position after its closing brace.
pub open spec fn node_fields(
    d: Seq<u8>,
    p: int,
    parent: Option<usize>,
    first: int,
    a: NodeAcc,
    kids: Seq<PNode>,
) -> Option<(Seq<PNode>, int)>
    decreases d.len() + 2 - p, 1int,
{
    let q = ws(d, p);
    if p < 0 || p > d.len() + 1 {
        None
    } else if q >= d.len() || d[q] == 125u8 {
        Some((seq![PNode { frame: a.frame, size: a.size, parent }] + kids, q + 1))
    } else {
        match string_at(d, q) {
            None => None,
            Some((ke, kn)) => match text_of(d, q + 1, ke) {
                None => None,
                Some(key) => {
                    let v = value_start(d, kn);
                    if key == "children"@ {
                        let c = kids_start(d, v);
                        if c <= p || c > d.len() + 1 {
                            None
                        } else {
                            match kids_at(d, c, first, first + 1 + kids.len()) {
                                None => None,
                                Some((sub, n)) => {
                                    let m = after_value(d, n);
                                    if m <= p || m > d.len() + 1 {
                                        None
                                    } else {
                                        node_fields(d, m, parent, first, a, kids + sub)
                                    }
                                },
                            }
                        }
                    } else {
                        match node_value(d, key, v, a) {
                            None => None,
                            Some((a2, n)) => {
                                let m = after_value(d, n);
                                if m <= p || m > d.len() + 1 {
                                    None
                                } else {
                                    node_fields(d, m, parent, first, a2, kids)
                                }
                            },
                        }
                    }
                },
            },
        }
    }
}

/// The subtree whose node object starts at `p`, in preorder with its node
/// numbered `first`, and the position after it.
pub open spec fn node_at(d: Seq<u8>, p: int, parent: Option<usize>, first: int) -> Option<(Seq<PNode>, int)>
    decreases d.len() + 2 - p, 2int,
{
    let q = ws(d, p);
    if p < 0 || p > d.len() + 1 {
        None
    } else {
        proof {
            lemma_ws(d, p);
        }
        node_fields(
            d,
            if 0 <= q < d.len() && d[q] == 123u8 {
                q + 1
            } else {
                q
            },
            parent,
            first,
            empty_node(),
            Seq::empty(),
        )
    }
}

/// The subtrees of the elements of a children array from `p` on, numbered
/// from `next` with parent `parent`, and the position after its `]`.
pub open spec fn kids_at(d: Seq<u8>, p: int, parent: int, next: int) -> Option<(Seq<PNode>, int)>
    decreases d.len() + 2 - p, 3int,
{
    let q = ws(d, p);
    if p < 0 || p > d.len() + 1 {
        None
    } else if q >= d.len() || d[q] == 93u8 {
        Some((Seq::empty(), q + 1))
    } else {
        proof {
            lemma_ws(d, p);
        }
        match node_at(d, q, Some(parent as usize), next) {
            None => None,
            Some((sub, n)) => {
                let m = after_value(d, n);
                if m <= p || m > d.len() + 1 {
                    None
                } else {
                    match kids_at(d, m, parent, next + sub.len()) {
                        None => None,
                        Some((rest, r)) => Some((sub + rest, r)),
                    }
                }
            },
        }
    }
}

/// `o` is the number of a node in `[lo, hi)`.
pub open spec fn within(o: Option<usize>, lo: int, hi: int) -> bool {
    match o {
        Some(x) => lo <= x < hi,
        None => false,
    }
}

/// Every node that a node object yields after itself has a parent among
/// the nodes before it, from the object's own node on.
pub proof fn lemma_node_fields_parents(d: Seq<u8>, p: int, parent: Option<usize>, first: int, a: NodeAcc, kids: Seq<PNode>)
    requires
        0 <= first,
        forall|j: int| 0 <= j < kids.len() && first + 1 + j <= usize::MAX ==> within(#[trigger] kids[j].parent, first, first + 1 + j),
    ensures
        node_fields(d, p, parent, first, a, kids) matches Some((ns, n)) ==> ns.len() >= 1 && ns[0].parent == parent && forall|j: int|
            1 <= j < ns.len() && first + j <= usize::MAX ==> within(#[trigger] ns[j].parent, first, first + j),
    decreases d.len() + 2 - p, 1int,
{
    let q = ws(d, p);
    lemma_ws(d, p);
    if p < 0 || p > d.len() + 1 {
    } else if q >= d.len() || d[q] == 125u8 {
        let ns = seq![PNode { frame: a.frame, size: a.size, parent }] + kids;
        assert forall|j: int| 1 <= j < ns.len() && first + j <= usize::MAX implies within(#[trigger] ns[j].parent, first, first + j) by {
            assert(ns[j] == kids[j - 1]);
        }
    } else {
        match string_at(d, q) {
            None => {},
            Some((ke, kn)) => match text_of(d, q + 1, ke) {
                None => {},
                Some(key) => {
                    let v = value_start(d, kn);
                    if key == "children"@ {
                        let c = kids_start(d, v);
                        if c <= p || c > d.len() + 1 {
                        } else {
                            let next = first + 1 + kids.len();
                            lemma_kids_parents(d, c, first, next);
                            match kids_at(d, c, first, next) {
                                None => {},
                                Some((sub, n)) => {
                                    let m = after_value(d, n);
                                    if m <= p || m > d.len() + 1 {
                                    } else {
                                        let k2 = kids + sub;
                                        assert forall|j: int| 0 <= j < k2.len() && first + 1 + j <= usize::MAX implies within(
                                            #[trigger] k2[j].parent,
                                            first,
                                            first + 1 + j,
                                        ) by {
                                            if j < kids.len() {
                                                assert(k2[j] == kids[j]);
                                            } else {
                                                assert(k2[j] == sub[j - kids.len()]);
                                            }
                                        }
                                        lemma_node_fields_parents(d, m, parent, first, a, k2);
                                    }
                                },
                            }
                        }
                    } else {
                        match node_value(d, key, v, a) {
                            None => {},
                            Some((a2, n)) => {
                                let m = after_value(d, n);
                                if m <= p || m > d.len() + 1 {
                                } else {
                                    lemma_node_fields_parents(d, m, parent, first, a2, kids);
                                }
                            },
                        }
                    }
                },
            },
        }
    }
}

/// The nodes of a subtree after its own node have parents among the nodes
/// before them, from the subtree's node on.
pub proof fn lemma_node_parents(d: Seq<u8>, p: int, parent: Option<usize>, first: int)
    requires
        0 <= first,
    ensures
        node_at(d, p, parent, first) matches Some((ns, n)) ==> ns.len() >= 1 && ns[0].parent == parent && forall|j: int|
            1 <= j < ns.len() && first + j <= usize::MAX ==> within(#[trigger] ns[j].parent, first, first + j),
    decreases d.len() + 2 - p, 2int,
{
    if 0 <= p <= d.len() + 1 {
        lemma_ws(d, p);
        let q = ws(d, p);
        let start = if 0 <= q < d.len() && d[q] == 123u8 {
            q + 1
        } else {
            q
        };
        lemma_node_fields_parents(d, start, parent, first, empty_node(), Seq::empty());
    }
}

/// Each node of a children array is a child of `parent` or has its parent
/// among the nodes of the array before it.
pub proof fn lemma_kids_parents(d: Seq<u8>, p: int, parent: int, next: int)
    requires
        0 <= parent < next,
    ensures
        kids_at(d, p, parent, next) matches Some((ks, n)) ==> forall|j: int|
            0 <= j < ks.len() && next + j <= usize::MAX ==> (#[trigger] ks[j].parent == Some(parent as usize) || within(
                ks[j].parent,
                next,
                next + j,
            )),
    decreases d.len() + 2 - p, 3int,
{
    let q = ws(d, p);
    lemma_ws(d, p);
    if p < 0 || p > d.len() + 1 {
    } else if q >= d.len() || d[q] == 93u8 {
    } else {
        lemma_node_parents(d, q, Some(parent as usize), next);
        match node_at(d, q, Some(parent as usize), next) {
            None => {},
            Some((sub, n)) => {
                let m = after_value(d, n);
                if m <= p || m > d.len() + 1 {
                } else {
                    lemma_kids_parents(d, m, parent, next + sub.len());
                    match kids_at(d, m, parent, next + sub.len()) {
                        None => {},
                        Some((rest, r)) => {
                            let ks = sub + rest;
                            assert forall|j: int| 0 <= j < ks.len() && next + j <= usize::MAX implies (#[trigger] ks[j].parent == Some(
                                parent as usize,
                            ) || within(ks[j].parent, next, next + j)) by {
                                if j < sub.len() {
                                    assert(ks[j] == sub[j]);
                                } else {
                                    assert(ks[j] == rest[j - sub.len()]);
                                }
                            }
                        },
                    }
                }
            },
        }
    }
}

/// `"head":` in bytes.
pub open spec fn head_key() -> Seq<u8> {
    seq![34u8, 104u8, 101u8, 97u8, 100u8, 34u8, 58u8]
}

/// `p` is the first place `"head":` occurs.
pub open spec fn first_head(d: Seq<u8>, p: int) -> bool {
    occurs_at(d, head_key(), p) && forall|q: int| 0 <= q < p ==> !occurs_at(d, head_key(), q)
}

proof fn lemma_str_scan(d: Seq<u8>, i: int)
    requires
        0 <= i,
    ensures
        i <= str_scan(d, i),
        i <= d.len() + 1 ==> str_scan(d, i) <= d.len() + 1,
        str_scan(d, i) < d.len() ==> d[str_scan(d, i)] == 34u8,
    decreases d.len() + 2 - i,
{
    if i < d.len() {
        if d[i] == 92u8 {
            lemma_str_scan(d, i + 2);
        } else if d[i] != 34u8 {
            lemma_str_scan(d, i + 1);
        }
    }
}

proof fn lemma_num_end(d: Seq<u8>, i: int)
    ensures
        i <= num_end(d, i),
        0 <= i <= d.len() ==> num_end(d, i) <= d.len(),
        (i < 0 || i > d.len()) ==> num_end(d, i) == i,
    decreases d.len() - i,
{
    if 0 <= i < d.len() && is_num_byte(d[i]) {
        lemma_num_end(d, i + 1);
    }
}

proof fn lemma_digits_end(d: Seq<u8>, i: int)
    ensures
        i <= digits_end(d, i),
        0 <= i <= d.len() ==> digits_end(d, i) <= d.len(),
        (i < 0 || i > d.len()) ==> digits_end(d, i) == i,
        forall|k: int| i <= k < digits_end(d, i) ==> is_digit(#[trigger] d[k]),
    decreases d.len() - i,
{
    if !(i >= d.len() || i < 0 || !is_digit(d[i])) {
        lemma_digits_end(d, i + 1);
    }
}

proof fn lemma_digits_grow(d: Seq<u8>, s: int, i: int, j: int)
    requires
        s <= i <= j,
        forall|k: int| s <= k < j ==> is_digit(#[trigger] d[k]),
    ensures
        digits_value(d, s, i) <= digits_value(d, s, j),
    decreases j - i,
{
    if i < j {
        lemma_digits_grow(d, s, i, j - 1);
    }
}

/// The first position from `p` on without white space.
fn skip_spaces(data: &[u8], p: usize) -> (r: usize)
    requires
        p <= data@.len() + 1,
    ensures
        r == ws(data@, p as int),
{
    let mut i = p;
    while i < data.len() && (data[i] == 32u8 || data[i] == 10u8 || data[i] == 9u8 || data[i] == 13u8)
        invariant
            p <= i <= data@.len() + 1,
            ws(data@, i as int) == ws(data@, p as int),
        decreases data@.len() - i,
    {
        i += 1;
    }
    i
}

/// The string whose quote is at `p`: end of its body and position after it.
fn scan_string(data: &[u8], p: usize) -> (r: Option<(usize, usize)>)
    requires
        data@.len() + 16 <= usize::MAX,
        p <= data@.len() + 1,
    ensures
        match r {
            Some((e, n)) => string_at(data@, p as int) == Some((e as int, n as int)),
            None => string_at(data@, p as int) is None,
        },
{
    if p >= data.len() {
        return None;
    }
    let mut i = p + 1;
    while i < data.len() && data[i] != 34u8
        invariant
            p + 1 <= i <= data@.len() + 1,
            p < data@.len(),
            data@.len() + 16 <= usize::MAX,
            str_scan(data@, i as int) == str_scan(data@, p + 1),
        decreases data@.len() + 2 - i,
    {
        if data[i] == 92u8 {
            i += 2;
        } else {
            i += 1;
        }
    }
    if i > data.len() {
        None
    } else if i < data.len() {
        Some((i, i + 1))
    } else {
        Some((i, i))
    }
}

/// The text of the string body `data[s..e]`.
fn text_at(data: &[u8], s: usize, e: usize) -> (r: Option<String>)
    requires
        s <= e <= data@.len(),
        data@.len() + 16 <= usize::MAX,
    ensures
        match text_of(data@, s as int, e as int) {
            Some(t) => r matches Some(x) && x@ == t,
            None => r is None,
        },
{
    let raw = &data[s..e];
    proof {
        assert(raw@ == data@.subrange(s as int, e as int));
    }
    decode_json_checked(raw)
}

/// End of the number text from `q`.
fn number_end(data: &[u8], q: usize) -> (r: usize)
    requires
        q <= data@.len() + 1,
    ensures
        r == num_end(data@, q as int),
{
    let mut i = q;
    while i < data.len() && (48u8 <= data[i] && data[i] <= 57u8 || data[i] == 46u8 || data[i] == 101u8 || data[i] == 69u8
        || data[i] == 45u8 || data[i] == 43u8)
        invariant
            q <= i <= data@.len() + 1,
            num_end(data@, i as int) == num_end(data@, q as int),
        decreases data@.len() - i,
    {
        i += 1;
    }
    i
}

/// The unsigned number at `p` and the position after it.
fn read_u64(data: &[u8], p: usize) -> (r: Option<(u64, usize)>)
    requires
        p <= data@.len() + 1,
        data@.len() + 16 <= usize::MAX,
    ensures
        match r {
            Some((v, n)) => u64_at(data@, p as int) == Some((v, n as int)),
            None => u64_at(data@, p as int) is None,
        },
{
    let q = skip_spaces(data, p);
    proof {
        lemma_ws(data@, p as int);
    }
    let s = if q < data.len() && data[q] == 45u8 {
        q + 1
    } else {
        q
    };
    proof {
        lemma_digits_end(data@, s as int);
    }
    let ghost e = digits_end(data@, s as int);
    let mut v: u64 = 0;
    let mut i = s;
    while i < data.len() && 48u8 <= data[i] && data[i] <= 57u8
        invariant
            s <= i <= e,
            e == digits_end(data@, s as int),
            s <= e,
            forall|k: int| s <= k < e ==> is_digit(#[trigger] data@[k]),
            i < e ==> i < data@.len(),
            e <= data@.len() || e == s,
            v == digits_value(data@, s as int, i as int),
            digits_end(data@, i as int) == e,
            q == ws(data@, p as int),
            s == (if 0 <= q < data@.len() && data@[q as int] == 45u8 {
                q + 1
            } else {
                q as int
            }),
        decreases data@.len() + 2 - i,
    {
        proof {
            lemma_digits_end(data@, i + 1);
        }
        let dgt = (data[i] - 48u8) as u64;
        if v > (u64::MAX - dgt) / 10 {
            proof {
                assert(v * 10 + dgt > u64::MAX) by (nonlinear_arith)
                    requires
                        v > (u64::MAX - dgt) / 10,
                        dgt <= 9,
                ;
                assert(dgt as int == data@[i as int] - 48u8);
                assert(digits_value(data@, s as int, i + 1) == digits_value(data@, s as int, i as int) * 10 + (data@[i as int] - 48u8) as nat);
                assert(digits_value(data@, s as int, i + 1) == v * 10 + dgt);
                lemma_digits_grow(data@, s as int, i + 1, e);
                assert(digits_value(data@, s as int, e) > u64::MAX);
                assert(u64_at(data@, p as int) is None);
            }
            return None;
        }
        v = v * 10 + dgt;
        i += 1;
    }
    proof {
        if i < e {
            assert(is_digit(data@[i as int]));
        }
    }
    Some((v, i))
}

/// The position after the value at `p`.
fn skip_value(data: &[u8], p: usize) -> (r: Option<usize>)
    requires
        p <= data@.len() + 1,
        data@.len() + 16 <= usize::MAX,
    ensures
        match r {
            Some(n) => skip_at(data@, p as int) == Some(n as int),
            None => skip_at(data@, p as int) is None,
        },
{
    let q = skip_spaces(data, p);
    proof {
        lemma_ws(data@, p as int);
    }
    if q >= data.len() {
        return Some(q);
    }
    if data[q] == 34u8 {
        return match scan_string(data, q) {
            Some((_e, n)) => Some(n),
            None => None,
        };
    }
    if data[q] == 123u8 || data[q] == 91u8 {
        let mut i = q;
        let mut depth: usize = 0;
        loop
            invariant
                q <= i <= data@.len(),
                q < data@.len(),
                depth <= i - q,
                data@.len() + 16 <= usize::MAX,
                nest_end(data@, i as int, depth as int) == nest_end(data@, q as int, 0),
                skip_at(data@, p as int) == nest_end(data@, q as int, 0),
            decreases data@.len() - i,
        {
            if i >= data.len() {
                return Some(i);
            }
            let b = data[i];
            if b == 34u8 {
                match scan_string(data, i) {
                    None => {
                        return None;
                    },
                    Some((_e, n)) => {
                        if n <= i || n > data.len() {
                            return None;
                        }
                        i = n;
                    },
                }
            } else if b == 123u8 || b == 91u8 {
                depth += 1;
                i += 1;
            } else if b == 125u8 || b == 93u8 {
                if depth <= 1 {
                    return Some(i + 1);
                }
                depth -= 1;
                i += 1;
            } else {
                i += 1;
            }
        }
    } else {
        let e = number_end(data, q);
        Some(e)
    }
}

/// Where a value starts after a key ending at `k`.
fn value_begin(data: &[u8], k: usize) -> (r: usize)
    requires
        k <= data@.len(),
    ensures
        r == value_start(data@, k as int),
        k <= r <= data@.len(),
{
    let a = skip_spaces(data, k);
    proof {
        lemma_ws(data@, k as int);
    }
    let b = if a < data.len() && data[a] == 58u8 {
        a + 1
    } else {
        a
    };
    proof {
        lemma_ws(data@, b as int);
    }
    skip_spaces(data, b)
}

/// Where the next key starts after a value ending at `n`.
fn next_key(data: &[u8], n: usize) -> (r: usize)
    requires
        n <= data@.len() + 1,
    ensures
        r == after_value(data@, n as int),
        n <= r,
        n <= data@.len() ==> r <= data@.len(),
        n > data@.len() ==> r == n,
{
    let a = skip_spaces(data, n);
    proof {
        lemma_ws(data@, n as int);
    }
    if a < data.len() && data[a] == 44u8 {
        a + 1
    } else {
        a
    }
}

/// A call frame as read, in plain values.
pub open spec fn frame_view(name: String, url: String, line: (usize, usize), column: (usize, usize)) -> FrameSpec {
    FrameSpec { name: name@, url: url@, line: (line.0 as int, line.1 as int), column: (column.0 as int, column.1 as int) }
}

/// The value of frame key `key` at `v`, applied to the frame so far.
#[verifier::rlimit(40)]
fn frame_key_value(
    data: &[u8],
    key: &str,
    v: usize,
    name: String,
    url: String,
    line: (usize, usize),
    column: (usize, usize),
) -> (r: Option<(String, String, (usize, usize), (usize, usize), usize)>)
    requires
        v <= data@.len(),
        data@.len() + 16 <= usize::MAX,
    ensures
        match frame_value(data@, key@, v as int, frame_view(name, url, line, column)) {
            None => r is None,
            Some((f, n)) => r matches Some((a, b, l, c, m)) && frame_view(a, b, l, c) == f && m == n,
        },
{
    let ghost f0 = frame_view(name, url, line, column);
    proof {
        lemma_ws(data@, v as int);
        lemma_num_end(data@, ws(data@, v as int));
    }
    let mut name = name;
    let mut url = url;
    let mut line = line;
    let mut column = column;
        let n: usize;
        if str_eq(key, "functionName") || str_eq(key, "url") {
            let (e, n1) = match scan_string(data, v) {
                Some(x) => x,
                None => {
                    return None;
                },
            };
            proof {
                lemma_str_scan(data@, v + 1);
            }
            let t = match text_at(data, v + 1, e) {
                Some(t) => t,
                None => {
                    return None;
                },
            };
            if str_eq(key, "url") {
                url = t;
            } else {
                name = t;
            }
            n = n1;
        } else if str_eq(key, "scriptId") {
            if v < data.len() && data[v] == 34u8 {
                let (_e, n1) = match scan_string(data, v) {
                    Some(x) => x,
                    None => {
                        return None;
                    },
                };
                n = n1;
            } else {
                let s0 = skip_spaces(data, v);
                n = number_end(data, s0);
            }
        } else if str_eq(key, "lineNumber") {
            let s0 = skip_spaces(data, v);
            let e0 = number_end(data, s0);
            line = (s0, e0);
            n = e0;
        } else if str_eq(key, "columnNumber") {
            let s0 = skip_spaces(data, v);
            let e0 = number_end(data, s0);
            column = (s0, e0);
            n = e0;
        } else {
            n = match skip_value(data, v) {
                Some(x) => x,
                None => {
                    return None;
                },
            };
        }
        proof {
            lemma_ws(data@, v as int);
            lemma_num_end(data@, ws(data@, v as int));
            assert(frame_value(data@, key@, v as int, f0) == Some((frame_view(name, url, line, column), n as int)));
        }
        Some((name, url, line, column, n))
}

/// The call frame object at `p` (`parse_call_frame`): function name, URL,
/// the spans of the line and column number texts, and the position after.
fn parse_frame(data: &[u8], p: usize) -> (r: Option<(String, String, (usize, usize), (usize, usize), usize)>)
    requires
        p <= data@.len(),
        data@.len() + 16 <= usize::MAX,
    ensures
        match call_frame_at(data@, p as int) {
            None => r is None,
            Some((f, n)) => r matches Some((a, b, l, c, m)) && frame_view(a, b, l, c) == f && m == n,
        },
{
    let q = skip_spaces(data, p);
    proof {
        lemma_ws(data@, p as int);
    }
    let start = if q < data.len() && data[q] == 123u8 {
        q + 1
    } else {
        q
    };
    let mut name = String::new();
    let mut url = String::new();
    let mut line: (usize, usize) = (0, 0);
    let mut column: (usize, usize) = (0, 0);
    let mut i = start;
    proof {
        reveal_strlit("");
        assert(frame_view(name, url, line, column) == empty_frame());
    }
    loop
        invariant
            start <= i <= data@.len() + 1,
            data@.len() + 16 <= usize::MAX,
            frame_fields(data@, i as int, frame_view(name, url, line, column)) == call_frame_at(data@, p as int),
        decreases data@.len() + 2 - i,
    {
        let q2 = skip_spaces(data, i);
        proof {
            lemma_ws(data@, i as int);
        }
        if q2 >= data.len() || data[q2] == 125u8 {
            return Some((name, url, line, column, q2 + 1));
        }
        let (ke, kn) = match scan_string(data, q2) {
            Some(x) => x,
            None => {
                return None;
            },
        };
        proof {
            lemma_str_scan(data@, q2 + 1);
        }
        let key = match text_at(data, q2 + 1, ke) {
            Some(k) => k,
            None => {
                return None;
            },
        };
        let v = value_begin(data, kn);
        let n: usize;
        match frame_key_value(data, key.as_str(), v, name, url, line, column) {
            Some((a1, b1, l1, c1, n1)) => {
                name = a1;
                url = b1;
                line = l1;
                column = c1;
                n = n1;
            },
            None => {
                return None;
            },
        }
        if n > data.len() + 1 {
            return None;
        }
        let m = next_key(data, n);
        if m <= i || m > data.len() + 1 {
            return None;
        }
        i = m;
    }
}

/// The keys read so far of a node, in plain values.
pub open spec fn acc_view(name: String, url: String, line: (usize, usize), column: (usize, usize), size: u64) -> NodeAcc {
    NodeAcc { frame: frame_view(name, url, line, column), size }
}

/// `n` (with line span `l` and column span `c`) is the node `s` as read;
/// the line and column numbers themselves are left at zero.
pub open spec fn holds_node(n: ProfileNode, l: (usize, usize), c: (usize, usize), s: PNode) -> bool {
    &&& n.function_name@ == s.frame.name
    &&& n.url@ == s.frame.url
    &&& n.line_number == 0
    &&& n.column_number == 0
    &&& n.self_size == s.size
    &&& n.parent == s.parent
    &&& l.0 as int == s.frame.line.0
    &&& l.1 as int == s.frame.line.1
    &&& c.0 as int == s.frame.column.0
    &&& c.1 as int == s.frame.column.1
}

/// From position `base` on, `out` (with the spans `lines` and `cols`) holds
/// the nodes `ns`, and nothing after them.
#[verifier::opaque]
pub open spec fn holds_from(
    out: Seq<ProfileNode>,
    lines: Seq<(usize, usize)>,
    cols: Seq<(usize, usize)>,
    base: int,
    ns: Seq<PNode>,
) -> bool {
    &&& out.len() == base + ns.len()
    &&& lines.len() == out.len()
    &&& cols.len() == out.len()
    &&& forall|j: int| 0 <= j < ns.len() ==> holds_node(out[base + j], lines[base + j], cols[base + j], #[trigger] ns[j])
}

/// The first `k` entries are as before.
#[verifier::opaque]
pub open spec fn same_prefix(
    out: Seq<ProfileNode>,
    lines: Seq<(usize, usize)>,
    cols: Seq<(usize, usize)>,
    out0: Seq<ProfileNode>,
    lines0: Seq<(usize, usize)>,
    cols0: Seq<(usize, usize)>,
    k: int,
) -> bool {
    &&& k <= out.len()
    &&& k <= lines.len()
    &&& k <= cols.len()
    &&& k <= out0.len()
    &&& k <= lines0.len()
    &&& k <= cols0.len()
    &&& forall|j: int| 0 <= j < k ==> #[trigger] out[j] == out0[j] && lines[j] == lines0[j] && cols[j] == cols0[j]
}

/// Appending what holds `sub` right after what holds `acc` holds both.
proof fn lemma_holds_append(
    out: Seq<ProfileNode>,
    lines: Seq<(usize, usize)>,
    cols: Seq<(usize, usize)>,
    o0: Seq<ProfileNode>,
    l0: Seq<(usize, usize)>,
    c0: Seq<(usize, usize)>,
    base: int,
    acc: Seq<PNode>,
    sub: Seq<PNode>,
)
    requires
        0 <= base,
        holds_from(o0, l0, c0, base, acc),
        same_prefix(out, lines, cols, o0, l0, c0, o0.len() as int),
        holds_from(out, lines, cols, o0.len() as int, sub),
    ensures
        holds_from(out, lines, cols, base, acc + sub),
        out.len() == base + acc.len() + sub.len(),
{
    reveal(holds_from);
    reveal(same_prefix);
    assert forall|j: int| 0 <= j < (acc + sub).len() implies holds_node(
        out[base + j],
        lines[base + j],
        cols[base + j],
        #[trigger] (acc + sub)[j],
    ) by {
        if j < acc.len() {
            assert((acc + sub)[j] == acc[j]);
            assert(out[base + j] == o0[base + j]);
            assert(holds_node(o0[base + j], l0[base + j], c0[base + j], acc[j]));
        } else {
            assert((acc + sub)[j] == sub[j - acc.len()]);
            assert(holds_node(
                out[o0.len() + (j - acc.len())],
                lines[o0.len() + (j - acc.len())],
                cols[o0.len() + (j - acc.len())],
                sub[j - acc.len()],
            ));
        }
    }
}

/// Keeping a longer prefix keeps a shorter one.
proof fn lemma_prefix_trans(
    out: Seq<ProfileNode>,
    lines: Seq<(usize, usize)>,
    cols: Seq<(usize, usize)>,
    o0: Seq<ProfileNode>,
    l0: Seq<(usize, usize)>,
    c0: Seq<(usize, usize)>,
    o1: Seq<ProfileNode>,
    l1: Seq<(usize, usize)>,
    c1: Seq<(usize, usize)>,
    k: int,
    k2: int,
)
    requires
        same_prefix(o0, l0, c0, o1, l1, c1, k),
        same_prefix(out, lines, cols, o0, l0, c0, k2),
        0 <= k <= k2 <= o0.len(),
        o0.len() == l0.len(),
        o0.len() == c0.len(),
    ensures
        same_prefix(out, lines, cols, o1, l1, c1, k),
{
    reveal(holds_from);
    reveal(same_prefix);
    assert forall|j: int| 0 <= j < k implies #[trigger] out[j] == o1[j] && lines[j] == l1[j] && cols[j] == c1[j] by {
        assert(0 <= j < o0.len());
        assert(out[j] == o0[j]);
        assert(lines[j] == l0[j]);
        assert(cols[j] == c0[j]);
        assert(o0[j] == o1[j]);
    }
}

/// After pushing one entry, the entries before it are kept and nothing
/// after it is held yet.
proof fn lemma_pushed(
    o0: Seq<ProfileNode>,
    l0: Seq<(usize, usize)>,
    c0: Seq<(usize, usize)>,
    x: ProfileNode,
    y: (usize, usize),
    z: (usize, usize),
)
    requires
        o0.len() == l0.len(),
        o0.len() == c0.len(),
    ensures
        same_prefix(o0.push(x), l0.push(y), c0.push(z), o0, l0, c0, o0.len() as int),
        holds_from(o0.push(x), l0.push(y), c0.push(z), o0.len() + 1int, Seq::empty()),
{
    reveal(holds_from);
    reveal(same_prefix);
    assert forall|j: int| 0 <= j < o0.len() implies #[trigger] o0.push(x)[j] == o0[j] && l0.push(y)[j] == l0[j]
        && c0.push(z)[j] == c0[j] by {}
}

/// Anything keeps its own prefix.
proof fn lemma_prefix_refl(o: Seq<ProfileNode>, l: Seq<(usize, usize)>, c: Seq<(usize, usize)>, k: int)
    requires
        0 <= k <= o.len(),
        o.len() == l.len(),
        o.len() == c.len(),
    ensures
        same_prefix(o, l, c, o, l, c, k),
{
    reveal(same_prefix);
}

/// Filling in the node at `first` in front of what holds its subtrees holds
/// the node and its subtrees.
proof fn lemma_holds_first(
    out: Seq<ProfileNode>,
    lines: Seq<(usize, usize)>,
    cols: Seq<(usize, usize)>,
    o0: Seq<ProfileNode>,
    l0: Seq<(usize, usize)>,
    c0: Seq<(usize, usize)>,
    first: int,
    pn: PNode,
    kids: Seq<PNode>,
)
    requires
        0 <= first,
        holds_from(o0, l0, c0, first + 1, kids),
        out.len() == o0.len(),
        lines.len() == l0.len(),
        cols.len() == c0.len(),
        forall|j: int| 0 <= j < out.len() && j != first ==> #[trigger] out[j] == o0[j] && lines[j] == l0[j] && cols[j] == c0[j],
        holds_node(out[first], lines[first], cols[first], pn),
    ensures
        holds_from(out, lines, cols, first, seq![pn] + kids),
{
    reveal(holds_from);
    reveal(same_prefix);
    let ns = seq![pn] + kids;
    assert forall|j: int| 0 <= j < ns.len() implies holds_node(out[first + j], lines[first + j], cols[first + j], #[trigger] ns[j]) by {
        if j > 0 {
            assert(ns[j] == kids[j - 1]);
            assert(out[first + j] == o0[first + 1 + (j - 1)]);
            assert(holds_node(o0[first + 1 + (j - 1)], l0[first + 1 + (j - 1)], c0[first + 1 + (j - 1)], kids[j - 1]));
        } else {
            assert(ns[0] == pn);
        }
    }
}

/// Where the elements of a children value at `v` start.
fn kids_begin(data: &[u8], v: usize) -> (r: usize)
    requires
        v <= data@.len(),
    ensures
        r == kids_start(data@, v as int),
        v <= r <= data@.len(),
{
    let c = skip_spaces(data, v);
    proof {
        lemma_ws(data@, v as int);
    }
    if c < data.len() && data[c] == 91u8 {
        c + 1
    } else {
        c
    }
}

/// The value of node key `key` (other than `children`) at `v`, applied to
/// the node so far.
#[verifier::rlimit(40)]
fn node_key_value(
    data: &[u8],
    key: &str,
    v: usize,
    name: String,
    url: String,
    line: (usize, usize),
    column: (usize, usize),
    size: u64,
) -> (r: Option<(String, String, (usize, usize), (usize, usize), u64, usize)>)
    requires
        v <= data@.len(),
        data@.len() + 16 <= usize::MAX,
    ensures
        match node_value(data@, key@, v as int, acc_view(name, url, line, column, size)) {
            None => r is None,
            Some((a2, n)) => r matches Some((x, y, l, c, z, m)) && acc_view(x, y, l, c, z) == a2 && m == n,
        },
{
    if str_eq(key, "callFrame") {
        match parse_frame(data, v) {
            Some((x, y, l, c, m)) => Some((x, y, l, c, size, m)),
            None => None,
        }
    } else if str_eq(key, "selfSize") {
        match read_u64(data, v) {
            Some((z, m)) => Some((name, url, line, column, z, m)),
            None => None,
        }
    } else if str_eq(key, "id") {
        match read_u64(data, v) {
            Some((_z, m)) => Some((name, url, line, column, size, m)),
            None => None,
        }
    } else {
        match skip_value(data, v) {
            Some(m) => Some((name, url, line, column, size, m)),
            None => None,
        }
    }
}

/// Where the keys of the node object at `p` start.
pub open spec fn keys_start(d: Seq<u8>, p: int) -> int {
    let q = ws(d, p);
    if 0 <= q < d.len() && d[q] == 123u8 {
        q + 1
    } else {
        q
    }
}

/// A subtree is read from where the keys of its node object start.
proof fn lemma_node_open(d: Seq<u8>, p: int, parent: Option<usize>, first: int)
    requires
        0 <= p <= d.len() + 1,
    ensures
        node_at(d, p, parent, first) == node_fields(d, keys_start(d, p), parent, first, empty_node(), Seq::empty()),
{
}

/// Where the keys of the node object at `p` start: past its `{`.
fn node_open(data: &[u8], p: usize, parent: Option<usize>, first: usize) -> (r: usize)
    requires
        p <= data@.len() + 1,
    ensures
        p <= r <= data@.len() + 1,
        node_at(data@, p as int, parent, first as int) == node_fields(data@, r as int, parent, first as int, empty_node(), Seq::empty()),
{
    let q = skip_spaces(data, p);
    proof {
        lemma_ws(data@, p as int);
    }
    let start = if q < data.len() && data[q] == 123u8 {
        q + 1
    } else {
        q
    };
    proof {
        lemma_node_open(data@, p as int, parent, first as int);
    }
    start
}

/// The subtree whose node object starts at `p` (`parse_profile_node`),
/// appended in preorder to `out`, with the spans of each node's line and
/// column numbers appended to `lines` and `cols`; the position after it.
fn parse_node(
    data: &[u8],
    p: usize,
    parent: Option<usize>,
    out: &mut Vec<ProfileNode>,
    lines: &mut Vec<(usize, usize)>,
    cols: &mut Vec<(usize, usize)>,
) -> (r: Option<usize>)
    requires
        p <= data@.len() + 1,
        data@.len() + 16 <= usize::MAX,
        old(out)@.len() == old(lines)@.len(),
        old(out)@.len() == old(cols)@.len(),
    ensures
        final(out)@.len() == final(lines)@.len(),
        final(out)@.len() == final(cols)@.len(),
        final(out)@.len() >= old(out)@.len(),
        same_prefix(final(out)@, final(lines)@, final(cols)@, old(out)@, old(lines)@, old(cols)@, old(out)@.len() as int),
        match node_at(data@, p as int, parent, old(out)@.len() as int) {
            None => r is None,
            Some((ns, n)) => r == Some(n as usize) && 0 <= n <= data@.len() + 2 && holds_from(
                final(out)@,
                final(lines)@,
                final(cols)@,
                old(out)@.len() as int,
                ns,
            ),
        },
    decreases data@.len() + 2 - p, 2int,
{
    let first = out.len();
    let blank = ProfileNode { function_name: String::new(), url: String::new(), line_number: 0, column_number: 0, self_size: 0, parent };
    proof {
        lemma_pushed(old(out)@, old(lines)@, old(cols)@, blank, (0usize, 0usize), (0usize, 0usize));
    }
    out.push(blank);
    lines.push((0, 0));
    cols.push((0, 0));
    let start = node_open(data, p, parent, first);
    let ghost o1 = out@;
    let ghost l1 = lines@;
    let ghost c1 = cols@;
    let r = node_keys(data, start, parent, first, out, lines, cols);
    proof {
        lemma_prefix_trans(out@, lines@, cols@, o1, l1, c1, old(out)@, old(lines)@, old(cols)@, first as int, first as int);
    }
    r
}

/// The keys of the node object numbered `first` from `start` on, with the
/// node's own entry already pushed; its subtrees are appended after it.
#[verifier::rlimit(100)]
#[verifier::spinoff_prover]
fn node_keys(
    data: &[u8],
    start: usize,
    parent: Option<usize>,
    first: usize,
    out: &mut Vec<ProfileNode>,
    lines: &mut Vec<(usize, usize)>,
    cols: &mut Vec<(usize, usize)>,
) -> (r: Option<usize>)
    requires
        start <= data@.len() + 1,
        data@.len() + 16 <= usize::MAX,
        old(out)@.len() == first + 1,
        old(out)@.len() == old(lines)@.len(),
        old(out)@.len() == old(cols)@.len(),
        holds_from(old(out)@, old(lines)@, old(cols)@, first + 1, Seq::empty()),
    ensures
        final(out)@.len() == final(lines)@.len(),
        final(out)@.len() == final(cols)@.len(),
        final(out)@.len() >= old(out)@.len(),
        same_prefix(final(out)@, final(lines)@, final(cols)@, old(out)@, old(lines)@, old(cols)@, first as int),
        match node_fields(data@, start as int, parent, first as int, empty_node(), Seq::empty()) {
            None => r is None,
            Some((ns, n)) => r == Some(n as usize) && 0 <= n <= data@.len() + 2 && holds_from(
                final(out)@,
                final(lines)@,
                final(cols)@,
                first as int,
                ns,
            ),
        },
    decreases data@.len() + 2 - start, 1int,
{
    proof {
        lemma_prefix_refl(out@, lines@, cols@, first as int);
    }
    let mut name = String::new();
    let mut url = String::new();
    let mut line: (usize, usize) = (0, 0);
    let mut column: (usize, usize) = (0, 0);
    let mut size: u64 = 0;
    let ghost mut kids: Seq<PNode> = Seq::empty();
    let mut i = start;
    proof {
        reveal_strlit("");
        assert(acc_view(name, url, line, column, size) == empty_node());
    }
    loop
        invariant
            start <= i <= data@.len() + 1,
            data@.len() + 16 <= usize::MAX,
            first + 1 == old(out)@.len(),
            out@.len() == first + 1 + kids.len(),
            out@.len() == lines@.len(),
            out@.len() == cols@.len(),
            same_prefix(out@, lines@, cols@, old(out)@, old(lines)@, old(cols)@, first as int),
            holds_from(out@, lines@, cols@, first + 1, kids),
            node_fields(data@, i as int, parent, first as int, acc_view(name, url, line, column, size), kids)
                == node_fields(data@, start as int, parent, first as int, empty_node(), Seq::empty()),
        decreases data@.len() + 2 - i,
    {
        let ghost a0 = acc_view(name, url, line, column, size);
        let q2 = skip_spaces(data, i);
        proof {
            lemma_ws(data@, i as int);
        }
        if q2 >= data.len() || data[q2] == 125u8 {
            let ghost pn = PNode { frame: frame_view(name, url, line, column), size, parent };
            let ghost o0 = out@;
            let ghost l0 = lines@;
            let ghost c0 = cols@;
            out.set(first, ProfileNode { function_name: name, url, line_number: 0, column_number: 0, self_size: size, parent });
            lines.set(first, line);
            cols.set(first, column);
            proof {
                lemma_holds_first(out@, lines@, cols@, o0, l0, c0, first as int, pn, kids);
                assert(same_prefix(out@, lines@, cols@, old(out)@, old(lines)@, old(cols)@, first as int)) by {
                    reveal(same_prefix);
                    assert forall|j: int| 0 <= j < first implies #[trigger] out@[j] == o0[j] && lines@[j] == l0[j] && cols@[j] == c0[j] by {}
                }
                assert(node_fields(data@, i as int, parent, first as int, a0, kids) == Some((seq![pn] + kids, q2 + 1)));
            }
            return Some(q2 + 1);
        }
        let (ke, kn) = match scan_string(data, q2) {
            Some(x) => x,
            None => {
                assert(node_fields(data@, i as int, parent, first as int, a0, kids) is None);
                return None;
            },
        };
        proof {
            lemma_str_scan(data@, q2 + 1);
        }
        let key = match text_at(data, q2 + 1, ke) {
            Some(k) => k,
            None => {
                assert(node_fields(data@, i as int, parent, first as int, a0, kids) is None);
                return None;
            },
        };
        let v = value_begin(data, kn);
        if str_eq(key.as_str(), "children") {
            let c = kids_begin(data, v);
            if c <= i || c > data.len() + 1 {
                assert(node_fields(data@, i as int, parent, first as int, a0, kids) is None);
                return None;
            }
            let ghost o0 = out@;
            let ghost l0 = lines@;
            let ghost c0 = cols@;
            let r1 = parse_kids(data, c, first, out, lines, cols);
            proof {
                lemma_prefix_trans(out@, lines@, cols@, o0, l0, c0, old(out)@, old(lines)@, old(cols)@, first as int, o0.len() as int);
            }
            let n = match r1 {
                None => {
                    assert(node_fields(data@, i as int, parent, first as int, a0, kids) is None);
                    return None;
                },
                Some(n1) => {
                    proof {
                        let kk = kids_at(data@, c as int, first as int, first + 1 + kids.len());
                        assert(kk is Some);
                        assert(n1 == kk.unwrap().1);
                    }
                    n1
                },
            };
            let ghost sub = kids_at(data@, c as int, first as int, first + 1 + kids.len()).unwrap().0;
            proof {
                lemma_holds_append(out@, lines@, cols@, o0, l0, c0, first + 1, kids, sub);
            }
            if n > data.len() + 1 {
                assert(node_fields(data@, i as int, parent, first as int, a0, kids) is None) by {
                    lemma_ws(data@, n as int);
                }
                return None;
            }
            let m = next_key(data, n);
            if m <= i || m > data.len() + 1 {
                assert(node_fields(data@, i as int, parent, first as int, a0, kids) is None);
                return None;
            }
            proof {
                assert(node_fields(data@, i as int, parent, first as int, a0, kids) == node_fields(
                    data@,
                    m as int,
                    parent,
                    first as int,
                    a0,
                    kids + sub,
                ));
                kids = kids + sub;
            }
            i = m;
        } else {
            match node_key_value(data, key.as_str(), v, name, url, line, column, size) {
                Some((x, y, l, c, z, n)) => {
                    if n > data.len() + 1 {
                        assert(node_fields(data@, i as int, parent, first as int, a0, kids) is None) by {
                            lemma_ws(data@, n as int);
                        }
                        return None;
                    }
                    let m = next_key(data, n);
                    if m <= i || m > data.len() + 1 {
                        assert(node_fields(data@, i as int, parent, first as int, a0, kids) is None);
                        return None;
                    }
                    proof {
                        assert(node_fields(data@, i as int, parent, first as int, a0, kids) == node_fields(
                            data@,
                            m as int,
                            parent,
                            first as int,
                            acc_view(x, y, l, c, z),
                            kids,
                        ));
                    }
                    name = x;
                    url = y;
                    line = l;
                    column = c;
                    size = z;
                    i = m;
                },
                None => {
                    assert(node_fields(data@, i as int, parent, first as int, a0, kids) is None);
                    return None;
                },
            }
        }
    }
}

/// The subtrees of a children array from `p` on (`parse_profile_node`'s
/// children loop), appended in preorder with parent `parent`; the position
/// after its `]`.
#[verifier::rlimit(100)]
#[verifier::spinoff_prover]
fn parse_kids(
    data: &[u8],
    p: usize,
    parent: usize,
    out: &mut Vec<ProfileNode>,
    lines: &mut Vec<(usize, usize)>,
    cols: &mut Vec<(usize, usize)>,
) -> (r: Option<usize>)
    requires
        p <= data@.len() + 1,
        data@.len() + 16 <= usize::MAX,
        old(out)@.len() == old(lines)@.len(),
        old(out)@.len() == old(cols)@.len(),
    ensures
        final(out)@.len() == final(lines)@.len(),
        final(out)@.len() == final(cols)@.len(),
        final(out)@.len() >= old(out)@.len(),
        same_prefix(final(out)@, final(lines)@, final(cols)@, old(out)@, old(lines)@, old(cols)@, old(out)@.len() as int),
        match kids_at(data@, p as int, parent as int, old(out)@.len() as int) {
            None => r is None,
            Some((ks, n)) => r == Some(n as usize) && 0 <= n <= data@.len() + 2 && holds_from(
                final(out)@,
                final(lines)@,
                final(cols)@,
                old(out)@.len() as int,
                ks,
            ),
        },
    decreases data@.len() + 2 - p, 3int,
{
    let base = out.len();
    let ghost mut acc: Seq<PNode> = Seq::empty();
    let mut i = p;
    proof {
        reveal(holds_from);
        reveal(same_prefix);
    }
    loop
        invariant
            p <= i <= data@.len() + 1,
            data@.len() + 16 <= usize::MAX,
            base == old(out)@.len(),
            out@.len() == base + acc.len(),
            out@.len() == lines@.len(),
            out@.len() == cols@.len(),
            same_prefix(out@, lines@, cols@, old(out)@, old(lines)@, old(cols)@, base as int),
            holds_from(out@, lines@, cols@, base as int, acc),
            kids_at(data@, p as int, parent as int, base as int) == match kids_at(data@, i as int, parent as int, base + acc.len()) {
                None => None,
                Some((rest, r)) => Some((acc + rest, r)),
            },
        decreases data@.len() + 2 - i,
    {
        let q = skip_spaces(data, i);
        proof {
            lemma_ws(data@, i as int);
        }
        if q >= data.len() || data[q] == 93u8 {
            proof {
                assert(kids_at(data@, i as int, parent as int, base + acc.len()) == Some((Seq::<PNode>::empty(), q + 1)));
                assert(acc + Seq::<PNode>::empty() =~= acc);
                assert(holds_from(out@, lines@, cols@, base as int, acc + Seq::<PNode>::empty()));
            }
            return Some(q + 1);
        }
        let ghost o0 = out@;
        let ghost l0 = lines@;
        let ghost c0 = cols@;
        let r1 = parse_node(data, q, Some(parent), out, lines, cols);
        proof {
            lemma_prefix_trans(out@, lines@, cols@, o0, l0, c0, old(out)@, old(lines)@, old(cols)@, base as int, o0.len() as int);
        }
        let n = match r1 {
            None => {
                assert(kids_at(data@, i as int, parent as int, base + acc.len()) is None) by {
                    assert((parent as int) as usize == parent);
                }
                return None;
            },
            Some(n) => {
                proof {
                    let nn = node_at(data@, q as int, Some(parent), base + acc.len());
                    assert(nn is Some);
                    assert(n == nn.unwrap().1);
                }
                n
            },
        };
        if n > data.len() + 1 {
            assert(kids_at(data@, i as int, parent as int, base + acc.len()) is None) by {
                assert((parent as int) as usize == parent);
                lemma_ws(data@, n as int);
            }
            return None;
        }
        let m = next_key(data, n);
        if m <= i || m > data.len() + 1 {
            assert(kids_at(data@, i as int, parent as int, base + acc.len()) is None) by {
                assert((parent as int) as usize == parent);
            }
            return None;
        }
        proof {
            assert((parent as int) as usize == parent);
            let sub = node_at(data@, q as int, Some(parent), base + acc.len()).unwrap().0;
            lemma_holds_append(out@, lines@, cols@, o0, l0, c0, base as int, acc, sub);
            lemma_prefix_trans(out@, lines@, cols@, o0, l0, c0, old(out)@, old(lines)@, old(cols)@, base as int, o0.len() as int);
            assert(kids_at(data@, i as int, parent as int, base + acc.len()) == match kids_at(
                data@,
                m as int,
                parent as int,
                base + acc.len() + sub.len(),
            ) {
                None => None,
                Some((rest, r)) => Some((sub + rest, r)),
            });
            match kids_at(data@, m as int, parent as int, base + acc.len() + sub.len()) {
                None => {},
                Some((rest, r)) => {
                    assert(acc + (sub + rest) =~= (acc + sub) + rest);
                },
            }
            acc = acc + sub;
        }
        i = m;
    }
}

/// `"head":` occurs somewhere.
pub open spec fn has_head(d: Seq<u8>) -> bool {
    exists|q: int| occurs_at(d, head_key(), q)
}

/// Where `"head":` first occurs.
pub open spec fn head_at(d: Seq<u8>) -> int {
    choose|p: int| first_head(d, p)
}

/// The call tree of a `.heapprofile` file: the node object after the first
/// `"head":`, in preorder, numbered from 0, the root without a parent.
#[verifier::opaque]
pub open spec fn profile_tree(d: Seq<u8>) -> Option<(Seq<PNode>, int)> {
    node_at(d, head_at(d) + 7, None, 0)
}

/// A `.heapprofile` call tree read from its bytes: the nodes in preorder
/// with parent links, and the spans of each node's line and column number
/// texts.
pub struct ParsedProfile {
    pub nodes: Vec<ProfileNode>,
    pub lines: Vec<(usize, usize)>,
    pub columns: Vec<(usize, usize)>,
}

/// The first occurrence of `"head":` is where it first occurs.
proof fn lemma_head_at(d: Seq<u8>, p: int)
    requires
        first_head(d, p),
    ensures
        has_head(d),
        head_at(d) == p,
{
    assert(occurs_at(d, head_key(), p));
    let h = head_at(d);
    assert(first_head(d, h));
    if h < p {
        assert(!occurs_at(d, head_key(), h));
    }
    if p < h {
        assert(!occurs_at(d, head_key(), p));
    }
}

/// Nodes numbered in preorder, the first without a parent and every other
/// with a parent before it, have their parents first.
proof fn lemma_preorder_parents(
    nodes: Seq<ProfileNode>,
    lines: Seq<(usize, usize)>,
    cols: Seq<(usize, usize)>,
    ns: Seq<PNode>,
)
    requires
        holds_from(nodes, lines, cols, 0, ns),
        ns.len() >= 1,
        ns[0].parent is None,
        forall|j: int| 1 <= j < ns.len() && 0 + j <= usize::MAX ==> within(#[trigger] ns[j].parent, 0, 0 + j),
        nodes.len() <= usize::MAX,
    ensures
        parents_precede(nodes),
{
    reveal(holds_from);
    assert forall|i: int| 0 <= i < nodes.len() implies match (#[trigger] nodes[i]).parent {
        Some(q) => q < i,
        None => true,
    } by {
        assert(holds_node(nodes[0 + i], lines[0 + i], cols[0 + i], ns[i]));
        if i >= 1 {
            assert(within(ns[i].parent, 0, 0 + i));
        }
    }
}

/// A tree read from `start` has its parents first.
proof fn lemma_tree_parents(
    d: Seq<u8>,
    start: int,
    nodes: Seq<ProfileNode>,
    lines: Seq<(usize, usize)>,
    cols: Seq<(usize, usize)>,
)
    requires
        nodes.len() <= usize::MAX,
        match node_at(d, start, None, 0) {
            None => false,
            Some((ns, _n)) => holds_from(nodes, lines, cols, 0, ns),
        },
    ensures
        parents_precede(nodes),
{
    lemma_node_parents(d, start, None, 0);
    let ns = node_at(d, start, None, 0).unwrap().0;
    lemma_preorder_parents(nodes, lines, cols, ns);
}

/// Read the call tree of a `.heapprofile` file (`parse_profile`): the node
/// object after the first `"head":`. Without that key the header cannot be
/// found. A node whose keys cannot be read (a key that is not a string, a
/// string escape that cannot be decoded, a size over 64 bits) makes the
/// file malformed; a file cut short keeps what was read before its end.
pub fn parse_profile(data: &[u8]) -> (r: Result<ParsedProfile, Error>)
    requires
        data@.len() + 16 <= usize::MAX,
    ensures
        r matches Err(Error::HeaderParseFailed) <==> !has_head(data@),
        has_head(data@) ==> match profile_tree(data@) {
            None => r matches Err(Error::Malformed),
            Some((ns, _n)) => r matches Ok(pp) && holds_from(pp.nodes@, pp.lines@, pp.columns@, 0, ns),
        },
        r matches Ok(pp) ==> parents_precede(pp.nodes@),
{
    let marker: Vec<u8> = vec![34u8, 104u8, 101u8, 97u8, 100u8, 34u8, 58u8];
    proof {
        assert(marker@ == head_key());
    }
    let p = match find_marker(data, marker.as_slice()) {
        None => {
            return Err(Error::HeaderParseFailed);
        },
        Some(p) => p,
    };
    proof {
        lemma_head_at(data@, p as int);
    }
    proof {
        assert(profile_tree(data@) == node_at(data@, p + 7, None, 0)) by {
            reveal(profile_tree);
        }
    }
    match read_tree(data, p + 7) {
        None => Err(Error::Malformed),
        Some(pp) => Ok(pp),
    }
}

/// The call tree whose root object starts at `start`, numbered from 0.
#[verifier::rlimit(60)]
fn read_tree(data: &[u8], start: usize) -> (r: Option<ParsedProfile>)
    requires
        start <= data@.len(),
        data@.len() + 16 <= usize::MAX,
    ensures
        match node_at(data@, start as int, None, 0) {
            None => r is None,
            Some((ns, _n)) => r matches Some(pp) && holds_from(pp.nodes@, pp.lines@, pp.columns@, 0, ns),
        },
        r matches Some(pp) ==> parents_precede(pp.nodes@),
{
    let mut nodes: Vec<ProfileNode> = Vec::new();
    let mut lines: Vec<(usize, usize)> = Vec::new();
    let mut columns: Vec<(usize, usize)> = Vec::new();
    match parse_node(data, start, None, &mut nodes, &mut lines, &mut columns) {
        None => None,
        Some(_n) => {
            let count = nodes.len();
            proof {
                assert(nodes@.len() == count);
                lemma_tree_parents(data@, start as int, nodes@, lines@, columns@);
            }
            Some(ParsedProfile { nodes, lines, columns })
        },
    }
}

} // verus!
