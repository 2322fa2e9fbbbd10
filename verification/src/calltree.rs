//! The inclusive call tree of a `.heapprofile`: per node its self size plus
//! the inclusive sizes of its children, and whether the node or one of its
//! descendants passes the filters.

use vstd::prelude::*;
use crate::pattern::{compile_filter, filter_active, is_match, opt_view, regex_is_match, Pattern};
use crate::profile::{fn_name_of, fn_name_spec, parents_precede, self_total, signed_decimal, ProfileNode};
use crate::text::{chars_of, contains_chars, has_substring, lowercase, push_decimal, to_lowercase};
use crate::types::Error;

verus! {

/// Node `c` is a child of node `i`.
pub open spec fn is_child(nodes: Seq<ProfileNode>, c: int, i: int) -> bool {
    match nodes[c].parent {
        Some(p) => p as int == i,
        None => false,
    }
}

/// The inclusive size of node `i`: its self size plus the inclusive sizes
/// of its children.
pub open spec fn inclusive(nodes: Seq<ProfileNode>, i: int) -> int
    decreases nodes.len() - i, 1int,
{
    if 0 <= i < nodes.len() {
        nodes[i].self_size + children_inclusive(nodes, i, i + 1)
    } else {
        0
    }
}

/// The summed inclusive sizes of the children of `i` numbered `c` or more.
pub open spec fn children_inclusive(nodes: Seq<ProfileNode>, i: int, c: int) -> int
    decreases nodes.len() - c, 2int,
{
    if c < 0 || c >= nodes.len() {
        0
    } else {
        (if is_child(nodes, c, i) {
            inclusive(nodes, c)
        } else {
            0
        }) + children_inclusive(nodes, i, c + 1)
    }
}

/// Node `i` passes (`flags`) or one of its descendants does.
pub open spec fn shown_below(nodes: Seq<ProfileNode>, flags: Seq<bool>, i: int) -> bool
    decreases nodes.len() - i, 1int,
{
    0 <= i < nodes.len() && (flags[i] || child_shown(nodes, flags, i, i + 1))
}

/// Some child of `i` numbered `c` or more is shown.
pub open spec fn child_shown(nodes: Seq<ProfileNode>, flags: Seq<bool>, i: int, c: int) -> bool
    decreases nodes.len() - c, 2int,
{
    if c < 0 || c >= nodes.len() {
        false
    } else {
        (is_child(nodes, c, i) && shown_below(nodes, flags, c)) || child_shown(nodes, flags, i, c + 1)
    }
}

proof fn lemma_children_nonneg(nodes: Seq<ProfileNode>, i: int, c: int)
    ensures
        children_inclusive(nodes, i, c) >= 0,
    decreases nodes.len() - c,
{
    if 0 <= c < nodes.len() {
        lemma_children_nonneg(nodes, i, c + 1);
        lemma_children_nonneg(nodes, c, c + 1);
        assert(inclusive(nodes, c) == nodes[c].self_size + children_inclusive(nodes, c, c + 1));
        assert(inclusive(nodes, c) >= 0);
    }
}

/// Fewer children count for no more.
proof fn lemma_children_mono(nodes: Seq<ProfileNode>, i: int, c: int, d: int)
    requires
        0 <= c <= d,
    ensures
        children_inclusive(nodes, i, c) >= children_inclusive(nodes, i, d),
    decreases d - c,
{
    if c < d {
        lemma_children_mono(nodes, i, c + 1, d);
        if c < nodes.len() {
            lemma_children_nonneg(nodes, c, c + 1);
            assert(inclusive(nodes, c) == nodes[c].self_size + children_inclusive(nodes, c, c + 1));
        }
    }
}

/// Inclusive sizes of every node (`calltree`): each node's self size plus
/// the inclusive sizes of its children; fails when one does not fit in 64
/// bits.
pub fn inclusive_sizes(nodes: &Vec<ProfileNode>) -> (r: Result<Vec<u64>, Error>)
    requires
        parents_precede(nodes@),
    ensures
        r is Ok <==> forall|i: int| 0 <= i < nodes@.len() ==> #[trigger] inclusive(nodes@, i) <= u64::MAX,
        r matches Ok(v) ==> v@.len() == nodes@.len() && forall|i: int| 0 <= i < nodes@.len() ==> #[trigger] v@[i] == inclusive(nodes@, i),
        r matches Err(e) ==> e == Error::SizeOverflow,
{
    let n = nodes.len();
    let mut acc: Vec<u64> = Vec::new();
    let mut j: usize = 0;
    while j < n
        invariant
            j <= n,
            n == nodes@.len(),
            acc@.len() == j,
            forall|i: int| 0 <= i < j ==> #[trigger] acc@[i] == nodes@[i].self_size,
        decreases n - j,
    {
        acc.push(nodes[j].self_size);
        j += 1;
    }
    proof {
        assert forall|i: int| 0 <= i < n implies #[trigger] acc@[i] == nodes@[i].self_size + children_inclusive(nodes@, i, n as int) by {}
    }
    let mut k: usize = n;
    while k > 0
        invariant
            k <= n,
            n == nodes@.len(),
            acc@.len() == n,
            parents_precede(nodes@),
            forall|i: int| k <= i < n ==> #[trigger] acc@[i] == inclusive(nodes@, i),
            forall|i: int| 0 <= i < k ==> #[trigger] acc@[i] == nodes@[i].self_size + children_inclusive(nodes@, i, k as int),
        decreases k,
    {
        k -= 1;
        let ghost a0 = acc@;
        proof {
            assert(a0[k as int] == inclusive(nodes@, k as int));
        }
        match nodes[k].parent {
            Some(p) => {
                proof {
                    assert(p < k);
                }
                match acc[p].checked_add(acc[k]) {
                    Some(v) => {
                        acc.set(p, v);
                        proof {
                            assert forall|i: int| 0 <= i < k implies #[trigger] acc@[i] == nodes@[i].self_size + children_inclusive(nodes@, i, k as int) by {
                                if i == p {
                                    assert(is_child(nodes@, k as int, i));
                                } else {
                                    assert(!is_child(nodes@, k as int, i));
                                    assert(acc@[i] == a0[i]);
                                }
                            }
                        }
                    },
                    None => {
                        proof {
                            assert(is_child(nodes@, k as int, p as int));
                            lemma_children_mono(nodes@, p as int, p + 1, k as int);
                            assert(inclusive(nodes@, p as int) > u64::MAX);
                        }
                        return Err(Error::SizeOverflow);
                    },
                }
            },
            None => {
                proof {
                    assert forall|i: int| 0 <= i < k implies #[trigger] acc@[i] == nodes@[i].self_size + children_inclusive(nodes@, i, k as int) by {
                        assert(!is_child(nodes@, k as int, i));
                    }
                }
            },
        }
    }
    proof {
        assert forall|i: int| 0 <= i < nodes@.len() implies #[trigger] inclusive(nodes@, i) <= u64::MAX by {
            assert(acc@[i] == inclusive(nodes@, i));
        }
    }
    Ok(acc)
}

/// Whether each node or one of its descendants passes `flags` (`calltree`'s
/// visibility).
pub fn shown_nodes(nodes: &Vec<ProfileNode>, flags: &Vec<bool>) -> (r: Vec<bool>)
    requires
        parents_precede(nodes@),
        flags@.len() == nodes@.len(),
    ensures
        r@.len() == nodes@.len(),
        forall|i: int| 0 <= i < nodes@.len() ==> #[trigger] r@[i] == shown_below(nodes@, flags@, i),
{
    let n = nodes.len();
    let mut acc: Vec<bool> = Vec::new();
    let mut j: usize = 0;
    while j < n
        invariant
            j <= n,
            n == nodes@.len(),
            flags@.len() == n,
            acc@.len() == j,
            forall|i: int| 0 <= i < j ==> #[trigger] acc@[i] == flags@[i],
        decreases n - j,
    {
        acc.push(flags[j]);
        j += 1;
    }
    let mut k: usize = n;
    while k > 0
        invariant
            k <= n,
            n == nodes@.len(),
            flags@.len() == n,
            acc@.len() == n,
            parents_precede(nodes@),
            forall|i: int| k <= i < n ==> #[trigger] acc@[i] == shown_below(nodes@, flags@, i),
            forall|i: int| 0 <= i < k ==> #[trigger] acc@[i] == (flags@[i] || child_shown(nodes@, flags@, i, k as int)),
        decreases k,
    {
        k -= 1;
        let ghost a0 = acc@;
        proof {
            assert(a0[k as int] == shown_below(nodes@, flags@, k as int));
        }
        match nodes[k].parent {
            Some(p) => {
                proof {
                    assert(p < k);
                }
                let v = acc[p] || acc[k];
                acc.set(p, v);
                proof {
                    assert forall|i: int| 0 <= i < k implies #[trigger] acc@[i] == (flags@[i] || child_shown(nodes@, flags@, i, k as int)) by {
                        if i == p {
                            assert(is_child(nodes@, k as int, i));
                        } else {
                            assert(!is_child(nodes@, k as int, i));
                            assert(acc@[i] == a0[i]);
                        }
                    }
                }
            },
            None => {
                proof {
                    assert forall|i: int| 0 <= i < k implies #[trigger] acc@[i] == (flags@[i] || child_shown(nodes@, flags@, i, k as int)) by {
                        assert(!is_child(nodes@, k as int, i));
                    }
                }
            },
        }
    }
    acc
}

/// `function @ url:line` with the URL as recorded, the line counted from
/// one: the label that the call tree's focus pattern is matched against.
pub open spec fn tree_label_spec(n: ProfileNode) -> Seq<char> {
    fn_name_spec(n) + " @ "@ + n.url@ + ":"@ + signed_decimal(n.line_number + 1)
}

/// A URL filter is in use: given and not empty.
pub open spec fn url_active(url: Option<Seq<char>>) -> bool {
    url matches Some(u) && u.len() > 0
}

/// Node `n` passes the call tree's filters: a frame whose function name
/// the hide pattern matches never does; with no focus pattern and no URL
/// filter every other frame does; else its label matches the focus
/// pattern or its URL contains the URL filter, both lower-cased. Patterns
/// the regex crate refuses count as absent.
pub open spec fn node_passes(n: ProfileNode, url: Option<Seq<char>>, focus: Option<Seq<char>>, hide: Option<Seq<char>>) -> bool {
    if filter_active(hide) && regex_is_match(hide.unwrap(), n.function_name@) {
        false
    } else if !filter_active(focus) && !url_active(url) {
        true
    } else {
        (filter_active(focus) && regex_is_match(focus.unwrap(), tree_label_spec(n))) || (url_active(url) && has_substring(
            lowercase(n.url@),
            lowercase(url.unwrap()),
        ))
    }
}

/// Whether each node passes the call tree's filters.
pub open spec fn passing_flags(nodes: Seq<ProfileNode>, url: Option<Seq<char>>, focus: Option<Seq<char>>, hide: Option<Seq<char>>) -> Seq<bool> {
    Seq::new(nodes.len(), |i: int| node_passes(nodes[i], url, focus, hide))
}

/// The call tree's label of a node.
pub fn tree_label(n: &ProfileNode) -> (s: String)
    ensures
        s@ == tree_label_spec(*n),
{
    let mut s = fn_name_of(n);
    s.append(" @ ");
    s.append(n.url.as_str());
    s.append(":");
    let line: i64 = n.line_number as i64 + 1;
    if line < 0 {
        s.append("-");
        push_decimal(&mut s, (-line) as u64);
    } else {
        push_decimal(&mut s, line as u64);
    }
    proof {
        reveal_strlit("-");
        reveal_strlit(" @ ");
        reveal_strlit(":");
    }
    s
}

/// Whether each node passes the call tree's filters (`node_matches`).
pub fn calltree_flags(nodes: &Vec<ProfileNode>, url: Option<&str>, focus: Option<&str>, hide: Option<&str>) -> (r: Vec<bool>)
    ensures
        r@.len() == nodes@.len(),
        forall|i: int| 0 <= i < nodes@.len() ==> #[trigger] r@[i] == node_passes(nodes@[i], opt_view(url), opt_view(focus), opt_view(hide)),
{
    let focus_re = compile_filter(focus);
    let hide_re = compile_filter(hide);
    let url_low: Option<Vec<char>> = match url {
        Some(u) => if !u.is_empty() {
            let l = to_lowercase(u);
            Some(chars_of(l.as_str()))
        } else {
            None
        },
        None => None,
    };
    proof {
        assert(url_low is Some <==> url_active(opt_view(url)));
    }
    let mut r: Vec<bool> = Vec::new();
    let mut i: usize = 0;
    while i < nodes.len()
        invariant
            i <= nodes@.len(),
            r@.len() == i,
            focus_re is Some <==> filter_active(opt_view(focus)),
            focus_re matches Some(p) ==> opt_view(focus) == Some(p.source()),
            hide_re is Some <==> filter_active(opt_view(hide)),
            hide_re matches Some(p) ==> opt_view(hide) == Some(p.source()),
            url_low is Some <==> url_active(opt_view(url)),
            url_low matches Some(ul) ==> ul@ == lowercase(opt_view(url).unwrap()),
            forall|j: int| 0 <= j < i ==> #[trigger] r@[j] == node_passes(nodes@[j], opt_view(url), opt_view(focus), opt_view(hide)),
        decreases nodes@.len() - i,
    {
        let n = &nodes[i];
        let hidden = match &hide_re {
            Some(p) => is_match(p, n.function_name.as_str()),
            None => false,
        };
        let pass = if hidden {
            false
        } else if focus_re.is_none() && url_low.is_none() {
            true
        } else {
            let f = match &focus_re {
                Some(p) => {
                    let l = tree_label(n);
                    is_match(p, l.as_str())
                },
                None => false,
            };
            let u = match &url_low {
                Some(ul) => {
                    let h = to_lowercase(n.url.as_str());
                    let hc = chars_of(h.as_str());
                    contains_chars(hc.as_slice(), ul.as_slice())
                },
                None => false,
            };
            f || u
        };
        r.push(pass);
        i += 1;
    }
    r
}

/// The frame of `n` is hidden: the hide pattern matches its function name.
pub open spec fn is_hidden(n: ProfileNode, hide: Option<Seq<char>>) -> bool {
    filter_active(hide) && regex_is_match(hide.unwrap(), n.function_name@)
}

/// Whether each node's frame is hidden (its visible children are still
/// shown, one level up).
pub fn hidden_flags(nodes: &Vec<ProfileNode>, hide: Option<&str>) -> (r: Vec<bool>)
    ensures
        r@.len() == nodes@.len(),
        forall|i: int| 0 <= i < nodes@.len() ==> #[trigger] r@[i] == is_hidden(nodes@[i], opt_view(hide)),
{
    let hide_re = compile_filter(hide);
    let mut r: Vec<bool> = Vec::new();
    let mut i: usize = 0;
    while i < nodes.len()
        invariant
            i <= nodes@.len(),
            r@.len() == i,
            hide_re is Some <==> filter_active(opt_view(hide)),
            hide_re matches Some(p) ==> opt_view(hide) == Some(p.source()),
            forall|j: int| 0 <= j < i ==> #[trigger] r@[j] == is_hidden(nodes@[j], opt_view(hide)),
        decreases nodes@.len() - i,
    {
        let h = match &hide_re {
            Some(p) => is_match(p, nodes[i].function_name.as_str()),
            None => false,
        };
        r.push(h);
        i += 1;
    }
    r
}

/// The summed inclusive sizes of the roots (nodes without a parent)
/// numbered `k` or more.
pub open spec fn roots_inclusive(nodes: Seq<ProfileNode>, k: int) -> int
    decreases nodes.len() - k,
{
    if k < 0 || k >= nodes.len() {
        0
    } else {
        (if nodes[k].parent is None {
            inclusive(nodes, k)
        } else {
            0
        }) + roots_inclusive(nodes, k + 1)
    }
}

/// Self sizes of the first `m` nodes plus the inclusive sizes of their
/// children numbered `k` or more.
spec fn partial_totals(nodes: Seq<ProfileNode>, m: int, k: int) -> int
    decreases m,
{
    if m <= 0 {
        0
    } else {
        partial_totals(nodes, m - 1, k) + nodes[m - 1].self_size + children_inclusive(nodes, m - 1, k)
    }
}

proof fn lemma_partial_start(nodes: Seq<ProfileNode>, m: int)
    requires
        0 <= m <= nodes.len(),
    ensures
        partial_totals(nodes, m, nodes.len() as int) == self_total(nodes, m),
    decreases m,
{
    if m > 0 {
        lemma_partial_start(nodes, m - 1);
    }
}

/// Counting the children from `k - 1` on adds node `k - 1` to the partial
/// total of its parent, if that parent is among the first `m` nodes.
proof fn lemma_partial_step(nodes: Seq<ProfileNode>, m: int, k: int)
    requires
        0 <= m,
        1 <= k <= nodes.len(),
    ensures
        partial_totals(nodes, m, k - 1) == partial_totals(nodes, m, k) + (match nodes[k - 1].parent {
            Some(p) => if (p as int) < m {
                inclusive(nodes, k - 1)
            } else {
                0
            },
            None => 0,
        }),
    decreases m,
{
    if m > 0 {
        lemma_partial_step(nodes, m - 1, k);
        assert(children_inclusive(nodes, m - 1, k - 1) == (if is_child(nodes, k - 1, m - 1) {
            inclusive(nodes, k - 1)
        } else {
            0
        }) + children_inclusive(nodes, m - 1, k));
    }
}

proof fn lemma_partial_roots(nodes: Seq<ProfileNode>, k: int)
    requires
        parents_precede(nodes),
        0 <= k <= nodes.len(),
    ensures
        partial_totals(nodes, k, k) + roots_inclusive(nodes, k) == self_total(nodes, nodes.len() as int),
    decreases nodes.len() - k,
{
    if k == nodes.len() {
        lemma_partial_start(nodes, k);
    } else {
        lemma_partial_roots(nodes, k + 1);
        lemma_partial_step(nodes, k, k + 1);
        assert(partial_totals(nodes, k + 1, k + 1) == partial_totals(nodes, k, k + 1) + nodes[k].self_size
            + children_inclusive(nodes, k, k + 1));
        assert(inclusive(nodes, k) == nodes[k].self_size + children_inclusive(nodes, k, k + 1));
        match nodes[k].parent {
            Some(p) => {
                assert(p < k);
            },
            None => {},
        }
    }
}

/// The inclusive sizes of the roots of a call tree add up to the total of
/// all self sizes: every sampled byte is counted once, under its root.
pub proof fn lemma_roots_cover_total(nodes: Seq<ProfileNode>)
    requires
        parents_precede(nodes),
    ensures
        roots_inclusive(nodes, 0) == self_total(nodes, nodes.len() as int),
{
    lemma_partial_roots(nodes, 0);
}

proof fn lemma_no_roots_from(nodes: Seq<ProfileNode>, k: int)
    requires
        1 <= k <= nodes.len(),
        forall|i: int| 1 <= i < nodes.len() ==> (#[trigger] nodes[i]).parent is Some,
    ensures
        roots_inclusive(nodes, k) == 0,
    decreases nodes.len() - k,
{
    if k < nodes.len() {
        lemma_no_roots_from(nodes, k + 1);
    }
}

/// With a single root, the root's inclusive size is the total of all self
/// sizes (the call tree's 100% line).
pub proof fn lemma_root_is_total(nodes: Seq<ProfileNode>)
    requires
        parents_precede(nodes),
        nodes.len() >= 1,
        forall|i: int| 1 <= i < nodes.len() ==> (#[trigger] nodes[i]).parent is Some,
    ensures
        inclusive(nodes, 0) == self_total(nodes, nodes.len() as int),
{
    lemma_roots_cover_total(nodes);
    lemma_no_roots_from(nodes, 1);
    assert(nodes[0].parent is None) by {
        assert(match nodes[0].parent {
            Some(p) => p < 0,
            None => true,
        });
    }
}

/// Under a focus pattern, a frame that the hide pattern leaves alone passes
/// when the pattern matches its whole label, `function @ url:line` (the
/// function `(anonymous)` when unnamed, the URL as recorded, the line
/// counted from one), and it is then shown.
pub proof fn lemma_focus_matches_label(
    nodes: Seq<ProfileNode>,
    url: Option<Seq<char>>,
    focus: Option<Seq<char>>,
    hide: Option<Seq<char>>,
    i: int,
)
    requires
        0 <= i < nodes.len(),
        filter_active(focus),
        !(filter_active(hide) && regex_is_match(hide.unwrap(), nodes[i].function_name@)),
        regex_is_match(
            focus.unwrap(),
            (if nodes[i].function_name@.len() == 0 {
                "(anonymous)"@
            } else {
                nodes[i].function_name@
            }) + " @ "@ + nodes[i].url@ + ":"@ + signed_decimal(nodes[i].line_number + 1),
        ),
    ensures
        node_passes(nodes[i], url, focus, hide),
        passing_flags(nodes, url, focus, hide)[i],
        shown_below(nodes, passing_flags(nodes, url, focus, hide), i),
{
}

/// Under a focus pattern, a frame whose label, URL-filter and hide checks
/// all fail is not shown for itself: with no descendant shown it is hidden
/// from the tree.
pub proof fn lemma_focus_misses_label(
    nodes: Seq<ProfileNode>,
    focus: Option<Seq<char>>,
    hide: Option<Seq<char>>,
    i: int,
)
    requires
        0 <= i < nodes.len(),
        filter_active(focus),
        !regex_is_match(
            focus.unwrap(),
            (if nodes[i].function_name@.len() == 0 {
                "(anonymous)"@
            } else {
                nodes[i].function_name@
            }) + " @ "@ + nodes[i].url@ + ":"@ + signed_decimal(nodes[i].line_number + 1),
        ),
    ensures
        !node_passes(nodes[i], None, focus, hide),
{
}

proof fn lemma_child_shown_from(nodes: Seq<ProfileNode>, flags: Seq<bool>, p: int, x: int, c: int)
    requires
        0 <= x <= c < nodes.len(),
        is_child(nodes, c, p),
        shown_below(nodes, flags, c),
    ensures
        child_shown(nodes, flags, p, x),
    decreases c - x,
{
    if x < c {
        lemma_child_shown_from(nodes, flags, p, x + 1, c);
    }
}

/// A shown frame keeps its parent shown: the path from the root to every
/// shown frame stays in the tree.
pub proof fn lemma_shown_parent(nodes: Seq<ProfileNode>, flags: Seq<bool>, c: int, p: usize)
    requires
        parents_precede(nodes),
        0 <= c < nodes.len(),
        nodes[c].parent == Some(p),
        shown_below(nodes, flags, c),
    ensures
        shown_below(nodes, flags, p as int),
{
    assert(match nodes[c].parent {
        Some(q) => q < c,
        None => true,
    });
    lemma_child_shown_from(nodes, flags, p as int, p + 1, c);
}

} // verus!
