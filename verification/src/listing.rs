//! Sampled locations of a `.heapprofile` grouped by script URL, then by
//! line (`list`): each URL with its bytes, each of its lines with its
//! bytes, its frame count and the names of the functions sampled there.

use vstd::prelude::*;
use crate::grouping::{group_by_label, grouped, total_weight, TypeSummary};
use crate::pattern::{compile_filter, filter_active, is_match, opt_view, regex_is_match};
use crate::profile::{iota, signed_decimal, FlatCallFrame};
use crate::summary::{lemma_grouped_distinct, top_entries, top_passing};
use crate::text::{push_decimal, str_eq};
use crate::types::Error;

verus! {

/// One line of a script: the line number counted from one, as text, its
/// bytes, how many sampled frames sit on it, and the names of their
/// functions (distinct, in order).
pub struct LineEntry {
    pub line: String,
    pub size: u64,
    pub count: usize,
    pub functions: Vec<String>,
}

/// One script URL: its bytes and its lines, largest first.
pub struct UrlEntry {
    pub url: String,
    pub size: u64,
    pub lines: Vec<LineEntry>,
}

/// The sampled bytes that pass the filter, and the largest URLs.
pub struct ListView {
    pub total_size: u64,
    pub urls: Vec<UrlEntry>,
}

/// Frame `f` passes the filter: there is no usable pattern, or it matches
/// the frame's URL or function name.
pub open spec fn list_passes(filter: Option<Seq<char>>, f: FlatCallFrame) -> bool {
    !filter_active(filter) || regex_is_match(filter.unwrap(), f.url@) || regex_is_match(filter.unwrap(), f.function_name@)
}

/// The bytes of each frame.
pub open spec fn frame_sizes(frames: Seq<FlatCallFrame>) -> Seq<u64> {
    Seq::new(frames.len(), |r: int| frames[r].self_size)
}

/// The line number of a frame counted from one, as text.
pub open spec fn line_text(f: FlatCallFrame) -> Seq<char> {
    signed_decimal(f.line_number + 1)
}

/// Which frames pass the filter.
pub open spec fn passing(frames: Seq<FlatCallFrame>, filter: Option<Seq<char>>) -> Seq<bool> {
    Seq::new(frames.len(), |r: int| list_passes(filter, frames[r]))
}

/// Which frames pass the filter and come from URL `u`.
pub open spec fn in_url(frames: Seq<FlatCallFrame>, filter: Option<Seq<char>>, u: Seq<char>) -> Seq<bool> {
    Seq::new(frames.len(), |r: int| list_passes(filter, frames[r]) && frames[r].url@ == u)
}

/// Which frames pass the filter and sit on line `l` of URL `u`.
pub open spec fn in_line(frames: Seq<FlatCallFrame>, filter: Option<Seq<char>>, u: Seq<char>, l: Seq<char>) -> Seq<bool> {
    Seq::new(frames.len(), |r: int| list_passes(filter, frames[r]) && frames[r].url@ == u && line_text(frames[r]) == l)
}

/// `t` holds each frame's URL.
pub open spec fn url_table(frames: Seq<FlatCallFrame>, t: Seq<String>) -> bool {
    &&& t.len() == frames.len()
    &&& forall|r: int| 0 <= r < t.len() ==> (#[trigger] t[r])@ == frames[r].url@
}

/// `t` holds each frame's line text.
pub open spec fn line_table(frames: Seq<FlatCallFrame>, t: Seq<String>) -> bool {
    &&& t.len() == frames.len()
    &&& forall|r: int| 0 <= r < t.len() ==> (#[trigger] t[r])@ == line_text(frames[r])
}

/// `t` holds each frame's function name.
pub open spec fn fn_table(frames: Seq<FlatCallFrame>, t: Seq<String>) -> bool {
    &&& t.len() == frames.len()
    &&& forall|r: int| 0 <= r < t.len() ==> (#[trigger] t[r])@ == frames[r].function_name@
}

/// `x` is the line `le` (a group of the frames of URL `u` by line text): its
/// text, bytes and count, and the function names of its frames, grouped.
pub open spec fn line_entry_of(frames: Seq<FlatCallFrame>, filter: Option<Seq<char>>, u: Seq<char>, le: (String, TypeSummary), x: LineEntry) -> bool {
    &&& x.line@ == le.0@
    &&& x.size == le.1.size
    &&& x.count == le.1.count
    &&& exists|ft: Seq<String>, fg: Seq<(String, TypeSummary)>| {
        &&& #[trigger] fn_table(frames, ft)
        &&& #[trigger] grouped(iota(frames.len() as int), frame_sizes(frames), in_line(frames, filter, u, le.0@), ft, Seq::empty(), Seq::empty(), fg)
        &&& x.functions@.len() == fg.len()
        &&& forall|m: int| 0 <= m < fg.len() ==> (#[trigger] x.functions@[m])@ == fg[m].0@
    }
}

/// `e` is the URL `ue` (a group of the passing frames by URL): its bytes,
/// and its frames grouped by line, largest first.
pub open spec fn url_entry_of(frames: Seq<FlatCallFrame>, filter: Option<Seq<char>>, ue: (String, TypeSummary), e: UrlEntry) -> bool {
    &&& e.url@ == ue.0@
    &&& e.size == ue.1.size
    &&& exists|lt: Seq<String>, lg: Seq<(String, TypeSummary)>, lr: Seq<(String, TypeSummary)>| {
        &&& #[trigger] line_table(frames, lt)
        &&& #[trigger] grouped(iota(frames.len() as int), frame_sizes(frames), in_url(frames, filter, ue.0@), lt, Seq::empty(), Seq::empty(), lg)
        &&& #[trigger] top_entries(lg, None, usize::MAX, lr)
        &&& e.lines@.len() == lr.len()
        &&& forall|j: int| 0 <= j < lr.len() ==> line_entry_of(frames, filter, ue.0@, lr[j], #[trigger] e.lines@[j])
    }
}

/// `v` lists `frames` (`list`): the bytes of the frames that pass the
/// filter, and those frames grouped by URL, the `top` largest first, each
/// with its lines.
pub open spec fn list_view_of(frames: Seq<FlatCallFrame>, filter: Option<Seq<char>>, top: usize, v: ListView) -> bool {
    &&& v.total_size == total_weight(frame_sizes(frames), passing(frames, filter), frames.len() as int)
    &&& exists|ut: Seq<String>, g: Seq<(String, TypeSummary)>, ranked: Seq<(String, TypeSummary)>| {
        &&& #[trigger] url_table(frames, ut)
        &&& #[trigger] grouped(iota(frames.len() as int), frame_sizes(frames), passing(frames, filter), ut, Seq::empty(), Seq::empty(), g)
        &&& #[trigger] top_entries(g, None, top, ranked)
        &&& v.urls@.len() == ranked.len()
        &&& forall|k: int| 0 <= k < ranked.len() ==> url_entry_of(frames, filter, ranked[k], #[trigger] v.urls@[k])
    }
}

/// Every frame counted: the bytes of all frames.
pub open spec fn all_frames(n: nat) -> Seq<bool> {
    Seq::new(n, |i: int| true)
}

proof fn lemma_subset_weight(w: Seq<u64>, c: Seq<bool>, k: int)
    requires
        k <= w.len(),
        k <= c.len(),
    ensures
        total_weight(w, c, k) <= total_weight(w, all_frames(w.len()), k),
    decreases k,
{
    if k > 0 {
        lemma_subset_weight(w, c, k - 1);
    }
}

/// The line number counted from one, as text.
fn line_string(line: i32) -> (s: String)
    ensures
        s@ == signed_decimal(line + 1),
{
    let mut s = String::new();
    let l: i64 = line as i64 + 1;
    if l < 0 {
        s.append("-");
        push_decimal(&mut s, (-l) as u64);
    } else {
        push_decimal(&mut s, l as u64);
    }
    proof {
        reveal_strlit("-");
        reveal_strlit("");
    }
    s
}

/// The names of the groups.
fn group_names(g: &Vec<(String, TypeSummary)>) -> (out: Vec<String>)
    ensures
        out@.len() == g@.len(),
        forall|m: int| 0 <= m < g@.len() ==> (#[trigger] out@[m])@ == g@[m].0@,
{
    let mut out: Vec<String> = Vec::new();
    let mut m: usize = 0;
    while m < g.len()
        invariant
            m <= g@.len(),
            out@.len() == m,
            forall|x: int| 0 <= x < m ==> (#[trigger] out@[x])@ == g@[x].0@,
        decreases g@.len() - m,
    {
        out.push(g[m].0.clone());
        m += 1;
    }
    out
}

/// A tables-and-flags bundle is in order for `frames`.
pub open spec fn tables_of(
    frames: Seq<FlatCallFrame>,
    filter: Option<Seq<char>>,
    ids: Seq<u32>,
    sizes: Seq<u64>,
    pass: Seq<bool>,
    urls: Seq<String>,
    lines: Seq<String>,
    fns: Seq<String>,
) -> bool {
    &&& frames.len() <= u32::MAX
    &&& ids == iota(frames.len() as int)
    &&& sizes == frame_sizes(frames)
    &&& pass == passing(frames, filter)
    &&& url_table(frames, urls)
    &&& line_table(frames, lines)
    &&& fn_table(frames, fns)
    &&& total_weight(frame_sizes(frames), all_frames(frames.len()), frames.len() as int) <= u64::MAX
}

/// The entry of line `le` of URL `u`.
fn line_entry(
    ids: &Vec<u32>,
    sizes: &Vec<u64>,
    pass: &Vec<bool>,
    urls: &Vec<String>,
    lines: &Vec<String>,
    fns: &Vec<String>,
    u: &String,
    le: &(String, TypeSummary),
    frames: Ghost<Seq<FlatCallFrame>>,
    filter: Ghost<Option<Seq<char>>>,
) -> (x: LineEntry)
    requires
        tables_of(frames@, filter@, ids@, sizes@, pass@, urls@, lines@, fns@),
    ensures
        line_entry_of(frames@, filter@, u@, *le, x),
{
    let n = ids.len();
    let ghost fr = frames@;
    let mut flags: Vec<bool> = Vec::new();
    let mut r: usize = 0;
    while r < n
        invariant
            r <= n,
            n == fr.len(),
            tables_of(fr, filter@, ids@, sizes@, pass@, urls@, lines@, fns@),
            flags@.len() == r,
            forall|x: int| 0 <= x < r ==> #[trigger] flags@[x] == in_line(fr, filter@, u@, le.0@)[x],
        decreases n - r,
    {
        let hit = pass[r] && str_eq(urls[r].as_str(), u.as_str()) && str_eq(lines[r].as_str(), le.0.as_str());
        proof {
            assert(urls@[r as int]@ == fr[r as int].url@);
            assert(lines@[r as int]@ == line_text(fr[r as int]));
        }
        flags.push(hit);
        r += 1;
    }
    proof {
        assert(flags@ =~= in_line(fr, filter@, u@, le.0@));
        lemma_subset_weight(sizes@, flags@, n as int);
        reveal_strlit("");
    }
    let fg = group_by_label(ids, sizes, &flags, fns, "", "");
    let functions = group_names(&fg);
    let x = LineEntry { line: le.0.clone(), size: le.1.size, count: le.1.count, functions };
    proof {
        assert(""@ =~= Seq::<char>::empty());
        assert(fn_table(fr, fns@) && grouped(iota(fr.len() as int), frame_sizes(fr), in_line(fr, filter@, u@, le.0@), fns@, Seq::empty(), Seq::empty(), fg@));
    }
    x
}

/// The entry of URL `ue`, with its lines.
fn url_entry(
    ids: &Vec<u32>,
    sizes: &Vec<u64>,
    pass: &Vec<bool>,
    urls: &Vec<String>,
    lines: &Vec<String>,
    fns: &Vec<String>,
    ue: &(String, TypeSummary),
    frames: Ghost<Seq<FlatCallFrame>>,
    filter: Ghost<Option<Seq<char>>>,
) -> (e: UrlEntry)
    requires
        tables_of(frames@, filter@, ids@, sizes@, pass@, urls@, lines@, fns@),
    ensures
        url_entry_of(frames@, filter@, *ue, e),
{
    let n = ids.len();
    let ghost fr = frames@;
    let mut flags: Vec<bool> = Vec::new();
    let mut r: usize = 0;
    while r < n
        invariant
            r <= n,
            n == fr.len(),
            tables_of(fr, filter@, ids@, sizes@, pass@, urls@, lines@, fns@),
            flags@.len() == r,
            forall|x: int| 0 <= x < r ==> #[trigger] flags@[x] == in_url(fr, filter@, ue.0@)[x],
        decreases n - r,
    {
        let hit = pass[r] && str_eq(urls[r].as_str(), ue.0.as_str());
        proof {
            assert(urls@[r as int]@ == fr[r as int].url@);
        }
        flags.push(hit);
        r += 1;
    }
    proof {
        assert(flags@ =~= in_url(fr, filter@, ue.0@));
        lemma_subset_weight(sizes@, flags@, n as int);
        reveal_strlit("");
    }
    let lg = group_by_label(ids, sizes, &flags, lines, "", "");
    proof {
        assert(""@ =~= Seq::<char>::empty());
        lemma_grouped_distinct(ids@, sizes@, flags@, lines@, Seq::empty(), Seq::empty(), lg@);
    }
    let lr = top_passing(&lg, usize::MAX, None);
    proof {
        assert(opt_view(None) == None::<Seq<char>>);
    }
    let u = ue.0.clone();
    let mut out: Vec<LineEntry> = Vec::new();
    let mut j: usize = 0;
    while j < lr.len()
        invariant
            j <= lr@.len(),
            n == fr.len(),
            u@ == ue.0@,
            tables_of(fr, filter@, ids@, sizes@, pass@, urls@, lines@, fns@),
            out@.len() == j,
            forall|x: int| 0 <= x < j ==> line_entry_of(fr, filter@, ue.0@, lr@[x], #[trigger] out@[x]),
        decreases lr@.len() - j,
    {
        let x = line_entry(ids, sizes, pass, urls, lines, fns, &u, &lr[j], Ghost(fr), Ghost(filter@));
        out.push(x);
        j += 1;
    }
    let e = UrlEntry { url: u, size: ue.1.size, lines: out };
    proof {
        assert(line_table(fr, lines@) && grouped(iota(fr.len() as int), frame_sizes(fr), in_url(fr, filter@, ue.0@), lines@, Seq::empty(), Seq::empty(), lg@)
            && top_entries(lg@, None, usize::MAX, lr@));
        assert forall|x: int| 0 <= x < lr@.len() implies line_entry_of(fr, filter@, ue.0@, lr@[x], #[trigger] e.lines@[x]) by {}
    }
    e
}

/// Sampled locations grouped by URL and line (`list`): the frames that
/// pass `filter` (matched against URL and function name; an invalid
/// pattern filters nothing), the `top` URLs with the most bytes, each with
/// all its lines by bytes. More than 2^32 - 1 frames, or bytes that do not
/// fit in 64 bits, are refused.
pub fn list_view(frames: &Vec<FlatCallFrame>, filter: Option<&str>, top: usize) -> (r: Result<ListView, Error>)
    ensures
        r is Err <==> frames@.len() > u32::MAX || total_weight(frame_sizes(frames@), all_frames(frames@.len()), frames@.len() as int)
            > u64::MAX,
        r matches Err(e) ==> e == Error::SizeOverflow,
        r matches Ok(v) ==> list_view_of(frames@, opt_view(filter), top, v),
{
    let n = frames.len();
    if n > 0xffff_ffff {
        return Err(Error::SizeOverflow);
    }
    let re = compile_filter(filter);
    let ghost fr = frames@;
    let ghost fl = opt_view(filter);
    let mut ids: Vec<u32> = Vec::new();
    let mut sizes: Vec<u64> = Vec::new();
    let mut pass: Vec<bool> = Vec::new();
    let mut urls: Vec<String> = Vec::new();
    let mut lines: Vec<String> = Vec::new();
    let mut fns: Vec<String> = Vec::new();
    let mut all: u64 = 0;
    let mut total: u64 = 0;
    let mut r: usize = 0;
    while r < n
        invariant
            r <= n,
            fr == frames@,
            n == fr.len(),
            n <= u32::MAX,
            re is Some <==> filter_active(fl),
            re matches Some(p) ==> fl == Some(p.source()),
            ids@.len() == r,
            sizes@.len() == r,
            pass@.len() == r,
            urls@.len() == r,
            lines@.len() == r,
            fns@.len() == r,
            forall|x: int| 0 <= x < r ==> #[trigger] ids@[x] == x as u32,
            forall|x: int| 0 <= x < r ==> #[trigger] sizes@[x] == fr[x].self_size,
            forall|x: int| 0 <= x < r ==> #[trigger] pass@[x] == list_passes(fl, fr[x]),
            forall|x: int| 0 <= x < r ==> (#[trigger] urls@[x])@ == fr[x].url@,
            forall|x: int| 0 <= x < r ==> (#[trigger] lines@[x])@ == line_text(fr[x]),
            forall|x: int| 0 <= x < r ==> (#[trigger] fns@[x])@ == fr[x].function_name@,
            all == total_weight(frame_sizes(fr), all_frames(n as nat), r as int),
            total == total_weight(frame_sizes(fr), passing(fr, fl), r as int),
            total <= all,
        decreases n - r,
    {
        let f = &frames[r];
        let ok = match &re {
            Some(p) => is_match(p, f.url.as_str()) || is_match(p, f.function_name.as_str()),
            None => true,
        };
        let a = match all.checked_add(f.self_size) {
            Some(a) => a,
            None => {
                proof {
                    assert(total_weight(frame_sizes(fr), all_frames(n as nat), r + 1) > u64::MAX);
                    crate::grouping::lemma_total_weight_mono(frame_sizes(fr), all_frames(n as nat), r + 1, n as int);
                }
                return Err(Error::SizeOverflow);
            },
        };
        all = a;
        if ok {
            total = total + f.self_size;
        }
        ids.push(r as u32);
        sizes.push(f.self_size);
        pass.push(ok);
        urls.push(f.url.clone());
        lines.push(line_string(f.line_number));
        fns.push(f.function_name.clone());
        r += 1;
    }
    proof {
        assert(ids@ =~= iota(n as int));
        assert(sizes@ =~= frame_sizes(fr));
        assert(pass@ =~= passing(fr, fl));
        lemma_subset_weight(sizes@, pass@, n as int);
        reveal_strlit("");
        assert(""@ =~= Seq::<char>::empty());
        assert(tables_of(fr, fl, ids@, sizes@, pass@, urls@, lines@, fns@));
    }
    let g = group_by_label(&ids, &sizes, &pass, &urls, "", "");
    proof {
        lemma_grouped_distinct(ids@, sizes@, pass@, urls@, Seq::empty(), Seq::empty(), g@);
    }
    let ranked = top_passing(&g, top, None);
    proof {
        assert(opt_view(None) == None::<Seq<char>>);
    }
    let mut out: Vec<UrlEntry> = Vec::new();
    let mut k: usize = 0;
    while k < ranked.len()
        invariant
            k <= ranked@.len(),
            tables_of(fr, fl, ids@, sizes@, pass@, urls@, lines@, fns@),
            out@.len() == k,
            forall|x: int| 0 <= x < k ==> url_entry_of(fr, fl, ranked@[x], #[trigger] out@[x]),
        decreases ranked@.len() - k,
    {
        let e = url_entry(&ids, &sizes, &pass, &urls, &lines, &fns, &ranked[k], Ghost(fr), Ghost(fl));
        out.push(e);
        k += 1;
    }
    let v = ListView { total_size: total, urls: out };
    proof {
        assert(url_table(fr, urls@) && grouped(iota(fr.len() as int), frame_sizes(fr), passing(fr, fl), urls@, Seq::empty(), Seq::empty(), g@)
            && top_entries(g@, None, top, ranked@));
        assert forall|x: int| 0 <= x < ranked@.len() implies url_entry_of(fr, fl, ranked@[x], #[trigger] v.urls@[x]) by {}
    }
    Ok(v)
}

} // verus!
