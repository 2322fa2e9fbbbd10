//! The commands of the interactive snapshot session: one line is read as a
//! verb and its argument text, and decoded into the query to run.

use vstd::prelude::*;
use crate::cli::{parse_usize, parse_usize_spec};
use crate::text::{chars_eq, chars_of, string_from_chars};

verus! {

/// A decoded session command.
#[derive(Debug, Clone, PartialEq, Eq)]
pub enum SessionCommand {
    Help,
    Summary,
    /// The `limit` largest retained sizes, exactly computed when `exact`.
    Top { limit: usize, exact: bool },
    /// Nodes whose name contains the text.
    Find(String),
    /// A node's properties.
    Props(usize),
    /// A node's retainers.
    Retainers(usize),
    Detached,
}

/// Why a session line was refused.
#[derive(Debug, Clone, PartialEq, Eq)]
pub enum SessionError {
    /// `find` without a name.
    NameRequired,
    /// `props` or `retainers` without an index.
    IndexRequired,
    /// The index is not a number.
    InvalidIndex,
    /// Not a known verb.
    UnknownCommand(String),
}

/// Unicode white space, as `char::is_whitespace` tests it.
pub open spec fn is_space(c: char) -> bool {
    ||| '\t' <= c <= '\r'
    ||| c == ' '
    ||| c == '\u{85}'
    ||| c == '\u{a0}'
    ||| c == '\u{1680}'
    ||| '\u{2000}' <= c <= '\u{200a}'
    ||| c == '\u{2028}'
    ||| c == '\u{2029}'
    ||| c == '\u{202f}'
    ||| c == '\u{205f}'
    ||| c == '\u{3000}'
}

/// `char::is_whitespace`.
pub fn space_char(c: char) -> (b: bool)
    ensures
        b == is_space(c),
{
    ('\t' <= c && c <= '\r') || c == ' ' || c == '\u{85}' || c == '\u{a0}' || c == '\u{1680}' || ('\u{2000}' <= c
        && c <= '\u{200a}') || c == '\u{2028}' || c == '\u{2029}' || c == '\u{202f}' || c == '\u{205f}' || c
        == '\u{3000}'
}

/// Position of the first white space at or after `i` (the length if none).
pub open spec fn next_space(s: Seq<char>, i: int) -> int
    decreases s.len() - i,
{
    if i < 0 || i >= s.len() {
        s.len() as int
    } else if is_space(s[i]) {
        i
    } else {
        next_space(s, i + 1)
    }
}

/// Position of the first non-space at or after `i` (the length if none).
pub open spec fn next_word(s: Seq<char>, i: int) -> int
    decreases s.len() - i,
{
    if i < 0 || i >= s.len() {
        s.len() as int
    } else if !is_space(s[i]) {
        i
    } else {
        next_word(s, i + 1)
    }
}

/// End of `s` without its trailing white space.
pub open spec fn trim_end(s: Seq<char>, e: int) -> int
    decreases e,
{
    if e <= 0 {
        0
    } else if is_space(s[e - 1]) {
        trim_end(s, e - 1)
    } else {
        e
    }
}

/// `s` without leading and trailing white space (`str::trim`).
pub open spec fn trimmed(s: Seq<char>) -> Seq<char> {
    let a = next_word(s, 0);
    if a >= s.len() {
        Seq::empty()
    } else {
        s.subrange(a, trim_end(s, s.len() as int))
    }
}

/// The verb: the text before the first white space.
pub open spec fn verb_of(s: Seq<char>) -> Seq<char> {
    s.subrange(0, next_space(s, 0))
}

/// The argument text: what follows the first white space, trimmed.
pub open spec fn rest_of(s: Seq<char>) -> Seq<char> {
    let v = next_space(s, 0);
    if v >= s.len() {
        Seq::empty()
    } else {
        trimmed(s.subrange(v + 1, s.len() as int))
    }
}

/// The white-space separated words of `s` from `i` on.
pub open spec fn words_from(s: Seq<char>, i: int) -> Seq<Seq<char>>
    decreases s.len() - i,
{
    let a = next_word(s, i);
    if i < 0 || a >= s.len() {
        Seq::empty()
    } else {
        let b = next_space(s, a);
        if b <= i || b > s.len() {
            Seq::empty()
        } else {
            seq![s.subrange(a, b)] + words_from(s, b)
        }
    }
}

/// The limit of `top`: its first word as a number, else 20.
pub open spec fn top_limit(words: Seq<Seq<char>>) -> usize {
    if words.len() > 0 && parse_usize_spec(words[0]) is Some {
        parse_usize_spec(words[0]).unwrap()
    } else {
        20
    }
}

/// The node index of `props` and `retainers` (`parse_index`): the first
/// word of the argument text as a number.
pub open spec fn index_arg(words: Seq<Seq<char>>) -> Result<usize, SessionError> {
    if words.len() == 0 {
        Err(SessionError::IndexRequired)
    } else if parse_usize_spec(words[0]) is None {
        Err(SessionError::InvalidIndex)
    } else {
        Ok(parse_usize_spec(words[0]).unwrap())
    }
}

proof fn lemma_next_space(s: Seq<char>, i: int)
    requires
        0 <= i <= s.len(),
    ensures
        i <= next_space(s, i) <= s.len(),
        forall|k: int| i <= k < next_space(s, i) ==> !is_space(#[trigger] s[k]),
        next_space(s, i) < s.len() ==> is_space(s[next_space(s, i)]),
    decreases s.len() - i,
{
    if i < s.len() && !is_space(s[i]) {
        lemma_next_space(s, i + 1);
    }
}

proof fn lemma_next_word(s: Seq<char>, i: int)
    requires
        0 <= i <= s.len(),
    ensures
        i <= next_word(s, i) <= s.len(),
        forall|k: int| i <= k < next_word(s, i) ==> is_space(#[trigger] s[k]),
        next_word(s, i) < s.len() ==> !is_space(s[next_word(s, i)]),
    decreases s.len() - i,
{
    if i < s.len() && is_space(s[i]) {
        lemma_next_word(s, i + 1);
    }
}

proof fn lemma_trim_end(s: Seq<char>, e: int)
    requires
        0 <= e <= s.len(),
    ensures
        0 <= trim_end(s, e) <= e,
        forall|k: int| trim_end(s, e) <= k < e ==> is_space(#[trigger] s[k]),
        trim_end(s, e) > 0 ==> !is_space(s[trim_end(s, e) - 1]),
    decreases e,
{
    if e > 0 && is_space(s[e - 1]) {
        lemma_trim_end(s, e - 1);
    }
}

/// The white-space separated words of `s` (`split_whitespace`).
fn split_words(s: &[char]) -> (out: Vec<Vec<char>>)
    ensures
        out@.len() == words_from(s@, 0).len(),
        forall|k: int| 0 <= k < out@.len() ==> (#[trigger] out@[k])@ == words_from(s@, 0)[k],
{
    let n = s.len();
    let mut out: Vec<Vec<char>> = Vec::new();
    let mut i: usize = 0;
    let ghost whole = words_from(s@, 0);
    loop
        invariant
            i <= n,
            n == s@.len(),
            whole == words_from(s@, 0),
            out@.len() + words_from(s@, i as int).len() == whole.len(),
            forall|k: int| 0 <= k < out@.len() ==> (#[trigger] out@[k])@ == whole[k],
            forall|k: int| 0 <= k < words_from(s@, i as int).len() ==> #[trigger] words_from(s@, i as int)[k] == whole[out@.len() + k],
        decreases n - i,
    {
        proof {
            lemma_next_word(s@, i as int);
        }
        let ghost i0 = i as int;
        while i < n && space_char(s[i])
            invariant
                i0 <= i <= n,
                n == s@.len(),
                next_word(s@, i as int) == next_word(s@, i0),
            decreases n - i,
        {
            i += 1;
        }
        if i >= n {
            return out;
        }
        let a = i;
        proof {
            lemma_next_space(s@, a as int);
        }
        let mut w: Vec<char> = Vec::new();
        while i < n && !space_char(s[i])
            invariant
                a <= i <= n,
                n == s@.len(),
                next_space(s@, i as int) == next_space(s@, a as int),
                w@ == s@.subrange(a as int, i as int),
            decreases n - i,
        {
            w.push(s[i]);
            i += 1;
        }
        proof {
            let rest = words_from(s@, i as int);
            assert(words_from(s@, i0) == seq![s@.subrange(a as int, i as int)] + rest);
            assert forall|k: int| 0 <= k < rest.len() implies #[trigger] rest[k] == whole[out@.len() + 1 + k] by {
                assert(words_from(s@, i0)[k + 1] == rest[k]);
            }
            assert(words_from(s@, i0)[0] == w@);
        }
        out.push(w);
    }
}

/// Decodes one session line (`execute`'s dispatch and `parse_index`):
/// the verb before the first white space, the trimmed text after it.
pub fn parse_session_command(command: &str) -> (res: Result<SessionCommand, SessionError>)
    ensures
        verb_of(command@) == "help"@ ==> res == Ok::<SessionCommand, SessionError>(SessionCommand::Help),
        verb_of(command@) == "summary"@ ==> res == Ok::<SessionCommand, SessionError>(SessionCommand::Summary),
        verb_of(command@) == "detached"@ ==> res == Ok::<SessionCommand, SessionError>(SessionCommand::Detached),
        verb_of(command@) == "top"@ ==> res == Ok::<SessionCommand, SessionError>(SessionCommand::Top {
            limit: top_limit(words_from(rest_of(command@), 0)),
            exact: words_from(rest_of(command@), 0).contains("--exact"@),
        }),
        verb_of(command@) == "find"@ ==> (rest_of(command@).len() == 0 ==> res == Err::<SessionCommand, SessionError>(
            SessionError::NameRequired,
        )) && (rest_of(command@).len() > 0 ==> (res matches Ok(SessionCommand::Find(n)) && n@ == rest_of(command@))),
        verb_of(command@) == "props"@ ==> match index_arg(words_from(rest_of(command@), 0)) {
            Ok(i) => res == Ok::<SessionCommand, SessionError>(SessionCommand::Props(i)),
            Err(e) => res == Err::<SessionCommand, SessionError>(e),
        },
        verb_of(command@) == "retainers"@ ==> match index_arg(words_from(rest_of(command@), 0)) {
            Ok(i) => res == Ok::<SessionCommand, SessionError>(SessionCommand::Retainers(i)),
            Err(e) => res == Err::<SessionCommand, SessionError>(e),
        },
        !(verb_of(command@) == "help"@ || verb_of(command@) == "summary"@ || verb_of(command@) == "detached"@
            || verb_of(command@) == "top"@ || verb_of(command@) == "find"@ || verb_of(command@) == "props"@
            || verb_of(command@) == "retainers"@) ==> (res matches Err(SessionError::UnknownCommand(v)) && v@ == verb_of(
            command@,
        )),
{
    let cs = chars_of(command);
    let n = cs.len();
    proof {
        lemma_next_space(cs@, 0);
    }
    let mut v: usize = 0;
    while v < n && !space_char(cs[v])
        invariant
            v <= n,
            n == cs@.len(),
            next_space(cs@, v as int) == next_space(cs@, 0),
        decreases n - v,
    {
        v += 1;
    }
    let verb = &cs.as_slice()[0..v];
    proof {
        assert(verb@ == verb_of(command@));
    }
    let mut rest: Vec<char> = Vec::new();
    if v < n {
        let tail = &cs.as_slice()[v + 1..n];
        let ghost t = tail@;
        proof {
            assert(t == command@.subrange(v + 1, command@.len() as int));
            lemma_next_word(t, 0);
            lemma_trim_end(t, t.len() as int);
        }
        let tn = tail.len();
        let mut a: usize = 0;
        while a < tn && space_char(tail[a])
            invariant
                a <= tn,
                tn == t.len(),
                tail@ == t,
                next_word(t, a as int) == next_word(t, 0),
            decreases tn - a,
        {
            a += 1;
        }
        if a < tn {
            let mut e: usize = tn;
            while e > 0 && space_char(tail[e - 1])
                invariant
                    e <= tn,
                    tn == t.len(),
                    tail@ == t,
                    trim_end(t, e as int) == trim_end(t, tn as int),
                decreases e,
            {
                e -= 1;
            }
            proof {
                assert(!is_space(t[a as int]));
                assert(e > a);
            }
            let mut k: usize = a;
            while k < e
                invariant
                    a <= k <= e,
                    e <= tn,
                    tn == t.len(),
                    tail@ == t,
                    rest@ == t.subrange(a as int, k as int),
                decreases e - k,
            {
                rest.push(tail[k]);
                k += 1;
            }
        }
        proof {
            assert(rest@ == rest_of(command@));
        }
    } else {
        proof {
            assert(rest@ == rest_of(command@));
        }
    }
    proof {
        reveal_strlit("help");
        reveal_strlit("summary");
        reveal_strlit("detached");
        reveal_strlit("top");
        reveal_strlit("find");
        reveal_strlit("props");
        reveal_strlit("retainers");
        reveal_strlit("--exact");
        assert("help"@[0] != "find"@[0]);
        assert("help"@ != "find"@);
    }
    if chars_eq(verb, chars_of("help").as_slice()) {
        Ok(SessionCommand::Help)
    } else if chars_eq(verb, chars_of("summary").as_slice()) {
        Ok(SessionCommand::Summary)
    } else if chars_eq(verb, chars_of("detached").as_slice()) {
        Ok(SessionCommand::Detached)
    } else if chars_eq(verb, chars_of("top").as_slice()) {
        let words = split_words(rest.as_slice());
        let limit = if words.len() > 0 {
            match parse_usize(string_from_chars(words[0].as_slice()).as_str()) {
                Some(l) => l,
                None => 20,
            }
        } else {
            20
        };
        let flag = chars_of("--exact");
        let mut exact = false;
        let mut j: usize = 0;
        while j < words.len()
            invariant
                j <= words@.len(),
                flag@ == "--exact"@,
                words@.len() == words_from(rest@, 0).len(),
                forall|k: int| 0 <= k < words@.len() ==> (#[trigger] words@[k])@ == words_from(rest@, 0)[k],
                exact == (exists|k: int| 0 <= k < j && words_from(rest@, 0)[k] == "--exact"@),
            decreases words@.len() - j,
        {
            if chars_eq(words[j].as_slice(), flag.as_slice()) {
                exact = true;
            }
            j += 1;
        }
        proof {
            let ws = words_from(rest@, 0);
            if exact {
                let k = choose|k: int| 0 <= k < j && ws[k] == "--exact"@;
                assert(ws.contains("--exact"@));
            } else {
                assert(!ws.contains("--exact"@)) by {
                    if ws.contains("--exact"@) {
                        let k = choose|k: int| 0 <= k < ws.len() && ws[k] == "--exact"@;
                        assert(ws[k] == "--exact"@);
                    }
                }
            }
        }
        Ok(SessionCommand::Top { limit, exact })
    } else if chars_eq(verb, chars_of("find").as_slice()) {
        if rest.len() == 0 {
            Err(SessionError::NameRequired)
        } else {
            let name = string_from_chars(rest.as_slice());
            proof {
                assert(name@ == rest_of(command@));
                assert(verb@ == "find"@);
            }
            Ok(SessionCommand::Find(name))
        }
    } else if chars_eq(verb, chars_of("props").as_slice()) || chars_eq(verb, chars_of("retainers").as_slice()) {
        let is_props = chars_eq(verb, chars_of("props").as_slice());
        let words = split_words(rest.as_slice());
        if words.len() == 0 {
            return Err(SessionError::IndexRequired);
        }
        match parse_usize(string_from_chars(words[0].as_slice()).as_str()) {
            Some(i) => if is_props {
                Ok(SessionCommand::Props(i))
            } else {
                Ok(SessionCommand::Retainers(i))
            },
            None => Err(SessionError::InvalidIndex),
        }
    } else {
        Err(SessionError::UnknownCommand(string_from_chars(verb)))
    }
}

} // verus!
