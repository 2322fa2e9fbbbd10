//! Command-line arguments of the `hprof` program: the command, the files
//! and the options, read left to right.

use vstd::prelude::*;
use crate::text::{chars_of, str_eq};

verus! {

/// The subcommand to run.
#[derive(Debug, Clone, Copy, PartialEq, Eq)]
pub enum Command {
    Analyze,
    Diff,
    Dot,
    List,
    Inspect,
    Find,
    Props,
    Retainers,
    Owners,
    Calltree,
    Flame,
    Ui,
    Help,
}

/// Parsed command-line arguments.
#[derive(Debug, Clone)]
pub struct Args {
    pub command: Command,
    pub files: Vec<String>,
    pub top: usize,
    pub filter: Option<String>,
    pub focus: Option<String>,
    pub ignore: Option<String>,
    pub hide: Option<String>,
    pub cum: bool,
    pub json: bool,
    /// analyze heapsnapshot: include exclusive retained sizes
    pub retained: bool,
    /// inspect: drill into instances whose name matches
    pub name: Option<String>,
    /// inspect: show a single node by DevTools id
    pub id: Option<usize>,
    /// inspect: show a single node by record index
    pub index: Option<usize>,
    /// find/owners: only nodes with self_size >= min_self bytes
    pub min_self: usize,
    /// retainers: walk the owner chain; owners: chain depth
    pub depth: Option<usize>,
    /// find: exact name match instead of substring
    pub exact: bool,
    /// find: only nodes of this node type
    pub node_type: Option<String>,
    /// heapprofile: restrict contribution to frames from matching URLs
    pub url: Option<String>,
    /// whether --top was passed explicitly
    pub top_explicit: bool,
}

/// Why the arguments were refused.
#[derive(Debug, Clone, PartialEq, Eq)]
pub enum ArgError {
    /// `bench` is no longer a command.
    RemovedCommand,
    /// An option that starts with `-` and is not known.
    UnknownOption(String),
}

/// The arguments as plain values.
#[verifier::ext_equal]
pub struct ArgsView {
    pub command: Command,
    pub files: Seq<Seq<char>>,
    pub top: usize,
    pub filter: Option<Seq<char>>,
    pub focus: Option<Seq<char>>,
    pub ignore: Option<Seq<char>>,
    pub hide: Option<Seq<char>>,
    pub cum: bool,
    pub json: bool,
    pub retained: bool,
    pub name: Option<Seq<char>>,
    pub id: Option<usize>,
    pub index: Option<usize>,
    pub min_self: usize,
    pub depth: Option<usize>,
    pub exact: bool,
    pub node_type: Option<Seq<char>>,
    pub url: Option<Seq<char>>,
    pub top_explicit: bool,
}

/// The characters of an optional string.
pub open spec fn opt_str(s: Option<String>) -> Option<Seq<char>> {
    match s {
        Some(x) => Some(x@),
        None => None,
    }
}

impl Args {
    /// The arguments as plain values.
    pub open spec fn view(&self) -> ArgsView {
        ArgsView {
            command: self.command,
            files: Seq::new(self.files@.len(), |i: int| self.files@[i]@),
            top: self.top,
            filter: opt_str(self.filter),
            focus: opt_str(self.focus),
            ignore: opt_str(self.ignore),
            hide: opt_str(self.hide),
            cum: self.cum,
            json: self.json,
            retained: self.retained,
            name: opt_str(self.name),
            id: self.id,
            index: self.index,
            min_self: self.min_self,
            depth: self.depth,
            exact: self.exact,
            node_type: opt_str(self.node_type),
            url: opt_str(self.url),
            top_explicit: self.top_explicit,
        }
    }
}

/// The defaults: analyze, no files, top 30, no filters, flags off.
pub open spec fn default_args() -> ArgsView {
    ArgsView {
        command: Command::Analyze,
        files: Seq::empty(),
        top: 30,
        filter: None,
        focus: None,
        ignore: None,
        hide: None,
        cum: false,
        json: false,
        retained: false,
        name: None,
        id: None,
        index: None,
        min_self: 0,
        depth: None,
        exact: false,
        node_type: None,
        url: None,
        top_explicit: false,
    }
}

impl Default for Args {
    /// The defaults: analyze, no files, top 30, no filters, flags off.
    fn default() -> (a: Self)
        ensures
            a.view() == default_args(),
    {
        let a = Args {
            command: Command::Analyze,
            files: Vec::new(),
            top: 30,
            filter: None,
            focus: None,
            ignore: None,
            hide: None,
            cum: false,
            json: false,
            retained: false,
            name: None,
            id: None,
            index: None,
            min_self: 0,
            depth: None,
            exact: false,
            node_type: None,
            url: None,
            top_explicit: false,
        };
        assert(a.view().files =~= Seq::<Seq<char>>::empty());
        a
    }
}

/// Value of a decimal digit character.
pub open spec fn digit_value(c: char) -> int {
    (c as u32) - ('0' as u32)
}

/// `c` is an ASCII decimal digit.
pub open spec fn is_digit_char(c: char) -> bool {
    '0' <= c && c <= '9'
}

/// Decimal value of the digits `s[0..k]`.
pub open spec fn digits_nat(s: Seq<char>, k: int) -> nat
    decreases k,
{
    if k <= 0 {
        0
    } else {
        (digits_nat(s, k - 1) * 10 + digit_value(s[k - 1])) as nat
    }
}

/// What `str::parse::<usize>` accepts: an optional `+` and at least one
/// digit, the value fitting in `usize`.
pub open spec fn parse_usize_spec(s: Seq<char>) -> Option<usize> {
    let body = usize_body(s);
    if body.len() > 0 && all_digits(body) && digits_nat(body, body.len() as int) <= usize::MAX {
        Some(digits_nat(body, body.len() as int) as usize)
    } else {
        None
    }
}

/// `s` without a leading `+`.
pub open spec fn usize_body(s: Seq<char>) -> Seq<char> {
    if s.len() > 0 && s[0] == '+' {
        s.drop_first()
    } else {
        s
    }
}

/// Every character of `s` is a decimal digit.
pub open spec fn all_digits(s: Seq<char>) -> bool {
    forall|i: int| 0 <= i < s.len() ==> is_digit_char(#[trigger] s[i])
}

/// `str::parse::<usize>` as an option.
pub fn parse_usize(s: &str) -> (r: Option<usize>)
    ensures
        r == parse_usize_spec(s@),
{
    let cs = chars_of(s);
    let mut i: usize = 0;
    if cs.len() > 0 && cs[0] == '+' {
        i = 1;
    }
    let start = i;
    let ghost body = usize_body(s@);
    proof {
        assert(body =~= s@.subrange(start as int, s@.len() as int));
    }
    if start >= cs.len() {
        return None;
    }
    let mut val: usize = 0;
    while i < cs.len()
        invariant
            start <= i <= cs@.len(),
            cs@ == s@,
            body == s@.subrange(start as int, s@.len() as int),
            body == usize_body(s@),
            body.len() > 0,
            forall|k: int| 0 <= k < i - start ==> is_digit_char(#[trigger] body[k]),
            val as nat == digits_nat(body, i - start),
        decreases cs@.len() - i,
    {
        let c = cs[i];
        if !('0' <= c && c <= '9') {
            proof {
                assert(body[i - start] == c);
                assert(!is_digit_char(body[i - start]));
                assert(!all_digits(body));
            }
            return None;
        }
        let d = (c as u32 - '0' as u32) as usize;
        proof {
            assert(body[i - start] == c);
            assert(digits_nat(body, i - start + 1) == val * 10 + d);
        }
        if val > (usize::MAX - d) / 10 {
            proof {
                assert(digits_nat(body, i - start + 1) > usize::MAX) by (nonlinear_arith)
                    requires
                        val > (usize::MAX - d) / 10,
                        digits_nat(body, i - start + 1) == val * 10 + d,
                        d <= 9,
                ;
                if all_digits(body) {
                    lemma_digits_grow(body, i - start + 1, body.len() as int);
                }
            }
            return None;
        }
        val = val * 10 + d;
        i += 1;
    }
    Some(val)
}

proof fn lemma_digits_grow(s: Seq<char>, a: int, b: int)
    requires
        0 <= a <= b <= s.len(),
        forall|k: int| 0 <= k < b ==> is_digit_char(#[trigger] s[k]),
    ensures
        digits_nat(s, a) <= digits_nat(s, b),
    decreases b - a,
{
    if a < b {
        lemma_digits_grow(s, a, b - 1);
    }
}

/// Why the arguments were refused, as plain values.
pub enum ArgFailure {
    RemovedCommand,
    UnknownOption(Seq<char>),
}

/// The refusal as plain values.
pub open spec fn failure_of(e: ArgError) -> ArgFailure {
    match e {
        ArgError::RemovedCommand => ArgFailure::RemovedCommand,
        ArgError::UnknownOption(s) => ArgFailure::UnknownOption(s@),
    }
}

/// The command a word names.
#[verifier::opaque]
pub open spec fn command_word(a: Seq<char>) -> Option<Command> {
    if a == "analyze"@ {
        Some(Command::Analyze)
    } else if a == "diff"@ {
        Some(Command::Diff)
    } else if a == "dot"@ {
        Some(Command::Dot)
    } else if a == "list"@ {
        Some(Command::List)
    } else if a == "inspect"@ {
        Some(Command::Inspect)
    } else if a == "find"@ {
        Some(Command::Find)
    } else if a == "props"@ {
        Some(Command::Props)
    } else if a == "retainers"@ {
        Some(Command::Retainers)
    } else if a == "owners"@ {
        Some(Command::Owners)
    } else if a == "calltree"@ {
        Some(Command::Calltree)
    } else if a == "flame"@ {
        Some(Command::Flame)
    } else if a == "ui"@ {
        Some(Command::Ui)
    } else if a == "help"@ {
        Some(Command::Help)
    } else {
        None
    }
}

/// The option a word takes a value for, applied to `acc` (`v`: the next
/// word, if any). `None` when the word is not such an option.
#[verifier::opaque]
pub open spec fn with_value(a: Seq<char>, v: Option<Seq<char>>, acc: ArgsView) -> Option<ArgsView> {
    if a == "--top"@ {
        Some(ArgsView {
            top_explicit: true,
            top: match v {
                Some(x) => match parse_usize_spec(x) {
                    Some(n) => n,
                    None => acc.top,
                },
                None => acc.top,
            },
            ..acc
        })
    } else if a == "--filter"@ {
        Some(ArgsView { filter: if v is Some { v } else { acc.filter }, ..acc })
    } else if a == "--focus"@ {
        Some(ArgsView { focus: if v is Some { v } else { acc.focus }, ..acc })
    } else if a == "--ignore"@ {
        Some(ArgsView { ignore: if v is Some { v } else { acc.ignore }, ..acc })
    } else if a == "--hide"@ {
        Some(ArgsView { hide: if v is Some { v } else { acc.hide }, ..acc })
    } else if a == "--name"@ {
        Some(ArgsView { name: if v is Some { v } else { acc.name }, ..acc })
    } else if a == "--type"@ {
        Some(ArgsView { node_type: if v is Some { v } else { acc.node_type }, ..acc })
    } else if a == "--url"@ {
        Some(ArgsView { url: if v is Some { v } else { acc.url }, ..acc })
    } else if a == "--id"@ {
        Some(ArgsView { id: match v { Some(x) => parse_usize_spec(x), None => acc.id }, ..acc })
    } else if a == "--index"@ {
        Some(ArgsView { index: match v { Some(x) => parse_usize_spec(x), None => acc.index }, ..acc })
    } else if a == "--min-self"@ {
        Some(ArgsView {
            min_self: match v {
                Some(x) => match parse_usize_spec(x) {
                    Some(n) => n,
                    None => 0,
                },
                None => acc.min_self,
            },
            ..acc
        })
    } else if a == "--depth"@ {
        Some(ArgsView { depth: match v { Some(x) => parse_usize_spec(x), None => acc.depth }, ..acc })
    } else {
        None
    }
}

/// The flag a word sets, applied to `acc`; `None` when it is no flag.
#[verifier::opaque]
pub open spec fn with_flag(a: Seq<char>, acc: ArgsView) -> Option<ArgsView> {
    if a == "--cum"@ {
        Some(ArgsView { cum: true, ..acc })
    } else if a == "--json"@ {
        Some(ArgsView { json: true, ..acc })
    } else if a == "--retained"@ {
        Some(ArgsView { retained: true, ..acc })
    } else if a == "--exact"@ {
        Some(ArgsView { exact: true, ..acc })
    } else {
        None
    }
}

/// The arguments from word `i` on, read into `acc`: options with a value
/// consume the next word, flags and commands set their field, `bench` and
/// unknown words starting with `-` are refused, other words are files.
pub open spec fn parse_from(argv: Seq<Seq<char>>, i: int, acc: ArgsView) -> Result<ArgsView, ArgFailure>
    decreases argv.len() + 1 - i,
{
    if i >= argv.len() || i < 0 {
        Ok(acc)
    } else {
        let a = argv[i];
        let v = if i + 1 < argv.len() { Some(argv[i + 1]) } else { None };
        match with_value(a, v, acc) {
            Some(next) => parse_from(argv, i + 2, next),
            None => match with_flag(a, acc) {
                Some(next) => parse_from(argv, i + 1, next),
                None => match command_word(a) {
                    Some(c) => parse_from(argv, i + 1, ArgsView { command: c, ..acc }),
                    None => if a == "bench"@ {
                        Err(ArgFailure::RemovedCommand)
                    } else if a.len() > 0 && a[0] == '-' {
                        Err(ArgFailure::UnknownOption(a))
                    } else {
                        parse_from(argv, i + 1, ArgsView { files: acc.files.push(a), ..acc })
                    },
                },
            },
        }
    }
}

proof fn lemma_parse_past_end(argv: Seq<Seq<char>>, a: int, b: int)
    requires
        argv.len() <= a <= b,
    ensures
        forall|acc: ArgsView| #[trigger] parse_from(argv, a, acc) == parse_from(argv, b, acc),
{
}

/// The words of `argv`.
pub open spec fn words(argv: Seq<String>) -> Seq<Seq<char>> {
    Seq::new(argv.len(), |i: int| argv[i]@)
}

fn is_word(a: &String, w: &str) -> (b: bool)
    ensures
        b == (a@ == w@),
{
    str_eq(a.as_str(), w)
}

/// Applies an option that takes a value; `false` (and `args` unchanged)
/// when `a` is no such option.
fn apply_value(args: &mut Args, a: &String, next: Option<&String>) -> (b: bool)
    ensures
        b == with_value(a@, opt_word(next), old(args).view()) is Some,
        b ==> final(args).view() == with_value(a@, opt_word(next), old(args).view()).unwrap(),
        !b ==> final(args).view() == old(args).view(),
{
    let ghost acc = args.view();
    proof {
        reveal(with_value);
    }
    if is_word(a, "--top") {
        args.top_explicit = true;
        if let Some(v) = next {
            match parse_usize(v.as_str()) {
                Some(t) => {
                    args.top = t;
                },
                None => {},
            }
        }
        assert(args.view() =~~= with_value(a@, opt_word(next), acc).unwrap());
        return true;
    }
    let text = if is_word(a, "--filter") || is_word(a, "--focus") || is_word(a, "--ignore") || is_word(a, "--hide")
        || is_word(a, "--name") || is_word(a, "--type") || is_word(a, "--url") {
        true
    } else {
        false
    };
    if text {
        if let Some(v) = next {
            let v = v.clone();
            if is_word(a, "--filter") {
                args.filter = Some(v);
            } else if is_word(a, "--focus") {
                args.focus = Some(v);
            } else if is_word(a, "--ignore") {
                args.ignore = Some(v);
            } else if is_word(a, "--hide") {
                args.hide = Some(v);
            } else if is_word(a, "--name") {
                args.name = Some(v);
            } else if is_word(a, "--type") {
                args.node_type = Some(v);
            } else {
                args.url = Some(v);
            }
        }
        assert(args.view() =~~= with_value(a@, opt_word(next), acc).unwrap());
        return true;
    }
    if is_word(a, "--id") || is_word(a, "--index") || is_word(a, "--min-self") || is_word(a, "--depth") {
        if let Some(v) = next {
            let parsed = parse_usize(v.as_str());
            if is_word(a, "--id") {
                args.id = parsed;
            } else if is_word(a, "--index") {
                args.index = parsed;
            } else if is_word(a, "--min-self") {
                args.min_self = match parsed {
                    Some(x) => x,
                    None => 0,
                };
            } else {
                args.depth = parsed;
            }
        }
        assert(args.view() =~~= with_value(a@, opt_word(next), acc).unwrap());
        return true;
    }
    false
}

/// The characters of an optional word.
pub open spec fn opt_word(w: Option<&String>) -> Option<Seq<char>> {
    match w {
        Some(x) => Some(x@),
        None => None,
    }
}

/// Applies a flag; `false` (and `args` unchanged) when `a` is no flag.
fn apply_flag(args: &mut Args, a: &String) -> (b: bool)
    ensures
        b == with_flag(a@, old(args).view()) is Some,
        b ==> final(args).view() == with_flag(a@, old(args).view()).unwrap(),
        !b ==> final(args).view() == old(args).view(),
{
    let ghost acc = args.view();
    proof {
        reveal(with_flag);
    }
    if is_word(a, "--cum") {
        args.cum = true;
    } else if is_word(a, "--json") {
        args.json = true;
    } else if is_word(a, "--retained") {
        args.retained = true;
    } else if is_word(a, "--exact") {
        args.exact = true;
    } else {
        return false;
    }
    assert(args.view() =~~= with_flag(a@, acc).unwrap());
    true
}

/// The command a word names (`command_word`).
fn command_of(a: &String) -> (c: Option<Command>)
    ensures
        c == command_word(a@),
{
    proof {
        reveal(command_word);
    }
    if is_word(a, "analyze") {
        Some(Command::Analyze)
    } else if is_word(a, "diff") {
        Some(Command::Diff)
    } else if is_word(a, "dot") {
        Some(Command::Dot)
    } else if is_word(a, "list") {
        Some(Command::List)
    } else if is_word(a, "inspect") {
        Some(Command::Inspect)
    } else if is_word(a, "find") {
        Some(Command::Find)
    } else if is_word(a, "props") {
        Some(Command::Props)
    } else if is_word(a, "retainers") {
        Some(Command::Retainers)
    } else if is_word(a, "owners") {
        Some(Command::Owners)
    } else if is_word(a, "calltree") {
        Some(Command::Calltree)
    } else if is_word(a, "flame") {
        Some(Command::Flame)
    } else if is_word(a, "ui") {
        Some(Command::Ui)
    } else if is_word(a, "help") {
        Some(Command::Help)
    } else {
        None
    }
}

/// Reads the command line (`parse_args`); `bench` and unknown options are
/// refused.
#[verifier::rlimit(80)]
pub fn parse_args(argv: &[String]) -> (res: Result<Args, ArgError>)
    ensures
        match res {
            Ok(a) => parse_from(words(argv@), 0, default_args()) == Ok::<ArgsView, ArgFailure>(a.view()),
            Err(e) => parse_from(words(argv@), 0, default_args()) == Err::<ArgsView, ArgFailure>(failure_of(e)),
        },
{
    let mut args = Args::default();
    let ghost w = words(argv@);
    let n = argv.len();
    let mut i: usize = 0;
    while i < n
        invariant
            n == argv@.len(),
            w == words(argv@),
            w.len() == n,
            i <= n,
            parse_from(w, i as int, args.view()) == parse_from(w, 0, default_args()),
        decreases n + 1 - i,
    {
        let a = &argv[i];
        let ghost acc = args.view();
        let has_next = i + 1 < n;
        let next = if has_next { Some(&argv[i + 1]) } else { None };
        proof {
            assert(w[i as int] == a@);
            if has_next {
                assert(w[i + 1] == argv@[i + 1]@);
            }
            assert(opt_word(next) == (if i + 1 < w.len() { Some(w[i + 1]) } else { None::<Seq<char>> }));
            if i + 1 >= n {
                lemma_parse_past_end(w, i + 1, i + 2);
            }
        }
        if apply_value(&mut args, a, next) {
            i = if has_next { i + 2 } else { i + 1 };
        } else if apply_flag(&mut args, a) {
            i = i + 1;
        } else {
            match command_of(a) {
                Some(cmd) => {
                    args.command = cmd;
                    proof {
                        assert(args.view() =~~= ArgsView { command: cmd, ..acc });
                    }
                },
                None => {
                    if is_word(a, "bench") {
                        return Err(ArgError::RemovedCommand);
                    }
                    let cs = chars_of(a.as_str());
                    if cs.len() > 0 && cs[0] == '-' {
                        return Err(ArgError::UnknownOption(a.clone()));
                    }
                    args.files.push(a.clone());
                    proof {
                        assert(args.view().files =~= acc.files.push(a@));
                        assert(args.view() =~~= ArgsView { files: acc.files.push(a@), ..acc });
                    }
                },
            }
            i = i + 1;
        }
    }
    Ok(args)
}

/// Why `inspect` cannot run on its arguments.
#[derive(Debug, Clone, Copy, PartialEq, Eq)]
pub enum InspectArgError {
    /// The file is not a heap snapshot.
    NotSnapshot,
    /// Neither a name, an id nor an index was given.
    NoTarget,
}

/// The arguments of `inspect`, checked before the file is opened: the file
/// must be a heap snapshot, and a name, an id or an index must be given.
pub fn check_inspect_args(kind: &str, name: Option<&str>, id: Option<usize>, index: Option<usize>) -> (r: Result<(), InspectArgError>)
    ensures
        r == Err::<(), InspectArgError>(InspectArgError::NotSnapshot) <==> kind@ != "heapsnapshot"@,
        r == Err::<(), InspectArgError>(InspectArgError::NoTarget) <==> kind@ == "heapsnapshot"@ && name is None && id is None
            && index is None,
        r is Ok <==> kind@ == "heapsnapshot"@ && (name is Some || id is Some || index is Some),
{
    if !str_eq(kind, "heapsnapshot") {
        return Err(InspectArgError::NotSnapshot);
    }
    if name.is_none() && id.is_none() && index.is_none() {
        return Err(InspectArgError::NoTarget);
    }
    Ok(())
}

} // verus!
