//! Text rendering shared by the reports: byte sizes in binary units, signed
//! deltas, ANSI colours, and display names.

use vstd::prelude::*;
use crate::text::{decimal, digit_char, push_char, push_decimal};

verus! {

/// `1024^k`.
pub open spec fn pow1024(k: nat) -> nat
    decreases k,
{
    if k == 0 {
        1
    } else {
        1024 * pow1024((k - 1) as nat)
    }
}

/// `10^k`.
pub open spec fn pow10(k: nat) -> nat
    decreases k,
{
    if k == 0 {
        1
    } else {
        10 * pow10((k - 1) as nat)
    }
}

/// Unit index (B, KB, MB, GB) of a byte count: the most divisions by 1024,
/// at most three, that leave at least 1.
pub open spec fn byte_unit(b: nat) -> nat {
    if b >= pow1024(3) {
        3
    } else if b >= pow1024(2) {
        2
    } else if b >= pow1024(1) {
        1
    } else {
        0
    }
}

/// Name of unit `u`.
pub open spec fn unit_name(u: nat) -> Seq<char> {
    if u == 0 {
        "B"@
    } else if u == 1 {
        "KB"@
    } else if u == 2 {
        "MB"@
    } else {
        "GB"@
    }
}

/// `n / d` rounded to the nearest integer, ties to even.
pub open spec fn rounded(n: nat, d: nat) -> nat {
    let q = n / d;
    let r = n % d;
    if 2 * r > d || (2 * r == d && q % 2 == 1) {
        q + 1
    } else {
        q
    }
}

/// The last `p` decimal digits of `f`, zero-padded.
pub open spec fn frac_digits(f: nat, p: nat) -> Seq<char>
    decreases p,
{
    if p == 0 {
        Seq::empty()
    } else {
        frac_digits(f / 10, (p - 1) as nat).push(digit_char((f % 10) as int))
    }
}

/// Decimals shown for a size of `b` bytes in unit `d`: none from 100 units
/// on, one from 10, else two.
pub open spec fn precision(b: nat, d: nat) -> nat {
    if b >= 100 * d {
        0
    } else if b >= 10 * d {
        1
    } else {
        2
    }
}

/// `b` bytes in the largest binary unit up to GB that leaves at least 1,
/// with 0, 1 or 2 decimals (by magnitude), rounded half to even, and the
/// unit name (`format_bytes`).
pub open spec fn bytes_text(b: nat) -> Seq<char> {
    let u = byte_unit(b);
    let d = pow1024(u);
    let p = precision(b, d);
    let s = rounded(b * pow10(p), d);
    let whole = decimal(s / pow10(p));
    let frac = if p == 0 { Seq::empty() } else { "."@ + frac_digits(s % pow10(p), p) };
    whole + frac + " "@ + unit_name(u)
}

fn digit_of(d: u128) -> (c: char)
    requires
        d < 10,
    ensures
        c == digit_char(d as int),
{
    if d == 0 {
        '0'
    } else if d == 1 {
        '1'
    } else if d == 2 {
        '2'
    } else if d == 3 {
        '3'
    } else if d == 4 {
        '4'
    } else if d == 5 {
        '5'
    } else if d == 6 {
        '6'
    } else if d == 7 {
        '7'
    } else if d == 8 {
        '8'
    } else {
        '9'
    }
}

fn push_dec(out: &mut String, n: u128)
    ensures
        final(out)@ == old(out)@ + decimal(n as nat),
    decreases n,
{
    if n < 10 {
        push_char(out, digit_of(n));
        assert(old(out)@.push(digit_char(n as int)) =~= old(out)@ + decimal(n as nat));
    } else {
        push_dec(out, n / 10);
        push_char(out, digit_of(n % 10));
        assert(old(out)@ + decimal((n / 10) as nat) + seq![digit_char((n % 10) as int)]
            =~= old(out)@ + decimal(n as nat));
    }
}

fn push_frac(out: &mut String, f: u128, p: u128)
    requires
        p <= 2,
    ensures
        final(out)@ == old(out)@ + frac_digits(f as nat, p as nat),
    decreases p,
{
    if p > 0 {
        push_frac(out, f / 10, p - 1);
        push_char(out, digit_of(f % 10));
        assert(frac_digits(f as nat, p as nat) == frac_digits((f / 10) as nat, (p - 1) as nat).push(digit_char((f % 10) as int)));
        assert(old(out)@ + frac_digits((f / 10) as nat, (p - 1) as nat) + seq![digit_char((f % 10) as int)]
            =~= old(out)@ + frac_digits(f as nat, p as nat));
    }
}

/// A byte count as text (`format_bytes`).
pub fn format_bytes(bytes: u64) -> (s: String)
    ensures
        s@ == bytes_text(bytes as nat),
{
    let b = bytes as u128;
    let kb: u128 = 1024;
    let mb: u128 = 1024 * 1024;
    let gb: u128 = 1024 * 1024 * 1024;
    proof {
        reveal_with_fuel(pow1024, 4);
        reveal_with_fuel(pow10, 3);
    }
    let (u, d): (u128, u128) = if b >= gb {
        (3, gb)
    } else if b >= mb {
        (2, mb)
    } else if b >= kb {
        (1, kb)
    } else {
        (0, 1)
    };
    let (p, scale): (u128, u128) = if b >= 100 * d {
        (0, 1)
    } else if b >= 10 * d {
        (1, 10)
    } else {
        (2, 100)
    };
    proof {
        assert(b * scale <= 0xffff_ffff_ffff_ffff * 100) by (nonlinear_arith)
            requires
                b <= 0xffff_ffff_ffff_ffff,
                scale <= 100,
        ;
    }
    let n = b * scale;
    let q = n / d;
    let r = n % d;
    let s = if 2 * r > d || (2 * r == d && q % 2 == 1) { q + 1 } else { q };
    let whole = s / scale;
    let frac = s % scale;
    proof {
        assert(u as nat == byte_unit(bytes as nat));
        assert(d as nat == pow1024(u as nat));
        assert(p as nat == precision(bytes as nat, d as nat));
        assert(scale as nat == pow10(p as nat));
        assert(n as nat == (bytes as nat) * pow10(p as nat));
        assert(s as nat == rounded((bytes as nat) * pow10(p as nat), d as nat));
    }
    let mut out = String::new();
    push_dec(&mut out, whole);
    if p > 0 {
        out.append(".");
        push_frac(&mut out, frac, p);
    }
    out.append(" ");
    if u == 0 {
        out.append("B");
    } else if u == 1 {
        out.append("KB");
    } else if u == 2 {
        out.append("MB");
    } else {
        out.append("GB");
    }
    proof {
        let w = decimal((s / scale) as nat);
        let fr = if p == 0 { Seq::<char>::empty() } else { "."@ + frac_digits((s % scale) as nat, p as nat) };
        assert(Seq::<char>::empty() + w =~= w);
        if p > 0 {
            assert(w + "."@ + frac_digits((s % scale) as nat, p as nat) =~= w + fr);
        } else {
            assert(w + fr =~= w);
        }
    }
    out
}

/// `s` wrapped in the ANSI escape `code` and a reset, when `enabled`.
pub open spec fn colored(code: Seq<char>, s: Seq<char>, enabled: bool) -> Seq<char> {
    if enabled {
        code + s + "\x1b[0m"@
    } else {
        s
    }
}

fn color(code: &str, s: &str, enabled: bool) -> (out: String)
    ensures
        out@ == colored(code@, s@, enabled),
{
    if enabled {
        let mut out = code.to_owned();
        out.append(s);
        out.append("\x1b[0m");
        out
    } else {
        s.to_owned()
    }
}

/// Bold text.
pub fn bold(s: &str, enabled: bool) -> (out: String)
    ensures
        out@ == colored("\x1b[1m"@, s@, enabled),
{
    color("\x1b[1m", s, enabled)
}

/// Cyan text.
pub fn cyan(s: &str, enabled: bool) -> (out: String)
    ensures
        out@ == colored("\x1b[36m"@, s@, enabled),
{
    color("\x1b[36m", s, enabled)
}

/// Yellow text.
pub fn yellow(s: &str, enabled: bool) -> (out: String)
    ensures
        out@ == colored("\x1b[33m"@, s@, enabled),
{
    color("\x1b[33m", s, enabled)
}

/// Green text.
pub fn green(s: &str, enabled: bool) -> (out: String)
    ensures
        out@ == colored("\x1b[32m"@, s@, enabled),
{
    color("\x1b[32m", s, enabled)
}

/// Red text.
pub fn red(s: &str, enabled: bool) -> (out: String)
    ensures
        out@ == colored("\x1b[31m"@, s@, enabled),
{
    color("\x1b[31m", s, enabled)
}

/// Dimmed text.
pub fn dim(s: &str, enabled: bool) -> (out: String)
    ensures
        out@ == colored("\x1b[2m"@, s@, enabled),
{
    color("\x1b[2m", s, enabled)
}

/// Magenta text.
pub fn magenta(s: &str, enabled: bool) -> (out: String)
    ensures
        out@ == colored("\x1b[35m"@, s@, enabled),
{
    color("\x1b[35m", s, enabled)
}

/// Gray text.
pub fn gray(s: &str, enabled: bool) -> (out: String)
    ensures
        out@ == colored("\x1b[90m"@, s@, enabled),
{
    color("\x1b[90m", s, enabled)
}

/// A size change as text (`format_delta`): `±0 B` in gray for no change,
/// otherwise the size of the change signed, red for growth and green for
/// shrinkage.
pub fn format_delta(delta: i64, enabled: bool) -> (out: String)
    ensures
        delta == 0 ==> out@ == colored("\x1b[90m"@, "±0 B"@, enabled),
        delta > 0 ==> out@ == colored("\x1b[31m"@, "+"@ + bytes_text(delta as nat), enabled),
        delta < 0 ==> out@ == colored("\x1b[32m"@, "-"@ + bytes_text((-delta) as nat), enabled),
{
    if delta == 0 {
        return gray("±0 B", enabled);
    }
    let abs: u64 = if delta > 0 {
        delta as u64
    } else if delta == i64::MIN {
        0x8000_0000_0000_0000u64
    } else {
        (-delta) as u64
    };
    let formatted = format_bytes(abs);
    if delta > 0 {
        let mut t = "+".to_owned();
        t.append(formatted.as_str());
        red(t.as_str(), enabled)
    } else {
        let mut t = "-".to_owned();
        t.append(formatted.as_str());
        green(t.as_str(), enabled)
    }
}

/// A node name for display: `(unnamed)` for the empty name
/// (`display_name`).
pub fn display_name(name: &str) -> (out: String)
    ensures
        name@.len() == 0 ==> out@ == "(unnamed)"@,
        name@.len() > 0 ==> out@ == name@,
{
    if name.is_empty() {
        "(unnamed)".to_owned()
    } else {
        name.to_owned()
    }
}

} // verus!
