//! Human-readable sizes.
use crate::text::{append_chars, chars_of, decimal, decimal_chars, string_of};
use vstd::prelude::*;

verus! {

pub open spec fn pow1024(t: nat) -> nat
    decreases t,
{
    if t == 0 { 1 } else { 1024 * pow1024((t - 1) as nat) }
}

pub open spec fn pow10(p: nat) -> nat
    decreases p,
{
    if p == 0 { 1 } else { 10 * pow10((p - 1) as nat) }
}

/// How many times 1024 goes into `m`, counting from `t`, up to eight.
pub open spec fn level(m: nat, t: nat) -> nat
    decreases 8 - t,
{
    if t >= 8 || m < 1024 { t } else { level(m / 1024, t + 1) }
}

/// The unit of `1024^t` bytes.
pub open spec fn unit(t: nat) -> Seq<char> {
    if t == 0 { "B"@ }
    else if t == 1 { "KiB"@ }
    else if t == 2 { "MiB"@ }
    else if t == 3 { "GiB"@ }
    else if t == 4 { "TiB"@ }
    else if t == 5 { "PiB"@ }
    else if t == 6 { "EiB"@ }
    else if t == 7 { "ZiB"@ }
    else { "YiB"@ }
}

/// Decimal places shown for `n / d`: two below 10, one below 100, else none.
pub open spec fn places(n: nat, d: nat) -> nat {
    if n < 10 * d { 2 } else if n < 100 * d { 1 } else { 0 }
}

/// `n / d` scaled by `10^p` and rounded to the nearest integer, ties to even.
pub open spec fn rounded(n: nat, d: nat, p: nat) -> nat
    recommends
        d > 0,
{
    let s = n * pow10(p);
    let q = s / d;
    let r = s % d;
    if 2 * r > d || (2 * r == d && q % 2 == 1) { q + 1 } else { q }
}

/// `x / 10^p` written with `p` decimal places (`p` at most two).
pub open spec fn fixed(x: nat, p: nat) -> Seq<char> {
    if p == 0 {
        decimal(x)
    } else {
        let f = x % pow10(p);
        decimal(x / pow10(p)) + seq!['.'] + (if p == 2 && f < 10 { seq!['0'] } else { Seq::empty() }) + decimal(f)
    }
}

/// The text of a size of `n` bytes: whole bytes below 1024, else the size in the largest
/// binary unit that fits, with three significant digits.
pub open spec fn size_text(n: nat) -> Seq<char> {
    let t = level(n, 0);
    let d = pow1024(t);
    if t == 0 {
        decimal(n) + " B"@
    } else {
        fixed(rounded(n, d, places(n, d)), places(n, d)) + seq![' '] + unit(t)
    }
}

fn unit_text(t: usize) -> (r: &'static str)
    ensures
        r@ == unit(t as nat),
{
    if t == 0 { "B" }
    else if t == 1 { "KiB" }
    else if t == 2 { "MiB" }
    else if t == 3 { "GiB" }
    else if t == 4 { "TiB" }
    else if t == 5 { "PiB" }
    else if t == 6 { "EiB" }
    else if t == 7 { "ZiB" }
    else { "YiB" }
}

/// A size for people to read, and the number of bytes in its unit:
/// `pretty_size(5000) == ("4.88 KiB", 1024)`.
pub fn pretty_size(n: u64) -> (r: (String, u64))
    ensures
        r.0@ == size_text(n as nat),
        r.1 as nat == pow1024(level(n as nat, 0)),
{
    let mut t: usize = 0;
    let mut m: u64 = n;
    let mut d: u64 = 1;
    while t < 8 && m >= 1024
        invariant
            t <= 8,
            level(n as nat, 0) == level(m as nat, t as nat),
            d as nat == pow1024(t as nat),
            (m as nat) * (d as nat) <= n as nat,
            t > 0 ==> m >= 1,
            d >= 1,
            t > 0 ==> d >= 1024,
        decreases 8 - t,
    {
        proof {
            assert((m as nat / 1024) * 1024 <= m as nat) by (nonlinear_arith);
            assert((m as nat / 1024) * (d as nat * 1024) == ((m as nat / 1024) * 1024) * d as nat) by (nonlinear_arith);
            assert(((m as nat / 1024) * 1024) * (d as nat) <= (m as nat) * (d as nat)) by (nonlinear_arith)
                requires (m as nat / 1024) * 1024 <= m as nat;
            assert((m as nat / 1024) >= 1);
            assert(d as nat * 1024 <= (m as nat / 1024) * (d as nat * 1024)) by (nonlinear_arith)
                requires (m as nat / 1024) >= 1;
        }
        m = m / 1024;
        d = d * 1024;
        t = t + 1;
    }
    proof {
        if t > 0 {
            assert(d as nat <= (m as nat) * (d as nat)) by (nonlinear_arith) requires m >= 1;
        }
        assert(level(m as nat, t as nat) == t);
    }
    let unit_chars = chars_of(unit_text(t));
    if t == 0 {
        let mut s = decimal_chars(n);
        let tail = chars_of(" B");
        append_chars(&mut s, &tail);
        return (string_of(&s), d);
    }
    let nn = n as u128;
    let dd = d as u128;
    let p: u32 = if nn < 10 * dd { 2 } else if nn < 100 * dd { 1 } else { 0 };
    let scale: u128 = if p == 2 { 100 } else if p == 1 { 10 } else { 1 };
    proof {
        assert(pow10(0) == 1);
        assert(pow10(1) == 10) by { assert(pow10(0) == 1); }
        assert(pow10(2) == 100) by { assert(pow10(1) == 10) by { assert(pow10(0) == 1); } }
        assert(nn * scale <= nn * 100) by (nonlinear_arith) requires scale <= 100;
    }
    let s = nn * scale;
    let q = s / dd;
    let rem = s % dd;
    let x: u128 = if 2 * rem > dd || (2 * rem == dd && q % 2 == 1) { q + 1 } else { q };
    proof {
        assert(scale as nat == pow10(p as nat));
        assert(p as nat == places(n as nat, d as nat));
        assert(x as nat == rounded(n as nat, d as nat, p as nat));
        assert(q <= s / 1024) by (nonlinear_arith) requires dd >= 1024, q == s / dd;
        assert(s / 1024 <= nn * 100 / 1024) by (nonlinear_arith) requires s <= nn * 100;
        assert(nn * 100 / 1024 + 1 <= 0xffff_ffff_ffff_ffff) by (nonlinear_arith) requires nn <= 0xffff_ffff_ffff_ffff;
    }
    let mut out: Vec<char> = Vec::new();
    if p == 0 {
        out = decimal_chars(x as u64);
    } else {
        let whole = x / scale;
        let frac = x % scale;
        assert(whole <= x) by (nonlinear_arith) requires scale >= 1, whole == x / scale;
        out = decimal_chars(whole as u64);
        out.push('.');
        if p == 2 && frac < 10 {
            out.push('0');
        }
        let f = decimal_chars(frac as u64);
        append_chars(&mut out, &f);
    }
    out.push(' ');
    append_chars(&mut out, &unit_chars);
    assert(out@ =~= size_text(n as nat));
    (string_of(&out), d)
}

} // verus!
