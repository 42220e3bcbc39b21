//! Human-readable formatting helpers for log lines.

use crate::text::{
    decimal_text, digits_value, law_decimal_text, law_digits_are_decimal, push_decimal, push_str,
};
use vstd::prelude::*;

verus! {

/// `n / d` rounded to the nearest integer, ties to the even one.
pub open spec fn rounded_div(n: nat, d: nat) -> nat {
    let q: nat = n / d;
    let r: nat = n % d;
    if 2 * r < d || (2 * r == d && q % 2 == 0) {
        q
    } else {
        q + 1
    }
}

/// The spacing of double-precision numbers around `n`: 53 bits are kept.
pub open spec fn spacing(n: nat) -> nat
    decreases n,
{
    if n < 0x20_0000_0000_0000 {
        1
    } else {
        2 * spacing(n / 2)
    }
}

/// `n` as a double-precision number: the nearest that 53 bits can hold.
pub open spec fn as_double(n: nat) -> nat {
    rounded_div(n, spacing(n)) * spacing(n)
}

/// Which binary prefix a number of bytes takes: the largest whose unit it
/// reaches, up to the fifth.
pub open spec fn unit_index(v: nat) -> nat {
    if v < 0x400 {
        0
    } else if v < 0x10_0000 {
        1
    } else if v < 0x4000_0000 {
        2
    } else if v < 0x100_0000_0000 {
        3
    } else if v < 0x4_0000_0000_0000 {
        4
    } else {
        5
    }
}

/// How many bytes a unit has.
pub open spec fn unit_size(k: nat) -> nat {
    if k == 0 {
        1
    } else if k == 1 {
        0x400
    } else if k == 2 {
        0x10_0000
    } else if k == 3 {
        0x4000_0000
    } else if k == 4 {
        0x100_0000_0000
    } else {
        0x4_0000_0000_0000
    }
}

/// The name of a unit.
pub open spec fn unit_name(k: nat) -> Seq<char> {
    if k == 0 {
        "B"@
    } else if k == 1 {
        "KiB"@
    } else if k == 2 {
        "MiB"@
    } else if k == 3 {
        "GiB"@
    } else if k == 4 {
        "TiB"@
    } else {
        "PiB"@
    }
}

/// The text of a byte count: whole bytes below 1024, else one decimal in the
/// largest unit that the count reaches.
pub open spec fn bytes_text(n: nat) -> Seq<char> {
    let v: nat = as_double(n);
    let k: nat = unit_index(v);
    if k == 0 {
        decimal_text(n) + " B"@
    } else {
        let tenths: nat = rounded_div(10 * v, unit_size(k));
        decimal_text(tenths / 10) + "."@ + decimal_text(tenths % 10) + " "@ + unit_name(k)
    }
}

/// Rounding goes to the nearest integer: it is off by half a unit at most, and a
/// tie goes to the even one.
pub proof fn law_rounds_to_nearest(n: nat, d: nat)
    requires
        d > 0,
    ensures
        -(d as int) <= 2 * (n - rounded_div(n, d) * d) <= d,
        2 * (n - rounded_div(n, d) * d) == d || 2 * (rounded_div(n, d) * d - n) == d
            ==> rounded_div(n, d) % 2 == 0,
{
    let q: int = n as int / d as int;
    let r: int = n as int % d as int;
    vstd::arithmetic::div_mod::lemma_fundamental_div_mod(n as int, d as int);
    assert(d * q == q * d && (q + 1) * d == q * d + d) by (nonlinear_arith);
}

/// The units are the powers of 1024, a byte count is shown in the largest that
/// it reaches, and the names are in order.
pub proof fn law_units(v: nat, k: nat)
    ensures
        unit_size(0) == 1,
        k < 5 ==> unit_size(k + 1) == 1024 * unit_size(k),
        unit_index(v) <= 5,
        v > 0 ==> unit_size(unit_index(v)) <= v,
        unit_index(v) < 5 ==> v < unit_size(unit_index(v) + 1),
        unit_name(0) == "B"@ && unit_name(1) == "KiB"@ && unit_name(2) == "MiB"@ && unit_name(3)
            == "GiB"@ && unit_name(4) == "TiB"@ && unit_name(5) == "PiB"@,
{
}

/// A byte count below 1024 is shown as it is; any other below `2^53` with one
/// decimal in its unit, rounded to the nearest tenth.
pub proof fn law_bytes_text(n: nat)
    requires
        n < 0x20_0000_0000_0000,
    ensures
        n < 1024 ==> bytes_text(n) == decimal_text(n) + " B"@,
        n >= 1024 ==> exists|tenths: nat|
            -(unit_size(unit_index(n)) as int) <= 2 * (10 * n - tenths * unit_size(unit_index(n)))
                <= unit_size(unit_index(n)) && bytes_text(n) == #[trigger] decimal_text(tenths / 10)
                + "."@ + decimal_text(tenths % 10) + " "@ + unit_name(unit_index(n)),
{
    assert(spacing(n) == 1);
    assert(as_double(n) == n) by {
        assert(rounded_div(n, 1) == n);
        assert(n * 1 == n);
    }
    if n >= 1024 {
        let d: nat = unit_size(unit_index(n));
        law_units(n, 0);
        law_rounds_to_nearest(10 * n, d);
        let tenths: nat = rounded_div(10 * n, d);
        assert(bytes_text(n) == decimal_text(tenths / 10) + "."@ + decimal_text(tenths % 10) + " "@
            + unit_name(unit_index(n)));
    }
}

fn divide_rounded(n: u128, d: u128) -> (r: u128)
    requires
        1 <= d <= 0x1_0000_0000_0000_0000,
        n <= 0xffff_ffff_ffff_ffff_ffff,
    ensures
        r == rounded_div(n as nat, d as nat),
        r <= n / d + 1,
{
    let q: u128 = n / d;
    let rest: u128 = n % d;
    if 2 * rest < d || (2 * rest == d && q % 2 == 0) {
        q
    } else {
        q + 1
    }
}

fn double_of(n: u64) -> (r: u128)
    ensures
        r == as_double(n as nat),
        r <= 0x2_0000_0000_0000_0000,
{
    let mut step: u128 = 1;
    let mut m: u64 = n;
    while m >= 0x20_0000_0000_0000
        invariant
            step >= 1,
            step * m <= n,
            spacing(n as nat) == step * spacing(m as nat),
        decreases m,
    {
        proof {
            assert((2 * step) * (m / 2) <= step * m) by (nonlinear_arith)
                requires
                    step >= 1,
            ;
            let s: nat = spacing((m / 2) as nat);
            assert(step * (2 * s) == (2 * step) * s) by (nonlinear_arith);
            assert(2 * step <= n) by (nonlinear_arith)
                requires
                    step * m <= n,
                    m >= 2,
                    step >= 1,
            ;
        }
        m = m / 2;
        step = step * 2;
    }
    proof {
        let one: nat = spacing(m as nat);
        assert(one == 1);
        assert(step * one == step) by (nonlinear_arith)
            requires
                one == 1,
        ;
    }
    round_to(n, step)
}

fn round_to(n: u64, step: u128) -> (r: u128)
    requires
        step == spacing(n as nat),
    ensures
        r == as_double(n as nat),
        r <= 0x2_0000_0000_0000_0000,
{
    proof {
        lemma_spacing_bound(n as nat);
    }
    let q: u128 = divide_rounded(n as u128, step);
    proof {
        let k: int = n as int / step as int;
        assert(k * step <= n) by (nonlinear_arith)
            requires
                k == n as int / step as int,
                step >= 1,
        ;
        assert(q * step <= (k + 1) * step) by (nonlinear_arith)
            requires
                q <= k + 1,
                step >= 1,
        ;
        assert((k + 1) * step == k * step + step) by (nonlinear_arith);
        assert(q * step >= 0) by (nonlinear_arith)
            requires
                step >= 1,
                q >= 0,
        ;
    }
    q * step
}

proof fn lemma_spacing_bound(n: nat)
    ensures
        1 <= spacing(n),
        spacing(n) <= n || spacing(n) == 1,
    decreases n,
{
    if n >= 0x20_0000_0000_0000 {
        lemma_spacing_bound(n / 2);
    }
}

/// Formats a byte count with binary prefixes, e.g. `42 B`, `1.5 MiB`.
pub fn fmt_bytes(n: u64) -> (r: String)
    ensures
        r@ == bytes_text(n as nat),
{
    let mut out: String = String::new();
    let v: u128 = double_of(n);
    if v < 0x400 {
        push_decimal(&mut out, n as u128);
        push_str(&mut out, " B");
        assert(out@ =~= bytes_text(n as nat));
        return out;
    }
    let (size, name): (u128, &str) = if v < 0x10_0000 {
        (0x400, "KiB")
    } else if v < 0x4000_0000 {
        (0x10_0000, "MiB")
    } else if v < 0x100_0000_0000 {
        (0x4000_0000, "GiB")
    } else if v < 0x4_0000_0000_0000 {
        (0x100_0000_0000, "TiB")
    } else {
        (0x4_0000_0000_0000, "PiB")
    };
    let tenths: u128 = divide_rounded(10 * v, size);
    push_decimal(&mut out, tenths / 10);
    push_str(&mut out, ".");
    push_decimal(&mut out, tenths % 10);
    push_str(&mut out, " ");
    push_str(&mut out, name);
    assert(out@ =~= bytes_text(n as nat));
    out
}

/// A number below 100 in two digits.
pub open spec fn two_digits(n: nat) -> Seq<char> {
    if n < 10 {
        "0"@ + decimal_text(n)
    } else {
        decimal_text(n)
    }
}

/// The text of a duration in seconds: the two or three largest units that it
/// has, each but the first in two digits.
pub open spec fn duration_text(secs: nat) -> Seq<char> {
    let days: nat = secs / 86_400;
    let h: nat = secs / 3600 % 24;
    let m: nat = secs / 60 % 60;
    let s: nat = secs % 60;
    if days > 0 {
        decimal_text(days) + "d"@ + two_digits(h) + "h"@ + two_digits(m) + "m"@
    } else if h > 0 {
        decimal_text(h) + "h"@ + two_digits(m) + "m"@ + two_digits(s) + "s"@
    } else if m > 0 {
        decimal_text(m) + "m"@ + two_digits(s) + "s"@
    } else {
        decimal_text(s) + "s"@
    }
}

/// A duration of so many days, hours, minutes and seconds is shown by the
/// largest unit that it has and up to two below it: with days the seconds are
/// left out.
pub proof fn law_duration_text(d: nat, h: nat, m: nat, s: nat)
    requires
        h < 24,
        m < 60,
        s < 60,
    ensures
        ({
            let t: Seq<char> = duration_text(d * 86_400 + h * 3600 + m * 60 + s);
            &&& d > 0 ==> t == decimal_text(d) + "d"@ + two_digits(h) + "h"@ + two_digits(m) + "m"@
            &&& d == 0 && h > 0 ==> t == decimal_text(h) + "h"@ + two_digits(m) + "m"@ + two_digits(
                s,
            ) + "s"@
            &&& d == 0 && h == 0 && m > 0 ==> t == decimal_text(m) + "m"@ + two_digits(s) + "s"@
            &&& d == 0 && h == 0 && m == 0 ==> t == decimal_text(s) + "s"@
        }),
{
    let n: nat = d * 86_400 + h * 3600 + m * 60 + s;
    assert(n / 86_400 == d);
    assert(n / 3600 == d * 24 + h);
    assert(n / 3600 % 24 == h);
    assert(n / 60 == d * 1440 + h * 60 + m);
    assert(n / 60 % 60 == m);
    assert(n % 60 == s);
}

/// A number below 100 takes two digits, which stand for it.
pub proof fn law_two_digits(n: nat)
    requires
        n < 100,
    ensures
        two_digits(n).len() == 2,
        digits_value(two_digits(n)) == n,
{
    law_decimal_text(n);
    reveal_strlit("0");
    reveal_with_fuel(decimal_text, 3);
    if n < 10 {
        assert("0"@ =~= seq!['0']);
        law_digits_are_decimal(decimal_text(n), '0', 100);
    }
}

fn push_two_digits(out: &mut String, n: u64)
    ensures
        final(out)@ == old(out)@ + two_digits(n as nat),
{
    let ghost before: Seq<char> = out@;
    if n < 10 {
        push_str(out, "0");
    }
    push_decimal(out, n as u128);
    assert(out@ =~= before + two_digits(n as nat));
}

/// Formats a duration in seconds compactly, e.g. `3s`, `5m04s`, `2h07m33s`,
/// `3d02h00m`.
pub fn fmt_duration(secs: u64) -> (r: String)
    ensures
        r@ == duration_text(secs as nat),
{
    let days: u64 = secs / 86_400;
    let h: u64 = secs / 3600 % 24;
    let m: u64 = secs / 60 % 60;
    let s: u64 = secs % 60;
    let mut out: String = String::new();
    if days > 0 {
        push_decimal(&mut out, days as u128);
        push_str(&mut out, "d");
        push_two_digits(&mut out, h);
        push_str(&mut out, "h");
        push_two_digits(&mut out, m);
        push_str(&mut out, "m");
    } else if h > 0 {
        push_decimal(&mut out, h as u128);
        push_str(&mut out, "h");
        push_two_digits(&mut out, m);
        push_str(&mut out, "m");
        push_two_digits(&mut out, s);
        push_str(&mut out, "s");
    } else if m > 0 {
        push_decimal(&mut out, m as u128);
        push_str(&mut out, "m");
        push_two_digits(&mut out, s);
        push_str(&mut out, "s");
    } else {
        push_decimal(&mut out, s as u128);
        push_str(&mut out, "s");
    }
    assert(out@ =~= duration_text(secs as nat));
    out
}

} // verus!
