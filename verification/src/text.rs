//! Numbers as ASCII text: tenths with one digit behind the dot, and counts in
//! plain decimal.

use crate::decimal::{is_temperature, temperature_value};
use vstd::prelude::*;

verus! {

/// The decimal digits of `n`, the most significant first, without leading
/// zeros.
pub open spec fn decimal_digits(n: nat) -> Seq<u8>
    decreases n,
{
    if n < 10 {
        seq![(48 + n) as u8]
    } else {
        decimal_digits(n / 10).push((48 + n % 10) as u8)
    }
}

/// A number of tenths as text with exactly one digit behind the dot: `-5` is
/// `-0.5`, `120` is `12.0`.
pub open spec fn tenths_text(v: int) -> Seq<u8> {
    let size: nat = if v < 0 { (-v) as nat } else { v as nat };
    let sign: Seq<u8> = if v < 0 { seq![45u8] } else { Seq::empty() };
    sign + decimal_digits(size / 10) + seq![46u8, (48 + size % 10) as u8]
}

/// Appends the decimal digits of `n` to `out`.
pub fn push_decimal(out: &mut Vec<u8>, n: u64)
    ensures
        final(out)@ == old(out)@ + decimal_digits(n as nat),
    decreases n,
{
    if n >= 10 {
        push_decimal(out, n / 10);
    }
    out.push(48 + (n % 10) as u8);
    proof {
        if n >= 10 {
            assert(final(out)@ =~= old(out)@ + decimal_digits(n as nat));
        } else {
            assert(final(out)@ =~= old(out)@ + decimal_digits(n as nat));
        }
    }
}

/// Appends a number of tenths to `out`, with one digit behind the dot.
pub fn push_tenths(out: &mut Vec<u8>, v: i16)
    ensures
        final(out)@ == old(out)@ + tenths_text(v as int),
{
    let size: u64 = if v < 0 { (-(v as i32)) as u64 } else { v as u64 };
    if v < 0 {
        out.push(45);
    }
    push_decimal(out, size / 10);
    out.push(46);
    out.push(48 + (size % 10) as u8);
    proof {
        assert(final(out)@ =~= old(out)@ + tenths_text(v as int));
    }
}

/// A number of tenths as text, with one digit behind the dot.
pub fn format_tenths(v: i16) -> (out: Vec<u8>)
    ensures
        out@ == tenths_text(v as int),
{
    let mut out: Vec<u8> = Vec::new();
    push_tenths(&mut out, v);
    proof {
        assert(out@ =~= tenths_text(v as int));
    }
    out
}

/// Every number of tenths from -99.9 to 99.9, written as text, is a
/// temperature, and reading that text gives the number back.
pub proof fn lemma_text_round_trip(v: int)
    requires
        -999 <= v <= 999,
    ensures
        is_temperature(tenths_text(v)),
        temperature_value(tenths_text(v)) == v,
{
    reveal_with_fuel(decimal_digits, 3);
    let size: nat = if v < 0 { (-v) as nat } else { v as nat };
    let whole: nat = size / 10;
    let t = tenths_text(v);
    if whole < 10 {
        assert(decimal_digits(whole) =~= seq![(48 + whole) as u8]);
    } else {
        assert(whole / 10 < 10);
        assert(decimal_digits(whole) =~= seq![(48 + whole / 10) as u8, (48 + whole % 10) as u8]);
    }
}

} // verus!
