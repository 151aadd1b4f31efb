//! Temperatures as text: an optional minus sign, one or two digits, a dot and
//! one digit, read as a number of tenths.

use vstd::prelude::*;

verus! {

/// Whether `b` is an ASCII digit.
pub open spec fn is_digit(b: u8) -> bool {
    48 <= b <= 57
}

/// The number that the ASCII digit `b` stands for.
pub open spec fn digit_value(b: u8) -> int {
    b - 48
}

/// Whether `t` has the shape of a temperature: `D.D`, `DD.D`, `-D.D` or
/// `-DD.D`.
pub open spec fn is_temperature(t: Seq<u8>) -> bool {
    &&& t.len() >= 3
    &&& {
        let skip: int = if t[0] == 45 { 1 } else { 0 };
        &&& 3 <= t.len() - skip <= 4
        &&& forall|i: int| skip <= i < t.len() - 2 ==> is_digit(#[trigger] t[i])
        &&& t[t.len() - 2] == 46
        &&& is_digit(t[t.len() - 1])
    }
}

/// The tenths that a temperature stands for.
pub open spec fn temperature_value(t: Seq<u8>) -> int
    recommends
        is_temperature(t),
{
    let skip: int = if t[0] == 45 { 1 } else { 0 };
    let tens: int = if t.len() - skip == 4 { digit_value(t[skip]) } else { 0 };
    let size = 100 * tens + 10 * digit_value(t[t.len() - 3]) + digit_value(t[t.len() - 1]);
    if t[0] == 45 { -size } else { size }
}

/// The number that the digits of `s` spell when its dots are left out.
pub open spec fn digits_value(s: Seq<u8>) -> int
    decreases s.len(),
{
    if s.len() == 0 {
        0
    } else if s.last() == 46 {
        digits_value(s.drop_last())
    } else {
        digits_value(s.drop_last()) * 10 + digit_value(s.last())
    }
}

/// Whether `s` is an optional minus sign and then at most nine digits, with
/// dots anywhere among them.
pub open spec fn is_dotted_number(s: Seq<u8>) -> bool {
    &&& s.len() >= 1
    &&& {
        let skip: int = if s[0] == 45 { 1 } else { 0 };
        &&& s.len() - skip <= 9
        &&& forall|i: int| skip <= i < s.len() ==> is_digit(#[trigger] s[i]) || s[i] == 46
    }
}

/// The signed number that a dotted number spells when its dots are left out.
pub open spec fn dotted_value(s: Seq<u8>) -> int
    recommends
        is_dotted_number(s),
{
    if s[0] == 45 { -digits_value(s.skip(1)) } else { digits_value(s) }
}

/// `std::hint::select_unpredictable`: hands back `yes` where `condition`
/// holds and `no` where it does not, as the standard library documents it.
#[verifier::external_body]
fn pick<T>(condition: bool, yes: T, no: T) -> (r: T)
    ensures
        r == if condition { yes } else { no },
{
    std::hint::select_unpredictable(condition, yes, no)
}

/// Reads a temperature without branching on its sign or on how many digits
/// it has.
pub fn parse_temperature(t: &[u8]) -> (v: i16)
    requires
        is_temperature(t@),
    ensures
        v == temperature_value(t@),
        -999 <= v <= 999,
{
    let tlen: usize = t.len();
    let is_neg: bool = pick(t[0] == 45, true, false);
    let sign: i16 = ((!is_neg) as i16) * 2 - 1;
    let skip: usize = is_neg as usize;
    let has_dd: bool = pick(tlen - skip == 4, true, false);
    let mul: i16 = (has_dd as i16) * 100;
    assert(is_digit(t@[skip as int]));
    let high: i16 = (t[skip] - 48) as i16;
    assert(mul * high == if has_dd { 100 * high } else { 0 }) by (nonlinear_arith)
        requires mul == (if has_dd { 100i16 } else { 0i16 });
    let t1: i16 = mul * high;
    let t2: i16 = 10 * ((t[tlen - 3] - 48) as i16);
    let t3: i16 = (t[tlen - 1] - 48) as i16;
    let size: i16 = t1 + t2 + t3;
    assert(sign * size == if is_neg { -size } else { size as int }) by (nonlinear_arith)
        requires sign == (if is_neg { -1i16 } else { 1i16 });
    sign * size
}

/// Reads a dotted number digit by digit.
pub fn parse_temp(s: &[u8]) -> (v: i32)
    requires
        is_dotted_number(s@),
    ensures
        v == dotted_value(s@),
{
    let mut i: usize = 0;
    let mut sign: i32 = 1;
    if s[0] == 45 {
        i = 1;
        sign = -1;
    }
    let ghost skip = i as int;
    let mut val: i32 = 0;
    while i < s.len()
        invariant
            0 <= skip <= 1,
            skip <= i <= s.len(),
            s@.len() - skip <= 9,
            forall|j: int| skip <= j < s@.len() ==> is_digit(#[trigger] s@[j]) || s@[j] == 46,
            val == digits_value(s@.subrange(skip, i as int)),
            0 <= val < pow10((i - skip) as nat),
        decreases s.len() - i,
    {
        let b: u8 = s[i];
        proof {
            let next = s@.subrange(skip, i + 1);
            assert(next.drop_last() =~= s@.subrange(skip, i as int));
            assert(next.last() == b);
            lemma_pow10_bounds((i - skip) as nat);
        }
        if b != 46 {
            val = val * 10 + (b - 48) as i32;
        }
        i += 1;
    }
    proof {
        assert(s@.subrange(skip, s@.len() as int) =~= s@.skip(skip));
        assert(s@.skip(0) =~= s@);
    }
    assert(sign * val == if sign == 1 { val as int } else { -val }) by (nonlinear_arith)
        requires sign == 1 || sign == -1;
    sign * val
}

/// Ten to the power of `n`.
pub open spec fn pow10(n: nat) -> int
    decreases n,
{
    if n == 0 { 1 } else { 10 * pow10((n - 1) as nat) }
}

proof fn lemma_pow10_bounds(n: nat)
    requires
        n < 9,
    ensures
        1 <= pow10(n),
        10 * pow10(n) == pow10(n + 1),
        pow10(n + 1) <= 1_000_000_000,
    decreases 9 - n,
{
    reveal_with_fuel(pow10, 11);
}

/// On a temperature the two readers agree.
pub proof fn lemma_temperature_is_dotted(t: Seq<u8>)
    requires
        is_temperature(t),
    ensures
        is_dotted_number(t),
        dotted_value(t) == temperature_value(t),
{
    let skip: int = if t[0] == 45 { 1 } else { 0 };
    let body = t.skip(skip);
    assert(t.skip(0) =~= t);
    reveal_with_fuel(digits_value, 5);
    let n = body.len() as int;
    let b1 = body.drop_last();
    let b2 = b1.drop_last();
    let b3 = b2.drop_last();
    assert(body.last() == t[t.len() - 1]);
    assert(b1.last() == t[t.len() - 2]);
    assert(b2.last() == t[t.len() - 3]);
    assert(is_digit(t[t.len() - 3]));
    if n == 4 {
        assert(b3.last() == t[skip]);
        assert(is_digit(t[skip]));
        assert(b3.drop_last().len() == 0);
    } else {
        assert(b3.len() == 0);
    }
}

} // verus!
