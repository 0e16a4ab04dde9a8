//! Reading a reward: a decimal number, perhaps with an exponent, as a
//! fixed-point scalar.
//!
//! A reward is an optional sign, digits with perhaps a dot among them, and
//! perhaps an exponent: an `e` or `E`, an optional sign and digits. What
//! lies below a millionth is dropped. A reward beyond `LIMIT` is refused, and
//! so are `inf` and `nan`, which no scalar stands for.
use crate::fixed::{in_range, LIMIT};
use crate::format::{
    all_digits, are_digits, find, is_digit, number, scan, Stop, DOT, MINUS, PLUS, ZERO,
};
use vstd::prelude::*;
use vstd::slice::slice_subrange;

verus! {

/// Beyond this size an exponent is as good as endless.
pub const FAR: i128 = 1_000_000_000_000_000_000_000_000_000_000;

/// Ten to the power `k`.
pub open spec fn pow10(k: nat) -> nat
    decreases k,
{
    if k == 0 {
        1
    } else {
        10 * pow10((k - 1) as nat)
    }
}

/// The number that `start` becomes when digits are written behind it.
pub open spec fn joined(start: nat, digits: Seq<u8>) -> nat
    decreases digits.len(),
{
    if digits.len() == 0 {
        start
    } else {
        (joined(start, digits.drop_last()) * 10 + (digits.last() - ZERO)) as nat
    }
}

/// The number that digits spell once the decimal point has moved `by`
/// places to the right: with that many zeros behind them or, where `by` is
/// negative, without that many of their last digits.
pub open spec fn shifted(digits: Seq<u8>, by: int) -> nat {
    if by >= 0 {
        number(digits) * pow10(by as nat)
    } else if digits.len() + by <= 0 {
        0
    } else {
        number(digits.take(digits.len() + by))
    }
}

/// The exponent that a text spells: digits after an optional sign.
pub open spec fn spec_parse_exponent(text: Seq<u8>) -> Option<int> {
    let negative = text.len() > 0 && text[0] == MINUS;
    let signed = text.len() > 0 && (text[0] == MINUS || text[0] == PLUS);
    let digits = if signed {
        text.skip(1)
    } else {
        text
    };
    if digits.len() > 0 && all_digits(digits) {
        if negative {
            Some(-(number(digits) as int))
        } else {
            Some(number(digits) as int)
        }
    } else {
        None
    }
}

/// The whole part of a mantissa: what stands before its first dot.
pub open spec fn whole_of(mantissa: Seq<u8>) -> Seq<u8> {
    mantissa.take(find(mantissa, 0, Stop::Byte(DOT)))
}

/// The fraction of a mantissa: what stands behind its first dot.
pub open spec fn fraction_of(mantissa: Seq<u8>) -> Seq<u8> {
    let dot = find(mantissa, 0, Stop::Byte(DOT));
    if dot < mantissa.len() {
        mantissa.skip(dot + 1)
    } else {
        Seq::<u8>::empty()
    }
}

/// The mantissa of a number without sign: what stands before its first `e`
/// or `E`.
pub open spec fn mantissa_of(body: Seq<u8>) -> Seq<u8> {
    body.take(find(body, 0, Stop::Exponent))
}

/// The exponent of a number without sign: what stands behind its first `e`
/// or `E`, or zero if there is none.
pub open spec fn exponent_of(body: Seq<u8>) -> Option<int> {
    let mark = find(body, 0, Stop::Exponent);
    if mark < body.len() {
        spec_parse_exponent(body.skip(mark + 1))
    } else {
        Some(0int)
    }
}

/// The millionths that a number without sign spells. Its mantissa is digits
/// and perhaps a dot, with a digit on at least one side of the dot. The
/// point moves six places and as many more as the exponent says. The
/// millionths may not go beyond `LIMIT`.
pub open spec fn spec_parse_size(body: Seq<u8>) -> Option<nat> {
    let whole = whole_of(mantissa_of(body));
    let fraction = fraction_of(mantissa_of(body));
    if exponent_of(body) is Some && whole.len() + fraction.len() > 0 && all_digits(whole)
        && all_digits(fraction) && shifted(
        whole + fraction,
        6 + exponent_of(body).unwrap() - fraction.len(),
    ) <= LIMIT {
        Some(shifted(whole + fraction, 6 + exponent_of(body).unwrap() - fraction.len()))
    } else {
        None
    }
}

/// The scalar that a field spells: an optional sign and a number.
pub open spec fn spec_parse_scalar(field: Seq<u8>) -> Option<i64> {
    let negative = field.len() > 0 && field[0] == MINUS;
    let signed = field.len() > 0 && (field[0] == MINUS || field[0] == PLUS);
    let body = if signed {
        field.skip(1)
    } else {
        field
    };
    match spec_parse_size(body) {
        None => None,
        Some(size) => if negative {
            Some((-size) as i64)
        } else {
            Some(size as i64)
        },
    }
}

/// The exponent `found` stands for the exponent `meant`: it is the same, or
/// both lie far out on the same side.
pub open spec fn stands_for(found: int, meant: int) -> bool {
    ||| found == meant
    ||| FAR <= found <= meant
    ||| meant <= found <= -FAR
}

/// Powers of ten are at least one and grow with the exponent.
pub proof fn lemma_pow10_grows(a: nat, b: nat)
    requires
        a <= b,
    ensures
        1 <= pow10(a) <= pow10(b),
    decreases b,
{
    if a < b {
        lemma_pow10_grows(a, (b - 1) as nat);
    } else if a > 0 {
        lemma_pow10_grows((a - 1) as nat, (a - 1) as nat);
    }
}

/// A number of at least one with thirteen or more zeros behind it lies
/// beyond `LIMIT`.
pub proof fn lemma_beyond_limit(n: nat, by: nat)
    requires
        n >= 1,
        by >= 13,
    ensures
        n * pow10(by) > LIMIT,
{
    lemma_pow10_grows(13, by);
    assert(pow10(13) == 10_000_000_000_000) by {
        reveal_with_fuel(pow10, 14);
    }
    assert(n * pow10(by) >= pow10(by)) by (nonlinear_arith)
        requires
            n >= 1,
            pow10(by) >= 1,
    ;
}

/// More digits behind a number never make it smaller.
pub proof fn lemma_joined_grows(start: nat, digits: Seq<u8>, k: int)
    requires
        0 <= k <= digits.len(),
        all_digits(digits),
    ensures
        joined(start, digits.take(k)) <= joined(start, digits),
    decreases digits.len() - k,
{
    if k < digits.len() {
        lemma_joined_grows(start, digits, k + 1);
        assert(digits.take(k + 1).drop_last() =~= digits.take(k));
        assert(is_digit(digits[k]));
    } else {
        assert(digits.take(k) =~= digits);
    }
}

/// Digits behind digits spell what the second digits make of the number
/// that the first spell.
pub proof fn lemma_number_joined(first: Seq<u8>, second: Seq<u8>)
    ensures
        number(first + second) == joined(number(first), second),
    decreases second.len(),
{
    if second.len() == 0 {
        assert(first + second =~= first);
    } else {
        assert((first + second).drop_last() =~= first + second.drop_last());
        lemma_number_joined(first, second.drop_last());
    }
}

/// The first `count` digits written behind `start`, if that is no more than
/// `cap`.
pub fn extend_number(start: u64, digits: &[u8], count: usize, cap: u64) -> (found: Option<u64>)
    requires
        all_digits(digits@),
        count <= digits@.len(),
        start <= cap <= LIMIT,
    ensures
        found == if joined(start as nat, digits@.take(count as int)) <= cap {
            Some(joined(start as nat, digits@.take(count as int)) as u64)
        } else {
            None::<u64>
        },
{
    let ghost wanted = digits@.take(count as int);
    let mut value: u64 = start;
    let mut i: usize = 0;
    assert(wanted.take(0) =~= Seq::<u8>::empty());
    while i < count
        invariant
            all_digits(digits@),
            count <= digits@.len(),
            wanted == digits@.take(count as int),
            i <= count,
            value == joined(start as nat, wanted.take(i as int)),
            value <= cap <= LIMIT,
        decreases count - i,
    {
        let b = digits[i];
        assert(is_digit(digits@[i as int]));
        assert(wanted.take(i + 1).drop_last() =~= wanted.take(i as int));
        assert(wanted.take(i + 1).last() == b);
        let next: u64 = value * 10 + (b - ZERO) as u64;
        if next > cap {
            proof {
                assert forall|k: int| 0 <= k < wanted.len() implies is_digit(
                    #[trigger] wanted[k],
                ) by {
                    assert(wanted[k] == digits@[k]);
                }
                lemma_joined_grows(start as nat, wanted, i + 1);
            }
            return None;
        }
        value = next;
        i += 1;
    }
    assert(wanted.take(count as int) =~= wanted);
    Some(value)
}

/// The exponent that a text spells, or one that stands for it where it lies
/// far out.
pub fn read_exponent(text: &[u8]) -> (found: Option<i128>)
    ensures
        found is None <==> spec_parse_exponent(text@) is None,
        found matches Some(e) ==> stands_for(e as int, spec_parse_exponent(text@).unwrap())
            && -11 * FAR <= e <= 11 * FAR,
{
    let negative = text.len() > 0 && text[0] == MINUS;
    let signed = text.len() > 0 && (text[0] == MINUS || text[0] == PLUS);
    let start: usize = if signed {
        1
    } else {
        0
    };
    let digits = slice_subrange(text, start, text.len());
    assert(digits@ =~= if signed {
        text@.skip(1)
    } else {
        text@
    });
    if digits.len() == 0 || !are_digits(digits) {
        return None;
    }
    let mut value: i128 = 0;
    let mut i: usize = 0;
    assert(digits@.take(0) =~= Seq::<u8>::empty());
    while i < digits.len()
        invariant
            all_digits(digits@),
            i <= digits@.len(),
            0 <= value <= 11 * FAR,
            value == number(digits@.take(i as int)) || FAR <= value <= number(
                digits@.take(i as int),
            ),
        decreases digits@.len() - i,
    {
        assert(is_digit(digits@[i as int]));
        assert(digits@.take(i + 1).drop_last() =~= digits@.take(i as int));
        if value < FAR {
            value = value * 10 + (digits[i] - ZERO) as i128;
        }
        i += 1;
    }
    assert(digits@.take(digits@.len() as int) =~= digits@);
    if negative {
        Some(-value)
    } else {
        Some(value)
    }
}

/// The number that the first `keep` of the digits `whole` and then
/// `fraction` spell, if that is no more than `LIMIT`.
pub fn keep_digits(whole: &[u8], fraction: &[u8], keep: usize) -> (found: Option<u64>)
    requires
        all_digits(whole@),
        all_digits(fraction@),
        keep <= whole@.len() + fraction@.len(),
    ensures
        found == if number((whole@ + fraction@).take(keep as int)) <= LIMIT {
            Some(number((whole@ + fraction@).take(keep as int)) as u64)
        } else {
            None::<u64>
        },
{
    let keep_whole: usize = if keep < whole.len() {
        keep
    } else {
        whole.len()
    };
    let keep_fraction: usize = keep - keep_whole;
    proof {
        let kept = (whole@ + fraction@).take(keep as int);
        let first = whole@.take(keep_whole as int);
        let second = fraction@.take(keep_fraction as int);
        assert(kept =~= first + second);
        lemma_number_joined(Seq::<u8>::empty(), first);
        assert(Seq::<u8>::empty() + first =~= first);
        lemma_number_joined(first, second);
        assert forall|k: int| 0 <= k < second.len() implies is_digit(#[trigger] second[k]) by {
            assert(second[k] == fraction@[k]);
        }
        lemma_joined_grows(number(first), second, 0);
        assert(second.take(0) =~= Seq::<u8>::empty());
    }
    match extend_number(0, whole, keep_whole, LIMIT as u64) {
        None => None,
        Some(first) => extend_number(first, fraction, keep_fraction, LIMIT as u64),
    }
}

/// A number with `by` zeros behind it, if that is no more than `LIMIT`.
pub fn append_zeros(value: u64, by: i128) -> (found: Option<u64>)
    requires
        value <= LIMIT,
        by >= 0,
    ensures
        found == if value * pow10(by as nat) <= LIMIT {
            Some((value * pow10(by as nat)) as u64)
        } else {
            None::<u64>
        },
{
    if value == 0 {
        assert(value * pow10(by as nat) == 0) by (nonlinear_arith)
            requires
                value == 0,
        ;
        return Some(0);
    }
    if by >= 13 {
        proof {
            lemma_beyond_limit(value as nat, by as nat);
        }
        return None;
    }
    let mut size: u64 = value;
    let mut k: i128 = 0;
    assert(value * pow10(0) == value) by (nonlinear_arith)
        requires
            pow10(0) == 1,
    ;
    while k < by
        invariant
            0 <= k <= by <= 12,
            size == value * pow10(k as nat),
            1 <= size <= LIMIT,
        decreases by - k,
    {
        assert(value * pow10((k + 1) as nat) == value * pow10(k as nat) * 10) by (nonlinear_arith)
            requires
                pow10((k + 1) as nat) == 10 * pow10(k as nat),
        ;
        size = size * 10;
        k += 1;
        if size > LIMIT as u64 {
            proof {
                lemma_pow10_grows(k as nat, by as nat);
                assert(value * pow10(by as nat) >= value * pow10(k as nat)) by (nonlinear_arith)
                    requires
                        pow10(k as nat) <= pow10(by as nat),
                ;
            }
            return None;
        }
    }
    Some(size)
}

/// The number that the digits `whole` and then `fraction` spell once the
/// decimal point has moved `by` places to the right, if that is no more than
/// `LIMIT`.
pub fn shift_digits(whole: &[u8], fraction: &[u8], by: i128) -> (found: Option<u64>)
    requires
        all_digits(whole@),
        all_digits(fraction@),
        whole@.len() + fraction@.len() <= usize::MAX,
    ensures
        found == if shifted(whole@ + fraction@, by as int) <= LIMIT {
            Some(shifted(whole@ + fraction@, by as int) as u64)
        } else {
            None::<u64>
        },
{
    let ghost all = whole@ + fraction@;
    let total: usize = whole.len() + fraction.len();
    if by >= 0 {
        assert(all.take(total as int) =~= all);
        match keep_digits(whole, fraction, total) {
            None => {
                proof {
                    lemma_pow10_grows(0, by as nat);
                    assert(number(all) * pow10(by as nat) >= number(all)) by (nonlinear_arith)
                        requires
                            pow10(by as nat) >= 1,
                    ;
                }
                None
            },
            Some(value) => append_zeros(value, by),
        }
    } else if by <= -(total as i128) {
        Some(0)
    } else {
        keep_digits(whole, fraction, ((total as i128) + by) as usize)
    }
}

/// Two shifts that are the same, or both far to the right, or both so far to
/// the left that no digit is left, give the same number or both go beyond
/// `LIMIT`.
pub proof fn lemma_far_shifts(digits: Seq<u8>, near: int, far: int)
    requires
        near == far || 13 <= near <= far || (far <= near && digits.len() + near <= 0),
    ensures
        shifted(digits, near) <= LIMIT <==> shifted(digits, far) <= LIMIT,
        shifted(digits, near) <= LIMIT ==> shifted(digits, near) == shifted(digits, far),
{
    if 13 <= near <= far {
        if number(digits) >= 1 {
            lemma_beyond_limit(number(digits), near as nat);
            lemma_beyond_limit(number(digits), far as nat);
        } else {
            assert(number(digits) * pow10(near as nat) == 0) by (nonlinear_arith)
                requires
                    number(digits) == 0,
            ;
            assert(number(digits) * pow10(far as nat) == 0) by (nonlinear_arith)
                requires
                    number(digits) == 0,
            ;
        }
    }
}

/// The exponent of a number without sign, or one that stands for it where
/// it lies far out, and where the mantissa ends.
pub fn read_power(body: &[u8]) -> (found: Option<(i128, usize)>)
    ensures
        found is None <==> exponent_of(body@) is None,
        found matches Some((e, mark)) ==> stands_for(e as int, exponent_of(body@).unwrap()) && -11
            * FAR <= e <= 11 * FAR && mark == find(body@, 0, Stop::Exponent) && mark
            <= body@.len(),
{
    let mark = scan(body, 0, Stop::Exponent);
    if mark < body.len() {
        let text = slice_subrange(body, mark + 1, body.len());
        assert(text@ =~= body@.skip(mark + 1));
        match read_exponent(text) {
            None => None,
            Some(exponent) => Some((exponent, mark)),
        }
    } else {
        Some((0, mark))
    }
}

/// The whole part and the fraction of a mantissa.
pub fn split_mantissa<'a>(mantissa: &'a [u8]) -> (parts: (&'a [u8], &'a [u8]))
    ensures
        parts.0@ == whole_of(mantissa@),
        parts.1@ == fraction_of(mantissa@),
        parts.0@.len() + parts.1@.len() <= mantissa@.len(),
{
    let dot = scan(mantissa, 0, Stop::Byte(DOT));
    let whole = slice_subrange(mantissa, 0, dot);
    let fraction = if dot < mantissa.len() {
        slice_subrange(mantissa, dot + 1, mantissa.len())
    } else {
        slice_subrange(mantissa, dot, dot)
    };
    assert(whole@ =~= whole_of(mantissa@));
    assert(fraction@ =~= fraction_of(mantissa@));
    (whole, fraction)
}

/// The millionths that a number without sign spells.
pub fn parse_size(body: &[u8]) -> (found: Option<u64>)
    ensures
        found is None <==> spec_parse_size(body@) is None,
        found matches Some(size) ==> spec_parse_size(body@) == Some(size as nat) && size <= LIMIT,
{
    let (exponent, mark) = match read_power(body) {
        None => {
            return None;
        },
        Some(found) => found,
    };
    let mantissa = slice_subrange(body, 0, mark);
    assert(mantissa@ =~= mantissa_of(body@));
    let (whole, fraction) = split_mantissa(mantissa);
    if whole.len() == 0 && fraction.len() == 0 {
        return None;
    }
    if !are_digits(whole) || !are_digits(fraction) {
        return None;
    }
    let by: i128 = 6 + exponent - (fraction.len() as i128);
    proof {
        lemma_far_shifts(
            whole@ + fraction@,
            by as int,
            6 + exponent_of(body@).unwrap() - fraction@.len(),
        );
    }
    shift_digits(whole, fraction, by)
}

/// The scalar that a field spells.
pub fn parse_scalar(field: &[u8]) -> (found: Option<i64>)
    ensures
        found == spec_parse_scalar(field@),
        found matches Some(v) ==> in_range(v as int),
{
    let negative = field.len() > 0 && field[0] == MINUS;
    let signed = field.len() > 0 && (field[0] == MINUS || field[0] == PLUS);
    let start: usize = if signed {
        1
    } else {
        0
    };
    let body = slice_subrange(field, start, field.len());
    assert(body@ =~= if signed {
        field@.skip(1)
    } else {
        field@
    });
    match parse_size(body) {
        None => None,
        Some(size) => if negative {
            Some(-(size as i64))
        } else {
            Some(size as i64)
        },
    }
}

} // verus!
