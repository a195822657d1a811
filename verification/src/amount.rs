//! Signed fixed-point amounts and the European numeric notation: a comma as
//! the decimal mark, spaces as ignorable digit-group separators, and
//! non-breaking spaces as noise to strip beforehand.

use vstd::prelude::*;
use vstd::string::StrSliceExecFns;

use crate::text::digit_val;
use crate::text::is_digit;
use crate::text::lemma_find_is;
use crate::text::lemma_remove_idempotent;
use crate::text::remove_char;
use crate::text::spec_remove;

verus! {

/// The number of fraction digits an [`Amount`] stores.
pub const FRAC_DIGITS: u32 = 12;

/// A signed fixed-point amount. Its numeric value is `scaled` divided by
/// ten to the [`FRAC_DIGITS`], negated when `negative` holds. The sign of
/// the source field is kept even for a zero magnitude.
#[derive(Clone, Copy, Debug, PartialEq, Eq, Structural)]
pub struct Amount {
    pub negative: bool,
    pub scaled: u128,
}

/// Ten to the power `e`.
pub open spec fn pow10(e: nat) -> int
    decreases e,
{
    if e == 0 {
        1
    } else {
        10 * pow10((e - 1) as nat)
    }
}

pub proof fn lemma_pow10_pos(e: nat)
    ensures
        pow10(e) >= 1,
    decreases e,
{
    if e > 0 {
        lemma_pow10_pos((e - 1) as nat);
    }
}

/// The value of a sequence of decimal digits, read most significant first.
pub open spec fn digits_val(s: Seq<char>) -> int
    decreases s.len(),
{
    if s.len() == 0 {
        0
    } else {
        digits_val(s.drop_last()) * 10 + digit_val(s.last())
    }
}

/// The decimal digits of `b`, in order.
pub open spec fn digits_of(b: Seq<char>) -> Seq<char> {
    b.filter(|ch: char| is_digit(ch))
}

/// The non-breaking-space character used as thousands-group padding.
pub open spec fn nbsp() -> char {
    '\u{a0}'
}

/// `s` with every non-breaking space removed.
pub open spec fn spec_strip_nbsp(s: Seq<char>) -> Seq<char> {
    spec_remove(s, nbsp())
}

/// Removes every non-breaking space from an amount field.
pub fn strip_nbsp(s: &str) -> (r: String)
    ensures
        r@ == spec_strip_nbsp(s@),
{
    remove_char(s, '\u{a0}')
}

/// Stripping non-breaking spaces twice yields the same string as once.
pub proof fn lemma_strip_nbsp_idempotent(s: Seq<char>)
    ensures
        spec_strip_nbsp(spec_strip_nbsp(s)) == spec_strip_nbsp(s),
{
    lemma_remove_idempotent(s, nbsp());
}

/// `c` with every ordinary space removed: the space is an ignorable
/// digit-group separator.
pub open spec fn despaced(c: Seq<char>) -> Seq<char> {
    spec_remove(c, ' ')
}

/// The digits-and-comma part of an amount field: what remains after
/// ignoring spaces and a leading sign.
pub open spec fn amount_body(c: Seq<char>) -> Seq<char> {
    let u = despaced(c);
    if u.len() > 0 && (u[0] == '-' || u[0] == '+') {
        u.skip(1)
    } else {
        u
    }
}

/// Whether the amount field `c` denotes a negative number.
pub open spec fn amount_negative(c: Seq<char>) -> bool {
    let u = despaced(c);
    u.len() > 0 && u[0] == '-'
}

/// A well-formed amount body: nonempty, nothing but digits and at most one
/// comma, and at least one digit.
pub open spec fn body_ok(b: Seq<char>) -> bool {
    &&& b.len() >= 1
    &&& (forall|k: int| 0 <= k < b.len() ==> is_digit(#[trigger] b[k]) || b[k] == ',')
    &&& (forall|k1: int, k2: int|
        0 <= k1 < k2 < b.len() ==> !((#[trigger] b[k1]) == ',' && (#[trigger] b[k2]) == ','))
    &&& (exists|k: int| 0 <= k < b.len() && is_digit(#[trigger] b[k]))
}

/// The number of characters after the decimal comma, or zero without one.
pub open spec fn amount_scale(b: Seq<char>) -> int {
    if b.contains(',') {
        b.len() - 1 - crate::text::spec_find(b, ',')
    } else {
        0
    }
}

/// The amount an amount field denotes, already stripped of non-breaking
/// spaces, or nothing when the field is not a number in European notation
/// (optional sign, digits with ignorable spaces, at most one decimal
/// comma), has more fraction digits than an [`Amount`] stores, or exceeds
/// the magnitude an [`Amount`] can hold.
pub open spec fn spec_parse_amount(c: Seq<char>) -> Option<Amount> {
    let b = amount_body(c);
    let scale = amount_scale(b);
    let mant = digits_val(digits_of(b));
    if body_ok(b) && scale <= FRAC_DIGITS && mant * pow10((FRAC_DIGITS - scale) as nat)
        <= u128::MAX {
        Some(
            Amount {
                negative: amount_negative(c),
                scaled: (mant * pow10((FRAC_DIGITS - scale) as nat)) as u128,
            },
        )
    } else {
        None
    }
}

/// One scanning step: extending a prefix by one character either keeps its
/// digits or appends that character to them.
proof fn lemma_digits_of_take_step(b: Seq<char>, i: int)
    requires
        0 <= i < b.len(),
    ensures
        is_digit(b[i]) ==> digits_of(b.take(i + 1)) == digits_of(b.take(i)).push(b[i]),
        !is_digit(b[i]) ==> digits_of(b.take(i + 1)) == digits_of(b.take(i)),
{
    reveal_with_fuel(Seq::<_>::filter, 2);
    assert(b.take(i + 1).drop_last() =~= b.take(i));
    assert(b.take(i + 1).last() == b[i]);
    assert(b.take(i + 1).len() == i + 1);
}

/// Every character of `digits_of(b)` is a digit.
proof fn lemma_digits_of_digits(b: Seq<char>)
    ensures
        forall|k: int| 0 <= k < digits_of(b).len() ==> is_digit(#[trigger] digits_of(b)[k]),
    decreases b.len(),
{
    reveal_with_fuel(Seq::<_>::filter, 2);
    if b.len() > 0 {
        lemma_digits_of_digits(b.drop_last());
    }
}

/// The value of a digit sequence is nonnegative.
proof fn lemma_digits_val_nonneg(s: Seq<char>)
    requires
        forall|k: int| 0 <= k < s.len() ==> is_digit(#[trigger] s[k]),
    ensures
        digits_val(s) >= 0,
    decreases s.len(),
{
    if s.len() > 0 {
        assert(forall|k: int| 0 <= k < s.drop_last().len() ==> is_digit(#[trigger] s.drop_last()[k]));
        lemma_digits_val_nonneg(s.drop_last());
    }
}

/// Appending a digit multiplies the value by ten and adds the digit.
proof fn lemma_digits_val_push(s: Seq<char>, c: char)
    ensures
        digits_val(s.push(c)) == digits_val(s) * 10 + digit_val(c),
{
    assert(s.push(c).drop_last() =~= s);
    assert(s.push(c).last() == c);
    assert(s.push(c).len() == s.len() + 1);
}

/// The digits of a prefix are worth no more than the digits of the whole.
proof fn lemma_digits_val_take_mono(b: Seq<char>, j: int)
    requires
        0 <= j <= b.len(),
    ensures
        digits_val(digits_of(b.take(j))) <= digits_val(digits_of(b)),
    decreases b.len() - j,
{
    if j == b.len() {
        assert(b.take(j) =~= b);
    } else {
        lemma_digits_of_take_step(b, j);
        if is_digit(b[j]) {
            lemma_digits_of_digits(b.take(j));
            lemma_digits_val_nonneg(digits_of(b.take(j)));
            lemma_digits_val_push(digits_of(b.take(j)), b[j]);
        }
        lemma_digits_val_take_mono(b, j + 1);
    }
}

/// Ten to the power `e`, for the exponents an [`Amount`] can call for.
fn pow10_u128(e: u32) -> (r: u128)
    requires
        e <= 12,
    ensures
        r as int == pow10(e as nat),
{
    proof {
        reveal_with_fuel(pow10, 13);
    }
    match e {
        0 => 1,
        1 => 10,
        2 => 100,
        3 => 1_000,
        4 => 10_000,
        5 => 100_000,
        6 => 1_000_000,
        7 => 10_000_000,
        8 => 100_000_000,
        9 => 1_000_000_000,
        10 => 10_000_000_000,
        11 => 100_000_000_000,
        _ => 1_000_000_000_000,
    }
}

/// Parses an amount field, already stripped of non-breaking spaces, as
/// [`spec_parse_amount`] describes: European notation, an optional leading
/// sign, spaces ignored as digit-group separators, a comma as the decimal
/// mark.
#[verifier::loop_isolation(false)]
pub fn parse_amount(s: &str) -> (r: Option<Amount>)
    ensures
        r == spec_parse_amount(s@),
{
    let u = remove_char(s, ' ');
    let un = u.as_str().unicode_len();
    let mut negative = false;
    let mut start: usize = 0;
    if un > 0 {
        let c0 = u.as_str().get_char(0);
        if c0 == '-' {
            negative = true;
            start = 1;
        } else if c0 == '+' {
            start = 1;
        }
    }
    let ghost b = u@.skip(start as int);
    proof {
        if start == 0 {
            assert(u@.skip(0) =~= u@);
        }
        assert(b == amount_body(s@));
        assert(negative == amount_negative(s@));
    }
    let mut mant: u128 = 0;
    let mut any_digit = false;
    let mut comma_seen = false;
    let mut frac: usize = 0;
    let mut cpos: usize = 0;
    let mut i: usize = start;
    proof {
        reveal_with_fuel(Seq::<_>::filter, 1);
        assert(b.take(0) =~= Seq::<char>::empty());
        assert(digits_of(b.take(0)) =~= Seq::<char>::empty());
    }
    while i < un
        invariant
            start <= i <= un,
            forall|k: int| 0 <= k < i - start ==> is_digit(#[trigger] b[k]) || b[k] == ',',
            comma_seen ==> start <= cpos < i && b[cpos - start] == ',' && frac == i - cpos - 1,
            forall|k: int|
                0 <= k < i - start && (!comma_seen || k != cpos - start) ==> (#[trigger] b[k])
                    != ',',
            !comma_seen ==> frac == 0,
            any_digit == (exists|k: int| 0 <= k < i - start && is_digit(#[trigger] b[k])),
            mant as int == digits_val(digits_of(b.take(i - start))),
        decreases un - i,
    {
        let ghost j = i - start;
        let ch = u.as_str().get_char(i);
        proof {
            assert(b[j as int] == u@[i as int]);
            lemma_digits_of_take_step(b, j as int);
        }
        let v = ch as u32;
        if 48 <= v && v <= 57 {
            proof {
                lemma_digits_val_push(digits_of(b.take(j as int)), ch);
            }
            let d = (v - 48) as u128;
            let m10 = match mant.checked_mul(10) {
                Some(m) => m,
                None => {
                    proof {
                        lemma_overflow_means_none(s@, b, j as int + 1);
                    }
                    return None;
                },
            };
            let m = match m10.checked_add(d) {
                Some(m) => m,
                None => {
                    proof {
                        lemma_overflow_means_none(s@, b, j as int + 1);
                    }
                    return None;
                },
            };
            mant = m;
            any_digit = true;
            if comma_seen {
                frac += 1;
            }
        } else if ch == ',' {
            if comma_seen {
                proof {
                    assert(!body_ok(b));
                }
                return None;
            }
            comma_seen = true;
            cpos = i;
        } else {
            proof {
                assert(!(is_digit(b[j as int]) || b[j as int] == ','));
                assert(!body_ok(b));
            }
            return None;
        }
        i += 1;
    }
    proof {
        assert(b.take(un - start) =~= b);
    }
    if !any_digit {
        proof {
            assert(!body_ok(b));
        }
        return None;
    }
    proof {
        assert(body_ok(b)) by {
            assert forall|k1: int, k2: int| 0 <= k1 < k2 < b.len() implies !((#[trigger] b[k1])
                == ',' && (#[trigger] b[k2]) == ',') by {
                if comma_seen {
                    assert(k1 != cpos - start || k2 != cpos - start);
                }
            }
        }
        if comma_seen {
            assert(b[cpos - start] == ',');
            lemma_find_is(b, ',', cpos - start);
            assert(b.contains(','));
            assert(amount_scale(b) == frac);
        } else {
            assert(!b.contains(','));
            assert(amount_scale(b) == 0);
        }
    }
    let scale: usize = if comma_seen {
        frac
    } else {
        0
    };
    if scale > 12 {
        return None;
    }
    let pw = pow10_u128(12 - scale as u32);
    proof {
        lemma_digits_of_digits(b);
        lemma_digits_val_nonneg(digits_of(b));
        lemma_pow10_pos((FRAC_DIGITS - amount_scale(b)) as nat);
    }
    match mant.checked_mul(pw) {
        Some(scaled) => Some(Amount { negative, scaled }),
        None => None,
    }
}

/// When the digits of a prefix already exceed what an [`Amount`] can hold,
/// the whole field parses to nothing.
proof fn lemma_overflow_means_none(c: Seq<char>, b: Seq<char>, j: int)
    requires
        b == amount_body(c),
        0 <= j <= b.len(),
        digits_val(digits_of(b.take(j))) > u128::MAX,
    ensures
        spec_parse_amount(c) is None,
{
    lemma_digits_val_take_mono(b, j);
    let mant = digits_val(digits_of(b));
    let scale = amount_scale(b);
    if body_ok(b) && scale <= FRAC_DIGITS {
        let p = pow10((FRAC_DIGITS - scale) as nat);
        lemma_pow10_pos((FRAC_DIGITS - scale) as nat);
        assert(mant * p >= mant) by (nonlinear_arith)
            requires
                mant > 0,
                p >= 1,
        ;
    }
}

} // verus!
