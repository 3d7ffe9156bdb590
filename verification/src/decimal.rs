//! Decimal numbers as `rust_decimal` represents them, and the arithmetic the
//! reports perform on them: sums, averages and rounding.
use rust_decimal::Decimal;
use std::str::FromStr;
use vstd::prelude::*;

verus! {

/// The largest magnitude of a mantissa: 96 bits.
pub const MAX_MANTISSA: i128 = 0xFFFF_FFFF_FFFF_FFFF_FFFF_FFFFi128;

/// The largest scale (number of digits after the point).
pub const MAX_SCALE: u32 = 28u32;

/// A decimal number `mantissa / 10^scale`, with the sign flag that
/// `rust_decimal` keeps apart from the mantissa (a zero may carry it).
#[derive(Clone, Copy, Debug, PartialEq, Eq, Structural)]
pub struct Dec {
    pub(crate) mantissa: i128,
    pub(crate) scale: u32,
    pub(crate) negative: bool,
}

/// The parts describe a value that `rust_decimal` can hold: a mantissa of at
/// most 96 bits, a scale of at most 28, and a sign flag that agrees with the
/// sign of a non-zero mantissa.
pub open spec fn valid_parts(mantissa: i128, scale: u32, negative: bool) -> bool {
    &&& -MAX_MANTISSA <= mantissa <= MAX_MANTISSA
    &&& scale <= MAX_SCALE
    &&& mantissa != 0 ==> (negative <==> mantissa < 0)
}

impl Dec {
    #[verifier::type_invariant]
    spec fn inv(self) -> bool {
        valid_parts(self.mantissa, self.scale, self.negative)
    }

    /// The signed mantissa.
    pub closed spec fn spec_mantissa(self) -> i128 {
        self.mantissa
    }

    /// The scale.
    pub closed spec fn spec_scale(self) -> u32 {
        self.scale
    }

    /// The sign flag.
    pub closed spec fn spec_negative(self) -> bool {
        self.negative
    }

    /// The value built from its parts, where they are valid.
    pub fn from_parts(mantissa: i128, scale: u32, negative: bool) -> (r: Option<Dec>)
        ensures
            r is Some <==> valid_parts(mantissa, scale, negative),
            r matches Some(d) ==> d.spec_mantissa() == mantissa && d.spec_scale() == scale
                && d.spec_negative() == negative,
    {
        if -MAX_MANTISSA <= mantissa && mantissa <= MAX_MANTISSA && scale <= MAX_SCALE && (
        mantissa == 0 || (negative == (mantissa < 0))) {
            Some(Dec { mantissa, scale, negative })
        } else {
            None
        }
    }

    /// The signed mantissa.
    pub fn mantissa(&self) -> (r: i128)
        ensures
            r == self.spec_mantissa(),
            -MAX_MANTISSA <= r <= MAX_MANTISSA,
    {
        proof {
            use_type_invariant(self);
        }
        self.mantissa
    }

    /// The scale.
    pub fn scale(&self) -> (r: u32)
        ensures
            r == self.spec_scale(),
            r <= MAX_SCALE,
    {
        proof {
            use_type_invariant(self);
        }
        self.scale
    }

    /// The sign flag.
    pub fn is_negative(&self) -> (r: bool)
        ensures
            r == self.spec_negative(),
    {
        self.negative
    }

    /// Zero, as `rust_decimal`'s `Decimal::ZERO`: mantissa 0, scale 0, no sign.
    pub fn zero() -> (r: Dec)
        ensures
            r == spec_zero(),
            r.spec_mantissa() == 0 && r.spec_scale() == 0 && !r.spec_negative(),
    {
        Dec { mantissa: 0, scale: 0, negative: false }
    }

    /// A count as a decimal, as `Decimal::from(usize)` gives it: the count as
    /// mantissa, scale 0, no sign.
    pub fn from_count(n: usize) -> (r: Dec)
        ensures
            r == spec_count(n as nat),
            r.spec_mantissa() == n && r.spec_scale() == 0 && !r.spec_negative(),
    {
        Dec { mantissa: n as i128, scale: 0, negative: false }
    }
}

/// Zero with scale 0.
pub closed spec fn spec_zero() -> Dec {
    Dec { mantissa: 0, scale: 0, negative: false }
}

/// A count with scale 0.
pub closed spec fn spec_count(n: nat) -> Dec {
    Dec { mantissa: n as i128, scale: 0, negative: false }
}

// ---------------------------------------------------------------------------
// What rust_decimal computes
// ---------------------------------------------------------------------------

/// What `Decimal::from_str` gives for the text: `None` where it returns an error.
pub uninterp spec fn decimal_from_str(text: Seq<char>) -> Option<Dec>;

/// What `Decimal::checked_add` gives: `None` where the sum overflows.
pub uninterp spec fn decimal_checked_add(a: Dec, b: Dec) -> Option<Dec>;

/// What `Decimal::checked_div` gives: `None` where the divisor is zero or the
/// quotient overflows.
pub uninterp spec fn decimal_checked_div(a: Dec, b: Dec) -> Option<Dec>;

/// What `Decimal::round_dp` gives: the value rounded to `dp` digits after the
/// point, halves to even.
pub uninterp spec fn decimal_round_dp(d: Dec, dp: u32) -> Dec;

/// Parses a decimal number with `Decimal::from_str`.
/// Claims that the result is the named `decimal_from_str` of the text.
#[verifier::external_body]
pub(crate) fn parse_decimal(text: &str) -> (r: Option<Dec>)
    ensures
        r == decimal_from_str(text@),
{
    match Decimal::from_str(text) {
        Ok(z) => Some(Dec { mantissa: z.mantissa(), scale: z.scale(), negative: z.is_sign_negative() }),
        Err(_) => None,
    }
}

/// Adds with `Decimal::checked_add`, after rebuilding both operands with
/// `Decimal::from_i128_with_scale` and `set_sign_negative`.
/// Claims that the result is the named `decimal_checked_add` of the operands.
#[verifier::external_body]
pub(crate) fn checked_add(a: Dec, b: Dec) -> (r: Option<Dec>)
    ensures
        r == decimal_checked_add(a, b),
{
    let mut x = Decimal::from_i128_with_scale(a.mantissa, a.scale);
    x.set_sign_negative(a.negative);
    let mut y = Decimal::from_i128_with_scale(b.mantissa, b.scale);
    y.set_sign_negative(b.negative);
    match x.checked_add(y) {
        Some(z) => Some(Dec { mantissa: z.mantissa(), scale: z.scale(), negative: z.is_sign_negative() }),
        None => None,
    }
}

/// Divides with `Decimal::checked_div`, after rebuilding both operands.
/// Claims that the result is the named `decimal_checked_div` of the operands,
/// and, as the crate's `div_impl` shows, that a zero divisor gives `None`.
#[verifier::external_body]
pub(crate) fn checked_div(a: Dec, b: Dec) -> (r: Option<Dec>)
    ensures
        r == decimal_checked_div(a, b),
        b.spec_mantissa() == 0 ==> r is None,
{
    let mut x = Decimal::from_i128_with_scale(a.mantissa, a.scale);
    x.set_sign_negative(a.negative);
    let mut y = Decimal::from_i128_with_scale(b.mantissa, b.scale);
    y.set_sign_negative(b.negative);
    match x.checked_div(y) {
        Some(z) => Some(Dec { mantissa: z.mantissa(), scale: z.scale(), negative: z.is_sign_negative() }),
        None => None,
    }
}

/// Rounds with `Decimal::round_dp` (which rounds halves to even), after
/// rebuilding the operand.
/// Claims that the result is the named `decimal_round_dp` of the operand and `dp`.
#[verifier::external_body]
pub(crate) fn round_dp(d: Dec, dp: u32) -> (r: Dec)
    ensures
        r == decimal_round_dp(d, dp),
{
    let mut x = Decimal::from_i128_with_scale(d.mantissa, d.scale);
    x.set_sign_negative(d.negative);
    let z = x.round_dp(dp);
    Dec { mantissa: z.mantissa(), scale: z.scale(), negative: z.is_sign_negative() }
}

// ---------------------------------------------------------------------------
// Sums and averages
// ---------------------------------------------------------------------------

/// The sum that std's `Iterator::sum` computes over `Decimal`s: zero, plus each
/// value in turn; `None` where an addition overflows (where `sum` panics).
pub open spec fn spec_sum(vals: Seq<Dec>) -> Option<Dec>
    decreases vals.len(),
{
    if vals.len() == 0 {
        Some(spec_zero())
    } else {
        match spec_sum(vals.drop_last()) {
            Some(t) => decimal_checked_add(t, vals.last()),
            None => None,
        }
    }
}

/// The total that a map entry accumulates: the first value, plus each later
/// value in turn; `None` where an addition overflows, and for no values.
pub open spec fn spec_running_total(vals: Seq<Dec>) -> Option<Dec>
    decreases vals.len(),
{
    if vals.len() == 0 {
        None
    } else if vals.len() == 1 {
        Some(vals[0])
    } else {
        match spec_running_total(vals.drop_last()) {
            Some(t) => decimal_checked_add(t, vals.last()),
            None => None,
        }
    }
}

/// The average as the reports compute it: the sum divided by the count, rounded
/// to 4 digits after the point; `None` where the sum overflows, where there are
/// no values (a division by zero), or where the division overflows.
pub open spec fn spec_average(vals: Seq<Dec>) -> Option<Dec> {
    match spec_sum(vals) {
        Some(t) => match decimal_checked_div(t, spec_count(vals.len())) {
            Some(q) => Some(decimal_round_dp(q, 4)),
            None => None,
        },
        None => None,
    }
}

/// The sum of the values, `None` where it overflows.
pub fn sum_values(vals: &Vec<Dec>) -> (r: Option<Dec>)
    ensures
        r == spec_sum(vals@),
{
    let mut total = Dec::zero();
    let mut i: usize = 0;
    assert(vals@.take(0) =~= Seq::<Dec>::empty());
    while i < vals.len()
        invariant
            0 <= i <= vals.len(),
            spec_sum(vals@.take(i as int)) == Some(total),
        decreases vals.len() - i,
    {
        assert(vals@.take(i + 1).drop_last() =~= vals@.take(i as int));
        match checked_add(total, vals[i]) {
            Some(t) => {
                total = t;
            },
            None => {
                proof {
                    lemma_sum_none_extends(vals@, i + 1);
                }
                return None;
            },
        }
        i = i + 1;
    }
    assert(vals@.take(vals.len() as int) =~= vals@);
    Some(total)
}

/// Once a prefix sum overflows, the whole sum does.
proof fn lemma_sum_none_extends(vals: Seq<Dec>, k: int)
    requires
        0 <= k <= vals.len(),
        spec_sum(vals.take(k)) is None,
    ensures
        spec_sum(vals) is None,
    decreases vals.len() - k,
{
    if k == vals.len() {
        assert(vals.take(k) =~= vals);
    } else {
        assert(vals.take(k + 1).drop_last() =~= vals.take(k));
        lemma_sum_none_extends(vals, k + 1);
    }
}

/// The average of the values: their sum divided by their count, rounded to 4
/// digits after the point. `None` exactly where `spec_average` is.
pub fn average(vals: &Vec<Dec>) -> (r: Option<Dec>)
    ensures
        r == spec_average(vals@),
{
    match sum_values(vals) {
        Some(t) => match checked_div(t, Dec::from_count(vals.len())) {
            Some(q) => Some(round_dp(q, 4)),
            None => None,
        },
        None => None,
    }
}

/// A total rounded to a whole number, as `Decimal::round` gives it; the crate's
/// source defines `round` as `round_dp(0)`.
pub fn round_whole(d: Dec) -> (r: Dec)
    ensures
        r == decimal_round_dp(d, 0),
{
    round_dp(d, 0)
}

} // verus!
