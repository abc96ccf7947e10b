//! Exact decimal quantities, held as the same plain parts `rust_decimal::Decimal` is made of
//! (a signed mantissa below 2^96 in magnitude and a scale of at most 28 fractional digits).
//! Arithmetic that rust_decimal defines elaborately (addition, parsing, display) is delegated to
//! it; the rest is stated and implemented here.
use crate::layout::{digit_char, nat_text, repeat};
use crate::parser::is_digit;
use crate::period::{all_digits, digits_value};
use rust_decimal::Decimal;
use std::str::FromStr;
use vstd::prelude::*;

verus! {

/// Largest mantissa magnitude a `Decimal` can hold: 2^96 - 1.
pub const MAX_MANTISSA: i128 = 79228162514264337593543950335;

/// Largest number of fractional digits a `Decimal` can hold.
pub const MAX_SCALE: u32 = 28;

/// 10^n.
pub open spec fn pow10(n: nat) -> int
    decreases n,
{
    if n == 0 {
        1
    } else {
        10 * pow10((n - 1) as nat)
    }
}

pub proof fn lemma_pow10_pos(n: nat)
    ensures
        pow10(n) >= 1,
    decreases n,
{
    if n > 0 {
        lemma_pow10_pos((n - 1) as nat);
    }
}

pub proof fn lemma_pow10_add(a: nat, b: nat)
    ensures
        pow10(a + b) == pow10(a) * pow10(b),
    decreases a,
{
    if a > 0 {
        lemma_pow10_add((a - 1) as nat, b);
        assert(pow10(a + b) == 10 * pow10((a - 1 + b) as nat));
        assert(10 * (pow10((a - 1) as nat) * pow10(b)) == (10 * pow10((a - 1) as nat)) * pow10(b))
            by (nonlinear_arith);
    }
}

/// A decimal number `mantissa / 10^scale`.
#[derive(Clone, Copy, Debug)]
pub struct Quantity {
    mantissa: i128,
    scale: u32,
}

/// The mantissa of the decimal sum of `am / 10^a_scale` and `bm / 10^b_scale` written at the
/// larger of the two scales.
pub open spec fn aligned_sum(am: int, a_scale: nat, bm: int, b_scale: nat) -> int {
    let s = if a_scale >= b_scale { a_scale } else { b_scale };
    am * pow10((s - a_scale) as nat) + bm * pow10((s - b_scale) as nat)
}

/// The larger of two scales.
pub open spec fn max_scale(a_scale: nat, b_scale: nat) -> nat {
    if a_scale >= b_scale { a_scale } else { b_scale }
}

/// rust_decimal's sum of two decimals when it is exact: a zero operand yields the other
/// operand unchanged, otherwise the sum is written at the larger scale.
pub open spec fn exact_sum_parts(am: int, a_scale: nat, bm: int, b_scale: nat) -> (int, nat) {
    if am == 0 {
        (bm, b_scale)
    } else if bm == 0 {
        (am, a_scale)
    } else {
        (aligned_sum(am, a_scale, bm, b_scale), max_scale(a_scale, b_scale))
    }
}

/// Whether the sum of the two decimals fits a `Decimal` at the larger scale.
pub open spec fn sum_fits(am: int, a_scale: nat, bm: int, b_scale: nat) -> bool {
    am == 0 || bm == 0 || (-MAX_MANTISSA <= aligned_sum(am, a_scale, bm, b_scale) <= MAX_MANTISSA)
}

/// Whether the parts are those of a valid `Decimal`: mantissa below 2^96 in magnitude, scale
/// at most 28.
pub open spec fn parts_valid(p: (i128, u32)) -> bool {
    -MAX_MANTISSA <= p.0 && p.0 <= MAX_MANTISSA && p.1 <= MAX_SCALE
}

/// The parts as mathematical integers.
pub open spec fn parts_as_ints(p: (i128, u32)) -> (int, nat) {
    (p.0 as int, p.1 as nat)
}

/// Whether a parse outcome is a success with these parts.
pub open spec fn parsed_as(outcome: Result<(i128, u32), Seq<char>>, p: (i128, u32)) -> bool {
    outcome == Ok::<(i128, u32), Seq<char>>(p)
}

/// Whether a parse outcome is a failure with this text.
pub open spec fn failed_as(outcome: Result<(i128, u32), Seq<char>>, e: Seq<char>) -> bool {
    outcome == Err::<(i128, u32), Seq<char>>(e)
}

/// What `Decimal::checked_add` returns for the decimals with these parts.
pub uninterp spec fn decimal_checked_add(am: i128, a_scale: u32, bm: i128, b_scale: u32) -> Option<(i128, u32)>;

/// Calls `rust_decimal::Decimal::checked_add` on the decimals with these parts and hands back
/// the parts of the sum. Claimed: the result is what the name `decimal_checked_add` denotes; its
/// parts are those of a valid `Decimal`; and when the exact sum fits at the larger scale, the
/// result is that exact sum (a zero operand gives back the other operand unchanged), as the
/// crate's `add_sub_internal` computes it. How a sum that does not fit is rounded or refused is
/// left to the name.
#[verifier::external_body]
fn decimal_add_parts(am: i128, a_scale: u32, bm: i128, b_scale: u32) -> (r: Option<(i128, u32)>)
    requires
        -MAX_MANTISSA <= am <= MAX_MANTISSA,
        -MAX_MANTISSA <= bm <= MAX_MANTISSA,
        a_scale <= MAX_SCALE,
        b_scale <= MAX_SCALE,
    ensures
        r == decimal_checked_add(am, a_scale, bm, b_scale),
        r matches Some(p) ==> parts_valid(p),
        r matches Some(p) ==> (sum_fits(am as int, a_scale as nat, bm as int, b_scale as nat) ==> parts_as_ints(p) == exact_sum_parts(am as int, a_scale as nat, bm as int, b_scale as nat)),
        sum_fits(am as int, a_scale as nat, bm as int, b_scale as nat) ==> r is Some,
{
    let a = Decimal::from_i128_with_scale(am, a_scale);
    let b = Decimal::from_i128_with_scale(bm, b_scale);
    a.checked_add(b).map(|c| (c.mantissa(), c.scale()))
}

/// What `Decimal::checked_sub` returns for the decimals with these parts.
pub uninterp spec fn decimal_checked_sub(am: i128, a_scale: u32, bm: i128, b_scale: u32) -> Option<(i128, u32)>;

/// Calls `rust_decimal::Decimal::checked_sub` on the decimals with these parts and hands back
/// the parts of the difference. Claimed: the result is what the name `decimal_checked_sub`
/// denotes; its parts are those of a valid `Decimal`; and when the exact difference fits at
/// the larger scale, the result is the exact sum of the first and the negated second, as the
/// crate's `add_sub_internal` computes it (a zero first operand gives the second negated, a
/// zero second operand gives the first unchanged). How a difference that does not fit is
/// rounded or refused is left to the name.
#[verifier::external_body]
fn decimal_sub_parts(am: i128, a_scale: u32, bm: i128, b_scale: u32) -> (r: Option<(i128, u32)>)
    requires
        -MAX_MANTISSA <= am <= MAX_MANTISSA,
        -MAX_MANTISSA <= bm <= MAX_MANTISSA,
        a_scale <= MAX_SCALE,
        b_scale <= MAX_SCALE,
    ensures
        r == decimal_checked_sub(am, a_scale, bm, b_scale),
        r matches Some(p) ==> parts_valid(p),
        r matches Some(p) ==> (sum_fits(am as int, a_scale as nat, -bm, b_scale as nat) ==> parts_as_ints(p) == exact_sum_parts(am as int, a_scale as nat, -bm, b_scale as nat)),
        sum_fits(am as int, a_scale as nat, -bm, b_scale as nat) ==> r is Some,
{
    let a = Decimal::from_i128_with_scale(am, a_scale);
    let b = Decimal::from_i128_with_scale(bm, b_scale);
    a.checked_sub(b).map(|c| (c.mantissa(), c.scale()))
}

/// Calls `==` on the `rust_decimal::Decimal`s with these parts. Claimed: numeric equality,
/// whatever the scales (`1.5 == 1.50`), as the crate's `cmp_impl` compares.
#[verifier::external_body]
fn decimal_eq_parts(am: i128, a_scale: u32, bm: i128, b_scale: u32) -> (r: bool)
    requires
        -MAX_MANTISSA <= am <= MAX_MANTISSA,
        -MAX_MANTISSA <= bm <= MAX_MANTISSA,
        a_scale <= MAX_SCALE,
        b_scale <= MAX_SCALE,
    ensures
        r == (am * pow10((28 - a_scale) as nat) == bm * pow10((28 - b_scale) as nat)),
{
    Decimal::from_i128_with_scale(am, a_scale) == Decimal::from_i128_with_scale(bm, b_scale)
}

/// Calls `<` on the `rust_decimal::Decimal`s with these parts. Claimed: numeric order,
/// whatever the scales, as the crate's `cmp_impl` compares.
#[verifier::external_body]
fn decimal_lt_parts(am: i128, a_scale: u32, bm: i128, b_scale: u32) -> (r: bool)
    requires
        -MAX_MANTISSA <= am <= MAX_MANTISSA,
        -MAX_MANTISSA <= bm <= MAX_MANTISSA,
        a_scale <= MAX_SCALE,
        b_scale <= MAX_SCALE,
    ensures
        r == (am * pow10((28 - a_scale) as nat) < bm * pow10((28 - b_scale) as nat)),
{
    Decimal::from_i128_with_scale(am, a_scale) < Decimal::from_i128_with_scale(bm, b_scale)
}

/// What `Decimal::from_str` returns for the text `s`, as parts, or the error's text.
pub uninterp spec fn decimal_parse(s: Seq<char>) -> Result<(i128, u32), Seq<char>>;

/// Calls `rust_decimal::Decimal::from_str` on `s`. Claimed: the result is what the name
/// `decimal_parse` denotes (the parts of the parsed decimal, or the text of the error), and the
/// parts are those of a valid `Decimal`.
#[verifier::external_body]
fn decimal_from_str_parts(s: &str) -> (r: Result<(i128, u32), String>)
    ensures
        r matches Ok(p) ==> parts_valid(p) && parsed_as(decimal_parse(s@), p),
        r matches Err(e) ==> failed_as(decimal_parse(s@), e@),
{
    match Decimal::from_str(s) {
        Ok(d) => Ok((d.mantissa(), d.scale())),
        Err(e) => Err(e.to_string()),
    }
}

/// The decimal digits of `|m|`, most significant first; none for zero.
pub open spec fn magnitude_digits(m: int) -> Seq<char> {
    if m == 0 {
        Seq::empty()
    } else {
        crate::layout::nat_text((if m < 0 { -m } else { m }) as nat)
    }
}

/// The digits of `|m|`, zero-padded on the left to at least `scale` digits.
pub open spec fn scaled_digits(m: int, scale: nat) -> Seq<char> {
    let d = magnitude_digits(m);
    if d.len() < scale {
        crate::layout::repeat('0', (scale - d.len()) as nat) + d
    } else {
        d
    }
}

/// The text `Decimal`'s `Display` writes for `|m| / 10^scale` with `prec` fractional digits:
/// the whole digits (`0` when there are none), then, when `prec > 0`, a point and the
/// fractional digits cut or zero-padded to `prec` (no rounding).
pub open spec fn decimal_body(m: int, scale: nat, prec: nat) -> Seq<char> {
    let d = scaled_digits(m, scale);
    let w = d.take(d.len() - scale);
    let f = d.skip(d.len() - scale);
    let whole = if w.len() == 0 {
        seq!['0']
    } else {
        w
    };
    if prec == 0 {
        whole
    } else {
        whole + seq!['.'] + if f.len() >= prec {
            f.take(prec as int)
        } else {
            f + crate::layout::repeat('0', (prec - f.len()) as nat)
        }
    }
}

/// What `Decimal`'s `Display` writes for the decimal with these parts (`format!("{}", d)`): a
/// `-` for a negative mantissa, then the digits with `scale` of them after the point.
pub open spec fn decimal_text(m: i128, scale: u32) -> Seq<char> {
    (if m < 0 {
        seq!['-']
    } else {
        Seq::empty()
    }) + decimal_body(m as int, scale as nat, scale as nat)
}

/// What `Decimal`'s `Display` writes with two fractional digits (`format!("{:.2}", d)`): the
/// same, with the fraction cut or zero-padded to two digits.
pub open spec fn decimal_text_2dp(m: i128, scale: u32) -> Seq<char> {
    (if m < 0 {
        seq!['-']
    } else {
        Seq::empty()
    }) + decimal_body(m as int, scale as nat, 2)
}

/// Formats the `rust_decimal::Decimal` with these parts with `{}`. Claimed: the text is
/// [`decimal_text`], as the crate's `to_str_internal` writes it and `Display` signs it.
#[verifier::external_body]
fn decimal_display_parts(m: i128, scale: u32) -> (r: String)
    requires
        -MAX_MANTISSA <= m <= MAX_MANTISSA,
        scale <= MAX_SCALE,
    ensures
        r@ == decimal_text(m, scale),
{
    format!("{}", Decimal::from_i128_with_scale(m, scale))
}

/// Formats the `rust_decimal::Decimal` with these parts with `{:.2}`. Claimed: the text is
/// [`decimal_text_2dp`], as the crate's `to_str_internal` writes it with a precision of two.
#[verifier::external_body]
fn decimal_display_2dp_parts(m: i128, scale: u32) -> (r: String)
    requires
        -MAX_MANTISSA <= m <= MAX_MANTISSA,
        scale <= MAX_SCALE,
    ensures
        r@ == decimal_text_2dp(m, scale),
{
    format!("{:.2}", Decimal::from_i128_with_scale(m, scale))
}

/// The magnitude of an integer.
pub open spec fn iabs(x: int) -> int {
    if x < 0 {
        -x
    } else {
        x
    }
}

proof fn lemma_pow10_mono(k: nat, d: nat)
    requires
        k <= d,
    ensures
        pow10(k) <= pow10(d),
{
    lemma_pow10_add(k, (d - k) as nat);
    lemma_pow10_pos(k);
    lemma_pow10_pos((d - k) as nat);
    assert(pow10(k) * pow10((d - k) as nat) >= pow10(k)) by (nonlinear_arith)
        requires
            pow10(k) >= 1,
            pow10((d - k) as nat) >= 1,
    ;
    assert((k + (d - k)) as nat == d);
}

/// `|x| * 10^d` when it is at most twice the largest mantissa, else `None`.
fn scaled_magnitude(x: i128, d: u32) -> (r: Option<i128>)
    requires
        -MAX_MANTISSA <= x <= MAX_MANTISSA,
        d <= 28,
    ensures
        r matches Some(v) ==> v == iabs(x as int) * pow10(d as nat) && v <= 2 * MAX_MANTISSA,
        r is None ==> iabs(x as int) * pow10(d as nat) > 2 * MAX_MANTISSA,
{
    let mut v: i128 = if x < 0 {
        -x
    } else {
        x
    };
    let mut k: u32 = 0;
    while k < d
        invariant
            0 <= k <= d <= 28,
            -MAX_MANTISSA <= x <= MAX_MANTISSA,
            v == iabs(x as int) * pow10(k as nat),
            0 <= v <= 2 * MAX_MANTISSA,
        decreases d - k,
    {
        if v > 15845632502852867518708790067 {
            proof {
                lemma_pow10_mono((k + 1) as nat, d as nat);
                assert(pow10((k + 1) as nat) == 10 * pow10(k as nat));
                let a = iabs(x as int);
                assert(a >= 0);
                assert(a * pow10((k + 1) as nat) == v * 10) by (nonlinear_arith)
                    requires
                        v == a * pow10(k as nat),
                        pow10((k + 1) as nat) == 10 * pow10(k as nat),
                ;
                assert(a * pow10(d as nat) >= a * pow10((k + 1) as nat)) by (nonlinear_arith)
                    requires
                        a >= 0,
                        pow10((k + 1) as nat) <= pow10(d as nat),
                ;
            }
            return None;
        }
        proof {
            assert(pow10((k + 1) as nat) == 10 * pow10(k as nat));
            let a = iabs(x as int);
            assert(a * pow10((k + 1) as nat) == v * 10) by (nonlinear_arith)
                requires
                    v == a * pow10(k as nat),
                    pow10((k + 1) as nat) == 10 * pow10(k as nat),
            ;
        }
        v = v * 10;
        k += 1;
    }
    Some(v)
}

/// Whether the sum of the two decimals fits a `Decimal` at the larger scale.
fn exact_sum_fits(am: i128, a_scale: u32, bm: i128, b_scale: u32) -> (r: bool)
    requires
        -MAX_MANTISSA <= am <= MAX_MANTISSA,
        -MAX_MANTISSA <= bm <= MAX_MANTISSA,
        a_scale <= MAX_SCALE,
        b_scale <= MAX_SCALE,
    ensures
        r == sum_fits(am as int, a_scale as nat, bm as int, b_scale as nat),
{
    if am == 0 || bm == 0 {
        return true;
    }
    let (x, y, d) = if a_scale >= b_scale {
        (bm, am, a_scale - b_scale)
    } else {
        (am, bm, b_scale - a_scale)
    };
    let ghost p = pow10(d as nat);
    proof {
        assert(pow10(0) == 1);
        assert(aligned_sum(am as int, a_scale as nat, bm as int, b_scale as nat) == y + x * p) by {
            if a_scale >= b_scale {
                assert(am * pow10(0) == am);
            } else {
                assert(bm * pow10(0) == bm);
            }
        }
        lemma_pow10_pos(d as nat);
        assert(x * p == if x < 0 {
            -(iabs(x as int) * p)
        } else {
            iabs(x as int) * p
        }) by (nonlinear_arith);
    }
    match scaled_magnitude(x, d) {
        None => false,
        Some(v) => {
            let xs: i128 = if x < 0 {
                -v
            } else {
                v
            };
            let sum = xs + y;
            -79228162514264337593543950335 <= sum && sum <= 79228162514264337593543950335
        },
    }
}

impl Quantity {
    #[verifier::type_invariant]
    spec fn well_formed(self) -> bool {
        -MAX_MANTISSA <= self.mantissa <= MAX_MANTISSA && self.scale <= MAX_SCALE
    }

    /// The mantissa.
    pub closed spec fn mant(self) -> int {
        self.mantissa as int
    }

    /// Whether the parts are those of a valid `Decimal`; every quantity a program holds is.
    pub closed spec fn wf(self) -> bool {
        -MAX_MANTISSA <= self.mantissa <= MAX_MANTISSA && self.scale <= MAX_SCALE
    }

    /// The number of fractional digits.
    pub closed spec fn scl(self) -> nat {
        self.scale as nat
    }

    /// The value in units of 10^-28, the finest a quantity can resolve.
    pub open spec fn val(self) -> int {
        self.mant() * pow10((28 - self.scl()) as nat)
    }

    /// The quantity `rust_decimal` computes for `self + other` when the sum fits.
    pub closed spec fn plus(self, other: Quantity) -> Quantity {
        let (m, s) = exact_sum_parts(self.mantissa as int, self.scale as nat, other.mantissa as int, other.scale as nat);
        Quantity { mantissa: m as i128, scale: s as u32 }
    }

    /// Whether `self + other` fits a decimal exactly.
    pub closed spec fn plus_fits(self, other: Quantity) -> bool {
        sum_fits(self.mantissa as int, self.scale as nat, other.mantissa as int, other.scale as nat)
    }

    /// The quantity `rust_decimal` computes for `self - other` when the difference fits.
    pub closed spec fn minus(self, other: Quantity) -> Quantity {
        self.plus(other.negated())
    }

    /// Whether `self - other` fits a decimal exactly.
    pub closed spec fn minus_fits(self, other: Quantity) -> bool {
        self.plus_fits(other.negated())
    }

    /// The quantity with the sign flipped.
    pub closed spec fn negated(self) -> Quantity {
        Quantity { mantissa: (-self.mantissa) as i128, scale: self.scale }
    }

    /// The quantity with the sign cleared.
    pub closed spec fn magnitude(self) -> Quantity {
        Quantity { mantissa: (if self.mantissa < 0 { -self.mantissa } else { self.mantissa as int }) as i128, scale: self.scale }
    }

    /// Zero, at scale 0.
    pub closed spec fn spec_zero() -> Quantity {
        Quantity { mantissa: 0, scale: 0 }
    }

    /// What `{}` writes for this quantity.
    pub closed spec fn text(self) -> Seq<char> {
        decimal_text(self.mantissa, self.scale)
    }

    /// What `{:.2}` writes for this quantity.
    pub closed spec fn text_2dp(self) -> Seq<char> {
        decimal_text_2dp(self.mantissa, self.scale)
    }

    /// The quantity `num / 10^scale`, like `Decimal::new`.
    pub fn new(num: i64, scale: u32) -> (r: Quantity)
        requires
            scale <= MAX_SCALE,
        ensures
            r.mant() == num,
            r.scl() == scale,
            r.wf(),
    {
        Quantity { mantissa: num as i128, scale }
    }

    /// Zero.
    pub fn zero() -> (r: Quantity)
        ensures
            r == Quantity::spec_zero(),
            r.val() == 0,
            r.wf(),
    {
        assert(0 * pow10(28) == 0) by (nonlinear_arith);
        Quantity { mantissa: 0, scale: 0 }
    }

    /// The mantissa.
    pub fn mantissa(&self) -> (r: i128)
        ensures
            r == self.mant(),
            -MAX_MANTISSA <= r <= MAX_MANTISSA,
            self.wf(),
    {
        proof {
            use_type_invariant(self);
        }
        self.mantissa
    }

    /// The number of fractional digits.
    pub fn scale(&self) -> (r: u32)
        ensures
            r == self.scl(),
            r <= MAX_SCALE,
    {
        proof {
            use_type_invariant(self);
        }
        self.scale
    }

    /// True if the quantity is zero.
    pub fn is_zero(&self) -> (r: bool)
        ensures
            r == (self.val() == 0),
    {
        proof {
            lemma_pow10_pos((28 - self.scl()) as nat);
            vstd::arithmetic::mul::lemma_mul_nonzero(self.mant(), pow10((28 - self.scl()) as nat));
        }
        self.mantissa == 0
    }

    /// True if the quantity is above zero.
    pub fn is_positive(&self) -> (r: bool)
        ensures
            r == (self.val() > 0),
    {
        proof {
            lemma_pow10_pos((28 - self.scl()) as nat);
            lemma_sign_of_val(*self);
        }
        self.mantissa > 0
    }

    /// True if the quantity is below zero.
    pub fn is_negative(&self) -> (r: bool)
        ensures
            r == (self.val() < 0),
    {
        proof {
            lemma_sign_of_val(*self);
        }
        self.mantissa < 0
    }

    /// The quantity with its sign flipped, as `Decimal`'s negation computes it.
    pub fn neg(&self) -> (r: Quantity)
        ensures
            r == self.negated(),
            r.val() == -self.val(),
            r.scl() == self.scl(),
            r.wf(),
    {
        proof {
            use_type_invariant(self);
            lemma_negated_val(*self);
        }
        Quantity { mantissa: -self.mantissa, scale: self.scale }
    }

    /// The quantity with its sign cleared, as `Decimal::abs` computes it.
    pub fn abs(&self) -> (r: Quantity)
        ensures
            r == self.magnitude(),
            r.wf(),
            r.val() == if self.val() < 0 { -self.val() } else { self.val() },
    {
        proof {
            use_type_invariant(self);
            lemma_negated_val(*self);
            lemma_sign_of_val(*self);
        }
        if self.mantissa < 0 {
            Quantity { mantissa: -self.mantissa, scale: self.scale }
        } else {
            *self
        }
    }

    /// `self + other` as `rust_decimal` adds, or `None` where it reports overflow.
    pub fn checked_add(&self, other: &Quantity) -> (r: Option<Quantity>)
        ensures
            self.plus_fits(*other) ==> r == Some(self.plus(*other)),
            r matches Some(q) ==> q.wf(),
    {
        proof {
            use_type_invariant(self);
            use_type_invariant(other);
        }
        match decimal_add_parts(self.mantissa, self.scale, other.mantissa, other.scale) {
            Some((m, s)) => Some(Quantity { mantissa: m, scale: s }),
            None => None,
        }
    }

    /// `self + other` when the sum fits exactly, else `None`.
    pub fn add_exact(&self, other: &Quantity) -> (r: Option<Quantity>)
        ensures
            r == if self.plus_fits(*other) {
                Some(self.plus(*other))
            } else {
                None
            },
    {
        proof {
            use_type_invariant(self);
            use_type_invariant(other);
        }
        if exact_sum_fits(self.mantissa, self.scale, other.mantissa, other.scale) {
            self.checked_add(other)
        } else {
            None
        }
    }

    /// `self - other` when the difference fits exactly, else `None`.
    pub fn sub_exact(&self, other: &Quantity) -> (r: Option<Quantity>)
        ensures
            r == if self.minus_fits(*other) {
                Some(self.minus(*other))
            } else {
                None
            },
    {
        proof {
            use_type_invariant(self);
            use_type_invariant(other);
        }
        if exact_sum_fits(self.mantissa, self.scale, -other.mantissa, other.scale) {
            self.checked_sub(other)
        } else {
            None
        }
    }

    /// `self - other` as `rust_decimal` subtracts, or `None` where it reports overflow.
    pub fn checked_sub(&self, other: &Quantity) -> (r: Option<Quantity>)
        ensures
            self.minus_fits(*other) ==> r == Some(self.minus(*other)),
            r matches Some(q) ==> q.wf(),
    {
        proof {
            use_type_invariant(self);
            use_type_invariant(other);
        }
        match decimal_sub_parts(self.mantissa, self.scale, other.mantissa, other.scale) {
            Some((m, s)) => Some(Quantity { mantissa: m, scale: s }),
            None => None,
        }
    }

    /// Numeric equality, whatever the scales.
    pub fn equals(&self, other: &Quantity) -> (r: bool)
        ensures
            r == (self.val() == other.val()),
    {
        proof {
            use_type_invariant(self);
            use_type_invariant(other);
        }
        decimal_eq_parts(self.mantissa, self.scale, other.mantissa, other.scale)
    }

    /// Numeric order, whatever the scales.
    pub fn less_than(&self, other: &Quantity) -> (r: bool)
        ensures
            r == (self.val() < other.val()),
    {
        proof {
            use_type_invariant(self);
            use_type_invariant(other);
        }
        decimal_lt_parts(self.mantissa, self.scale, other.mantissa, other.scale)
    }

    /// The text `{}` writes for this quantity.
    pub fn to_text(&self) -> (r: String)
        ensures
            r@ == self.text(),
    {
        proof {
            use_type_invariant(self);
        }
        decimal_display_parts(self.mantissa, self.scale)
    }

    /// The text `{:.2}` writes for this quantity.
    pub fn to_text_2dp(&self) -> (r: String)
        ensures
            r@ == self.text_2dp(),
    {
        proof {
            use_type_invariant(self);
        }
        decimal_display_2dp_parts(self.mantissa, self.scale)
    }
}

/// The sum of `s` as `Decimal`'s `Sum` computes it: from zero, adding left to right.
pub open spec fn qsum(s: Seq<Quantity>) -> Quantity
    decreases s.len(),
{
    if s.len() == 0 {
        Quantity::spec_zero()
    } else {
        qsum(s.drop_last()).plus(s.last())
    }
}

/// Whether every addition in `qsum(s)` is exact.
pub open spec fn qsum_fits(s: Seq<Quantity>) -> bool
    decreases s.len(),
{
    if s.len() == 0 {
        true
    } else {
        qsum_fits(s.drop_last()) && qsum(s.drop_last()).plus_fits(s.last())
    }
}

/// The sum of the values, in units of 10^-28.
pub open spec fn val_sum(s: Seq<Quantity>) -> int
    decreases s.len(),
{
    if s.len() == 0 {
        0
    } else {
        val_sum(s.drop_last()) + s.last().val()
    }
}

/// Whether every quantity is a valid decimal.
pub open spec fn all_wf(s: Seq<Quantity>) -> bool {
    forall|i: int| 0 <= i < s.len() ==> (#[trigger] s[i]).wf()
}

/// A sum whose additions are exact has the sum of the values as its value.
pub proof fn lemma_qsum_val(s: Seq<Quantity>)
    requires
        qsum_fits(s),
        all_wf(s),
    ensures
        qsum(s).val() == val_sum(s),
        qsum(s).wf(),
    decreases s.len(),
{
    if s.len() == 0 {
        assert(Quantity::spec_zero().mant() == 0);
        assert(0 * pow10(28) == 0) by (nonlinear_arith);
    } else {
        lemma_qsum_val(s.drop_last());
        assert(s.last() == s[s.len() - 1]);
        lemma_plus_val(qsum(s.drop_last()), s.last());
    }
}

/// The sum of the quantities from zero, left to right, when every addition is exact; else
/// `None`.
pub fn try_sum_all(v: &Vec<Quantity>) -> (r: Option<Quantity>)
    ensures
        r == if qsum_fits(v@) {
            Some(qsum(v@))
        } else {
            None
        },
{
    let mut acc = Quantity::zero();
    let mut i: usize = 0;
    assert(v@.take(0) =~= Seq::<Quantity>::empty());
    while i < v.len()
        invariant
            0 <= i <= v.len(),
            qsum_fits(v@.take(i as int)),
            acc == qsum(v@.take(i as int)),
        decreases v.len() - i,
    {
        proof {
            assert(v@.take(i + 1).drop_last() =~= v@.take(i as int));
            assert(v@.take(i + 1).last() == v@[i as int]);
        }
        match acc.add_exact(&v[i]) {
            Some(x) => {
                acc = x;
            },
            None => {
                proof {
                    if qsum_fits(v@) {
                        lemma_qsum_fits_prefix(v@, (i + 1) as nat);
                    }
                }
                return None;
            },
        }
        i += 1;
    }
    assert(v@.take(v.len() as int) =~= v@);
    Some(acc)
}

/// A prefix of an exact sum is exact.
pub proof fn lemma_qsum_fits_prefix(s: Seq<Quantity>, i: nat)
    requires
        qsum_fits(s),
        i <= s.len(),
    ensures
        qsum_fits(s.take(i as int)),
    decreases s.len(),
{
    if i == s.len() {
        assert(s.take(i as int) =~= s);
    } else {
        lemma_qsum_fits_prefix(s.drop_last(), i);
        assert(s.drop_last().take(i as int) =~= s.take(i as int));
    }
}

/// What parsing the text `s` as a decimal yields: the quantity, or the error's text. (The
/// crate only yields the parts of a valid `Decimal`; any others would be refused here.)
pub closed spec fn parse_quantity_spec(s: Seq<char>) -> Result<Quantity, Seq<char>> {
    match decimal_parse(s) {
        Ok((m, sc)) => if parts_valid((m, sc)) {
            Ok(Quantity { mantissa: m, scale: sc })
        } else {
            Err(Seq::empty())
        },
        Err(e) => Err(e),
    }
}

/// A parsed quantity is a valid decimal.
pub proof fn lemma_parsed_quantity_wf(s: Seq<char>)
    ensures
        parse_quantity_spec(s) matches Ok(q) ==> q.wf(),
{
}

/// Parses decimal text the way `Decimal::from_str` does.
pub fn parse_quantity(s: &str) -> (r: Result<Quantity, String>)
    ensures
        match r {
            Ok(q) => parse_quantity_spec(s@) == Ok::<Quantity, Seq<char>>(q) && q.wf(),
            Err(e) => parse_quantity_spec(s@) == Err::<Quantity, Seq<char>>(e@),
        },
{
    match decimal_from_str_parts(s) {
        Ok((m, sc)) => Ok(Quantity { mantissa: m, scale: sc }),
        Err(e) => Err(e),
    }
}

pub proof fn lemma_sign_of_val(q: Quantity)
    ensures
        (q.val() > 0) == (q.mant() > 0),
        (q.val() < 0) == (q.mant() < 0),
        (q.val() == 0) == (q.mant() == 0),
{
    let p = pow10((28 - q.scl()) as nat);
    lemma_pow10_pos((28 - q.scl()) as nat);
    assert((q.mant() > 0) ==> q.mant() * p > 0) by (nonlinear_arith)
        requires
            p >= 1,
    ;
    assert((q.mant() < 0) ==> q.mant() * p < 0) by (nonlinear_arith)
        requires
            p >= 1,
    ;
    assert((q.mant() == 0) ==> q.mant() * p == 0) by (nonlinear_arith);
}

pub proof fn lemma_negated_val(q: Quantity)
    requires
        q.wf(),
    ensures
        q.negated().val() == -q.val(),
        q.negated().scl() == q.scl(),
        q.magnitude().val() == if q.val() < 0 { -q.val() } else { q.val() },
{
    let p = pow10((28 - q.scl()) as nat);
    assert((-q.mant()) * p == -(q.mant() * p)) by (nonlinear_arith);
    lemma_sign_of_val(q);
}

/// Adding to zero gives the other quantity unchanged, and that always fits.
pub proof fn lemma_zero_plus(q: Quantity)
    ensures
        Quantity::spec_zero().plus_fits(q),
        Quantity::spec_zero().plus(q) == q,
{
}

/// Zero minus zero always fits.
pub proof fn lemma_zero_minus_zero()
    ensures
        Quantity::spec_zero().minus_fits(Quantity::spec_zero()),
{
    lemma_zero_plus(Quantity::spec_zero().negated());
}

/// Zero is a valid decimal of value zero.
pub proof fn lemma_zero_val()
    ensures
        Quantity::spec_zero().wf(),
        Quantity::spec_zero().val() == 0,
{
    assert(0 * pow10(28) == 0) by (nonlinear_arith);
}

/// Negating a valid decimal gives a valid decimal.
pub proof fn lemma_negated_wf(q: Quantity)
    requires
        q.wf(),
    ensures
        q.negated().wf(),
        q.magnitude().wf(),
{
}

/// The exact difference, when it fits, has the difference of the values as its value.
pub proof fn lemma_minus_val(a: Quantity, b: Quantity)
    requires
        a.minus_fits(b),
        a.wf(),
        b.wf(),
    ensures
        a.minus(b).val() == a.val() - b.val(),
        a.minus(b).wf(),
{
    lemma_negated_val(b);
    lemma_plus_val(a, b.negated());
}

/// The exact sum, when it fits, has the value of the sum of the values.
pub proof fn lemma_plus_val(a: Quantity, b: Quantity)
    requires
        a.plus_fits(b),
        a.wf(),
        b.wf(),
    ensures
        a.plus(b).val() == a.val() + b.val(),
        a.plus(b).wf(),
{
    let am = a.mant();
    let bm = b.mant();
    let sa = a.scl();
    let sb = b.scl();
    if am == 0 {
        assert(a.val() == 0);
    } else if bm == 0 {
        assert(b.val() == 0);
    } else {
        let s = max_scale(sa, sb);
        let m = aligned_sum(am, sa, bm, sb);
        assert(a.plus(b).mant() == m);
        lemma_pow10_add((s - sa) as nat, (28 - s) as nat);
        lemma_pow10_add((s - sb) as nat, (28 - s) as nat);
        let pa = pow10((s - sa) as nat);
        let pb = pow10((s - sb) as nat);
        let p = pow10((28 - s) as nat);
        assert(((s - sa) + (28 - s)) as nat == (28 - sa) as nat);
        assert(((s - sb) + (28 - s)) as nat == (28 - sb) as nat);
        assert((am * pa + bm * pb) * p == am * (pa * p) + bm * (pb * p)) by (nonlinear_arith);
    }
}


// ---------------------------------------------------------------------------------------------
// Reading back what `{:.2}` writes.
// ---------------------------------------------------------------------------------------------

/// The value, in hundredths, of a numeral `[-]W.FF` with whole digits `W` and exactly two
/// fractional digits; `None` for text of any other shape.
pub open spec fn numeral_2dp_value(t: Seq<char>) -> Option<int> {
    let neg = t.len() > 0 && t[0] == '-';
    let u = if neg {
        t.drop_first()
    } else {
        t
    };
    let w = u.take(u.len() - 3);
    let f = u.skip(u.len() - 2);
    if u.len() >= 4 && u[u.len() - 3] == '.' && all_digits(w) && all_digits(f) {
        let v: int = (digits_value(w) * 100 + digits_value(f)) as int;
        Some(
            if neg {
                -v
            } else {
                v
            },
        )
    } else {
        None
    }
}

/// The quantity cut (not rounded) to two fractional digits, in hundredths, keeping its sign.
pub open spec fn hundredths_cut(q: Quantity) -> int {
    let a = iabs(q.mant()) * 100 / pow10(q.scl());
    if q.mant() < 0 {
        -a
    } else {
        a
    }
}

proof fn lemma_digit_char(d: nat)
    requires
        d < 10,
    ensures
        is_digit(digit_char(d)),
        digit_char(d) as nat - '0' as nat == d,
{
}

proof fn lemma_nat_text_value(n: nat)
    ensures
        nat_text(n).len() >= 1,
        all_digits(nat_text(n)),
        digits_value(nat_text(n)) == n,
    decreases n,
{
    if n < 10 {
        lemma_digit_char(n);
        let t = seq![digit_char(n)];
        assert(t.drop_last() =~= Seq::<char>::empty());
        assert(t.last() == digit_char(n));
        assert(digits_value(Seq::<char>::empty()) == 0);
        assert(digits_value(t) == digits_value(t.drop_last()) * 10 + (t.last() as nat - '0' as nat) as nat);
    } else {
        lemma_nat_text_value(n / 10);
        lemma_digit_char(n % 10);
        let t = nat_text(n / 10);
        assert(nat_text(n) == t.push(digit_char(n % 10)));
        assert(t.push(digit_char(n % 10)).drop_last() =~= t);
        let u = nat_text(n);
        assert(u.last() == digit_char(n % 10));
        assert(u.drop_last() =~= t);
        assert(digits_value(u) == digits_value(t) * 10 + (n % 10));
        assert(n == (n / 10) * 10 + n % 10);
        assert forall|i: int| 0 <= i < nat_text(n).len() implies is_digit(#[trigger] nat_text(n)[i]) by {
            if i < t.len() {
                assert(nat_text(n)[i] == t[i]);
            }
        }
    }
}

proof fn lemma_digits_concat(a: Seq<char>, b: Seq<char>)
    ensures
        digits_value(a + b) == digits_value(a) * pow10(b.len()) + digits_value(b),
    decreases b.len(),
{
    if b.len() == 0 {
        assert(a + b =~= a);
    } else {
        let b1 = b.drop_last();
        lemma_digits_concat(a, b1);
        assert((a + b).drop_last() =~= a + b1);
        assert((a + b).last() == b.last());
        let x = digits_value(a);
        let y = digits_value(b1);
        let p = pow10(b1.len());
        let d = (b.last() as nat - '0' as nat) as nat;
        assert(pow10(b.len()) == 10 * p);
        assert((x * p + y) * 10 + d == x * (10 * p) + (y * 10 + d)) by (nonlinear_arith);
    }
}

proof fn lemma_digits_below(b: Seq<char>)
    requires
        all_digits(b),
    ensures
        digits_value(b) < pow10(b.len()),
    decreases b.len(),
{
    if b.len() > 0 {
        let b1 = b.drop_last();
        assert forall|i: int| 0 <= i < b1.len() implies is_digit(#[trigger] b1[i]) by {
            assert(b1[i] == b[i]);
        }
        lemma_digits_below(b1);
        assert(is_digit(b[b.len() - 1]));
        let y = digits_value(b1);
        let p = pow10(b1.len());
        let d = (b.last() as nat - '0' as nat) as nat;
        assert(d <= 9);
        assert(y * 10 + d < 10 * p) by (nonlinear_arith)
            requires
                y < p,
                d <= 9,
        ;
    }
}

proof fn lemma_zeros_value(k: nat)
    ensures
        all_digits(repeat('0', k)),
        digits_value(repeat('0', k)) == 0,
    decreases k,
{
    if k > 0 {
        lemma_zeros_value((k - 1) as nat);
        assert(repeat('0', k).drop_last() =~= repeat('0', (k - 1) as nat));
    }
}

proof fn lemma_digits_join(a: Seq<char>, b: Seq<char>)
    requires
        all_digits(a),
        all_digits(b),
    ensures
        all_digits(a + b),
{
    assert forall|i: int| 0 <= i < (a + b).len() implies is_digit(#[trigger] (a + b)[i]) by {
        if i < a.len() {
            assert((a + b)[i] == a[i]);
        } else {
            assert((a + b)[i] == b[i - a.len()]);
        }
    }
}

proof fn lemma_scaled_digits(m: int, scale: nat)
    ensures
        all_digits(scaled_digits(m, scale)),
        digits_value(scaled_digits(m, scale)) == iabs(m),
        scaled_digits(m, scale).len() >= scale,
{
    let d = magnitude_digits(m);
    if m == 0 {
        assert(digits_value(d) == 0);
    } else {
        lemma_nat_text_value(iabs(m) as nat);
    }
    assert(all_digits(d));
    if d.len() < scale {
        let z = repeat('0', (scale - d.len()) as nat);
        lemma_zeros_value((scale - d.len()) as nat);
        lemma_digits_concat(z, d);
        lemma_digits_join(z, d);
    }
}

/// What `{:.2}` writes reads back as the quantity cut to two fractional digits, sign included:
/// the text is a numeral `[-]W.FF` whose value in hundredths is [`hundredths_cut`], and it
/// starts with `-` exactly when the quantity is negative.
pub proof fn law_text_2dp_reads_back(q: Quantity)
    ensures
        q.text_2dp().len() > 0,
        q.text_2dp()[0] == '-' <==> q.mant() < 0,
        numeral_2dp_value(q.text_2dp()) == Some(hundredths_cut(q)),
{
    let m = q.mantissa as int;
    let sc = q.scale as nat;
    let d = scaled_digits(m, sc);
    lemma_scaled_digits(m, sc);
    let w = d.take(d.len() - sc);
    let f = d.skip(d.len() - sc);
    assert(d =~= w + f);
    assert forall|i: int| 0 <= i < w.len() implies is_digit(#[trigger] w[i]) by {
        assert(w[i] == d[i]);
    }
    assert forall|i: int| 0 <= i < f.len() implies is_digit(#[trigger] f[i]) by {
        assert(f[i] == d[i + d.len() - sc]);
    }
    lemma_digits_concat(w, f);
    lemma_digits_below(f);
    let whole = if w.len() == 0 {
        seq!['0']
    } else {
        w
    };
    assert(seq!['0'].drop_last() =~= Seq::<char>::empty());
    assert(seq!['0'].last() == '0');
    assert(digits_value(Seq::<char>::empty()) == 0);
    assert(digits_value(seq!['0']) == 0);
    assert(all_digits(seq!['0']));
    assert(digits_value(whole) == digits_value(w));
    assert(all_digits(whole));
    let f2 = if f.len() >= 2 {
        f.take(2)
    } else {
        f + repeat('0', (2 - f.len()) as nat)
    };
    let big_w = digits_value(w);
    let big_f = digits_value(f);
    let p = pow10(sc);
    lemma_pow10_pos(sc);
    assert(iabs(m) == big_w * p + big_f);
    if f.len() >= 2 {
        let rest = f.skip(2);
        assert(f =~= f2 + rest);
        assert forall|i: int| 0 <= i < f2.len() implies is_digit(#[trigger] f2[i]) by {
            assert(f2[i] == f[i]);
        }
        assert forall|i: int| 0 <= i < rest.len() implies is_digit(#[trigger] rest[i]) by {
            assert(rest[i] == f[i + 2]);
        }
        lemma_digits_concat(f2, rest);
        lemma_digits_below(rest);
        let f2v = digits_value(f2);
        let r = digits_value(rest);
        let pr = pow10((sc - 2) as nat);
        lemma_pow10_add(2, (sc - 2) as nat);
        assert((2 + (sc - 2)) as nat == sc);
        assert(pow10(2) == 100) by {
            reveal_with_fuel(pow10, 3);
        }
        assert(p == 100 * pr);
        assert(big_f == f2v * pr + r);
        assert(0 <= r < pr);
        assert(iabs(m) * 100 == (big_w * 100 + f2v) * p + 100 * r) by (nonlinear_arith)
            requires
                iabs(m) == big_w * p + big_f,
                big_f == f2v * pr + r,
                p == 100 * pr,
        ;
        assert(0 <= 100 * r < p) by (nonlinear_arith)
            requires
                0 <= r < pr,
                p == 100 * pr,
        ;
        vstd::arithmetic::div_mod::lemma_fundamental_div_mod_converse(
            iabs(m) * 100,
            p,
            (big_w * 100 + f2v) as int,
            (100 * r) as int,
        );
        assert(digits_value(f2) == f2v);
    } else {
        let k = (2 - f.len()) as nat;
        let z = repeat('0', k);
        lemma_zeros_value(k);
        lemma_digits_concat(f, z);
        lemma_digits_join(f, z);
        lemma_pow10_add(sc, k);
        assert((sc + k) as nat == 2);
        assert(pow10(2) == 100) by {
            reveal_with_fuel(pow10, 3);
        }
        assert(p * pow10(k) == 100);
        assert(digits_value(f2) == big_f * pow10(k));
        assert(iabs(m) * 100 == (big_w * 100 + big_f * pow10(k)) * p) by (nonlinear_arith)
            requires
                iabs(m) == big_w * p + big_f,
                p * pow10(k) == 100,
        ;
        vstd::arithmetic::div_mod::lemma_fundamental_div_mod_converse(
            iabs(m) * 100,
            p,
            (big_w * 100 + big_f * pow10(k)) as int,
            0int,
        );
    }
    assert(f2.len() == 2);
    assert(all_digits(f2));
    let u = whole + seq!['.'] + f2;
    assert(decimal_body(m, sc, 2) == u);
    assert(u.take(u.len() - 3) =~= whole);
    assert(u.skip(u.len() - 2) =~= f2);
    assert(u[u.len() - 3] == '.');
    assert(is_digit(whole[0]));
    assert(u[0] == whole[0]);
    let t = q.text_2dp();
    if m < 0 {
        assert(t == seq!['-'] + u);
        assert(t.drop_first() =~= u);
    } else {
        assert(t =~= u);
    }
}

} // verus!
