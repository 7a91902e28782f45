//! Exact decimal amounts (prices and quantities).
//!
//! An [`Amount`] holds a decimal number as an integer mantissa and a scale:
//! it stands for `mantissa / 10^scale`. The arithmetic itself is done by the
//! `rust_decimal` crate; this module states what that arithmetic returns and
//! proves the small operations built on top of it.

use vstd::prelude::*;
use vstd::std_specs::cmp::PartialEqSpecImpl;

verus! {

/// The largest scale (number of digits after the decimal point) of an amount.
pub const MAX_SCALE: u32 = 28;

/// Mantissas lie strictly between `-MANTISSA_LIMIT` and `MANTISSA_LIMIT` (2^96).
pub const MANTISSA_LIMIT: i128 = 0x1_0000_0000_0000_0000_0000_0000;

/// `10^n`.
pub open spec fn pow10(n: nat) -> int
    decreases n,
{
    if n == 0 {
        1
    } else {
        10 * pow10((n - 1) as nat)
    }
}

/// Every power of ten is at least one.
pub proof fn lemma_pow10_positive(n: nat)
    ensures
        pow10(n) >= 1,
    decreases n,
{
    if n > 0 {
        lemma_pow10_positive((n - 1) as nat);
    }
}

/// The mathematical content of an [`Amount`]: the number `mantissa / 10^scale`.
pub ghost struct Dec {
    pub mantissa: int,
    pub scale: nat,
}

impl Dec {
    /// The mantissa fits in 96 bits and the scale is at most [`MAX_SCALE`].
    pub open spec fn wf(self) -> bool {
        &&& -MANTISSA_LIMIT < self.mantissa < MANTISSA_LIMIT
        &&& self.scale <= MAX_SCALE
    }

    /// The number counted in units of `10^-28`, which makes it an integer:
    /// two amounts are numerically equal exactly when their units are equal.
    pub open spec fn units(self) -> int {
        self.mantissa * pow10((MAX_SCALE - self.scale) as nat)
    }

    /// The mantissa that the same number has at the (larger) scale `scale`.
    pub open spec fn rescaled(self, scale: nat) -> int {
        self.mantissa * pow10((scale - self.scale) as nat)
    }

    /// The number can be written at the scale `scale`: it has no more
    /// digits after the point, and its mantissa at that scale fits in 96
    /// bits.
    pub open spec fn fits_scale(self, scale: nat) -> bool {
        &&& self.scale <= scale <= MAX_SCALE
        &&& -MANTISSA_LIMIT < self.rescaled(scale) < MANTISSA_LIMIT
    }
}

/// The larger of the two scales.
pub open spec fn common_scale(a: Dec, b: Dec) -> nat {
    if a.scale >= b.scale {
        a.scale
    } else {
        b.scale
    }
}

/// The difference `a - b`, written at the larger of the two scales, has a
/// mantissa that fits in 96 bits.
pub open spec fn difference_fits(a: Dec, b: Dec) -> bool {
    let s = common_scale(a, b);
    -MANTISSA_LIMIT < a.rescaled(s) - b.rescaled(s) < MANTISSA_LIMIT
}

/// The difference `a - b` written at the larger of the two scales.
pub open spec fn exact_difference(a: Dec, b: Dec) -> Dec {
    let s = common_scale(a, b);
    Dec { mantissa: a.rescaled(s) - b.rescaled(s), scale: s }
}

/// What `rust_decimal` returns for `a - b`. Where the exact difference does
/// not fit it is a rounded value, of which nothing more is stated here.
pub uninterp spec fn decimal_difference(a: Dec, b: Dec) -> Dec;

/// The result of subtracting `b` from `a`: exact wherever the exact
/// difference fits, and `rust_decimal`'s rounded result otherwise.
pub open spec fn difference(a: Dec, b: Dec) -> Dec {
    if difference_fits(a, b) {
        exact_difference(a, b)
    } else {
        decimal_difference(a, b)
    }
}

/// The text that `rust_decimal` prints for a decimal number.
pub uninterp spec fn decimal_text(a: Dec) -> Seq<char>;

/// Where the exact difference fits, subtraction loses nothing.
pub proof fn lemma_difference_exact(a: Dec, b: Dec)
    requires
        a.wf(),
        b.wf(),
        difference_fits(a, b),
    ensures
        difference(a, b).wf(),
        difference(a, b).units() == a.units() - b.units(),
{
    let s = common_scale(a, b);
    lemma_rescaled_units(a, s);
    lemma_rescaled_units(b, s);
    let p = pow10((MAX_SCALE - s) as nat);
    assert((a.rescaled(s) - b.rescaled(s)) * p == a.rescaled(s) * p - b.rescaled(s) * p)
        by (nonlinear_arith);
}

/// Subtracting an amount from itself gives exactly zero.
pub proof fn lemma_difference_self(a: Dec)
    requires
        a.wf(),
    ensures
        difference_fits(a, a),
        difference(a, a).units() == 0,
        difference(a, a).wf(),
{
    lemma_difference_exact(a, a);
}

/// Where two ordered non-negative numbers can both be written at one
/// scale, their difference fits, and it can be written at that scale too.
pub proof fn lemma_difference_at_scale(a: Dec, b: Dec, scale: nat)
    requires
        a.wf(),
        b.wf(),
        0 <= b.units() <= a.units(),
        a.fits_scale(scale),
        b.fits_scale(scale),
    ensures
        difference_fits(a, b),
        difference(a, b).fits_scale(scale),
{
    let s = common_scale(a, b);
    lemma_rescaled_units(a, s);
    lemma_rescaled_units(b, s);
    lemma_rescaled_again(a, s, scale);
    lemma_rescaled_again(b, s, scale);
    let p = pow10((MAX_SCALE - s) as nat);
    let up = pow10((scale - s) as nat);
    lemma_pow10_positive((MAX_SCALE - s) as nat);
    lemma_pow10_positive((scale - s) as nat);
    let x = a.rescaled(s);
    let y = b.rescaled(s);
    assert(0 <= y && y <= x) by (nonlinear_arith)
        requires
            0 <= y * p <= x * p,
            p >= 1,
    ;
    assert(x <= x * up && (x - y) * up == x * up - y * up && 0 <= y * up) by (nonlinear_arith)
        requires
            0 <= y <= x,
            up >= 1,
    ;
    lemma_pow10_positive(0);
    assert(exact_difference(a, b).rescaled(scale) == (x - y) * up);
}

/// Rescaling in two steps is rescaling in one.
pub proof fn lemma_rescaled_again(a: Dec, middle: nat, scale: nat)
    requires
        a.scale <= middle <= scale,
    ensures
        a.rescaled(middle) * pow10((scale - middle) as nat) == a.rescaled(scale),
{
    let first = (middle - a.scale) as nat;
    let second = (scale - middle) as nat;
    lemma_pow10_add(first, second);
    assert((first + second) as nat == (scale - a.scale) as nat);
    assert(a.mantissa * pow10(first) * pow10(second) == a.mantissa * (pow10(first) * pow10(
        second,
    ))) by (nonlinear_arith);
}

/// `pow10(m + n) == pow10(m) * pow10(n)`.
pub proof fn lemma_pow10_add(m: nat, n: nat)
    ensures
        pow10(m + n) == pow10(m) * pow10(n),
    decreases m,
{
    if m == 0 {
        assert(pow10(0) * pow10(n) == pow10(n));
    } else {
        lemma_pow10_add((m - 1) as nat, n);
        assert(pow10(m + n) == 10 * pow10((m + n - 1) as nat));
        assert(((m - 1) as nat + n) as nat == (m + n - 1) as nat);
        assert(10 * (pow10((m - 1) as nat) * pow10(n)) == (10 * pow10((m - 1) as nat)) * pow10(n))
            by (nonlinear_arith);
    }
}

/// Rescaling a number does not change how many units it counts.
pub proof fn lemma_rescaled_units(a: Dec, scale: nat)
    requires
        a.scale <= scale <= MAX_SCALE,
    ensures
        a.rescaled(scale) * pow10((MAX_SCALE - scale) as nat) == a.units(),
{
    let up = (scale - a.scale) as nat;
    let rest = (MAX_SCALE - scale) as nat;
    lemma_pow10_add(up, rest);
    assert((up + rest) as nat == (MAX_SCALE - a.scale) as nat);
    assert(a.mantissa * pow10(up) * pow10(rest) == a.mantissa * (pow10(up) * pow10(rest)))
        by (nonlinear_arith);
}

/// A number has the sign of its mantissa.
pub proof fn lemma_units_sign(a: Dec)
    requires
        a.scale <= MAX_SCALE,
    ensures
        a.units() > 0 <==> a.mantissa > 0,
        a.units() == 0 <==> a.mantissa == 0,
        a.units() < 0 <==> a.mantissa < 0,
{
    let p = pow10((MAX_SCALE - a.scale) as nat);
    lemma_pow10_positive((MAX_SCALE - a.scale) as nat);
    let m = a.mantissa;
    assert(m > 0 ==> m * p > 0) by (nonlinear_arith)
        requires
            p >= 1,
    ;
    assert(m < 0 ==> m * p < 0) by (nonlinear_arith)
        requires
            p >= 1,
    ;
    assert(m == 0 ==> m * p == 0) by (nonlinear_arith);
}

/// A decimal number: `mantissa / 10^scale`, with a mantissa of at most 96
/// bits and a scale of at most 28. Two amounts may stand for the same number
/// at different scales (`1.0` and `1.00`); comparison goes by the number.
#[derive(Clone, Copy, Debug)]
pub struct Amount {
    pub(crate) mantissa: i128,
    pub(crate) scale: u32,
}

impl View for Amount {
    type V = Dec;

    open(crate) spec fn view(&self) -> Dec {
        Dec { mantissa: self.mantissa as int, scale: self.scale as nat }
    }
}

impl Amount {
    /// Every amount that executable code holds is well formed.
    #[verifier::type_invariant]
    pub open(crate) spec fn wf(&self) -> bool {
        self@.wf()
    }

    /// The number counted in units of `10^-28`.
    pub open spec fn units(&self) -> int {
        self@.units()
    }

    /// The amount with the given mathematical content; zero where the
    /// content is not well formed, so that no amount has it.
    pub open(crate) spec fn of(d: Dec) -> Amount {
        if d.wf() {
            Amount { mantissa: d.mantissa as i128, scale: d.scale as u32 }
        } else {
            Amount { mantissa: 0, scale: 0 }
        }
    }

    /// The result of subtracting `other` from `self`; see [`difference`].
    pub open spec fn minus(&self, other: Amount) -> Amount {
        Amount::of(difference(self@, other@))
    }

    /// The smaller of the two numbers; `self` where they are equal.
    pub open spec fn smaller(&self, other: Amount) -> Amount {
        if other.units() < self.units() {
            other
        } else {
            *self
        }
    }

    /// The amount `mantissa / 10^scale`, or `None` where the mantissa does
    /// not fit in 96 bits or the scale exceeds [`MAX_SCALE`].
    pub fn new(mantissa: i128, scale: u32) -> (r: Option<Amount>)
        ensures
            r is Some <==> (Dec { mantissa: mantissa as int, scale: scale as nat }).wf(),
            r matches Some(a) ==> a@ == (Dec { mantissa: mantissa as int, scale: scale as nat }),
    {
        if -MANTISSA_LIMIT < mantissa && mantissa < MANTISSA_LIMIT && scale <= MAX_SCALE {
            Some(Amount { mantissa, scale })
        } else {
            None
        }
    }

    /// The mantissa.
    pub fn mantissa(&self) -> (m: i128)
        ensures
            m == self@.mantissa,
            -MANTISSA_LIMIT < m < MANTISSA_LIMIT,
    {
        proof {
            use_type_invariant(self);
        }
        self.mantissa
    }

    /// The number of digits after the decimal point.
    pub fn scale(&self) -> (s: u32)
        ensures
            s == self@.scale,
            s <= MAX_SCALE,
    {
        proof {
            use_type_invariant(self);
        }
        self.scale
    }

    /// Whether the number is zero, at whatever scale.
    pub fn is_zero(&self) -> (r: bool)
        ensures
            r == (self.units() == 0),
    {
        proof {
            use_type_invariant(self);
            lemma_units_sign(self@);
        }
        self.mantissa == 0
    }

    /// Whether the number is strictly greater than zero.
    pub fn is_positive(&self) -> (r: bool)
        ensures
            r == (self.units() > 0),
    {
        proof {
            use_type_invariant(self);
            lemma_units_sign(self@);
        }
        self.mantissa > 0
    }

    /// Whether `self` is numerically less than `other`.
    pub fn lt(&self, other: &Amount) -> (r: bool)
        ensures
            r == (self.units() < other.units()),
    {
        proof {
            use_type_invariant(self);
            use_type_invariant(other);
        }
        decimal_lt(self, other)
    }

    /// Whether the two amounts stand for the same number.
    pub fn same_value(&self, other: &Amount) -> (r: bool)
        ensures
            r == (self.units() == other.units()),
    {
        !self.lt(other) && !other.lt(self)
    }

    /// The smaller of the two numbers; `self` where they are equal.
    pub fn min(self, other: Amount) -> (r: Amount)
        ensures
            r == self.smaller(other),
    {
        if other.lt(&self) {
            other
        } else {
            self
        }
    }

    /// Subtracts `other`, which must be positive and no greater than `self`.
    /// The result is exact wherever the exact difference fits in 96 bits at
    /// the larger of the two scales.
    pub(crate) fn subtract(self, other: Amount) -> (r: Amount)
        requires
            0 < other.units() <= self.units(),
        ensures
            r == self.minus(other),
    {
        proof {
            use_type_invariant(self);
            use_type_invariant(other);
        }
        decimal_sub(self, other)
    }

    /// The number as decimal text, with as many digits after the point as
    /// its scale says.
    pub fn text(&self) -> (r: String)
        ensures
            r@ == decimal_text(self@),
    {
        proof {
            use_type_invariant(self);
        }
        decimal_to_string(self)
    }
}

/// Whatever is subtracted, the result is a well-formed amount.
pub proof fn lemma_minus_wf(a: Amount, b: Amount)
    ensures
        a.minus(b).wf(),
{
}

/// Where the exact difference fits, subtracting amounts loses nothing.
pub proof fn lemma_minus_exact(a: Amount, b: Amount)
    requires
        a.wf(),
        b.wf(),
        difference_fits(a@, b@),
    ensures
        a.minus(b).wf(),
        a.minus(b).units() == a.units() - b.units(),
{
    lemma_difference_exact(a@, b@);
}

/// Subtracting an amount from itself leaves exactly zero.
pub proof fn lemma_minus_self(a: Amount)
    requires
        a.wf(),
    ensures
        difference_fits(a@, a@),
        a.minus(a).wf(),
        a.minus(a).units() == 0,
{
    lemma_difference_self(a@);
}

impl PartialEq for Amount {
    fn eq(&self, other: &Amount) -> (r: bool) {
        self.same_value(other)
    }
}

impl PartialEqSpecImpl for Amount {
    open spec fn obeys_eq_spec() -> bool {
        true
    }

    open spec fn eq_spec(&self, other: &Amount) -> bool {
        self.units() == other.units()
    }
}

/// Whether `a < b`, by `rust_decimal`'s `<` on `Decimal` (`PartialOrd::lt`,
/// which goes through `Ord::cmp`). Taken on trust: the operands are compared
/// as numbers, whatever their scales. `Decimal::from_i128_with_scale`, which
/// turns an amount into a `Decimal`, takes every well-formed amount.
#[verifier::external_body]
fn decimal_lt(a: &Amount, b: &Amount) -> (r: bool)
    requires
        a@.wf(),
        b@.wf(),
    ensures
        r == (a@.units() < b@.units()),
{
    let x = rust_decimal::Decimal::from_i128_with_scale(a.mantissa, a.scale);
    let y = rust_decimal::Decimal::from_i128_with_scale(b.mantissa, b.scale);
    x < y
}

/// The difference `a - b`, by `rust_decimal`'s `-` on `Decimal`
/// (`Sub::sub`). Taken on trust: `-` panics only on overflow, and with
/// `0 < b <= a` the difference lies between zero and `a`, so it does not;
/// the operands being non-zero, the result is the exact difference, written
/// at the larger of the two scales, wherever that fits in 96 bits; where it
/// does not fit `rust_decimal` rounds, and the result is only named. The
/// mantissa and the scale that a `Decimal` gives back always make a
/// well-formed amount.
#[verifier::external_body]
fn decimal_sub(a: Amount, b: Amount) -> (r: Amount)
    requires
        a@.wf(),
        b@.wf(),
        0 < b@.units() <= a@.units(),
    ensures
        r@.wf(),
        r@ == decimal_difference(a@, b@),
        difference_fits(a@, b@) ==> r@ == exact_difference(a@, b@),
{
    let x = rust_decimal::Decimal::from_i128_with_scale(a.mantissa, a.scale);
    let y = rust_decimal::Decimal::from_i128_with_scale(b.mantissa, b.scale);
    let d = x - y;
    Amount { mantissa: d.mantissa(), scale: d.scale() }
}

/// The text of `a`, by `rust_decimal`'s `Display` for `Decimal`, through
/// `to_string`. Taken on trust: the text depends on the mantissa and the
/// scale alone; it is only named.
#[verifier::external_body]
fn decimal_to_string(a: &Amount) -> (r: String)
    requires
        a@.wf(),
    ensures
        r@ == decimal_text(a@),
{
    rust_decimal::Decimal::from_i128_with_scale(a.mantissa, a.scale).to_string()
}

} // verus!
