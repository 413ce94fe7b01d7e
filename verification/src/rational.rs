//! Exact rational values with an explicit non-numeric poison state.
//!
//! The numeric work is done by `num_rational::BigRational`
//! (arbitrary-precision fractions, always stored in lowest terms with a
//! positive denominator).  Each value is modelled by its numerator and
//! denominator; the poison state `NaN` propagates through arithmetic and
//! is excluded from every comparison.

use vstd::prelude::*;

use num_traits::ToPrimitive;

verus! {

#[verifier::external_type_specification]
#[verifier::external_body]
#[verifier::reject_recursive_types(T)]
pub struct ExRatio<T>(num_rational::Ratio<T>);

#[verifier::external_type_specification]
#[verifier::external_body]
pub struct ExBigInt(num_bigint::BigInt);

/// The numerator that a `BigRational` stores.
pub uninterp spec fn rat_numer(r: num_rational::BigRational) -> int;

/// The denominator that a `BigRational` stores.
pub uninterp spec fn rat_denom(r: num_rational::BigRational) -> int;

pub open spec fn abs_val(n: int) -> int {
    if n < 0 {
        -n
    } else {
        n
    }
}

/// Euclid's greatest common divisor.
pub open spec fn gcd_nat(a: nat, b: nat) -> nat
    decreases b,
{
    if b == 0 {
        a
    } else {
        gcd_nat(b, a % b)
    }
}

pub open spec fn frac_gcd(n: int, d: int) -> int {
    gcd_nat(abs_val(n) as nat, abs_val(d) as nat) as int
}

/// The numerator of the fraction `n / d` in lowest terms with a
/// positive denominator.
pub open spec fn canon_numer(n: int, d: int) -> int {
    (if d < 0 {
        -n
    } else {
        n
    }) / frac_gcd(n, d)
}

/// The denominator of the fraction `n / d` in lowest terms with a
/// positive denominator.
pub open spec fn canon_denom(n: int, d: int) -> int {
    abs_val(d) / frac_gcd(n, d)
}

/// Whether `(n, d)` is in lowest terms with `d > 0`.  For `n == 0`
/// this forces `d == 1`.
pub open spec fn is_canon(n: int, d: int) -> bool {
    d > 0 && frac_gcd(n, d) == 1
}

/// Relies on `Ratio::from_integer`: the result stores exactly `(v, 1)`.
#[verifier::external_body]
fn rat_from_i64(v: i64) -> (r: num_rational::BigRational)
    ensures
        rat_numer(r) == v as int,
        rat_denom(r) == 1,
{
    num_rational::BigRational::from_integer(num_bigint::BigInt::from(v))
}

/// Relies on `Ratio::from_integer`: the result stores exactly `(v, 1)`.
#[verifier::external_body]
fn rat_from_u64(v: u64) -> (r: num_rational::BigRational)
    ensures
        rat_numer(r) == v as int,
        rat_denom(r) == 1,
{
    num_rational::BigRational::from_integer(num_bigint::BigInt::from(v))
}

/// Relies on `Ratio::new`, which panics on a zero denominator and
/// otherwise reduces to lowest terms with a positive denominator.
#[verifier::external_body]
fn rat_new(n: i64, d: i64) -> (r: num_rational::BigRational)
    requires
        d != 0,
    ensures
        rat_numer(r) == canon_numer(n as int, d as int),
        rat_denom(r) == canon_denom(n as int, d as int),
        is_canon(rat_numer(r), rat_denom(r)),
{
    num_rational::BigRational::new(num_bigint::BigInt::from(n), num_bigint::BigInt::from(d))
}

/// Relies on `Ratio`'s addition: the sum, reduced to lowest terms with
/// a positive denominator.
#[verifier::external_body]
fn rat_add(a: &num_rational::BigRational, b: &num_rational::BigRational) -> (r:
    num_rational::BigRational)
    requires
        rat_denom(*a) > 0,
        rat_denom(*b) > 0,
    ensures
        rat_numer(r) == canon_numer(
            rat_numer(*a) * rat_denom(*b) + rat_numer(*b) * rat_denom(*a),
            rat_denom(*a) * rat_denom(*b),
        ),
        rat_denom(r) == canon_denom(
            rat_numer(*a) * rat_denom(*b) + rat_numer(*b) * rat_denom(*a),
            rat_denom(*a) * rat_denom(*b),
        ),
        is_canon(rat_numer(r), rat_denom(r)),
{
    a + b
}

/// Relies on `Ratio`'s multiplication: the product, reduced to lowest
/// terms with a positive denominator.
#[verifier::external_body]
fn rat_mul(a: &num_rational::BigRational, b: &num_rational::BigRational) -> (r:
    num_rational::BigRational)
    requires
        rat_denom(*a) > 0,
        rat_denom(*b) > 0,
    ensures
        rat_numer(r) == canon_numer(
            rat_numer(*a) * rat_numer(*b),
            rat_denom(*a) * rat_denom(*b),
        ),
        rat_denom(r) == canon_denom(rat_numer(*a) * rat_numer(*b), rat_denom(*a) * rat_denom(*b)),
        is_canon(rat_numer(r), rat_denom(r)),
{
    a * b
}

/// Relies on `Ratio`'s negation: the numerator is negated, the
/// denominator kept.
#[verifier::external_body]
fn rat_neg(a: &num_rational::BigRational) -> (r: num_rational::BigRational)
    ensures
        rat_numer(r) == -rat_numer(*a),
        rat_denom(r) == rat_denom(*a),
{
    -a
}

/// Relies on `Ratio::recip`, which panics on zero and otherwise swaps
/// numerator and denominator, keeping the denominator positive.
#[verifier::external_body]
fn rat_recip(a: &num_rational::BigRational) -> (r: num_rational::BigRational)
    requires
        rat_numer(*a) != 0,
    ensures
        rat_numer(*a) > 0 ==> rat_numer(r) == rat_denom(*a) && rat_denom(r) == rat_numer(*a),
        rat_numer(*a) < 0 ==> rat_numer(r) == -rat_denom(*a) && rat_denom(r) == -rat_numer(*a),
        is_canon(rat_numer(*a), rat_denom(*a)) ==> is_canon(rat_numer(r), rat_denom(r)),
{
    a.recip()
}

/// Relies on `Ratio::is_zero`: true exactly when the numerator is zero.
#[verifier::external_body]
fn rat_is_zero(a: &num_rational::BigRational) -> (r: bool)
    ensures
        r <==> rat_numer(*a) == 0,
{
    num_traits::Zero::is_zero(a)
}

/// Relies on `Ratio`'s equality, which compares the fractions as
/// mathematical values (for positive denominators, by cross
/// multiplication).
#[verifier::external_body]
fn rat_eq(a: &num_rational::BigRational, b: &num_rational::BigRational) -> (r: bool)
    requires
        rat_denom(*a) > 0,
        rat_denom(*b) > 0,
    ensures
        r <==> rat_numer(*a) * rat_denom(*b) == rat_numer(*b) * rat_denom(*a),
{
    a == b
}

/// Relies on `Ratio`'s ordering, which orders the fractions as
/// mathematical values (for positive denominators, by cross
/// multiplication).
#[verifier::external_body]
fn rat_lt(a: &num_rational::BigRational, b: &num_rational::BigRational) -> (r: bool)
    requires
        rat_denom(*a) > 0,
        rat_denom(*b) > 0,
    ensures
        r <==> rat_numer(*a) * rat_denom(*b) < rat_numer(*b) * rat_denom(*a),
{
    a < b
}

/// Relies on `Ratio::clone`: the clone stores the same fraction.
#[verifier::external_body]
fn rat_clone(a: &num_rational::BigRational) -> (r: num_rational::BigRational)
    ensures
        rat_numer(r) == rat_numer(*a),
        rat_denom(r) == rat_denom(*a),
{
    a.clone()
}

/// Relies on `Ratio::floor` and `BigInt::to_u32`: `Some` exactly when
/// the floor of the fraction fits in a `u32`.
#[verifier::external_body]
fn rat_floor_to_u32(a: &num_rational::BigRational) -> (r: Option<u32>)
    requires
        rat_denom(*a) > 0,
    ensures
        match r {
            Some(c) => c as int == rat_numer(*a) / rat_denom(*a),
            None => rat_numer(*a) / rat_denom(*a) < 0 || rat_numer(*a) / rat_denom(*a)
                >= 0x1_0000_0000,
        },
{
    a.floor().to_integer().to_u32()
}

/// The decimal digit characters of a non-negative integer, most
/// significant first, without leading zeros.
pub open spec fn dec_digit(d: int) -> char {
    if d == 0 {
        '0'
    } else if d == 1 {
        '1'
    } else if d == 2 {
        '2'
    } else if d == 3 {
        '3'
    } else if d == 4 {
        '4'
    } else if d == 5 {
        '5'
    } else if d == 6 {
        '6'
    } else if d == 7 {
        '7'
    } else if d == 8 {
        '8'
    } else {
        '9'
    }
}

pub open spec fn dec_str(n: nat) -> Seq<char>
    decreases n,
{
    if n < 10 {
        seq![dec_digit(n as int)]
    } else {
        dec_str(n / 10) + seq![dec_digit((n % 10) as int)]
    }
}

/// Relies on `Ratio::floor` and `BigInt`'s decimal `Display`: the
/// digits of the negated floor, which is positive here.
#[verifier::external_body]
fn rat_floor_neg_decimal(a: &num_rational::BigRational) -> (s: String)
    requires
        rat_denom(*a) > 0,
        rat_numer(*a) < 0,
    ensures
        s@ == dec_str((-(rat_numer(*a) / rat_denom(*a))) as nat),
{
    let f = a.floor().to_integer();
    format!("{}", core::ops::Neg::neg(f))
}

/// Relies on `char::from_u32`: `Some` exactly on Unicode scalar values.
#[verifier::external_body]
fn char_from_u32(v: u32) -> (r: Option<char>)
    ensures
        r == if v < 0xd800 || (0xe000 <= v && v < 0x110000) {
            Some(v as char)
        } else {
            None::<char>
        },
{
    char::from_u32(v)
}

/// Relies on `String::push`: appends one character.
#[verifier::external_body]
fn push_char(s: &mut String, c: char)
    ensures
        final(s)@ == old(s)@ + seq![c],
{
    s.push(c);
}

/// An exact fraction, kept in lowest terms with a positive denominator.
#[derive(Debug)]
pub struct Rat {
    r: num_rational::BigRational,
}

impl Rat {
    pub closed spec fn numer(self) -> int {
        rat_numer(self.r)
    }

    pub closed spec fn denom(self) -> int {
        rat_denom(self.r)
    }

    #[verifier::type_invariant]
    pub closed spec fn inv(self) -> bool {
        is_canon(rat_numer(self.r), rat_denom(self.r))
    }
}

/// The mathematical model of a rational value: an exact fraction in
/// lowest terms with a positive denominator, or the poison state.
pub enum RatValue {
    Num { n: int, d: int },
    NaN,
}

/// Whether a model value is well formed.
pub open spec fn rv_wf(v: RatValue) -> bool {
    match v {
        RatValue::Num { n, d } => is_canon(n, d),
        RatValue::NaN => true,
    }
}

/// The model of the integer `i`.
pub open spec fn rv_int(i: int) -> RatValue {
    RatValue::Num { n: i, d: 1 }
}

/// The model of the fraction `n / d` (reduced), for `d != 0`.
pub open spec fn rv_frac(n: int, d: int) -> RatValue {
    RatValue::Num { n: canon_numer(n, d), d: canon_denom(n, d) }
}

/// Addition: poison propagates; otherwise the exact reduced sum.
pub open spec fn rv_add(a: RatValue, b: RatValue) -> RatValue {
    match (a, b) {
        (RatValue::Num { n: an, d: ad }, RatValue::Num { n: bn, d: bd }) => rv_frac(
            an * bd + bn * ad,
            ad * bd,
        ),
        _ => RatValue::NaN,
    }
}

/// Multiplication: poison propagates; otherwise the exact reduced
/// product.
pub open spec fn rv_mul(a: RatValue, b: RatValue) -> RatValue {
    match (a, b) {
        (RatValue::Num { n: an, d: ad }, RatValue::Num { n: bn, d: bd }) => rv_frac(
            an * bn,
            ad * bd,
        ),
        _ => RatValue::NaN,
    }
}

/// Negation: poison propagates.
pub open spec fn rv_neg(a: RatValue) -> RatValue {
    match a {
        RatValue::Num { n, d } => RatValue::Num { n: -n, d },
        RatValue::NaN => RatValue::NaN,
    }
}

/// Reciprocal: poison for poison and for an exact zero.
pub open spec fn rv_recip(a: RatValue) -> RatValue {
    match a {
        RatValue::Num { n, d } => if n == 0 {
            RatValue::NaN
        } else if n > 0 {
            RatValue::Num { n: d, d: n }
        } else {
            RatValue::Num { n: -d, d: -n }
        },
        RatValue::NaN => RatValue::NaN,
    }
}

/// Equality: poison is never equal to anything, itself included.
pub open spec fn rv_eq(a: RatValue, b: RatValue) -> bool {
    match (a, b) {
        (RatValue::Num { n: an, d: ad }, RatValue::Num { n: bn, d: bd }) => an * bd == bn * ad,
        _ => false,
    }
}

/// Strict order: poison is unordered against everything.
pub open spec fn rv_lt(a: RatValue, b: RatValue) -> bool {
    match (a, b) {
        (RatValue::Num { n: an, d: ad }, RatValue::Num { n: bn, d: bd }) => an * bd < bn * ad,
        _ => false,
    }
}

/// The text a value renders to: the character of the floor when the
/// floor is a Unicode scalar value; the decimal digits of the absolute
/// floor when the floor is negative; the fallback text otherwise, and
/// for poison.
pub open spec fn rv_render(v: RatValue) -> Seq<char> {
    match v {
        RatValue::NaN => too_big_text(),
        RatValue::Num { n, d } => {
            let f = n / d;
            if f < 0 {
                dec_str((-f) as nat)
            } else if f < 0xd800 || (0xe000 <= f && f < 0x110000) {
                seq![f as char]
            } else {
                too_big_text()
            }
        },
    }
}

/// The fallback text for poison and out-of-range values.
pub open spec fn too_big_text() -> Seq<char> {
    "\u{b108}\u{bb34} \u{cee4}\u{c5c7}..."@
}

/// An exact signed rational number, or the poison state `NaN`.
///
/// Poison propagates through arithmetic, never compares equal or
/// ordered to anything, and renders as the fallback text.
#[derive(Debug)]
pub enum HyeongRational {
    Rational(Rat),
    NaN,
}

impl View for HyeongRational {
    type V = RatValue;

    open spec fn view(&self) -> RatValue {
        match *self {
            HyeongRational::Rational(rat) => RatValue::Num { n: rat.numer(), d: rat.denom() },
            HyeongRational::NaN => RatValue::NaN,
        }
    }
}

impl HyeongRational {
    /// The fraction `numer / denom`, reduced.
    pub fn new_i64(numer: i64, denom: i64) -> (r: HyeongRational)
        requires
            denom != 0,
        ensures
            r@ == rv_frac(numer as int, denom as int),
            rv_wf(r@),
    {
        HyeongRational::Rational(Rat { r: rat_new(numer, denom) })
    }

    pub fn from_i64(value: i64) -> (r: HyeongRational)
        ensures
            r@ == rv_int(value as int),
            rv_wf(r@),
    {
        let rr = rat_from_i64(value);
        proof {
            lemma_int_is_canon(value as int);
        }
        HyeongRational::Rational(Rat { r: rr })
    }

    pub fn from_u64(value: u64) -> (r: HyeongRational)
        ensures
            r@ == rv_int(value as int),
            rv_wf(r@),
    {
        let rr = rat_from_u64(value);
        proof {
            lemma_int_is_canon(value as int);
        }
        HyeongRational::Rational(Rat { r: rr })
    }

    pub fn from_u32(value: u32) -> (r: HyeongRational)
        ensures
            r@ == rv_int(value as int),
            rv_wf(r@),
    {
        HyeongRational::from_u64(value as u64)
    }

    pub fn from_usize(value: usize) -> (r: HyeongRational)
        ensures
            r@ == rv_int(value as int),
            rv_wf(r@),
    {
        HyeongRational::from_u64(value as u64)
    }

    /// A reference to the underlying fraction.
    pub fn rational(&self) -> (r: &num_rational::BigRational)
        requires
            !(self@ is NaN),
        ensures
            self@ matches RatValue::Num { n, d } && rat_numer(*r) == n && rat_denom(*r) == d,
    {
        match self {
            HyeongRational::Rational(a) => &a.r,
            HyeongRational::NaN => unreached(),
        }
    }

    /// The underlying fraction, by value.
    pub fn into_rational(self) -> (r: num_rational::BigRational)
        requires
            !(self@ is NaN),
        ensures
            self@ matches RatValue::Num { n, d } && rat_numer(r) == n && rat_denom(r) == d,
    {
        match self {
            HyeongRational::Rational(a) => a.r,
            HyeongRational::NaN => unreached(),
        }
    }

    pub fn is_nan(&self) -> (r: bool)
        ensures
            r == (self@ is NaN),
    {
        match self {
            HyeongRational::NaN => true,
            _ => false,
        }
    }

    pub fn zero() -> (r: HyeongRational)
        ensures
            r@ == rv_int(0),
            rv_wf(r@),
    {
        HyeongRational::from_i64(0)
    }

    pub fn one() -> (r: HyeongRational)
        ensures
            r@ == rv_int(1),
            rv_wf(r@),
    {
        HyeongRational::from_i64(1)
    }

    pub fn is_zero(&self) -> (r: bool)
        ensures
            r == (self@ matches RatValue::Num { n, d } && n == 0),
    {
        match self {
            HyeongRational::Rational(rat) => rat_is_zero(&rat.r),
            HyeongRational::NaN => false,
        }
    }

    /// The sum; poison if either side is poison.
    pub fn add(&self, rhs: &HyeongRational) -> (r: HyeongRational)
        ensures
            r@ == rv_add(self@, rhs@),
            rv_wf(r@),
    {
        match (self, rhs) {
            (HyeongRational::Rational(a), HyeongRational::Rational(b)) => {
                proof {
                    use_type_invariant(a);
                    use_type_invariant(b);
                }
                HyeongRational::Rational(Rat { r: rat_add(&a.r, &b.r) })
            },
            _ => HyeongRational::NaN,
        }
    }

    /// The product; poison if either side is poison.
    pub fn mul(&self, rhs: &HyeongRational) -> (r: HyeongRational)
        ensures
            r@ == rv_mul(self@, rhs@),
            rv_wf(r@),
    {
        match (self, rhs) {
            (HyeongRational::Rational(a), HyeongRational::Rational(b)) => {
                proof {
                    use_type_invariant(a);
                    use_type_invariant(b);
                }
                HyeongRational::Rational(Rat { r: rat_mul(&a.r, &b.r) })
            },
            _ => HyeongRational::NaN,
        }
    }

    /// The negation; poison stays poison.
    pub fn neg(&self) -> (r: HyeongRational)
        ensures
            r@ == rv_neg(self@),
            rv_wf(r@),
            rv_wf(self@),
    {
        match self {
            HyeongRational::Rational(a) => {
                proof {
                    use_type_invariant(a);
                    lemma_neg_canon(a.numer(), a.denom());
                }
                HyeongRational::Rational(Rat { r: rat_neg(&a.r) })
            },
            HyeongRational::NaN => HyeongRational::NaN,
        }
    }

    /// The reciprocal; poison for poison and for an exact zero.
    pub fn recip(&self) -> (r: HyeongRational)
        ensures
            r@ == rv_recip(self@),
            rv_wf(r@),
            rv_wf(self@),
    {
        match self {
            HyeongRational::Rational(a) => {
                proof {
                    use_type_invariant(a);
                }
                if rat_is_zero(&a.r) {
                    HyeongRational::NaN
                } else {
                    HyeongRational::Rational(Rat { r: rat_recip(&a.r) })
                }
            },
            HyeongRational::NaN => HyeongRational::NaN,
        }
    }

    /// The text this value renders to when pushed onto a stream-backed
    /// stack.
    pub fn render(&self) -> (s: String)
        ensures
            s@ == rv_render(self@),
    {
        match self {
            HyeongRational::NaN => String::from_str("\u{b108}\u{bb34} \u{cee4}\u{c5c7}..."),
            HyeongRational::Rational(a) => {
                proof {
                    use_type_invariant(a);
                }
                let zero = rat_from_i64(0);
                if rat_lt(&a.r, &zero) {
                    proof {
                        lemma_neg_floor(a.numer(), a.denom());
                    }
                    rat_floor_neg_decimal(&a.r)
                } else {
                    proof {
                        lemma_nonneg_floor(a.numer(), a.denom());
                    }
                    match rat_floor_to_u32(&a.r) {
                        Some(c) => {
                            if c < 0xd800 || (0xe000 <= c && c < 0x110000) {
                                let ch = char_from_u32(c).unwrap();
                                let mut s = String::new();
                                push_char(&mut s, ch);
                                proof {
                                    assert(s@ =~= rv_render(self@));
                                }
                                s
                            } else {
                                String::from_str("\u{b108}\u{bb34} \u{cee4}\u{c5c7}...")
                            }
                        },
                        None => String::from_str("\u{b108}\u{bb34} \u{cee4}\u{c5c7}..."),
                    }
                }
            },
        }
    }
}

/// A fraction with denominator one over an integer numerator is in
/// lowest terms.
proof fn lemma_int_is_canon(i: int)
    ensures
        is_canon(i, 1),
{
    assert(gcd_nat(abs_val(i) as nat, 1) == gcd_nat(1, 0)) by {
        assert(abs_val(i) % 1 == 0);
    }
    assert(gcd_nat(1, 0) == 1);
    assert(frac_gcd(i, 1) == 1);
}

/// Negating the numerator keeps a fraction in lowest terms.
proof fn lemma_neg_canon(n: int, d: int)
    requires
        is_canon(n, d),
    ensures
        is_canon(-n, d),
{
    assert(abs_val(-n) == abs_val(n));
}

/// A fraction with negative numerator and positive denominator has a
/// negative floor.
proof fn lemma_neg_floor(n: int, d: int)
    requires
        d > 0,
        n < 0,
    ensures
        n / d < 0,
{
    assert(n / d < 0) by (nonlinear_arith)
        requires
            d > 0,
            n < 0,
    ;
}

/// A fraction with non-negative numerator and positive denominator has
/// a non-negative floor.
proof fn lemma_nonneg_floor(n: int, d: int)
    requires
        d > 0,
        n >= 0,
    ensures
        n / d >= 0,
{
    assert(n / d >= 0) by (nonlinear_arith)
        requires
            d > 0,
            n >= 0,
    ;
}

/// The poison laws: for any value `x`, poison is never equal to
/// anything (`x == NaN` and `NaN == NaN` are false), never ordered
/// against anything (`NaN < x` and `x < NaN` are false), propagates
/// through addition and multiplication on either side and through
/// negation, and reciprocating poison yields poison.
pub proof fn lemma_poison_laws(x: RatValue)
    ensures
        !rv_eq(x, RatValue::NaN),
        !rv_eq(RatValue::NaN, x),
        !rv_lt(RatValue::NaN, x),
        !rv_lt(x, RatValue::NaN),
        rv_add(RatValue::NaN, x) == RatValue::NaN,
        rv_add(x, RatValue::NaN) == RatValue::NaN,
        rv_mul(RatValue::NaN, x) == RatValue::NaN,
        rv_mul(x, RatValue::NaN) == RatValue::NaN,
        rv_neg(RatValue::NaN) == RatValue::NaN,
        rv_recip(RatValue::NaN) == RatValue::NaN,
{
}

/// Negation is an involution on every value, poison included.
pub proof fn lemma_neg_involution(x: RatValue)
    ensures
        rv_neg(rv_neg(x)) == x,
{
}

/// The reciprocal is an involution on every well-formed nonzero
/// value.
pub proof fn lemma_recip_involution(x: RatValue)
    requires
        rv_wf(x),
        x matches RatValue::Num { n, d } && n != 0,
    ensures
        rv_recip(rv_recip(x)) == x,
{
}

/// A well-formed value plus its own negation is exactly zero.
pub proof fn lemma_add_neg_zero(x: RatValue)
    requires
        rv_wf(x),
        x is Num,
    ensures
        rv_add(x, rv_neg(x)) == rv_int(0),
{
    let n = x->Num_n;
    let d = x->Num_d;
    assert(is_canon(n, d));
    assert(d > 0);
    assert(n * d + (-n) * d == 0) by (nonlinear_arith);
    let dd = d * d;
    assert(d * d > 0) by (nonlinear_arith)
        requires
            d > 0,
    ;
    assert(dd > 0);
    assert(gcd_nat(0, dd as nat) == dd as nat) by {
        assert(0nat % (dd as nat) == 0);
        assert(gcd_nat(dd as nat, 0) == dd as nat);
    }
    assert(frac_gcd(0, dd) == dd);
    assert(canon_numer(0, dd) == 0) by {
        vstd::arithmetic::div_mod::lemma_div_of0(dd);
    }
    assert(canon_denom(0, dd) == 1) by {
        vstd::arithmetic::div_mod::lemma_div_by_self(dd);
    }
}

/// Reciprocating an exact zero yields poison.
pub proof fn lemma_recip_zero(x: RatValue)
    requires
        x matches RatValue::Num { n, d } && n == 0,
    ensures
        rv_recip(x) == RatValue::NaN,
{
}

impl Clone for HyeongRational {
    /// The clone models the same value.
    fn clone(&self) -> (r: Self)
        ensures
            r@ == self@,
            rv_wf(r@),
    {
        match self {
            HyeongRational::Rational(a) => {
                proof {
                    use_type_invariant(a);
                }
                HyeongRational::Rational(Rat { r: rat_clone(&a.r) })
            },
            HyeongRational::NaN => HyeongRational::NaN,
        }
    }
}

impl PartialEq for HyeongRational {
    /// Mathematical equality of the fractions; poison is never equal to
    /// anything, itself included.
    fn eq(&self, other: &Self) -> (r: bool) {
        match (self, other) {
            (HyeongRational::Rational(a), HyeongRational::Rational(b)) => {
                proof {
                    use_type_invariant(a);
                    use_type_invariant(b);
                }
                rat_eq(&a.r, &b.r)
            },
            _ => false,
        }
    }
}

impl vstd::std_specs::cmp::PartialEqSpecImpl for HyeongRational {
    open spec fn obeys_eq_spec() -> bool {
        true
    }

    open spec fn eq_spec(&self, other: &Self) -> bool {
        rv_eq(self@, other@)
    }
}

impl PartialOrd for HyeongRational {
    /// Mathematical order of the fractions; poison is unordered against
    /// everything, itself included.
    fn partial_cmp(&self, other: &Self) -> (r: Option<core::cmp::Ordering>) {
        match (self, other) {
            (HyeongRational::Rational(a), HyeongRational::Rational(b)) => {
                proof {
                    use_type_invariant(a);
                    use_type_invariant(b);
                }
                if rat_eq(&a.r, &b.r) {
                    Some(core::cmp::Ordering::Equal)
                } else if rat_lt(&a.r, &b.r) {
                    Some(core::cmp::Ordering::Less)
                } else {
                    Some(core::cmp::Ordering::Greater)
                }
            },
            _ => None,
        }
    }
}

impl vstd::std_specs::cmp::PartialOrdSpecImpl for HyeongRational {
    open spec fn obeys_partial_cmp_spec() -> bool {
        true
    }

    open spec fn partial_cmp_spec(&self, other: &Self) -> Option<core::cmp::Ordering> {
        match (self@, other@) {
            (RatValue::Num { .. }, RatValue::Num { .. }) => if rv_eq(self@, other@) {
                Some(core::cmp::Ordering::Equal)
            } else if rv_lt(self@, other@) {
                Some(core::cmp::Ordering::Less)
            } else {
                Some(core::cmp::Ordering::Greater)
            },
            _ => None,
        }
    }
}

} // verus!
