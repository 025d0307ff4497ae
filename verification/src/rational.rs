//! Exact rational numbers with 64-bit numerator and denominator.
//!
//! The algorithms in this crate work over a totally ordered, zero-valued,
//! additive domain.  `Rational` is that domain: an exact fraction with a
//! positive denominator.  Its mathematical value is the ghost `Rat`, a
//! fraction over unbounded integers; every contract in the crate is stated
//! over `Rat`.  The executable operations compute in 128-bit intermediates,
//! so they are exact, and they return `None` instead of overflowing when a
//! result does not fit back into 64 bits.

use vstd::prelude::*;
use vstd::arithmetic::div_mod::lemma_fundamental_div_mod;
use vstd::arithmetic::div_mod::lemma_mod_bound;

verus! {

/// Mathematical value of a rational number: a fraction of unbounded
/// integers with a positive denominator.  Fractions are compared by
/// cross-multiplication, so two `Rat`s with different fields can denote
/// the same value.
pub struct Rat {
    pub num: int,
    pub den: int,
}

/// A `Rat` is well formed when its denominator is positive.
pub open spec fn rat_wf(q: Rat) -> bool {
    q.den > 0
}

/// The value zero.
pub open spec fn rat_zero() -> Rat {
    Rat { num: 0, den: 1 }
}

/// `a <= b` on values, by cross-multiplication.
pub open spec fn rat_le(a: Rat, b: Rat) -> bool {
    a.num * b.den <= b.num * a.den
}

/// `a < b` on values, by cross-multiplication.
pub open spec fn rat_lt(a: Rat, b: Rat) -> bool {
    a.num * b.den < b.num * a.den
}

/// `a == b` on values, by cross-multiplication.
pub open spec fn rat_eqv(a: Rat, b: Rat) -> bool {
    a.num * b.den == b.num * a.den
}

/// Exact sum of two fractions.
pub open spec fn rat_add(a: Rat, b: Rat) -> Rat {
    Rat { num: a.num * b.den + b.num * a.den, den: a.den * b.den }
}

/// Exact difference of two fractions.
pub open spec fn rat_sub(a: Rat, b: Rat) -> Rat {
    Rat { num: a.num * b.den - b.num * a.den, den: a.den * b.den }
}

/// Exact product of two fractions.
pub open spec fn rat_mul(a: Rat, b: Rat) -> Rat {
    Rat { num: a.num * b.num, den: a.den * b.den }
}

/// Exact quotient of two fractions, with the sign moved into the
/// numerator so that the denominator stays positive.  Meaningful only
/// when `b.num != 0`.
pub open spec fn rat_div(a: Rat, b: Rat) -> Rat {
    if b.num >= 0 {
        Rat { num: a.num * b.den, den: a.den * b.num }
    } else {
        Rat { num: -(a.num * b.den), den: -(a.den * b.num) }
    }
}

/// Whether a fraction fits the 64-bit representation as it stands.
pub open spec fn rat_fits(q: Rat) -> bool {
    &&& i64::MIN <= q.num <= i64::MAX
    &&& 1 <= q.den <= i64::MAX
}

/// An exact rational number: numerator and positive denominator, both
/// 64 bits.  The fraction is kept exactly as constructed; it is not
/// reduced, and comparisons go by cross-multiplication, so reduction is
/// never needed for correctness.
#[derive(Clone, Copy, PartialEq, Eq, Structural, Debug)]
pub struct Rational {
    num: i64,
    den: i64,
}

impl View for Rational {
    type V = Rat;

    closed spec fn view(&self) -> Rat {
        Rat { num: self.num as int, den: self.den as int }
    }
}

impl Rational {
    /// Well-formedness: the denominator is positive.
    pub open spec fn wf(self) -> bool {
        rat_wf(self@)
    }

    /// Build the fraction `num / den`.
    pub fn new(num: i64, den: i64) -> (r: Self)
        requires
            den > 0,
        ensures
            r.wf(),
            r@ == (Rat { num: num as int, den: den as int }),
    {
        Rational { num, den }
    }

    /// The integer `n` as a rational.
    pub fn from_int(n: i64) -> (r: Self)
        ensures
            r.wf(),
            r@ == (Rat { num: n as int, den: 1int }),
    {
        Rational { num: n, den: 1 }
    }

    /// The value zero.
    pub fn zero() -> (r: Self)
        ensures
            r.wf(),
            r@ == rat_zero(),
    {
        Rational { num: 0, den: 1 }
    }

    /// Strict order on values.
    pub fn lt(&self, other: &Rational) -> (r: bool)
        requires
            self.wf(),
            other.wf(),
        ensures
            r == rat_lt(self@, other@),
    {
        proof {
            lemma_i64_mul_fits(self.num as int, other.den as int);
            lemma_i64_mul_fits(other.num as int, self.den as int);
        }
        (self.num as i128) * (other.den as i128) < (other.num as i128) * (self.den as i128)
    }

    /// Non-strict order on values.
    pub fn le(&self, other: &Rational) -> (r: bool)
        requires
            self.wf(),
            other.wf(),
        ensures
            r == rat_le(self@, other@),
    {
        proof {
            lemma_i64_mul_fits(self.num as int, other.den as int);
            lemma_i64_mul_fits(other.num as int, self.den as int);
        }
        (self.num as i128) * (other.den as i128) <= (other.num as i128) * (self.den as i128)
    }

    /// Equality of values (two fractions with different fields can hold
    /// the same value; this compares values, `==` compares fields).
    pub fn eqv(&self, other: &Rational) -> (r: bool)
        requires
            self.wf(),
            other.wf(),
        ensures
            r == rat_eqv(self@, other@),
    {
        proof {
            lemma_i64_mul_fits(self.num as int, other.den as int);
            lemma_i64_mul_fits(other.num as int, self.den as int);
        }
        (self.num as i128) * (other.den as i128) == (other.num as i128) * (self.den as i128)
    }

    /// Exact sum, or `None` when the exact result does not fit.
    pub fn try_add(&self, other: &Rational) -> (r: Option<Rational>)
        requires
            self.wf(),
            other.wf(),
        ensures
            match r {
                Some(x) => x.wf() && x@ == rat_add(self@, other@) && rat_fits(rat_add(self@, other@)),
                None => !rat_fits(rat_add(self@, other@)),
            },
    {
        proof {
            lemma_i64_mul_fits(self.num as int, other.den as int);
            lemma_i64_mul_fits(other.num as int, self.den as int);
            lemma_i64_mul_fits(self.den as int, other.den as int);
        }
        let num: i128 = (self.num as i128) * (other.den as i128)
            + (other.num as i128) * (self.den as i128);
        let den: i128 = (self.den as i128) * (other.den as i128);
        pack(num, den)
    }

    /// Exact difference, or `None` when the exact result does not fit.
    pub fn try_sub(&self, other: &Rational) -> (r: Option<Rational>)
        requires
            self.wf(),
            other.wf(),
        ensures
            match r {
                Some(x) => x.wf() && x@ == rat_sub(self@, other@) && rat_fits(rat_sub(self@, other@)),
                None => !rat_fits(rat_sub(self@, other@)),
            },
    {
        proof {
            lemma_i64_mul_fits(self.num as int, other.den as int);
            lemma_i64_mul_fits(other.num as int, self.den as int);
            lemma_i64_mul_fits(self.den as int, other.den as int);
        }
        let num: i128 = (self.num as i128) * (other.den as i128)
            - (other.num as i128) * (self.den as i128);
        let den: i128 = (self.den as i128) * (other.den as i128);
        pack(num, den)
    }

    /// Exact product, or `None` when the exact result does not fit.
    pub fn try_mul(&self, other: &Rational) -> (r: Option<Rational>)
        requires
            self.wf(),
            other.wf(),
        ensures
            match r {
                Some(x) => x.wf() && x@ == rat_mul(self@, other@) && rat_fits(rat_mul(self@, other@)),
                None => !rat_fits(rat_mul(self@, other@)),
            },
    {
        proof {
            lemma_i64_mul_fits(self.num as int, other.num as int);
            lemma_i64_mul_fits(self.den as int, other.den as int);
        }
        let num: i128 = (self.num as i128) * (other.num as i128);
        let den: i128 = (self.den as i128) * (other.den as i128);
        pack(num, den)
    }

    /// Exact quotient, or `None` when the divisor is zero or the exact
    /// result does not fit.  A zero divisor is the degenerate case the
    /// caller must treat as "no ratio" (for cycle ratios: a cycle of zero
    /// total time has no breakeven ratio).
    pub fn try_div(&self, other: &Rational) -> (r: Option<Rational>)
        requires
            self.wf(),
            other.wf(),
        ensures
            match r {
                Some(x) => other@.num != 0 && x.wf() && x@ == rat_div(self@, other@)
                    && rat_fits(rat_div(self@, other@)),
                None => other@.num == 0 || !rat_fits(rat_div(self@, other@)),
            },
    {
        if other.num == 0 {
            return None;
        }
        proof {
            lemma_i64_mul_fits(self.num as int, other.den as int);
            lemma_i64_mul_fits(self.den as int, other.num as int);
        }
        let num: i128 = (self.num as i128) * (other.den as i128);
        let den: i128 = (self.den as i128) * (other.num as i128);
        if other.num > 0 {
            pack(num, den)
        } else {
            pack(-num, -den)
        }
    }
}

/// Store an exact 128-bit fraction back into 64 bits, or report that it
/// does not fit.
fn pack(num: i128, den: i128) -> (r: Option<Rational>)
    requires
        den > 0,
    ensures
        match r {
            Some(x) => x.wf() && x@ == (Rat { num: num as int, den: den as int })
                && rat_fits(Rat { num: num as int, den: den as int }),
            None => !rat_fits(Rat { num: num as int, den: den as int }),
        },
{
    if num < i64::MIN as i128 || num > i64::MAX as i128 || den > i64::MAX as i128 {
        None
    } else {
        Some(Rational { num: num as i64, den: den as i64 })
    }
}

/// The product of two 64-bit values stays well inside 128 bits; against a
/// positive second factor it keeps the first factor's sign and stays under
/// `2^126 - 2^63`, so that a sum of two such products still fits.
pub proof fn lemma_i64_mul_fits(a: int, b: int)
    requires
        i64::MIN <= a <= i64::MAX,
        i64::MIN <= b <= i64::MAX,
    ensures
        -0x40000000000000000000000000000000 <= a * b <= 0x40000000000000000000000000000000,
        b >= 1 ==> -0x3fffffffffffffff8000000000000000 <= a * b
            <= 0x3fffffffffffffff8000000000000000,
        a > 0 && b > 0 ==> a * b > 0,
        a < 0 && b > 0 ==> a * b < 0,
        a > 0 && b < 0 ==> a * b < 0,
{
    assert((-0x40000000000000000000000000000000 <= a * b <= 0x40000000000000000000000000000000)
        && (b >= 1 ==> -0x3fffffffffffffff8000000000000000 <= a * b
            <= 0x3fffffffffffffff8000000000000000)
        && (a > 0 && b > 0 ==> a * b > 0)
        && (a < 0 && b > 0 ==> a * b < 0)
        && (a > 0 && b < 0 ==> a * b < 0)) by (nonlinear_arith)
        requires
            i64::MIN <= a <= i64::MAX,
            i64::MIN <= b <= i64::MAX,
    ;
}

/// The view of any `Rational` fits the 64-bit representation.
pub proof fn lemma_view_fits(r: Rational)
    requires
        r.wf(),
    ensures
        rat_fits(r@),
{
    assert(i64::MIN <= r.num <= i64::MAX);
    assert(i64::MIN <= r.den <= i64::MAX);
}

/// Sums, differences and products of well-formed fractions are well
/// formed: positive denominators multiply to a positive denominator.
pub proof fn lemma_rat_add_wf(a: Rat, b: Rat)
    requires
        rat_wf(a),
        rat_wf(b),
    ensures
        rat_wf(rat_add(a, b)),
        rat_wf(rat_sub(a, b)),
        rat_wf(rat_mul(a, b)),
{
    assert(a.den * b.den > 0) by (nonlinear_arith)
        requires
            a.den > 0,
            b.den > 0,
    ;
}

/// Zero is the identity of addition, exactly on the representation.
pub proof fn lemma_rat_add_zero(a: Rat)
    ensures
        rat_add(rat_zero(), a) == a,
        rat_add(a, rat_zero()) == a,
{
    assert(0 * a.den + a.num * 1 == a.num) by (nonlinear_arith);
    assert(1 * a.den == a.den) by (nonlinear_arith);
    assert(a.num * 1 + 0 * a.den == a.num) by (nonlinear_arith);
    assert(a.den * 1 == a.den) by (nonlinear_arith);
}

/// Transitivity of the value order.
pub proof fn lemma_rat_le_trans(a: Rat, b: Rat, c: Rat)
    requires
        rat_wf(a),
        rat_wf(b),
        rat_wf(c),
        rat_le(a, b),
        rat_le(b, c),
    ensures
        rat_le(a, c),
{
    assert(a.num * c.den <= c.num * a.den) by (nonlinear_arith)
        requires
            a.den > 0,
            b.den > 0,
            c.den > 0,
            a.num * b.den <= b.num * a.den,
            b.num * c.den <= c.num * b.den,
    ;
}

/// Transitivity: strict, then non-strict.
pub proof fn lemma_rat_lt_le_trans(a: Rat, b: Rat, c: Rat)
    requires
        rat_wf(a),
        rat_wf(b),
        rat_wf(c),
        rat_lt(a, b),
        rat_le(b, c),
    ensures
        rat_lt(a, c),
{
    assert(a.num * c.den < c.num * a.den) by (nonlinear_arith)
        requires
            a.den > 0,
            b.den > 0,
            c.den > 0,
            a.num * b.den < b.num * a.den,
            b.num * c.den <= c.num * b.den,
    ;
}

/// Transitivity: non-strict, then strict.
pub proof fn lemma_rat_le_lt_trans(a: Rat, b: Rat, c: Rat)
    requires
        rat_wf(a),
        rat_wf(b),
        rat_wf(c),
        rat_le(a, b),
        rat_lt(b, c),
    ensures
        rat_lt(a, c),
{
    assert(a.num * c.den < c.num * a.den) by (nonlinear_arith)
        requires
            a.den > 0,
            b.den > 0,
            c.den > 0,
            a.num * b.den <= b.num * a.den,
            b.num * c.den < c.num * b.den,
    ;
}

/// A strict comparison refutes the opposite non-strict one, and the other
/// way round.
pub proof fn lemma_rat_order(a: Rat, b: Rat)
    requires
        rat_wf(a),
        rat_wf(b),
    ensures
        rat_le(a, b) <==> !rat_lt(b, a),
        rat_lt(a, b) <==> !rat_le(b, a),
{
}

/// Adding the same value on the right respects the order.
pub proof fn lemma_rat_add_mono(a: Rat, b: Rat, c: Rat)
    requires
        rat_wf(a),
        rat_wf(b),
        rat_wf(c),
    ensures
        rat_le(a, b) ==> rat_le(rat_add(a, c), rat_add(b, c)),
        rat_lt(a, b) ==> rat_lt(rat_add(a, c), rat_add(b, c)),
{
    assert((a.num * b.den <= b.num * a.den ==> (a.num * c.den + c.num * a.den) * (b.den * c.den)
        <= (b.num * c.den + c.num * b.den) * (a.den * c.den)) && (a.num * b.den < b.num * a.den
        ==> (a.num * c.den + c.num * a.den) * (b.den * c.den) < (b.num * c.den + c.num * b.den) * (
    a.den * c.den))) by (nonlinear_arith)
        requires
            a.den > 0,
            b.den > 0,
            c.den > 0,
    ;
}

/// Addition is commutative, exactly on the representation.
pub proof fn lemma_rat_add_comm(a: Rat, b: Rat)
    ensures
        rat_add(a, b) == rat_add(b, a),
{
    assert(a.num * b.den + b.num * a.den == b.num * a.den + a.num * b.den);
    assert(a.den * b.den == b.den * a.den) by (nonlinear_arith);
}

/// Addition is associative, exactly on the representation.
#[verifier::rlimit(50)]
pub proof fn lemma_rat_add_assoc(a: Rat, b: Rat, c: Rat)
    ensures
        rat_add(rat_add(a, b), c) == rat_add(a, rat_add(b, c)),
{
    assert((a.num * b.den + b.num * a.den) * c.den == a.num * b.den * c.den + b.num * a.den
        * c.den) by (nonlinear_arith);
    assert(c.num * (a.den * b.den) == c.num * a.den * b.den) by (nonlinear_arith);
    assert(a.num * (b.den * c.den) == a.num * b.den * c.den) by (nonlinear_arith);
    assert((b.num * c.den + c.num * b.den) * a.den == b.num * a.den * c.den + c.num * a.den
        * b.den) by (nonlinear_arith);
    assert(c.num * a.den * b.den == c.num * a.den * b.den);
    assert((a.den * b.den) * c.den == a.den * (b.den * c.den)) by (nonlinear_arith);
}

/// If adding `s` to `a` does not increase `a`, then `s` is at most zero;
/// if it strictly decreases `a`, then `s` is negative.
pub proof fn lemma_rat_cancel(a: Rat, s: Rat)
    requires
        rat_wf(a),
        rat_wf(s),
    ensures
        rat_le(rat_add(s, a), a) ==> rat_le(s, rat_zero()),
        rat_lt(rat_add(s, a), a) ==> rat_lt(s, rat_zero()),
{
    assert(((s.num * a.den + a.num * s.den) * a.den <= a.num * (s.den * a.den) ==> s.num * 1 <= 0
        * s.den) && ((s.num * a.den + a.num * s.den) * a.den < a.num * (s.den * a.den) ==> s.num * 1
        < 0 * s.den)) by (nonlinear_arith)
        requires
            a.den > 0,
            s.den > 0,
    ;
}

/// The sum of two non-negative values is non-negative.
pub proof fn lemma_rat_add_nonneg(a: Rat, b: Rat)
    requires
        rat_wf(a),
        rat_wf(b),
        rat_le(rat_zero(), a),
        rat_le(rat_zero(), b),
    ensures
        rat_le(rat_zero(), rat_add(a, b)),
{
    assert(0 * (a.den * b.den) <= (a.num * b.den + b.num * a.den) * 1) by (nonlinear_arith)
        requires
            a.den > 0,
            b.den > 0,
            0 * a.den <= a.num * 1,
            0 * b.den <= b.num * 1,
    ;
}

/// Equivalence of values is reflexive over equal representations,
/// symmetric, and transitive.
pub proof fn lemma_rat_eqv_trans(a: Rat, b: Rat, c: Rat)
    requires
        rat_wf(a),
        rat_wf(b),
        rat_wf(c),
        rat_eqv(a, b),
        rat_eqv(b, c),
    ensures
        rat_eqv(a, c),
{
    assert(a.num * c.den == c.num * a.den) by (nonlinear_arith)
        requires
            a.den > 0,
            b.den > 0,
            c.den > 0,
            a.num * b.den == b.num * a.den,
            b.num * c.den == c.num * b.den,
    ;
}

/// Adding the same value to equivalent values gives equivalent values.
pub proof fn lemma_rat_add_congr(a: Rat, b: Rat, c: Rat)
    requires
        rat_wf(a),
        rat_wf(b),
        rat_wf(c),
        rat_eqv(a, b),
    ensures
        rat_eqv(rat_add(a, c), rat_add(b, c)),
        rat_eqv(rat_add(c, a), rat_add(c, b)),
{
    assert((a.num * c.den + c.num * a.den) * (b.den * c.den) == (b.num * c.den + c.num * b.den) * (
    a.den * c.den)) by (nonlinear_arith)
        requires
            a.den > 0,
            b.den > 0,
            c.den > 0,
            a.num * b.den == b.num * a.den,
    ;
    lemma_rat_add_comm(c, a);
    lemma_rat_add_comm(c, b);
}

/// Order-embedding of the 64-bit-representable rationals into the
/// integers: the value scaled by `2^126` and rounded down.  Because any
/// two distinct representable values differ by more than `2^-126`, the
/// embedding is strictly monotonic on them; it turns "the trial value
/// strictly decreased" into a well-founded termination measure.
pub open spec fn rat_embed(q: Rat) -> int {
    (q.num * 0x40000000000000000000000000000000) / q.den
}

/// The embedding respects the non-strict order.
pub proof fn lemma_rat_embed_le(a: Rat, b: Rat)
    requires
        rat_wf(a),
        rat_wf(b),
        rat_fits(a),
        rat_fits(b),
        rat_le(a, b),
    ensures
        rat_embed(a) <= rat_embed(b),
{
    let m: int = 0x40000000000000000000000000000000;
    let qa = (a.num * m) / a.den;
    let ra = (a.num * m) % a.den;
    let qb = (b.num * m) / b.den;
    let rb = (b.num * m) % b.den;
    lemma_fundamental_div_mod(a.num * m, a.den);
    lemma_mod_bound(a.num * m, a.den);
    lemma_fundamental_div_mod(b.num * m, b.den);
    lemma_mod_bound(b.num * m, b.den);
    assert((a.num * b.den) * m <= (b.num * a.den) * m) by (nonlinear_arith)
        requires
            a.num * b.den <= b.num * a.den,
            m > 0,
    ;
    assert((a.num * b.den) * m == (a.den * b.den) * qa + ra * b.den) by (nonlinear_arith)
        requires
            a.num * m == a.den * qa + ra,
    ;
    assert((b.num * a.den) * m == (a.den * b.den) * qb + rb * a.den) by (nonlinear_arith)
        requires
            b.num * m == b.den * qb + rb,
    ;
    assert(rb * a.den < a.den * b.den) by (nonlinear_arith)
        requires
            0 <= rb < b.den,
            a.den > 0,
    ;
    assert(ra * b.den >= 0) by (nonlinear_arith)
        requires
            ra >= 0,
            b.den > 0,
    ;
    if qa > qb {
        assert((a.den * b.den) * qa >= (a.den * b.den) * qb + (a.den * b.den)) by (nonlinear_arith)
            requires
                qa >= qb + 1,
                a.den > 0,
                b.den > 0,
        ;
        assert(false);
    }
}

/// The embedding respects the strict order.
pub proof fn lemma_rat_embed_lt(a: Rat, b: Rat)
    requires
        rat_wf(a),
        rat_wf(b),
        rat_fits(a),
        rat_fits(b),
        rat_lt(a, b),
    ensures
        rat_embed(a) < rat_embed(b),
{
    let m: int = 0x40000000000000000000000000000000;
    let qa = (a.num * m) / a.den;
    let ra = (a.num * m) % a.den;
    let qb = (b.num * m) / b.den;
    let rb = (b.num * m) % b.den;
    lemma_fundamental_div_mod(a.num * m, a.den);
    lemma_mod_bound(a.num * m, a.den);
    lemma_fundamental_div_mod(b.num * m, b.den);
    lemma_mod_bound(b.num * m, b.den);
    assert((a.num * b.den) * m + m <= (b.num * a.den) * m) by (nonlinear_arith)
        requires
            a.num * b.den + 1 <= b.num * a.den,
            m > 0,
    ;
    assert((a.num * b.den) * m == (a.den * b.den) * qa + ra * b.den) by (nonlinear_arith)
        requires
            a.num * m == a.den * qa + ra,
    ;
    assert((b.num * a.den) * m == (a.den * b.den) * qb + rb * a.den) by (nonlinear_arith)
        requires
            b.num * m == b.den * qb + rb,
    ;
    assert(rb * a.den < a.den * b.den) by (nonlinear_arith)
        requires
            0 <= rb < b.den,
            a.den > 0,
    ;
    assert(ra * b.den >= 0) by (nonlinear_arith)
        requires
            ra >= 0,
            b.den > 0,
    ;
    assert(a.den * b.den < m) by (nonlinear_arith)
        requires
            0 < a.den <= i64::MAX,
            0 < b.den <= i64::MAX,
            m == 0x40000000000000000000000000000000,
    ;
    if qa >= qb {
        assert((a.den * b.den) * qa >= (a.den * b.den) * qb) by (nonlinear_arith)
            requires
                qa >= qb,
                a.den > 0,
                b.den > 0,
        ;
        assert(false);
    }
}

/// The embedding of a representable value, shifted to be non-negative.
pub open spec fn rat_measure(q: Rat) -> int {
    rat_embed(q) + 0x200000000000000000000000000000000000000000000000
}

/// The shifted embedding of a representable value is non-negative.
pub proof fn lemma_rat_measure_nonneg(q: Rat)
    requires
        rat_wf(q),
        rat_fits(q),
    ensures
        rat_measure(q) >= 0,
{
    let m: int = 0x40000000000000000000000000000000;
    let x = q.num * m;
    let qq = x / q.den;
    let r = x % q.den;
    lemma_fundamental_div_mod(x, q.den);
    lemma_mod_bound(x, q.den);
    assert(x >= -0x200000000000000000000000000000000000000000000000) by (nonlinear_arith)
        requires
            q.num >= -0x8000000000000000,
            m == 0x40000000000000000000000000000000,
            x == q.num * m,
    ;
    if x <= 0 {
        if qq < x {
            assert(false) by (nonlinear_arith)
                requires
                    q.den >= 1,
                    x == q.den * qq + r,
                    0 <= r < q.den,
                    qq <= x - 1,
                    x <= 0,
            ;
        }
    } else {
        if qq < 0 {
            assert(false) by (nonlinear_arith)
                requires
                    q.den >= 1,
                    x == q.den * qq + r,
                    0 <= r < q.den,
                    qq <= -1,
                    x > 0,
            ;
        }
    }
}

/// The summed, shifted embedding of a distance vector from index `i` on.
pub open spec fn dist_measure_from(s: Seq<Rational>, i: int) -> int
    decreases s.len() - i,
{
    if i < 0 || i >= s.len() {
        0
    } else {
        rat_measure(s[i]@) + dist_measure_from(s, i + 1)
    }
}

/// The summed, shifted embedding of a distance vector: the termination
/// measure of the relaxation loop.
pub open spec fn dist_measure(s: Seq<Rational>) -> int {
    dist_measure_from(s, 0)
}

/// A pointwise non-increasing step does not increase the measure.
pub proof fn lemma_dist_measure_le(s1: Seq<Rational>, s2: Seq<Rational>, i: int)
    requires
        s1.len() == s2.len(),
        forall|j: int| 0 <= j < s1.len() ==> s1[j].wf() && s2[j].wf(),
        forall|j: int| 0 <= j < s1.len() ==> rat_le(#[trigger] s2[j]@, s1[j]@),
    ensures
        dist_measure_from(s2, i) <= dist_measure_from(s1, i),
    decreases s1.len() - i,
{
    if 0 <= i < s1.len() {
        lemma_view_fits(s1[i]);
        lemma_view_fits(s2[i]);
        lemma_rat_embed_le(s2[i]@, s1[i]@);
        lemma_dist_measure_le(s1, s2, i + 1);
    }
}

/// A pointwise non-increasing step that strictly decreases some entry
/// strictly decreases the measure.
pub proof fn lemma_dist_measure_lt(s1: Seq<Rational>, s2: Seq<Rational>, i: int, j: int)
    requires
        s1.len() == s2.len(),
        forall|k: int| 0 <= k < s1.len() ==> s1[k].wf() && s2[k].wf(),
        forall|k: int| 0 <= k < s1.len() ==> rat_le(#[trigger] s2[k]@, s1[k]@),
        0 <= i <= j < s1.len(),
        rat_lt(s2[j]@, s1[j]@),
    ensures
        dist_measure_from(s2, i) < dist_measure_from(s1, i),
    decreases s1.len() - i,
{
    if i == j {
        lemma_view_fits(s1[j]);
        lemma_view_fits(s2[j]);
        lemma_rat_embed_lt(s2[j]@, s1[j]@);
        lemma_dist_measure_le(s1, s2, j + 1);
    } else {
        lemma_view_fits(s1[i]);
        lemma_view_fits(s2[i]);
        lemma_rat_embed_le(s2[i]@, s1[i]@);
        lemma_dist_measure_lt(s1, s2, i + 1, j);
    }
}

/// The measure of a vector of well-formed rationals is non-negative.
pub proof fn lemma_dist_measure_nonneg(s: Seq<Rational>, i: int)
    requires
        forall|j: int| 0 <= j < s.len() ==> (#[trigger] s[j]).wf(),
    ensures
        dist_measure_from(s, i) >= 0,
    decreases s.len() - i,
{
    if 0 <= i < s.len() {
        lemma_view_fits(s[i]);
        lemma_rat_measure_nonneg(s[i]@);
        lemma_dist_measure_nonneg(s, i + 1);
    }
}

} // verus!
