//! Exact rational scalars.
//!
//! All numeric state of the library is carried by `Rat`, a rational number
//! with `i64` numerator and positive `i64` denominator, both bounded by
//! `RAT_BOUND` so that every product of two in-range values fits in an `i128`
//! intermediate. The mathematical value of a `Rat` is the unbounded ghost
//! rational `Frac`; each checked operation either returns the exact
//! mathematical result or reports that it left the representable range.

use vstd::prelude::*;

use vstd::arithmetic::div_mod::{
    lemma_div_nonincreasing, lemma_fundamental_div_mod, lemma_mod_multiples_basic,
};

verus! {

/// Bound on the magnitude of numerators and denominators (2^62).
pub const RAT_BOUND: i64 = 0x4000_0000_0000_0000;

/// A mathematical rational number: unbounded numerator over denominator.
pub ghost struct Frac {
    pub n: int,
    pub d: int,
}

/// A well-formed mathematical rational has a positive denominator.
pub open spec fn frac_wf(f: Frac) -> bool {
    0 < f.d
}

/// The rational k/1.
pub open spec fn frac_int(k: int) -> Frac {
    Frac { n: k, d: 1 }
}

/// Equality of rational values by cross multiplication.
pub open spec fn frac_eq(a: Frac, b: Frac) -> bool {
    a.n * b.d == b.n * a.d
}

pub open spec fn frac_add(a: Frac, b: Frac) -> Frac {
    frac_norm(Frac { n: a.n * b.d + b.n * a.d, d: a.d * b.d })
}

pub open spec fn frac_sub(a: Frac, b: Frac) -> Frac {
    frac_norm(Frac { n: a.n * b.d - b.n * a.d, d: a.d * b.d })
}

pub open spec fn frac_mul(a: Frac, b: Frac) -> Frac {
    frac_norm(Frac { n: a.n * b.n, d: a.d * b.d })
}

pub open spec fn frac_neg(a: Frac) -> Frac {
    Frac { n: -a.n, d: a.d }
}

/// Division, with the sign moved into the numerator so that the denominator
/// of the result stays positive whenever both arguments are well formed.
pub open spec fn frac_div(a: Frac, b: Frac) -> Frac {
    if b.n >= 0 {
        frac_norm(Frac { n: a.n * b.d, d: a.d * b.n })
    } else {
        frac_norm(Frac { n: -(a.n * b.d), d: -(a.d * b.n) })
    }
}

pub open spec fn int_abs(x: int) -> int {
    if x >= 0 {
        x
    } else {
        -x
    }
}

/// Greatest common divisor, by Euclid's algorithm.
pub open spec fn gcd_nat(a: nat, b: nat) -> nat
    decreases b,
{
    if b == 0 {
        a
    } else {
        gcd_nat(b, a % b)
    }
}

pub proof fn lemma_gcd_props(a: nat, b: nat)
    ensures
        b > 0 ==> ({
            let g = gcd_nat(a, b);
            &&& g > 0
            &&& g <= b
            &&& a % g == 0
            &&& b % g == 0
        }),
    decreases b,
{
    if b > 0 {
        let g = gcd_nat(a, b);
        let r = a % b;
        assert(g == gcd_nat(b, r));
        if r == 0 {
            assert(gcd_nat(b, 0) == b);
            lemma_mod_multiples_basic(1, b as int);
            assert(1 * (b as int) == b as int);
        } else {
            lemma_gcd_props(b, r);
            lemma_fundamental_div_mod(a as int, b as int);
            lemma_fundamental_div_mod(b as int, g as int);
            lemma_fundamental_div_mod(r as int, g as int);
            let q1 = b as int / g as int;
            let q2 = r as int / g as int;
            let qa = a as int / b as int;
            assert(b as int == g as int * q1);
            assert(r as int == g as int * q2);
            assert(a as int == (b as int) * qa + r as int);
            assert(a as int == (q1 * qa + q2) * (g as int)) by (nonlinear_arith)
                requires
                    b as int == g as int * q1,
                    r as int == g as int * q2,
                    a as int == (b as int) * qa + r as int,
            ;
            lemma_mod_multiples_basic(q1 * qa + q2, g as int);
        }
    }
}

/// A rational brought to lowest terms: numerator and denominator divided by
/// their greatest common divisor (ill-formed values are left as they are).
pub open spec fn frac_norm(f: Frac) -> Frac {
    if f.d <= 0 {
        f
    } else {
        let g = gcd_nat(int_abs(f.n) as nat, f.d as nat) as int;
        if g <= 0 {
            f
        } else {
            Frac {
                n: if f.n >= 0 {
                    f.n / g
                } else {
                    -((-f.n) / g)
                },
                d: f.d / g,
            }
        }
    }
}

/// |a| > |b|, by cross multiplication (denominators positive).
pub open spec fn frac_abs_gt(a: Frac, b: Frac) -> bool {
    int_abs(a.n) * b.d > int_abs(b.n) * a.d
}

/// Whether a mathematical rational fits the executable representation.
pub open spec fn frac_fits(f: Frac) -> bool {
    &&& frac_wf(f)
    &&& -(RAT_BOUND as int) <= f.n <= RAT_BOUND as int
    &&& f.d <= RAT_BOUND as int
}

/// An exact rational scalar with bounded numerator and denominator.
/// Not kept in lowest terms; value comparisons cross-multiply.
#[derive(Debug, Clone, Copy, PartialEq, Eq, Structural)]
pub struct Rat {
    pub num: i64,
    pub den: i64,
}

impl View for Rat {
    type V = Frac;

    open spec fn view(&self) -> Frac {
        Frac { n: self.num as int, d: self.den as int }
    }
}

proof fn lemma_mul_le(a: int, b: int, m1: int, m2: int)
    requires
        -m1 <= a <= m1,
        -m2 <= b <= m2,
        0 <= m1,
        0 <= m2,
    ensures
        -(m1 * m2) <= a * b <= m1 * m2,
{
    assert(-(m1 * m2) <= a * b <= m1 * m2) by (nonlinear_arith)
        requires
            -m1 <= a <= m1,
            -m2 <= b <= m2,
            0 <= m1,
            0 <= m2,
    ;
}

proof fn lemma_mul_pos(a: int, b: int)
    requires
        0 < a,
        0 < b,
    ensures
        0 < a * b,
{
    assert(0 < a * b) by (nonlinear_arith)
        requires
            0 < a,
            0 < b,
    ;
}

proof fn lemma_mul_sign(a: int, b: int)
    requires
        0 < a,
    ensures
        (a * b > 0) <==> (b > 0),
        (a * b < 0) <==> (b < 0),
        (a * b == 0) <==> (b == 0),
{
    assert((a * b > 0 <==> b > 0) && (a * b < 0 <==> b < 0) && (a * b == 0 <==> b == 0))
        by (nonlinear_arith)
        requires
            0 < a,
    ;
}

#[verifier::loop_isolation(false)]
fn gcd_u128(a0: u128, b0: u128) -> (g: u128)
    ensures
        g as nat == gcd_nat(a0 as nat, b0 as nat),
{
    let mut a = a0;
    let mut b = b0;
    while b != 0
        invariant
            gcd_nat(a as nat, b as nat) == gcd_nat(a0 as nat, b0 as nat),
        decreases b,
    {
        let t = a % b;
        a = b;
        b = t;
    }
    a
}

/// Brings a raw numerator/denominator pair to lowest terms.
fn reduce_i128(n: i128, d: i128) -> (r: (i128, i128))
    requires
        d > 0,
        n > i128::MIN,
    ensures
        ({
            let f = frac_norm(Frac { n: n as int, d: d as int });
            &&& r.0 as int == f.n
            &&& r.1 as int == f.d
            &&& 0 < r.1 <= d
            &&& int_abs(r.0 as int) <= int_abs(n as int)
        }),
{
    let un: u128 = if n < 0 {
        (-n) as u128
    } else {
        n as u128
    };
    let ud: u128 = d as u128;
    let g = gcd_u128(un, ud);
    proof {
        lemma_gcd_props(un as nat, ud as nat);
    }
    let qn = un / g;
    let qd = ud / g;
    proof {
        lemma_fundamental_div_mod(ud as int, g as int);
        lemma_fundamental_div_mod(un as int, g as int);
        lemma_div_nonincreasing(un as int, g as int);
        lemma_div_nonincreasing(ud as int, g as int);
        assert(ud as int % (g as int) == 0);
        assert(ud as int == (g as int) * (ud as int / g as int));
        assert(qd >= 1) by {
            if ud as int / g as int <= 0 {
                assert((g as int) * (ud as int / g as int) <= 0) by (nonlinear_arith)
                    requires
                        g as int > 0,
                        ud as int / g as int <= 0,
                ;
            }
        }
    }
    let sn: i128 = if n < 0 {
        -(qn as i128)
    } else {
        qn as i128
    };
    (sn, qd as i128)
}

impl Rat {
    /// Representation invariant: the value fits the bounded form.
    pub open spec fn wf(self) -> bool {
        frac_fits(self@)
    }

    pub fn zero() -> (r: Rat)
        ensures
            r.wf(),
            r@ == frac_int(0),
    {
        Rat { num: 0, den: 1 }
    }

    pub fn one() -> (r: Rat)
        ensures
            r.wf(),
            r@ == frac_int(1),
    {
        Rat { num: 1, den: 1 }
    }

    pub fn from_int(k: i64) -> (r: Rat)
        requires
            -RAT_BOUND <= k <= RAT_BOUND,
        ensures
            r.wf(),
            r@ == frac_int(k as int),
    {
        Rat { num: k, den: 1 }
    }

    pub fn is_zero(&self) -> (r: bool)
        ensures
            r == (self@.n == 0),
    {
        self.num == 0
    }

    /// Exact negation; total on well-formed values.
    pub fn neg(&self) -> (r: Rat)
        requires
            self.wf(),
        ensures
            r.wf(),
            r@ == frac_neg(self@),
    {
        Rat { num: -self.num, den: self.den }
    }

    /// Exact sum, or `None` when the result leaves the representable range.
    pub fn checked_add(&self, other: &Rat) -> (r: Option<Rat>)
        requires
            self.wf(),
            other.wf(),
        ensures
            r is Some <==> frac_fits(frac_add(self@, other@)),
            r matches Some(v) ==> v.wf() && v@ == frac_add(self@, other@),
    {
        proof {
            lemma_mul_le(self.num as int, other.den as int, RAT_BOUND as int, RAT_BOUND as int);
            lemma_mul_le(other.num as int, self.den as int, RAT_BOUND as int, RAT_BOUND as int);
            lemma_mul_le(self.den as int, other.den as int, RAT_BOUND as int, RAT_BOUND as int);
            lemma_mul_pos(self.den as int, other.den as int);
        }
        let n: i128 = (self.num as i128) * (other.den as i128) + (other.num as i128) * (self.den
            as i128);
        let d: i128 = (self.den as i128) * (other.den as i128);
        let (rn, rd) = reduce_i128(n, d);
        let b: i128 = RAT_BOUND as i128;
        if -b <= rn && rn <= b && rd <= b {
            Some(Rat { num: rn as i64, den: rd as i64 })
        } else {
            None
        }
    }

    /// Exact difference, or `None` when the result leaves the range.
    pub fn checked_sub(&self, other: &Rat) -> (r: Option<Rat>)
        requires
            self.wf(),
            other.wf(),
        ensures
            r is Some <==> frac_fits(frac_sub(self@, other@)),
            r matches Some(v) ==> v.wf() && v@ == frac_sub(self@, other@),
    {
        proof {
            lemma_mul_le(self.num as int, other.den as int, RAT_BOUND as int, RAT_BOUND as int);
            lemma_mul_le(other.num as int, self.den as int, RAT_BOUND as int, RAT_BOUND as int);
            lemma_mul_le(self.den as int, other.den as int, RAT_BOUND as int, RAT_BOUND as int);
            lemma_mul_pos(self.den as int, other.den as int);
        }
        let n: i128 = (self.num as i128) * (other.den as i128) - (other.num as i128) * (self.den
            as i128);
        let d: i128 = (self.den as i128) * (other.den as i128);
        let (rn, rd) = reduce_i128(n, d);
        let b: i128 = RAT_BOUND as i128;
        if -b <= rn && rn <= b && rd <= b {
            Some(Rat { num: rn as i64, den: rd as i64 })
        } else {
            None
        }
    }

    /// Exact product, or `None` when the result leaves the range.
    pub fn checked_mul(&self, other: &Rat) -> (r: Option<Rat>)
        requires
            self.wf(),
            other.wf(),
        ensures
            r is Some <==> frac_fits(frac_mul(self@, other@)),
            r matches Some(v) ==> v.wf() && v@ == frac_mul(self@, other@),
    {
        proof {
            lemma_mul_le(self.num as int, other.num as int, RAT_BOUND as int, RAT_BOUND as int);
            lemma_mul_le(self.den as int, other.den as int, RAT_BOUND as int, RAT_BOUND as int);
            lemma_mul_pos(self.den as int, other.den as int);
        }
        let n: i128 = (self.num as i128) * (other.num as i128);
        let d: i128 = (self.den as i128) * (other.den as i128);
        let (rn, rd) = reduce_i128(n, d);
        let b: i128 = RAT_BOUND as i128;
        if -b <= rn && rn <= b && rd <= b {
            Some(Rat { num: rn as i64, den: rd as i64 })
        } else {
            None
        }
    }

    /// Exact quotient by a nonzero rational, or `None` when the result leaves
    /// the range. The sign is normalized into the numerator.
    pub fn checked_div(&self, other: &Rat) -> (r: Option<Rat>)
        requires
            self.wf(),
            other.wf(),
            other@.n != 0,
        ensures
            r is Some <==> frac_fits(frac_div(self@, other@)),
            r matches Some(v) ==> v.wf() && v@ == frac_div(self@, other@),
    {
        proof {
            lemma_mul_le(self.num as int, other.den as int, RAT_BOUND as int, RAT_BOUND as int);
            lemma_mul_le(self.den as int, other.num as int, RAT_BOUND as int, RAT_BOUND as int);
            lemma_mul_sign(self.den as int, other.num as int);
        }
        let mut n: i128 = (self.num as i128) * (other.den as i128);
        let mut d: i128 = (self.den as i128) * (other.num as i128);
        if d < 0 {
            n = -n;
            d = -d;
        }
        let (rn, rd) = reduce_i128(n, d);
        let b: i128 = RAT_BOUND as i128;
        if -b <= rn && rn <= b && rd <= b {
            Some(Rat { num: rn as i64, den: rd as i64 })
        } else {
            None
        }
    }

    /// Whether |self| > |other|, comparing exact values.
    pub fn abs_gt(&self, other: &Rat) -> (r: bool)
        requires
            self.wf(),
            other.wf(),
        ensures
            r == frac_abs_gt(self@, other@),
    {
        let an: i128 = if self.num < 0 {
            -(self.num as i128)
        } else {
            self.num as i128
        };
        let bn: i128 = if other.num < 0 {
            -(other.num as i128)
        } else {
            other.num as i128
        };
        proof {
            lemma_mul_le(an as int, other.den as int, RAT_BOUND as int, RAT_BOUND as int);
            lemma_mul_le(bn as int, self.den as int, RAT_BOUND as int, RAT_BOUND as int);
        }
        an * (other.den as i128) > bn * (self.den as i128)
    }

    /// Whether the two scalars denote the same rational value.
    pub fn eq_frac(&self, other: &Rat) -> (r: bool)
        requires
            self.wf(),
            other.wf(),
        ensures
            r == frac_eq(self@, other@),
    {
        proof {
            lemma_mul_le(self.num as int, other.den as int, RAT_BOUND as int, RAT_BOUND as int);
            lemma_mul_le(other.num as int, self.den as int, RAT_BOUND as int, RAT_BOUND as int);
        }
        (self.num as i128) * (other.den as i128) == (other.num as i128) * (self.den as i128)
    }
}

} // verus!
