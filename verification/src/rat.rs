//! Exact rational arithmetic for the algebraic solver.
//!
//! An executable rational [`Rat`] keeps an `i64` numerator and a positive
//! `i64` denominator; its mathematical value is the unbounded pair [`Q`],
//! compared by cross-multiplication ([`q_eq`]).  Operations compute exactly
//! in 128 bits, divide out the greatest common divisor to keep components
//! small, and return `None` exactly when the reduced components do not fit
//! back into 64 bits.

use vstd::prelude::*;
use vstd::arithmetic::div_mod::lemma_fundamental_div_mod;

verus! {

/// A mathematical rational: an unbounded numerator over a denominator.
pub ghost struct Q {
    pub n: int,
    pub d: int,
}

/// A well-formed value has a positive denominator.
pub open spec fn q_wf(q: Q) -> bool {
    q.d >= 1
}

/// Value equality of rationals, by cross-multiplication.
pub open spec fn q_eq(a: Q, b: Q) -> bool {
    a.n * b.d == b.n * a.d
}

pub open spec fn q_zero() -> Q {
    Q { n: 0, d: 1 }
}

pub open spec fn q_one() -> Q {
    Q { n: 1, d: 1 }
}

pub open spec fn q_add(a: Q, b: Q) -> Q {
    Q { n: a.n * b.d + b.n * a.d, d: a.d * b.d }
}

pub open spec fn q_mul(a: Q, b: Q) -> Q {
    Q { n: a.n * b.n, d: a.d * b.d }
}

pub open spec fn q_neg(a: Q) -> Q {
    Q { n: -a.n, d: a.d }
}

pub open spec fn q_sub(a: Q, b: Q) -> Q {
    q_add(a, q_neg(b))
}

pub proof fn lemma_q_eq_refl(a: Q)
    ensures
        q_eq(a, a),
{
}

pub proof fn lemma_q_eq_sym(a: Q, b: Q)
    requires
        q_eq(a, b),
    ensures
        q_eq(b, a),
{
}

/// Cross-multiplied equality is transitive over well-formed values.
pub proof fn lemma_q_eq_trans(a: Q, b: Q, c: Q)
    requires
        q_wf(a),
        q_wf(b),
        q_wf(c),
        q_eq(a, b),
        q_eq(b, c),
    ensures
        q_eq(a, c),
{
    assert(a.n * c.d == c.n * a.d) by (nonlinear_arith)
        requires
            a.n * b.d == b.n * a.d,
            b.n * c.d == c.n * b.d,
            b.d >= 1,
    ;
}

pub proof fn lemma_q_add_wf(a: Q, b: Q)
    requires
        q_wf(a),
        q_wf(b),
    ensures
        q_wf(q_add(a, b)),
{
    assert(a.d * b.d >= 1) by (nonlinear_arith)
        requires
            a.d >= 1,
            b.d >= 1,
    ;
}

pub proof fn lemma_q_mul_wf(a: Q, b: Q)
    requires
        q_wf(a),
        q_wf(b),
    ensures
        q_wf(q_mul(a, b)),
{
    assert(a.d * b.d >= 1) by (nonlinear_arith)
        requires
            a.d >= 1,
            b.d >= 1,
    ;
}

/// Addition respects value equality.
pub proof fn lemma_q_add_congr(a: Q, a2: Q, b: Q, b2: Q)
    requires
        q_wf(a),
        q_wf(a2),
        q_wf(b),
        q_wf(b2),
        q_eq(a, a2),
        q_eq(b, b2),
    ensures
        q_eq(q_add(a, b), q_add(a2, b2)),
{
    lemma_mul_distrib(a.n * b.d, b.n * a.d, a2.d * b2.d);
    lemma_mul_rearrange(a.n, b.d, a2.d, b2.d);
    lemma_mul_rearrange(b.n, a.d, b2.d, a2.d);
    lemma_mul_distrib(a2.n * b2.d, b2.n * a2.d, a.d * b.d);
    lemma_mul_rearrange(a2.n, b2.d, a.d, b.d);
    lemma_mul_rearrange(b2.n, a2.d, b.d, a.d);
}

proof fn lemma_mul_distrib(x: int, y: int, z: int)
    by (nonlinear_arith)
    ensures
        (x + y) * z == x * z + y * z,
{
}

proof fn lemma_mul_rearrange(x: int, y: int, z: int, w: int)
    by (nonlinear_arith)
    ensures
        (x * y) * (z * w) == (x * z) * (y * w),
        (x * y) * (z * w) == (x * y) * (w * z),
        (x * y) * (z * w) == (y * x) * (z * w),
{
}

/// An executable rational number.
#[derive(Clone, Copy, Debug)]
pub struct Rat {
    /// Numerator; never `i64::MIN`, so negation cannot overflow.
    pub n: i64,
    /// Denominator; always positive.
    pub d: i64,
}

impl View for Rat {
    type V = Q;

    open spec fn view(&self) -> Q {
        Q { n: self.n as int, d: self.d as int }
    }
}

impl Rat {
    /// Structural invariant of every rational this library hands out.
    pub open spec fn wf(self) -> bool {
        &&& self.d >= 1
        &&& self.n > i64::MIN
    }

    /// Builds a rational from a numerator and a positive denominator.
    pub fn new(n: i64, d: i64) -> (r: Rat)
        requires
            d >= 1,
            n > i64::MIN,
        ensures
            r.wf(),
            r@ == (Q { n: n as int, d: d as int }),
    {
        Rat { n, d }
    }

    pub fn zero() -> (r: Rat)
        ensures
            r.wf(),
            r@ == q_zero(),
    {
        Rat { n: 0, d: 1 }
    }

    pub fn one() -> (r: Rat)
        ensures
            r.wf(),
            r@ == q_one(),
    {
        Rat { n: 1, d: 1 }
    }

    /// Whether this rational is exactly zero.
    pub fn is_zero(&self) -> (b: bool)
        requires
            self.wf(),
        ensures
            b == q_eq(self@, q_zero()),
    {
        self.n == 0
    }
}

/// Euclid's greatest common divisor, as a specification.
pub open spec fn gcd_spec(a: int, b: int) -> int
    decreases b,
{
    if b <= 0 {
        a
    } else {
        gcd_spec(b, a % b)
    }
}

/// The greatest common divisor of a non-negative and a positive number
/// divides both and is positive.
pub proof fn lemma_gcd_divides(a: int, b: int)
    requires
        a >= 1,
        b >= 0,
    ensures
        1 <= gcd_spec(a, b),
        a % gcd_spec(a, b) == 0,
        b % gcd_spec(a, b) == 0,
    decreases b,
{
    if b == 0 {
        lemma_mod_self_zero(a);
    } else {
        lemma_gcd_divides(b, a % b);
        let g = gcd_spec(b, a % b);
        lemma_fundamental_div_mod(a, b);
        lemma_divides_sum(a, b, g);
    }
}

proof fn lemma_mod_self_zero(a: int)
    requires
        a >= 1,
    ensures
        a % a == 0,
        0int % a == 0,
{
    assert(a % a == 0 && 0int % a == 0) by (nonlinear_arith)
        requires
            a >= 1,
    ;
}

/// If `g` divides `b` and `a % b`, then `g` divides `a`.
proof fn lemma_divides_sum(a: int, b: int, g: int)
    requires
        b >= 1,
        g >= 1,
        b % g == 0,
        (a % b) % g == 0,
        a == b * (a / b) + a % b,
    ensures
        a % g == 0,
{
    let kb = b / g;
    let kr = (a % b) / g;
    lemma_fundamental_div_mod(b, g);
    lemma_fundamental_div_mod(a % b, g);
    assert(a == g * (kb * (a / b) + kr)) by (nonlinear_arith)
        requires
            a == b * (a / b) + a % b,
            b == g * kb,
            a % b == g * kr,
    ;
    assert(g * (kb * (a / b) + kr) % g == 0) by (nonlinear_arith)
        requires
            g >= 1,
    ;
}

/// Magnitude of an integer.
pub open spec fn abs_int(n: int) -> int {
    if n >= 0 {
        n
    } else {
        -n
    }
}

/// Whether the fraction `n / d`, once divided by its greatest common
/// divisor, fits back into 64-bit components.
pub open spec fn reduced_fits(n: int, d: int) -> bool {
    ||| n == 0
    ||| {
        let g = gcd_spec(abs_int(n), d);
        abs_int(n) / g <= i64::MAX && d / g <= i64::MAX
    }
}

proof fn lemma_prod_bound(x: int, y: int)
    by (nonlinear_arith)
    requires
        -0x7fff_ffff_ffff_ffff <= x <= 0x7fff_ffff_ffff_ffff,
        -0x7fff_ffff_ffff_ffff <= y <= 0x7fff_ffff_ffff_ffff,
    ensures
        -0x3fff_ffff_ffff_ffff_0000_0000_0000_0001 <= x * y
            <= 0x3fff_ffff_ffff_ffff_0000_0000_0000_0001,
{
}

/// The canonical lowest-terms representative of `n / d`, or `None` when it
/// does not fit 64-bit components: the exact result of [`reduce`], pinned
/// bit for bit.
pub open spec fn reduce_spec(n: int, d: int) -> Option<Rat> {
    if n == 0 {
        Some(Rat { n: 0, d: 1 })
    } else {
        let a = abs_int(n);
        let g = gcd_spec(a, d);
        let na = a / g;
        let dr = d / g;
        if na <= i64::MAX && dr <= i64::MAX {
            Some(
                Rat {
                    n: (if n < 0 {
                        -na
                    } else {
                        na
                    }) as i64,
                    d: dr as i64,
                },
            )
        } else {
            None
        }
    }
}

/// The exact representation of a sum, product, negation, difference and
/// reciprocal, as the executable operations compute them.
pub open spec fn rat_add_spec(a: Rat, b: Rat) -> Option<Rat> {
    reduce_spec(a.n * b.d + b.n * a.d, a.d * b.d)
}

pub open spec fn rat_mul_spec(a: Rat, b: Rat) -> Option<Rat> {
    reduce_spec(a.n * b.n, a.d * b.d)
}

pub open spec fn rat_neg_spec(a: Rat) -> Rat {
    Rat { n: (-(a.n as int)) as i64, d: a.d }
}

pub open spec fn rat_sub_spec(a: Rat, b: Rat) -> Option<Rat> {
    rat_add_spec(a, rat_neg_spec(b))
}

pub open spec fn rat_recip_spec(a: Rat) -> Rat {
    if a.n > 0 {
        Rat { n: a.d, d: a.n }
    } else {
        Rat { n: (-(a.d as int)) as i64, d: (-(a.n as int)) as i64 }
    }
}

/// Brings `n / d` to lowest terms; `None` exactly when the reduced
/// components do not fit into 64 bits.
pub fn reduce(n: i128, d: i128) -> (r: Option<Rat>)
    requires
        1 <= d,
        n > i128::MIN,
    ensures
        r == reduce_spec(n as int, d as int),
        (r is Some) == reduced_fits(n as int, d as int),
        r matches Some(c) ==> c.wf() && q_eq(c@, Q { n: n as int, d: d as int }),
{
    if n == 0 {
        let c = Rat { n: 0, d: 1 };
        proof {
            assert(c.wf());
            assert(c@.n * d as int == 0);
            assert(n as int * c@.d == 0);
            assert(q_eq(c@, Q { n: n as int, d: d as int }));
        }
        return Some(c);
    }
    let a: u128 = if n < 0 {
        (-n) as u128
    } else {
        n as u128
    };
    let g: u128 = gcd(a, d as u128);
    let na: u128 = a / g;
    let dr: u128 = (d as u128) / g;
    proof {
        lemma_fundamental_div_mod(a as int, g as int);
        lemma_fundamental_div_mod(d as int, g as int);
        assert(na >= 1 && dr >= 1) by (nonlinear_arith)
            requires
                a as int == g as int * (a as int / g as int) + a as int % g as int,
                d as int == g as int * (d as int / g as int) + d as int % g as int,
                a as int % g as int == 0,
                d as int % g as int == 0,
                na == a as int / g as int,
                dr == d as int / g as int,
                a >= 1,
                d >= 1,
                g >= 1,
        ;
    }
    if na > i64::MAX as u128 || dr > i64::MAX as u128 {
        return None;
    }
    let rn: i64 = if n < 0 {
        -(na as i64)
    } else {
        na as i64
    };
    let c = Rat { n: rn, d: dr as i64 };
    proof {
        assert(rn as int * d as int == n as int * dr as int) by (nonlinear_arith)
            requires
                a == g * na,
                d == g * dr,
                n as int == if n < 0 {
                    -(a as int)
                } else {
                    a as int
                },
                rn as int == if n < 0 {
                    -(na as int)
                } else {
                    na as int
                },
                g >= 1,
        ;
    }
    Some(c)
}

/// Exact sum; `None` exactly when the reduced result leaves 64 bits.
pub fn rat_add(a: &Rat, b: &Rat) -> (r: Option<Rat>)
    requires
        a.wf(),
        b.wf(),
    ensures
        r == rat_add_spec(*a, *b),
        (r is Some) == reduced_fits(q_add(a@, b@).n, q_add(a@, b@).d),
        r matches Some(c) ==> c.wf() && q_eq(c@, q_add(a@, b@)),
{
    proof {
        lemma_prod_bound(a.n as int, b.d as int);
        lemma_prod_bound(b.n as int, a.d as int);
        lemma_prod_bound(a.d as int, b.d as int);
    }
    let n: i128 = (a.n as i128) * (b.d as i128) + (b.n as i128) * (a.d as i128);
    let d: i128 = (a.d as i128) * (b.d as i128);
    proof {
        assert(d >= 1) by (nonlinear_arith)
            requires
                d == a.d as int * b.d as int,
                a.d >= 1,
                b.d >= 1,
        ;
    }
    reduce(n, d)
}

/// Exact product; `None` exactly when the reduced result leaves 64 bits.
pub fn rat_mul(a: &Rat, b: &Rat) -> (r: Option<Rat>)
    requires
        a.wf(),
        b.wf(),
    ensures
        r == rat_mul_spec(*a, *b),
        (r is Some) == reduced_fits(q_mul(a@, b@).n, q_mul(a@, b@).d),
        r matches Some(c) ==> c.wf() && q_eq(c@, q_mul(a@, b@)),
{
    proof {
        lemma_prod_bound(a.n as int, b.n as int);
        lemma_prod_bound(a.d as int, b.d as int);
    }
    let n: i128 = (a.n as i128) * (b.n as i128);
    let d: i128 = (a.d as i128) * (b.d as i128);
    proof {
        assert(d >= 1) by (nonlinear_arith)
            requires
                d == a.d as int * b.d as int,
                a.d >= 1,
                b.d >= 1,
        ;
    }
    reduce(n, d)
}

/// Exact negation; never fails.
pub fn rat_neg(a: &Rat) -> (r: Rat)
    requires
        a.wf(),
    ensures
        r == rat_neg_spec(*a),
        r.wf(),
        r@ == q_neg(a@),
{
    Rat { n: -a.n, d: a.d }
}

/// Exact difference; `None` exactly when the reduced result leaves 64 bits.
pub fn rat_sub(a: &Rat, b: &Rat) -> (r: Option<Rat>)
    requires
        a.wf(),
        b.wf(),
    ensures
        r == rat_sub_spec(*a, *b),
        (r is Some) == reduced_fits(q_sub(a@, b@).n, q_sub(a@, b@).d),
        r matches Some(c) ==> c.wf() && q_eq(c@, q_sub(a@, b@)),
{
    let nb = rat_neg(b);
    rat_add(a, &nb)
}

/// Exact reciprocal of a non-zero rational; never fails.
pub fn rat_recip(a: &Rat) -> (r: Rat)
    requires
        a.wf(),
        a.n != 0,
    ensures
        r == rat_recip_spec(*a),
        r.wf(),
        q_eq(q_mul(a@, r@), q_one()),
{
    let r = if a.n > 0 {
        Rat { n: a.d, d: a.n }
    } else {
        Rat { n: -a.d, d: -a.n }
    };
    proof {
        assert(a.n as int * r.n as int * 1 == 1 * (a.d as int * r.d as int)) by (nonlinear_arith)
            requires
                r.n as int == if a.n > 0 {
                    a.d as int
                } else {
                    -a.d as int
                },
                r.d as int == if a.n > 0 {
                    a.n as int
                } else {
                    -a.n as int
                },
                a.n != 0,
        ;
    }
    r
}

/// Magnitude comparison `|a| <= |b|`, by cross-multiplication.
pub open spec fn q_le_abs(a: Rat, b: Rat) -> bool {
    abs_int(a@.n) * b@.d <= abs_int(b@.n) * a@.d
}

/// Computes `|a| <= |b|`, exactly.
pub fn rat_abs_le(a: &Rat, b: &Rat) -> (r: bool)
    requires
        a.wf(),
        b.wf(),
    ensures
        r == q_le_abs(*a, *b),
{
    let an: i64 = if a.n < 0 {
        -a.n
    } else {
        a.n
    };
    let bn: i64 = if b.n < 0 {
        -b.n
    } else {
        b.n
    };
    proof {
        lemma_prod_bound(an as int, b.d as int);
        lemma_prod_bound(bn as int, a.d as int);
    }
    (an as i128) * (b.d as i128) <= (bn as i128) * (a.d as i128)
}

/// Exact value comparison, by cross-multiplication.
pub fn rat_eq(a: &Rat, b: &Rat) -> (r: bool)
    requires
        a.wf(),
        b.wf(),
    ensures
        r == q_eq(a@, b@),
{
    proof {
        lemma_prod_bound(a.n as int, b.d as int);
        lemma_prod_bound(b.n as int, a.d as int);
    }
    (a.n as i128) * (b.d as i128) == (b.n as i128) * (a.d as i128)
}

/// Euclid's algorithm, exactly [`gcd_spec`].
pub fn gcd(a: u128, b: u128) -> (g: u128)
    requires
        a >= 1,
    ensures
        g == gcd_spec(a as int, b as int),
        1 <= g,
        a as int % g as int == 0,
        b as int % g as int == 0,
    decreases b,
{
    proof {
        lemma_gcd_divides(a as int, b as int);
    }
    if b == 0 {
        a
    } else {
        gcd(b, a % b)
    }
}

} // verus!
