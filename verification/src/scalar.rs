//! Exact rational scalars: the numeric domain of the graph engine.
//!
//! A scalar is either a fraction of two `i64`s with a positive denominator,
//! kept in lowest terms by construction, or the marker `NonFinite`, which
//! stands for every value outside the representable domain (a division by
//! zero, an irrational power, an overflowing numerator or denominator) and
//! which propagates through all operations.

use vstd::prelude::*;
use vstd::arithmetic::div_mod::{lemma_fundamental_div_mod, lemma_div_multiples_vanish};
use vstd::arithmetic::power::{pow, lemma_pow_positive, lemma_pow_adds, lemma_pow0, lemma_pow1};

verus! {

/// An exact rational number, or the non-finite marker.
#[derive(Clone, Copy, Debug, PartialEq, Eq, Structural)]
pub enum Scalar {
    Finite { num: i64, den: i64 },
    NonFinite,
}

/// Numerator of a finite scalar, as a mathematical integer.
pub open spec fn s_num(s: Scalar) -> int {
    match s {
        Scalar::Finite { num, den: _ } => num as int,
        Scalar::NonFinite => 0,
    }
}

/// Denominator of a finite scalar, as a mathematical integer.
pub open spec fn s_den(s: Scalar) -> int {
    match s {
        Scalar::Finite { num: _, den } => den as int,
        Scalar::NonFinite => 0,
    }
}

/// Well-formedness: a finite scalar keeps its denominator positive.
pub open spec fn scalar_wf(s: Scalar) -> bool {
    s is Finite ==> s_den(s) >= 1
}

/// `s` is finite and equals the rational number `p / q`.
pub open spec fn is_rat(s: Scalar, p: int, q: int) -> bool {
    &&& s is Finite
    &&& q != 0
    &&& s_num(s) * q == p * s_den(s)
}

/// `s` is finite and equals the integer `k`.
pub open spec fn is_int(s: Scalar, k: int) -> bool {
    is_rat(s, k, 1)
}

/// Two finite scalars denote the same rational number.
pub open spec fn sem_eq(a: Scalar, b: Scalar) -> bool {
    &&& a is Finite
    &&& b is Finite
    &&& s_num(a) * s_den(b) == s_num(b) * s_den(a)
}

/// The scalar zero.
pub open spec fn s_zero() -> Scalar {
    Scalar::Finite { num: 0, den: 1 }
}

/// The scalar one.
pub open spec fn s_one() -> Scalar {
    Scalar::Finite { num: 1, den: 1 }
}

/// The scalar minus one.
pub open spec fn s_neg_one() -> Scalar {
    Scalar::Finite { num: -1i64, den: 1 }
}

/// Absolute value over mathematical integers.
pub open spec fn abs_of(p: int) -> int {
    if p < 0 {
        -p
    } else {
        p
    }
}

/// Greatest common divisor by Euclid's recursion.
pub open spec fn gcd(a: nat, b: nat) -> nat
    decreases b,
{
    if b == 0 {
        a
    } else {
        gcd(b, a % b)
    }
}

/// `d` divides `n`.
pub open spec fn divides(d: int, n: int) -> bool {
    exists|k: int| n == #[trigger] (d * k)
}

pub proof fn lemma_gcd_divides(a: nat, b: nat)
    ensures
        divides(gcd(a, b) as int, a as int),
        divides(gcd(a, b) as int, b as int),
    decreases b,
{
    if b == 0 {
        assert(a as int == gcd(a, b) as int * 1);
        assert(0int == gcd(a, b) as int * 0);
    } else {
        lemma_gcd_divides(b, a % b);
        let g = gcd(b, a % b) as int;
        let k1 = choose|k: int| b as int == #[trigger] (g * k);
        let k2 = choose|k: int| (a % b) as int == #[trigger] (g * k);
        lemma_fundamental_div_mod(a as int, b as int);
        let q = a as int / b as int;
        assert(a as int == g * (k1 * q + k2)) by (nonlinear_arith)
            requires
                a as int == b as int * q + (a % b) as int,
                b as int == g * k1,
                (a % b) as int == g * k2,
        {}
        assert(gcd(a, b) == gcd(b, a % b));
    }
}

pub proof fn lemma_gcd_pos(a: nat, b: nat)
    requires
        a > 0 || b > 0,
    ensures
        gcd(a, b) > 0,
    decreases b,
{
    if b > 0 {
        lemma_gcd_pos(b, a % b);
    }
}

/// From an exact multiple, division recovers the cofactor.
pub proof fn lemma_exact_div(n: int, d: int, k: int)
    requires
        d > 0,
        n == d * k,
    ensures
        n / d == k,
{
    lemma_div_multiples_vanish(k, d);
}

/// Reduce the fraction `p / q` (with `q > 0`) to lowest terms, collapsing to
/// `NonFinite` whenever the reduced parts do not fit in an `i64`.
pub open spec fn norm(p: int, q: int) -> Scalar
    recommends
        q > 0,
{
    let g = gcd(abs_of(p) as nat, q as nat) as int;
    if g <= 0 {
        Scalar::NonFinite
    } else {
        let n = p / g;
        let d = q / g;
        if n < i64::MIN as int || n > i64::MAX as int || d < 1 || d > i64::MAX as int {
            Scalar::NonFinite
        } else {
            Scalar::Finite { num: n as i64, den: d as i64 }
        }
    }
}

/// A finite reduction denotes exactly the fraction it was built from.
pub proof fn lemma_norm_is_rat(p: int, q: int)
    requires
        q > 0,
        norm(p, q) is Finite,
    ensures
        is_rat(norm(p, q), p, q),
        scalar_wf(norm(p, q)),
{
    let g = gcd(abs_of(p) as nat, q as nat) as int;
    lemma_gcd_pos(abs_of(p) as nat, q as nat);
    lemma_gcd_divides(abs_of(p) as nat, q as nat);
    let ka = choose|k: int| abs_of(p) == #[trigger] (g * k);
    let kq = choose|k: int| q == #[trigger] (g * k);
    let kp: int = if p < 0 { -ka } else { ka };
    assert(p == g * kp) by (nonlinear_arith)
        requires
            abs_of(p) == g * ka,
            kp == if p < 0 { -ka } else { ka },
            abs_of(p) == if p < 0 { -p } else { p },
    {}
    lemma_exact_div(p, g, kp);
    lemma_exact_div(q, g, kq);
    let s = norm(p, q);
    assert(s_num(s) == kp && s_den(s) == kq);
    assert(kp * q == p * kq) by (nonlinear_arith)
        requires
            p == g * kp,
            q == g * kq,
    {}
}

fn gcd_exec(a: u128, b: u128) -> (g: u128)
    ensures
        g as nat == gcd(a as nat, b as nat),
    decreases b,
{
    if b == 0 {
        a
    } else {
        gcd_exec(b, a % b)
    }
}

/// Reduce `p / q` with exact integer arithmetic; the workhorse behind every
/// scalar constructor and operation.
fn norm_i128(p: i128, q: i128) -> (s: Scalar)
    requires
        q > 0,
        p > i128::MIN,
    ensures
        s == norm(p as int, q as int),
        scalar_wf(s),
{
    let neg = p < 0;
    let pa: u128 = if neg {
        (-p) as u128
    } else {
        p as u128
    };
    let qa: u128 = q as u128;
    assert(pa as int == abs_of(p as int));
    let g: u128 = gcd_exec(pa, qa);
    proof {
        lemma_gcd_pos(pa as nat, qa as nat);
        lemma_gcd_divides(pa as nat, qa as nat);
    }
    let na: u128 = pa / g;
    let da: u128 = qa / g;
    let ghost gi = g as int;
    let ghost ka = choose|k: int| pa as int == #[trigger] (gi * k);
    let ghost kq = choose|k: int| qa as int == #[trigger] (gi * k);
    proof {
        lemma_exact_div(pa as int, gi, ka);
        lemma_exact_div(qa as int, gi, kq);
        assert(ka >= 0 && kq >= 1) by (nonlinear_arith)
            requires
                pa as int == gi * ka,
                qa as int == gi * kq,
                pa >= 0,
                qa >= 1,
                gi >= 1,
        {}
        assert(na as int == ka && da as int == kq);
        // the reduced parts of the spec-level norm
        assert((p as int) / gi == if neg { -ka } else { ka }) by {
            if neg {
                assert(p as int == gi * (-ka)) by (nonlinear_arith)
                    requires
                        pa as int == gi * ka,
                        pa as int == -(p as int),
                {}
                lemma_exact_div(p as int, gi, -ka);
            } else {
                lemma_exact_div(p as int, gi, ka);
            }
        }
        assert((q as int) / gi == kq);
    }
    if da > i64::MAX as u128 {
        return Scalar::NonFinite;
    }
    if neg {
        if na > i64::MAX as u128 + 1 {
            Scalar::NonFinite
        } else {
            let numi: i64 = (-(na as i128)) as i64;
            Scalar::Finite { num: numi, den: da as i64 }
        }
    } else {
        if na > i64::MAX as u128 {
            Scalar::NonFinite
        } else {
            Scalar::Finite { num: na as i64, den: da as i64 }
        }
    }
}

impl Scalar {
    /// The scalar holding the integer `i`.
    pub fn from_int(i: i64) -> (s: Scalar)
        ensures
            s == (Scalar::Finite { num: i, den: 1 }),
            is_int(s, i as int),
            scalar_wf(s),
    {
        Scalar::Finite { num: i, den: 1 }
    }

    /// The scalar holding the fraction `num / den`, reduced to lowest terms.
    pub fn new(num: i64, den: i64) -> (s: Scalar)
        requires
            den != 0,
        ensures
            s == if den > 0 {
                norm(num as int, den as int)
            } else {
                norm(-(num as int), -(den as int))
            },
            scalar_wf(s),
            s is Finite ==> is_rat(s, num as int, den as int),
    {
        let s = if den > 0 {
            norm_i128(num as i128, den as i128)
        } else {
            norm_i128(-(num as i128), -(den as i128))
        };
        proof {
            if s is Finite {
                if den > 0 {
                    lemma_norm_is_rat(num as int, den as int);
                } else {
                    lemma_norm_is_rat(-(num as int), -(den as int));
                    assert(s_num(s) * den == num * s_den(s)) by (nonlinear_arith)
                        requires
                            s_num(s) * (-(den as int)) == (-(num as int)) * s_den(s),
                    {}
                }
            }
        }
        s
    }

    /// Whether the scalar is a finite rational.
    pub fn is_finite(&self) -> (b: bool)
        ensures
            b == (*self is Finite),
    {
        match self {
            Scalar::Finite { .. } => true,
            Scalar::NonFinite => false,
        }
    }
}

/// Exact sum of two scalars.
pub open spec fn spec_add(a: Scalar, b: Scalar) -> Scalar {
    match (a, b) {
        (Scalar::Finite { num: n1, den: d1 }, Scalar::Finite { num: n2, den: d2 }) => norm(
            n1 * d2 + n2 * d1,
            d1 * d2,
        ),
        _ => Scalar::NonFinite,
    }
}

/// Exact product of two scalars.
pub open spec fn spec_mul(a: Scalar, b: Scalar) -> Scalar {
    match (a, b) {
        (Scalar::Finite { num: n1, den: d1 }, Scalar::Finite { num: n2, den: d2 }) => norm(
            n1 * n2,
            d1 * d2,
        ),
        _ => Scalar::NonFinite,
    }
}

/// Exact negation of a scalar.
pub open spec fn spec_neg(a: Scalar) -> Scalar {
    match a {
        Scalar::Finite { num, den } => norm(-(num as int), den as int),
        Scalar::NonFinite => Scalar::NonFinite,
    }
}

/// Exact difference of two scalars.
pub open spec fn spec_sub(a: Scalar, b: Scalar) -> Scalar {
    spec_add(a, spec_neg(b))
}

/// Exact reciprocal; the reciprocal of zero is non-finite.
pub open spec fn spec_recip(a: Scalar) -> Scalar {
    match a {
        Scalar::Finite { num, den } => if num == 0 {
            Scalar::NonFinite
        } else if num > 0 {
            norm(den as int, num as int)
        } else {
            norm(-(den as int), -(num as int))
        },
        Scalar::NonFinite => Scalar::NonFinite,
    }
}

/// Rectified linear unit: the value itself when positive, zero otherwise.
pub open spec fn spec_relu(a: Scalar) -> Scalar {
    match a {
        Scalar::Finite { num, den: _ } => if num > 0 {
            a
        } else {
            s_zero()
        },
        Scalar::NonFinite => Scalar::NonFinite,
    }
}

/// `x` raised to the natural power `n` by repeated multiplication.
pub open spec fn pow_rec(x: Scalar, n: nat) -> Scalar
    decreases n,
{
    if n == 0 {
        s_one()
    } else {
        spec_mul(pow_rec(x, (n - 1) as nat), x)
    }
}

/// `x` raised to the scalar exponent `e`: defined exactly when `e` reduces
/// to an integer, non-finite otherwise (an irrational power has no place in
/// the rational domain).
pub open spec fn spec_pow(x: Scalar, e: Scalar) -> Scalar {
    match (x, e) {
        (Scalar::Finite { num: _, den: _ }, Scalar::Finite { num: en, den: ed }) => {
            match norm(en as int, ed as int) {
                Scalar::Finite { num: k, den: kd } => if kd != 1 {
                    Scalar::NonFinite
                } else if k >= 0 {
                    pow_rec(x, k as nat)
                } else {
                    spec_recip(pow_rec(x, (-(k as int)) as nat))
                },
                Scalar::NonFinite => Scalar::NonFinite,
            }
        },
        _ => Scalar::NonFinite,
    }
}

/// The product of an `i64` numerator and denominator stays well inside `i128`.
proof fn lemma_prod_bound(n: int, d: int)
    requires
        -0x8000_0000_0000_0000 <= n <= 0x7fff_ffff_ffff_ffff,
        -0x8000_0000_0000_0000 <= d <= 0x7fff_ffff_ffff_ffff,
    ensures
        -0x4000_0000_0000_0000_0000_0000_0000_0000 <= n * d
            <= 0x4000_0000_0000_0000_0000_0000_0000_0000,
{
    assert(-0x4000_0000_0000_0000_0000_0000_0000_0000 <= n * d
        <= 0x4000_0000_0000_0000_0000_0000_0000_0000) by (nonlinear_arith)
        requires
            -0x8000_0000_0000_0000 <= n <= 0x7fff_ffff_ffff_ffff,
            -0x8000_0000_0000_0000 <= d <= 0x7fff_ffff_ffff_ffff,
    {}
}

/// The product of an `i64` numerator and a positive `i64` denominator leaves
/// room to add two such products inside `i128`.
proof fn lemma_num_den_bound(n: int, d: int)
    requires
        -0x8000_0000_0000_0000 <= n <= 0x7fff_ffff_ffff_ffff,
        1 <= d <= 0x7fff_ffff_ffff_ffff,
    ensures
        -0x3fff_ffff_ffff_ffff_8000_0000_0000_0000 <= n * d
            <= 0x3fff_ffff_ffff_ffff_8000_0000_0000_0000,
{
    assert(-0x3fff_ffff_ffff_ffff_8000_0000_0000_0000 <= n * d
        <= 0x3fff_ffff_ffff_ffff_8000_0000_0000_0000) by (nonlinear_arith)
        requires
            -0x8000_0000_0000_0000 <= n <= 0x7fff_ffff_ffff_ffff,
            1 <= d <= 0x7fff_ffff_ffff_ffff,
    {}
}

impl Scalar {
    /// Exact addition.
    pub fn add(self, other: Scalar) -> (r: Scalar)
        requires
            scalar_wf(self),
            scalar_wf(other),
        ensures
            r == spec_add(self, other),
            scalar_wf(r),
    {
        match (self, other) {
            (Scalar::Finite { num: n1, den: d1 }, Scalar::Finite { num: n2, den: d2 }) => {
                proof {
                    lemma_num_den_bound(n1 as int, d2 as int);
                    lemma_num_den_bound(n2 as int, d1 as int);
                    lemma_prod_bound(d1 as int, d2 as int);
                    assert(d1 as int * d2 as int >= 1) by (nonlinear_arith)
                        requires
                            d1 >= 1,
                            d2 >= 1,
                    {}
                }
                let p: i128 = (n1 as i128) * (d2 as i128) + (n2 as i128) * (d1 as i128);
                let q: i128 = (d1 as i128) * (d2 as i128);
                norm_i128(p, q)
            },
            _ => Scalar::NonFinite,
        }
    }

    /// Exact multiplication.
    pub fn mul(self, other: Scalar) -> (r: Scalar)
        requires
            scalar_wf(self),
            scalar_wf(other),
        ensures
            r == spec_mul(self, other),
            scalar_wf(r),
    {
        match (self, other) {
            (Scalar::Finite { num: n1, den: d1 }, Scalar::Finite { num: n2, den: d2 }) => {
                proof {
                    lemma_prod_bound(n1 as int, n2 as int);
                    lemma_prod_bound(d1 as int, d2 as int);
                    assert(d1 as int * d2 as int >= 1) by (nonlinear_arith)
                        requires
                            d1 >= 1,
                            d2 >= 1,
                    {}
                }
                let p: i128 = (n1 as i128) * (n2 as i128);
                let q: i128 = (d1 as i128) * (d2 as i128);
                norm_i128(p, q)
            },
            _ => Scalar::NonFinite,
        }
    }

    /// Exact negation.
    pub fn neg(self) -> (r: Scalar)
        requires
            scalar_wf(self),
        ensures
            r == spec_neg(self),
            scalar_wf(r),
    {
        match self {
            Scalar::Finite { num, den } => norm_i128(-(num as i128), den as i128),
            Scalar::NonFinite => Scalar::NonFinite,
        }
    }

    /// Exact subtraction, as addition of the negation.
    pub fn sub(self, other: Scalar) -> (r: Scalar)
        requires
            scalar_wf(self),
            scalar_wf(other),
        ensures
            r == spec_sub(self, other),
            scalar_wf(r),
    {
        self.add(other.neg())
    }

    /// Exact reciprocal; zero has none.
    pub fn recip(self) -> (r: Scalar)
        requires
            scalar_wf(self),
        ensures
            r == spec_recip(self),
            scalar_wf(r),
    {
        match self {
            Scalar::Finite { num, den } => {
                if num == 0 {
                    Scalar::NonFinite
                } else if num > 0 {
                    norm_i128(den as i128, num as i128)
                } else {
                    norm_i128(-(den as i128), -(num as i128))
                }
            },
            Scalar::NonFinite => Scalar::NonFinite,
        }
    }

    /// Rectified linear unit.
    pub fn relu(self) -> (r: Scalar)
        requires
            scalar_wf(self),
        ensures
            r == spec_relu(self),
            scalar_wf(r),
    {
        match self {
            Scalar::Finite { num, den: _ } => {
                if num > 0 {
                    self
                } else {
                    Scalar::Finite { num: 0, den: 1 }
                }
            },
            Scalar::NonFinite => Scalar::NonFinite,
        }
    }

    /// `self` raised to the natural power `n`.
    fn pow_u(self, n: u64) -> (r: Scalar)
        requires
            scalar_wf(self),
        ensures
            r == pow_rec(self, n as nat),
            scalar_wf(r),
    {
        proof {
            lemma_norm_units();
        }
        match self {
            Scalar::Finite { num, den } => {
                if den == 1 && num == 0 {
                    proof {
                        lemma_pow_rec_zero(n as nat);
                    }
                    if n == 0 {
                        return Scalar::Finite { num: 1, den: 1 };
                    }
                    return Scalar::Finite { num: 0, den: 1 };
                }
                if den == 1 && num == 1 {
                    proof {
                        lemma_pow_rec_one(n as nat);
                    }
                    return Scalar::Finite { num: 1, den: 1 };
                }
                if den == 1 && num == -1 {
                    proof {
                        lemma_pow_rec_neg_one(n as nat);
                    }
                    if n % 2 == 0 {
                        return Scalar::Finite { num: 1, den: 1 };
                    }
                    return Scalar::Finite { num: -1i64, den: 1 };
                }
            },
            Scalar::NonFinite => {},
        }
        let mut acc = Scalar::Finite { num: 1, den: 1 };
        let mut i: u64 = 0;
        while i < n
            invariant
                i <= n,
                scalar_wf(self),
                scalar_wf(acc),
                acc == pow_rec(self, i as nat),
            decreases n - i,
        {
            if !acc.is_finite() {
                proof {
                    lemma_pow_rec_absorb(self, i as nat, n as nat);
                }
                return acc;
            }
            acc = acc.mul(self);
            i = i + 1;
        }
        acc
    }

    /// `self` raised to the scalar exponent `e`.
    pub fn pow(self, e: Scalar) -> (r: Scalar)
        requires
            scalar_wf(self),
            scalar_wf(e),
        ensures
            r == spec_pow(self, e),
            scalar_wf(r),
    {
        match (self, e) {
            (Scalar::Finite { num: _, den: _ }, Scalar::Finite { num: en, den: ed }) => {
                let ne = norm_i128(en as i128, ed as i128);
                match ne {
                    Scalar::Finite { num: k, den: kd } => {
                        if kd != 1 {
                            Scalar::NonFinite
                        } else if k >= 0 {
                            self.pow_u(k as u64)
                        } else {
                            let m: u64 = if k == i64::MIN {
                                0x8000_0000_0000_0000u64
                            } else {
                                (-k) as u64
                            };
                            self.pow_u(m).recip()
                        }
                    },
                    Scalar::NonFinite => Scalar::NonFinite,
                }
            },
            _ => Scalar::NonFinite,
        }
    }
}

/// The reductions of the simplest fractions, spelled out.
pub proof fn lemma_norm_units()
    ensures
        norm(0, 1) == s_zero(),
        norm(1, 1) == s_one(),
        norm(-1, 1) == (Scalar::Finite { num: -1i64, den: 1 }),
{
    reveal_with_fuel(gcd, 3);
    assert(gcd(0nat, 1nat) == 1);
    assert(gcd(1nat, 1nat) == 1);
    assert(abs_of(-1) == 1);
    assert(0int / 1int == 0 && 1int / 1int == 1 && -1int / 1int == -1);
}

/// A non-finite factor keeps every later power non-finite.
pub proof fn lemma_pow_rec_absorb(x: Scalar, i: nat, n: nat)
    requires
        i <= n,
        pow_rec(x, i) is NonFinite,
    ensures
        pow_rec(x, n) is NonFinite,
    decreases n - i,
{
    if i < n {
        lemma_pow_rec_absorb(x, i + 1, n);
    }
}

/// Powers of zero.
pub proof fn lemma_pow_rec_zero(n: nat)
    ensures
        pow_rec(s_zero(), n) == if n == 0 {
            s_one()
        } else {
            s_zero()
        },
    decreases n,
{
    lemma_norm_units();
    if n > 0 {
        lemma_pow_rec_zero((n - 1) as nat);
        assert(pow_rec(s_zero(), n) == spec_mul(pow_rec(s_zero(), (n - 1) as nat), s_zero()));
        assert(spec_mul(s_one(), s_zero()) == norm(1int * 0int, 1int * 1int));
        assert(spec_mul(s_zero(), s_zero()) == norm(0int * 0int, 1int * 1int));
        assert(norm(1int * 0int, 1int * 1int) == norm(0, 1));
        assert(norm(0int * 0int, 1int * 1int) == norm(0, 1));
    }
}

/// Powers of one.
pub proof fn lemma_pow_rec_one(n: nat)
    ensures
        pow_rec(s_one(), n) == s_one(),
    decreases n,
{
    lemma_norm_units();
    if n > 0 {
        lemma_pow_rec_one((n - 1) as nat);
        assert(pow_rec(s_one(), n) == spec_mul(pow_rec(s_one(), (n - 1) as nat), s_one()));
        assert(spec_mul(s_one(), s_one()) == norm(1int * 1int, 1int * 1int));
        assert(norm(1int * 1int, 1int * 1int) == norm(1, 1));
    }
}

/// Addition computes the closed-form sum: if `a = p1/q1` and `b = p2/q2`,
/// a finite `a + b` equals `(p1 q2 + p2 q1) / (q1 q2)`.
#[verifier::rlimit(100)]
pub proof fn lemma_add_exact(a: Scalar, b: Scalar, p1: int, q1: int, p2: int, q2: int)
    requires
        scalar_wf(a),
        scalar_wf(b),
        is_rat(a, p1, q1),
        is_rat(b, p2, q2),
        spec_add(a, b) is Finite,
    ensures
        is_rat(spec_add(a, b), p1 * q2 + p2 * q1, q1 * q2),
{
    let n1 = s_num(a);
    let d1 = s_den(a);
    let n2 = s_num(b);
    let d2 = s_den(b);
    let pp = n1 * d2 + n2 * d1;
    let qq = d1 * d2;
    assert(d1 * d2 >= 1) by (nonlinear_arith)
        requires
            d1 >= 1,
            d2 >= 1,
    {}
    lemma_norm_is_rat(pp, qq);
    let s = spec_add(a, b);
    let sn = s_num(s);
    let sd = s_den(s);
    assert((n1 * q1) * (d2 * q2) == (p1 * d1) * (d2 * q2));
    assert((n2 * q2) * (d1 * q1) == (p2 * d2) * (d1 * q1));
    assert((n1 * d2) * (q1 * q2) == (n1 * q1) * (d2 * q2)) by (nonlinear_arith) {}
    assert((n2 * d1) * (q1 * q2) == (n2 * q2) * (d1 * q1)) by (nonlinear_arith) {}
    assert(pp * (q1 * q2) == (n1 * d2) * (q1 * q2) + (n2 * d1) * (q1 * q2)) by (nonlinear_arith)
        requires
            pp == n1 * d2 + n2 * d1,
    {}
    assert((d1 * d2) * (p1 * q2) == (p1 * d1) * (d2 * q2)) by (nonlinear_arith) {}
    assert((d1 * d2) * (p2 * q1) == (p2 * d2) * (d1 * q1)) by (nonlinear_arith) {}
    assert(qq * (p1 * q2 + p2 * q1) == (d1 * d2) * (p1 * q2) + (d1 * d2) * (p2 * q1))
        by (nonlinear_arith)
        requires
            qq == d1 * d2,
    {}
    assert(pp * (q1 * q2) == qq * (p1 * q2 + p2 * q1));
    let s1 = q1 * q2;
    let rhs = p1 * q2 + p2 * q1;
    assert((sn * s1) * qq == (sn * qq) * s1) by (nonlinear_arith) {}
    assert((pp * sd) * s1 == (pp * s1) * sd) by (nonlinear_arith) {}
    assert((qq * rhs) * sd == (rhs * sd) * qq) by (nonlinear_arith) {}
    assert((sn * s1) * qq == (rhs * sd) * qq);
    lemma_cancel(sn * (q1 * q2), (p1 * q2 + p2 * q1) * sd, qq);
    assert(q1 * q2 != 0) by (nonlinear_arith)
        requires
            q1 != 0,
            q2 != 0,
    {}
}

/// Cancel a common nonzero factor.
proof fn lemma_cancel(a: int, b: int, c: int)
    requires
        a * c == b * c,
        c != 0,
    ensures
        a == b,
{
    assert(a == b) by (nonlinear_arith)
        requires
            a * c == b * c,
            c != 0,
    {}
}

/// Multiplication computes the closed-form product: if `a = p1/q1` and
/// `b = p2/q2`, a finite `a * b` equals `(p1 p2) / (q1 q2)`.
pub proof fn lemma_mul_exact(a: Scalar, b: Scalar, p1: int, q1: int, p2: int, q2: int)
    requires
        scalar_wf(a),
        scalar_wf(b),
        is_rat(a, p1, q1),
        is_rat(b, p2, q2),
        spec_mul(a, b) is Finite,
    ensures
        is_rat(spec_mul(a, b), p1 * p2, q1 * q2),
{
    let n1 = s_num(a);
    let d1 = s_den(a);
    let n2 = s_num(b);
    let d2 = s_den(b);
    let pp = n1 * n2;
    let qq = d1 * d2;
    assert(d1 * d2 >= 1) by (nonlinear_arith)
        requires
            d1 >= 1,
            d2 >= 1,
    {}
    lemma_norm_is_rat(pp, qq);
    let s = spec_mul(a, b);
    let sn = s_num(s);
    let sd = s_den(s);
    assert((n1 * n2) * (q1 * q2) == (n1 * q1) * (n2 * q2)) by (nonlinear_arith) {}
    assert((n1 * q1) * (n2 * q2) == (p1 * d1) * (p2 * d2));
    assert((p1 * d1) * (p2 * d2) == (d1 * d2) * (p1 * p2)) by (nonlinear_arith) {}
    assert(pp * (q1 * q2) == qq * (p1 * p2));
    let s1 = q1 * q2;
    let rhs = p1 * p2;
    assert((sn * s1) * qq == (sn * qq) * s1) by (nonlinear_arith) {}
    assert((pp * sd) * s1 == (pp * s1) * sd) by (nonlinear_arith) {}
    assert((qq * rhs) * sd == (rhs * sd) * qq) by (nonlinear_arith) {}
    assert((sn * s1) * qq == (rhs * sd) * qq);
    lemma_cancel(sn * (q1 * q2), (p1 * p2) * sd, qq);
    assert(q1 * q2 != 0) by (nonlinear_arith)
        requires
            q1 != 0,
            q2 != 0,
    {}
}

/// Negation computes the closed-form opposite.
pub proof fn lemma_neg_exact(a: Scalar, p: int, q: int)
    requires
        scalar_wf(a),
        is_rat(a, p, q),
        spec_neg(a) is Finite,
    ensures
        is_rat(spec_neg(a), -p, q),
{
    let n = s_num(a);
    let d = s_den(a);
    lemma_norm_is_rat(-n, d);
    let s = spec_neg(a);
    assert(s_num(s) * q == (-p) * s_den(s)) by (nonlinear_arith)
        requires
            s_num(s) * d == (-n) * s_den(s),
            n * q == p * d,
            d >= 1,
            q != 0,
    {}
}

/// The reciprocal computes the closed-form inverse: a finite reciprocal of
/// `a = p/q` (with `a` nonzero) equals `q/p`.
pub proof fn lemma_recip_exact(a: Scalar, p: int, q: int)
    requires
        scalar_wf(a),
        is_rat(a, p, q),
        s_num(a) != 0,
        spec_recip(a) is Finite,
    ensures
        p != 0,
        is_rat(spec_recip(a), q, p),
{
    let n = s_num(a);
    let d = s_den(a);
    assert(p != 0) by (nonlinear_arith)
        requires
            n * q == p * d,
            n != 0,
            d >= 1,
            q != 0,
    {}
    let s = spec_recip(a);
    if n > 0 {
        lemma_norm_is_rat(d, n);
        assert(s_num(s) * p == q * s_den(s)) by (nonlinear_arith)
            requires
                s_num(s) * n == d * s_den(s),
                n * q == p * d,
                d >= 1,
                n > 0,
        {}
    } else {
        lemma_norm_is_rat(-d, -n);
        assert(s_num(s) * p == q * s_den(s)) by (nonlinear_arith)
            requires
                s_num(s) * (-n) == (-d) * s_den(s),
                n * q == p * d,
                d >= 1,
                n < 0,
        {}
    }
}

/// Natural powers compute the closed form `(p/q)^n == p^n / q^n`.
pub proof fn lemma_pow_rec_exact(x: Scalar, p: int, q: int, n: nat)
    requires
        scalar_wf(x),
        is_rat(x, p, q),
        q > 0,
        pow_rec(x, n) is Finite,
    ensures
        is_rat(pow_rec(x, n), pow(p, n), pow(q, n)),
    decreases n,
{
    lemma_pow_positive(q, n);
    if n == 0 {
        lemma_norm_units();
        lemma_pow0(p);
        lemma_pow0(q);
        assert(pow_rec(x, 0) == s_one());
    } else {
        let prev = pow_rec(x, (n - 1) as nat);
        assert(pow_rec(x, n) == spec_mul(prev, x));
        assert(prev is Finite);
        lemma_pow_rec_exact(x, p, q, (n - 1) as nat);
        lemma_pow_positive(q, (n - 1) as nat);
        lemma_mul_exact(prev, x, pow(p, (n - 1) as nat), pow(q, (n - 1) as nat), p, q);
        lemma_pow_adds(p, (n - 1) as nat, 1);
        lemma_pow_adds(q, (n - 1) as nat, 1);
        lemma_pow1(p);
        lemma_pow1(q);
        assert(pow(p, (n - 1) as nat) * p == pow(p, n));
        assert(pow(q, (n - 1) as nat) * q == pow(q, n));
    }
}

/// The sign of a finite scalar's numerator is the sign of the rational it
/// denotes.
pub proof fn lemma_sign(a: Scalar, p: int, q: int)
    requires
        scalar_wf(a),
        is_rat(a, p, q),
        q > 0,
    ensures
        s_num(a) > 0 <==> p > 0,
        s_num(a) == 0 <==> p == 0,
{
    assert((s_num(a) > 0 <==> p > 0) && (s_num(a) == 0 <==> p == 0)) by (nonlinear_arith)
        requires
            s_num(a) * q == p * s_den(a),
            s_den(a) >= 1,
            q > 0,
    {}
}

/// Accumulating into a zero gradient yields the contribution's value (in
/// re-reduced representation).
pub proof fn lemma_zero_add_sem(a: Scalar, p: int, q: int)
    requires
        scalar_wf(a),
        is_rat(a, p, q),
    ensures
        spec_add(s_zero(), a) is Finite,
        is_rat(spec_add(s_zero(), a), p, q),
{
    let n = s_num(a);
    let d = s_den(a);
    assert(spec_add(s_zero(), a) == norm(0 * d + n * 1, 1 * d));
    assert(0 * d + n * 1 == n && 1 * d == d) by (nonlinear_arith) {}
    lemma_norm_in_range(n, d);
    lemma_norm_is_rat(n, d);
    let s = spec_add(s_zero(), a);
    assert(s_num(s) * q == p * s_den(s)) by (nonlinear_arith)
        requires
            s_num(s) * d == n * s_den(s),
            n * q == p * d,
            d >= 1,
            q != 0,
    {}
}

/// One divides evenly into everything.
pub proof fn lemma_gcd_one(x: nat)
    ensures
        gcd(x, 1) == 1,
{
    reveal_with_fuel(gcd, 3);
    assert(x % 1nat == 0);
}

/// A fraction whose parts already fit in an `i64` reduces to a finite scalar.
pub proof fn lemma_norm_in_range(p: int, q: int)
    requires
        i64::MIN as int <= p <= i64::MAX as int,
        1 <= q <= i64::MAX as int,
    ensures
        norm(p, q) is Finite,
{
    let g = gcd(abs_of(p) as nat, q as nat) as int;
    lemma_gcd_pos(abs_of(p) as nat, q as nat);
    lemma_gcd_divides(abs_of(p) as nat, q as nat);
    let ka = choose|k: int| abs_of(p) == #[trigger] (g * k);
    let kq = choose|k: int| q == #[trigger] (g * k);
    assert(0 <= ka <= abs_of(p) && 1 <= kq <= q) by (nonlinear_arith)
        requires
            abs_of(p) == g * ka,
            q == g * kq,
            abs_of(p) >= 0,
            q >= 1,
            g >= 1,
    {}
    let kp: int = if p < 0 { -ka } else { ka };
    assert(p == g * kp) by (nonlinear_arith)
        requires
            abs_of(p) == g * ka,
            kp == if p < 0 { -ka } else { ka },
            abs_of(p) == if p < 0 { -p } else { p },
    {}
    lemma_exact_div(p, g, kp);
    lemma_exact_div(q, g, kq);
}

/// Powers of minus one alternate with the parity of the exponent.
pub proof fn lemma_pow_rec_neg_one(n: nat)
    ensures
        pow_rec(Scalar::Finite { num: -1i64, den: 1 }, n) == if n % 2 == 0 {
            s_one()
        } else {
            Scalar::Finite { num: -1i64, den: 1 }
        },
    decreases n,
{
    lemma_norm_units();
    let m = Scalar::Finite { num: -1i64, den: 1 };
    if n > 0 {
        lemma_pow_rec_neg_one((n - 1) as nat);
        assert(pow_rec(m, n) == spec_mul(pow_rec(m, (n - 1) as nat), m));
        assert(spec_mul(s_one(), m) == norm(1int * -1int, 1int * 1int));
        assert(spec_mul(m, m) == norm(-1int * -1int, 1int * 1int));
        assert(norm(1int * -1int, 1int * 1int) == norm(-1, 1));
        assert(norm(-1int * -1int, 1int * 1int) == norm(1, 1));
        assert(n % 2 == 0 <==> (n - 1) % 2 == 1);
    }
}

} // verus!
