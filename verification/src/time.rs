//! Exact rational time.
//!
//! Musical time is measured in cycles and must be exact: onsets produced by
//! `fast`, `cat` and friends combine fractions and have to round-trip without
//! drift.  A `Time` is a reduced fraction `n / d` with `d >= 1` held in
//! machine words; every operation states its result as the mathematical
//! rational (`Rat`, over unbounded integers) and reports `None` exactly when
//! the reduced result would leave the machine range.

use vstd::prelude::*;
use vstd::arithmetic::div_mod::{lemma_fundamental_div_mod, lemma_fundamental_div_mod_converse};

verus! {

/// A mathematical rational, used only in specifications.
pub struct Rat {
    pub n: int,
    pub d: int,
}

pub open spec fn abs_n(x: int) -> nat {
    if x >= 0 {
        x as nat
    } else {
        (-x) as nat
    }
}

/// Euclid's greatest common divisor.
pub open spec fn gcd_n(a: nat, b: nat) -> nat
    decreases b,
{
    if b == 0 {
        a
    } else {
        gcd_n(b, a % b)
    }
}

/// `d` divides `x`.
pub open spec fn divides(d: nat, x: nat) -> bool {
    exists|k: nat| x == #[trigger] (d * k)
}

/// A fraction in lowest terms with a positive denominator.  Equal rationals
/// then have equal representations, so `==` on `Rat` and on `Time` is equality
/// of the numbers they stand for.
pub open spec fn rat_wf(a: Rat) -> bool {
    a.d >= 1 && gcd_n(abs_n(a.n), a.d as nat) == 1
}

proof fn lemma_gcd_pos(a: nat, b: nat)
    ensures
        a > 0 || b > 0 ==> gcd_n(a, b) > 0,
    decreases b,
{
    if b > 0 {
        lemma_gcd_pos(b, a % b);
    }
}

proof fn lemma_gcd_divides(a: nat, b: nat)
    ensures
        divides(gcd_n(a, b), a),
        divides(gcd_n(a, b), b),
    decreases b,
{
    let g = gcd_n(a, b);
    if b == 0 {
        assert(a == a * 1);
        assert(divides(a, a));
        assert(b == a * 0);
        assert(divides(a, b));
    } else {
        lemma_gcd_divides(b, a % b);
        let k1 = choose|k: nat| b == #[trigger] (gcd_n(b, a % b) * k);
        let k2 = choose|k: nat| (a % b) == #[trigger] (gcd_n(b, a % b) * k);
        lemma_fundamental_div_mod(a as int, b as int);
        let q = a as int / b as int;
        assert(q >= 0) by (nonlinear_arith)
            requires
                a as int == b * q + (a as int % b as int),
                b > 0,
                a >= 0,
                0 <= (a as int % b as int) < b,
        ;
        assert(a as int == (g * (k1 * q + k2)) as int) by (nonlinear_arith)
            requires
                a as int == b * q + (a as int % b as int),
                b == g * k1,
                (a % b) as int == g * k2,
                q >= 0,
        ;
        assert(a == g * ((k1 * (q as nat) + k2) as nat)) by (nonlinear_arith)
            requires
                a as int == (g * (k1 * q + k2)) as int,
                q >= 0,
        ;
        assert(divides(g, a));
    }
}

proof fn lemma_gcd_scale(a: nat, b: nat, c: nat)
    requires
        c >= 1,
    ensures
        gcd_n(a * c, b * c) == gcd_n(a, b) * c,
    decreases b,
{
    if b == 0 {
        assert(b * c == 0);
    } else {
        assert(b * c > 0) by (nonlinear_arith)
            requires
                b > 0,
                c >= 1,
        ;
        lemma_fundamental_div_mod(a as int, b as int);
        let q = a as int / b as int;
        let r = a as int % b as int;
        assert((a * c) as int == (q * (b * c) as int) + (r * c)) by (nonlinear_arith)
            requires
                a as int == b * q + r,
        ;
        assert(0 <= r * c < (b * c) as int) by (nonlinear_arith)
            requires
                0 <= r < b,
                c >= 1,
        ;
        lemma_fundamental_div_mod_converse((a * c) as int, (b * c) as int, q, r * c);
        assert((a * c) % (b * c) == (a % b) * c);
        lemma_gcd_scale(b, a % b, c);
    }
}

proof fn lemma_gcd_one(a: nat)
    ensures
        gcd_n(a, 1) == 1,
{
    reveal_with_fuel(gcd_n, 3);
    assert(a % 1 == 0) by (nonlinear_arith);
}

/// Lowest-terms representations of equal rationals are identical.
pub proof fn lemma_canon_unique(a: Rat, b: Rat)
    requires
        rat_wf(a),
        rat_wf(b),
        a.n * b.d == b.n * a.d,
    ensures
        a == b,
{
    let n1 = abs_n(a.n);
    let d1 = a.d as nat;
    let n2 = abs_n(b.n);
    let d2 = b.d as nat;
    assert(n1 * d2 == n2 * d1) by (nonlinear_arith)
        requires
            a.n * b.d == b.n * a.d,
            a.d >= 1,
            b.d >= 1,
            n1 == abs_n(a.n),
            d1 == a.d as nat,
            n2 == abs_n(b.n),
            d2 == b.d as nat,
    ;
    lemma_gcd_scale(n1, d1, d2);
    assert(gcd_n(n1 * d2, d1 * d2) == d2) by {
        assert(gcd_n(n1, d1) * d2 == d2) by (nonlinear_arith)
            requires
                gcd_n(n1, d1) == 1,
        ;
    }
    lemma_gcd_scale(n2, d2, d1);
    assert(gcd_n(n2 * d1, d2 * d1) == d1) by {
        assert(gcd_n(n2, d2) * d1 == d1) by (nonlinear_arith)
            requires
                gcd_n(n2, d2) == 1,
        ;
    }
    assert(d1 * d2 == d2 * d1) by (nonlinear_arith);
    assert(d1 == d2);
    assert(a.n == b.n) by (nonlinear_arith)
        requires
            a.n * b.d == b.n * a.d,
            a.d == b.d,
            a.d >= 1,
    ;
}

/// Reduce `n / d` (with `d >= 1`) to lowest terms.
pub open spec fn norm(n: int, d: int) -> Rat
    recommends
        d >= 1,
{
    let g = gcd_n(abs_n(n), d as nat) as int;
    Rat { n: n / g, d: d / g }
}

/// The rational `n / d` in lowest terms with a positive denominator;
/// `d == 0` is never produced by the library and maps to zero.
pub open spec fn rat(n: int, d: int) -> Rat {
    if d >= 1 {
        norm(n, d)
    } else if d <= -1 {
        norm(-n, -d)
    } else {
        Rat { n: 0, d: 1 }
    }
}

proof fn lemma_div_exact(x: nat, g: nat)
    requires
        g >= 1,
        divides(g, x),
    ensures
        x as int / g as int >= 0,
        (x as int / g as int) * g == x,
{
    let k = choose|k: nat| x == #[trigger] (g * k);
    assert(x as int == k * g as int + 0) by (nonlinear_arith)
        requires
            x == g * k,
    ;
    lemma_fundamental_div_mod_converse(x as int, g as int, k as int, 0);
}

/// `norm` keeps the value, yields lowest terms, and never grows the parts.
pub proof fn lemma_norm(n: int, d: int)
    requires
        d >= 1,
    ensures
        rat_wf(norm(n, d)),
        norm(n, d).n * d == n * norm(n, d).d,
        abs_n(norm(n, d).n) <= abs_n(n),
        norm(n, d).d <= d,
{
    let na = abs_n(n);
    let g = gcd_n(na, d as nat);
    lemma_gcd_pos(na, d as nat);
    lemma_gcd_divides(na, d as nat);
    lemma_div_exact(na, g);
    lemma_div_exact(d as nat, g);
    let nq = na as int / g as int;
    let dq = d / g as int;
    assert(dq >= 1) by (nonlinear_arith)
        requires
            dq * g == d,
            d >= 1,
            g >= 1,
            dq >= 0,
    ;
    // lowest terms: gcd(nq, dq) * g == gcd(na, d) == g, and g >= 1.
    lemma_gcd_scale(nq as nat, dq as nat, g);
    assert((nq as nat) * g == na && (dq as nat) * g == d as nat) by (nonlinear_arith)
        requires
            nq * g as int == na as int,
            dq * g as int == d,
            nq >= 0,
            dq >= 1,
            g >= 1,
    ;
    assert(gcd_n(nq as nat, dq as nat) * g == g);
    assert(gcd_n(nq as nat, dq as nat) == 1) by (nonlinear_arith)
        requires
            gcd_n(nq as nat, dq as nat) * g == g,
            g >= 1,
    ;
    if n >= 0 {
        assert(na as int == n);
        assert(norm(n, d).n == nq);
        assert(abs_n(nq) == nq as nat);
    } else {
        // n / g is exact and equals -(na / g).
        assert(n as int == (-nq) * g as int + 0) by (nonlinear_arith)
            requires
                nq * g as int == na as int,
                n as int == -(na as int),
        ;
        lemma_fundamental_div_mod_converse(n, g as int, -nq, 0);
        assert(norm(n, d).n == -nq);
        assert(abs_n(-nq) == nq as nat) by (nonlinear_arith)
            requires
                nq >= 0,
        ;
    }
    assert(norm(n, d).n * d == n * norm(n, d).d) by (nonlinear_arith)
        requires
            norm(n, d).n * g as int == n,
            norm(n, d).d * g as int == d,
    ;
    assert(abs_n(norm(n, d).n) <= abs_n(n) && norm(n, d).d <= d) by (nonlinear_arith)
        requires
            norm(n, d).n * g as int == n,
            norm(n, d).d * g as int == d,
            g >= 1,
            norm(n, d).d >= 1,
    ;
}

/// `rat` keeps the value and yields a well-formed fraction.
pub proof fn lemma_rat_repr(n: int, d: int)
    requires
        d != 0,
    ensures
        rat_wf(rat(n, d)),
        rat(n, d).n * d == n * rat(n, d).d,
        abs_n(rat(n, d).n) <= abs_n(n),
        rat(n, d).d <= abs_n(d),
{
    if d >= 1 {
        lemma_norm(n, d);
    } else {
        lemma_norm(-n, -d);
        assert(rat(n, d).n * d == n * rat(n, d).d) by (nonlinear_arith)
            requires
                rat(n, d) == norm(-n, -d),
                norm(-n, -d).n * (-d) == (-n) * norm(-n, -d).d,
        ;
    }
}

/// A canonical fraction re-reduces to itself.
pub proof fn lemma_rat_of_wf(a: Rat)
    requires
        rat_wf(a),
    ensures
        rat(a.n, a.d) == a,
{
    lemma_rat_repr(a.n, a.d);
    lemma_canon_unique(rat(a.n, a.d), a);
}

// ---------------------------------------------------------------------------
// Spec arithmetic on canonical rationals.
// ---------------------------------------------------------------------------

pub open spec fn rat_int(k: int) -> Rat {
    Rat { n: k, d: 1 }
}

pub open spec fn rat_add(a: Rat, b: Rat) -> Rat {
    rat(a.n * b.d + b.n * a.d, a.d * b.d)
}

pub open spec fn rat_sub(a: Rat, b: Rat) -> Rat {
    rat(a.n * b.d - b.n * a.d, a.d * b.d)
}

pub open spec fn rat_neg(a: Rat) -> Rat {
    rat(-a.n, a.d)
}

pub open spec fn rat_mul(a: Rat, b: Rat) -> Rat {
    rat(a.n * b.n, a.d * b.d)
}

/// `a / b`, for `b.n != 0`.
pub open spec fn rat_div(a: Rat, b: Rat) -> Rat {
    rat(a.n * b.d, a.d * b.n)
}

pub open spec fn rat_le(a: Rat, b: Rat) -> bool
    recommends
        a.d >= 1,
        b.d >= 1,
{
    a.n * b.d <= b.n * a.d
}

pub open spec fn rat_lt(a: Rat, b: Rat) -> bool
    recommends
        a.d >= 1,
        b.d >= 1,
{
    a.n * b.d < b.n * a.d
}

/// Floor to a whole number of cycles (`d >= 1`, Euclidean division).
pub open spec fn rat_floor(a: Rat) -> int
    recommends
        a.d >= 1,
{
    a.n / a.d
}

pub open spec fn rat_is_int(a: Rat) -> bool {
    a.d == 1
}

pub open spec fn rat_min(a: Rat, b: Rat) -> Rat {
    if rat_le(a, b) {
        a
    } else {
        b
    }
}

pub open spec fn rat_max(a: Rat, b: Rat) -> Rat {
    if rat_le(a, b) {
        b
    } else {
        a
    }
}

/// The reduced fraction fits the machine representation.
pub open spec fn fits64(a: Rat) -> bool {
    i64::MIN as int <= a.n <= i64::MAX as int && 1 <= a.d <= i64::MAX as int
}

/// What an exact machine-word operation returns: the canonical result when it
/// fits, nothing otherwise.
pub open spec fn opt_fit(a: Rat) -> Option<Rat> {
    if fits64(a) {
        Some(a)
    } else {
        None
    }
}


/// Bounds for products of machine-word fractions.
proof fn lemma_prod_bound(a: int, b: int)
    requires
        -0x8000_0000_0000_0000 <= a <= 0x7FFF_FFFF_FFFF_FFFF,
        -0x8000_0000_0000_0000 <= b <= 0x7FFF_FFFF_FFFF_FFFF,
    ensures
        -0x4000_0000_0000_0000_0000_0000_0000_0000 <= a * b
            <= 0x4000_0000_0000_0000_0000_0000_0000_0000,
{
    assert(-0x4000_0000_0000_0000_0000_0000_0000_0000 <= a * b
        <= 0x4000_0000_0000_0000_0000_0000_0000_0000) by (nonlinear_arith)
        requires
            -0x8000_0000_0000_0000 <= a <= 0x7FFF_FFFF_FFFF_FFFF,
            -0x8000_0000_0000_0000 <= b <= 0x7FFF_FFFF_FFFF_FFFF,
    ;
}

/// A numerator times a positive denominator stays clear of the `i128` edge.
proof fn lemma_prod_nd_bound(n: int, d: int)
    requires
        -0x8000_0000_0000_0000 <= n <= 0x7FFF_FFFF_FFFF_FFFF,
        1 <= d <= 0x7FFF_FFFF_FFFF_FFFF,
    ensures
        -0x3FFF_FFFF_FFFF_FFFF_8000_0000_0000_0000 <= n * d
            <= 0x3FFF_FFFF_FFFF_FFFF_8000_0000_0000_0000,
{
    assert(-0x3FFF_FFFF_FFFF_FFFF_8000_0000_0000_0000 <= n * d
        <= 0x3FFF_FFFF_FFFF_FFFF_8000_0000_0000_0000) by (nonlinear_arith)
        requires
            -0x8000_0000_0000_0000 <= n <= 0x7FFF_FFFF_FFFF_FFFF,
            1 <= d <= 0x7FFF_FFFF_FFFF_FFFF,
    ;
}

// ---------------------------------------------------------------------------
// Executable time.
// ---------------------------------------------------------------------------

/// Exact rational time in cycles: a fraction in lowest terms, `d >= 1`.
#[derive(Clone, Copy, PartialEq, Eq, Structural, Debug)]
pub struct Time {
    pub n: i64,
    pub d: i64,
}

impl View for Time {
    type V = Rat;

    open spec fn view(&self) -> Rat {
        Rat { n: self.n as int, d: self.d as int }
    }
}

pub open spec fn opt_time_view(r: Option<Time>) -> Option<Rat> {
    match r {
        Some(t) => Some(t@),
        None => None,
    }
}

pub open spec fn opt_time_wf(r: Option<Time>) -> bool {
    match r {
        Some(t) => t.wf(),
        None => true,
    }
}

fn gcd_exec(a0: u128, b0: u128) -> (g: u128)
    ensures
        g == gcd_n(a0 as nat, b0 as nat),
    decreases b0,
{
    if b0 == 0 {
        a0
    } else {
        gcd_exec(b0, a0 % b0)
    }
}

/// Build the canonical `Time` for `n / d`; `None` exactly when the reduced
/// fraction leaves the `i64` range.
fn mk_time(n: i128, d: i128) -> (r: Option<Time>)
    requires
        1 <= d,
        i128::MIN < n,
    ensures
        opt_time_view(r) == opt_fit(rat(n as int, d as int)),
        opt_time_wf(r),
{
    let na: u128 = if n >= 0 {
        n as u128
    } else {
        (-n) as u128
    };
    let g: u128 = gcd_exec(na, d as u128);
    proof {
        lemma_gcd_pos(na as nat, d as nat);
        lemma_gcd_divides(na as nat, d as nat);
        lemma_div_exact(na as nat, g as nat);
        lemma_div_exact(d as nat, g as nat);
        lemma_norm(n as int, d as int);
    }
    let nq: u128 = na / g;
    let dq: u128 = d as u128 / g;
    proof {
        if n < 0 {
            assert(n as int == (-(nq as int)) * g as int + 0) by (nonlinear_arith)
                requires
                    nq * g == na,
                    n as int == -(na as int),
            ;
            lemma_fundamental_div_mod_converse(n as int, g as int, -(nq as int), 0);
        }
        assert(norm(n as int, d as int).d == dq);
    }
    if dq > i64::MAX as u128 {
        return None;
    }
    if n >= 0 {
        if nq > i64::MAX as u128 {
            return None;
        }
        Some(Time { n: nq as i64, d: dq as i64 })
    } else {
        if nq > 0x8000_0000_0000_0000u128 {
            return None;
        }
        Some(Time { n: (-(nq as i128)) as i64, d: dq as i64 })
    }
}

/// Euclidean (flooring) division of machine words.
pub fn floor_div64(n: i64, d: i64) -> (r: i64)
    requires
    1 <= d,
    ensures
    r == n as int / d as int,
{
    if n >= 0 {
        let q: u64 = (n as u64) / (d as u64);
        return q as i64;
    }
    let mag: u64 = (-(n as i128)) as u64;
    let q: u64 = mag / (d as u64);
    let rem: u64 = mag % (d as u64);
    proof {
        lemma_fundamental_div_mod(mag as int, d as int);
        assert(q <= mag) by (nonlinear_arith)
            requires
                d as int * (q as int) + (rem as int) == mag,
                rem >= 0,
                1 <= d,
                q >= 0,
        ;
        if rem == 0 {
            assert(n as int == (-(q as int)) * (d as int) + 0) by (nonlinear_arith)
                requires
                    d as int * (q as int) + (rem as int) == mag,
                    rem == 0,
                    n as int == -(mag as int),
            ;
            lemma_fundamental_div_mod_converse(n as int, d as int, -(q as int), 0);
        } else {
            assert(n as int == (-(q as int) - 1) * (d as int) + (d as int - rem as int))
                by (nonlinear_arith)
                requires
                    d as int * (q as int) + (rem as int) == mag,
                    n as int == -(mag as int),
            ;
            lemma_fundamental_div_mod_converse(
                n as int,
                d as int,
                -(q as int) - 1,
                d as int - rem as int,
            );
            assert(q < 0x8000000000000000u64) by (nonlinear_arith)
                requires
                    d as int * (q as int) + (rem as int) == mag,
                    rem > 0,
                    1 <= d,
                    rem < d,
                    q >= 0,
                    mag <= 0x8000000000000000u64,
            ;
        }
    }
    if rem == 0 {
        (-(q as i128)) as i64
    } else {
        (-(q as i128) - 1) as i64
    }
}


impl Time {
    /// In lowest terms with a positive denominator.
    pub open spec fn wf(self) -> bool {
        rat_wf(self@)
    }

    /// The whole number `k`, as a time.
    pub fn from_int(k: i64) -> (r: Time)
        ensures
            r.wf(),
            r@ == rat_int(k as int),
    {
        proof {
            lemma_gcd_one(abs_n(k as int));
        }
        Time { n: k, d: 1 }
    }

    /// The fraction `n / d`; `None` when `d == 0` or the reduced fraction
    /// leaves the machine range.
    pub fn new(n: i64, d: i64) -> (r: Option<Time>)
        ensures
            d == 0 ==> r is None,
            d != 0 ==> opt_time_view(r) == opt_fit(rat(n as int, d as int)),
            opt_time_wf(r),
    {
        if d == 0 {
            None
        } else if d > 0 {
            mk_time(n as i128, d as i128)
        } else {
            mk_time(-(n as i128), -(d as i128))
        }
    }

    /// `self + other`.
    pub fn add(&self, other: &Time) -> (r: Option<Time>)
        requires
            self.wf(),
            other.wf(),
        ensures
            opt_time_view(r) == opt_fit(rat_add(self@, other@)),
            opt_time_wf(r),
    {
        proof {
            lemma_prod_nd_bound(self.n as int, other.d as int);
            lemma_prod_nd_bound(other.n as int, self.d as int);
            lemma_prod_bound(self.d as int, other.d as int);
            assert((self.d as int) * (other.d as int) >= 1) by (nonlinear_arith)
                requires
                    self.d >= 1,
                    other.d >= 1,
            ;
        }
        let sn: i128 = (self.n as i128) * (other.d as i128) + (other.n as i128) * (self.d
            as i128);
        let sd: i128 = (self.d as i128) * (other.d as i128);
        mk_time(sn, sd)
    }

    /// `self - other`.
    pub fn sub(&self, other: &Time) -> (r: Option<Time>)
        requires
            self.wf(),
            other.wf(),
        ensures
            opt_time_view(r) == opt_fit(rat_sub(self@, other@)),
            opt_time_wf(r),
    {
        proof {
            lemma_prod_nd_bound(self.n as int, other.d as int);
            lemma_prod_nd_bound(other.n as int, self.d as int);
            lemma_prod_bound(self.d as int, other.d as int);
            assert((self.d as int) * (other.d as int) >= 1) by (nonlinear_arith)
                requires
                    self.d >= 1,
                    other.d >= 1,
            ;
        }
        let sn: i128 = (self.n as i128) * (other.d as i128) - (other.n as i128) * (self.d
            as i128);
        let sd: i128 = (self.d as i128) * (other.d as i128);
        mk_time(sn, sd)
    }

    /// `-self`.
    pub fn neg(&self) -> (r: Option<Time>)
        requires
            self.wf(),
        ensures
            opt_time_view(r) == opt_fit(rat_neg(self@)),
            opt_time_wf(r),
    {
        mk_time(-(self.n as i128), self.d as i128)
    }

    /// `self * other`.
    pub fn mul(&self, other: &Time) -> (r: Option<Time>)
        requires
            self.wf(),
            other.wf(),
        ensures
            opt_time_view(r) == opt_fit(rat_mul(self@, other@)),
            opt_time_wf(r),
    {
        proof {
            lemma_prod_bound(self.n as int, other.n as int);
            lemma_prod_bound(self.d as int, other.d as int);
            assert((self.d as int) * (other.d as int) >= 1) by (nonlinear_arith)
                requires
                    self.d >= 1,
                    other.d >= 1,
            ;
        }
        let sn: i128 = (self.n as i128) * (other.n as i128);
        let sd: i128 = (self.d as i128) * (other.d as i128);
        mk_time(sn, sd)
    }

    /// `self / other`, for `other != 0`.
    pub fn div(&self, other: &Time) -> (r: Option<Time>)
        requires
            self.wf(),
            other.wf(),
            other@.n != 0,
        ensures
            opt_time_view(r) == opt_fit(rat_div(self@, other@)),
            opt_time_wf(r),
    {
        proof {
            lemma_prod_nd_bound(self.n as int, other.d as int);
            lemma_prod_nd_bound(other.n as int, self.d as int);
            assert((self.d as int) * (other.n as int) != 0) by (nonlinear_arith)
                requires
                    self.d >= 1,
                    other.n != 0,
            ;
            assert((self.d as int) * (other.n as int)
                == (other.n as int) * (self.d as int)) by (nonlinear_arith);
        }
        let sn: i128 = (self.n as i128) * (other.d as i128);
        let sd: i128 = (self.d as i128) * (other.n as i128);
        if sd >= 1 {
            mk_time(sn, sd)
        } else {
            mk_time(-sn, -sd)
        }
    }

    /// The greatest whole number of cycles at or below `self`.
    pub fn floor(&self) -> (r: i64)
        requires
            self.wf(),
        ensures
            r == rat_floor(self@),
    {
        floor_div64(self.n, self.d)
    }
    /// The start of the cycle containing `self` (the "sam").
    pub fn sam(&self) -> (r: Time)
        requires
            self.wf(),
        ensures
            r.wf(),
            r@ == rat_int(rat_floor(self@)),
    {
        let f = self.floor();
        Time::from_int(f)
    }

    /// `self < other`.
    pub fn lt(&self, other: &Time) -> (r: bool)
        requires
            self.wf(),
            other.wf(),
        ensures
            r == rat_lt(self@, other@),
    {
        proof {
            lemma_prod_nd_bound(self.n as int, other.d as int);
            lemma_prod_nd_bound(other.n as int, self.d as int);
        }
        (self.n as i128) * (other.d as i128) < (other.n as i128) * (self.d as i128)
    }

    /// `self <= other`.
    pub fn le(&self, other: &Time) -> (r: bool)
        requires
            self.wf(),
            other.wf(),
        ensures
            r == rat_le(self@, other@),
    {
        proof {
            lemma_prod_nd_bound(self.n as int, other.d as int);
            lemma_prod_nd_bound(other.n as int, self.d as int);
        }
        (self.n as i128) * (other.d as i128) <= (other.n as i128) * (self.d as i128)
    }

    /// Equality as rationals; on well-formed times this is `==`.
    pub fn eq_time(&self, other: &Time) -> (r: bool)
        requires
            self.wf(),
            other.wf(),
        ensures
            r == (self@ == other@),
            r == (*self == *other),
    {
        proof {
            if self@.n * other@.d == other@.n * self@.d {
                lemma_canon_unique(self@, other@);
            } else {
                assert(self@ != other@) by (nonlinear_arith)
                    requires
                        self@.n * other@.d != other@.n * self@.d,
                ;
            }
        }
        proof {
            lemma_prod_nd_bound(self.n as int, other.d as int);
            lemma_prod_nd_bound(other.n as int, self.d as int);
        }
        (self.n as i128) * (other.d as i128) == (other.n as i128) * (self.d as i128)
    }

    /// The smaller of the two.
    pub fn min(&self, other: &Time) -> (r: Time)
        requires
            self.wf(),
            other.wf(),
        ensures
            r.wf(),
            r@ == rat_min(self@, other@),
    {
        if self.le(other) {
            *self
        } else {
            *other
        }
    }

    /// Whole cycles have denominator one.
    pub fn is_integer(&self) -> (r: bool)
        requires
            self.wf(),
        ensures
            r == rat_is_int(self@),
    {
        self.d == 1
    }
}

/// Comparing reduced fractions is comparing the raw fractions.
pub proof fn lemma_rat_le_frac(n1: int, d1: int, n2: int, d2: int)
    requires
        d1 >= 1,
        d2 >= 1,
    ensures
        rat_le(rat(n1, d1), rat(n2, d2)) == (n1 * d2 <= n2 * d1),
        rat_lt(rat(n1, d1), rat(n2, d2)) == (n1 * d2 < n2 * d1),
{
    let u = rat(n1, d1);
    let v = rat(n2, d2);
    lemma_rat_repr(n1, d1);
    lemma_rat_repr(n2, d2);
    assert((u.n * v.d) * (d1 * d2) == (n1 * d2) * (u.d * v.d)) by (nonlinear_arith)
        requires
            u.n * d1 == n1 * u.d,
    ;
    assert((v.n * u.d) * (d1 * d2) == (n2 * d1) * (u.d * v.d)) by (nonlinear_arith)
        requires
            v.n * d2 == n2 * v.d,
    ;
    assert(u.d * v.d >= 1 && d1 * d2 >= 1) by (nonlinear_arith)
        requires
            u.d >= 1,
            v.d >= 1,
            d1 >= 1,
            d2 >= 1,
    ;
    assert((u.n * v.d <= v.n * u.d) == (n1 * d2 <= n2 * d1) && (u.n * v.d < v.n * u.d) == (n1
        * d2 < n2 * d1)) by (nonlinear_arith)
        requires
            (u.n * v.d) * (d1 * d2) == (n1 * d2) * (u.d * v.d),
            (v.n * u.d) * (d1 * d2) == (n2 * d1) * (u.d * v.d),
            u.d * v.d >= 1,
            d1 * d2 >= 1,
    ;
}

/// A reduced fraction stands for its raw fraction: compare by cross
/// multiplication.
pub proof fn lemma_rat_cmp(x: Rat, n: int, d: int)
    requires
        rat_wf(x),
        d >= 1,
    ensures
        rat_le(x, rat(n, d)) == (x.n * d <= n * x.d),
        rat_le(rat(n, d), x) == (n * x.d <= x.n * d),
        rat_lt(x, rat(n, d)) == (x.n * d < n * x.d),
        rat_lt(rat(n, d), x) == (n * x.d < x.n * d),
{
    lemma_rat_of_wf(x);
    lemma_rat_le_frac(x.n, x.d, n, d);
    lemma_rat_le_frac(n, d, x.n, x.d);
}

} // verus!
