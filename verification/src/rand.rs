//! The deterministic draw behind `degrade_by` and friends.
//!
//! A draw is a pure, total function of a time: the two low bytes of the
//! numerator and denominator of `t*t / 10^6` seed a 64-bit mixer, and the
//! top 24 bits of the mix become the fraction `k / 2^24` in `[0, 1)`.  The
//! seeding deliberately keeps little entropy — the pattern of draws repeats
//! audibly — but it is identical on every run and every machine, which the
//! calculus requires of a query.

use vstd::prelude::*;
use crate::time::{Rat, Time, rat, rat_int, rat_mul, rat_div, rat_wf, opt_fit, opt_time_view,
    opt_time_wf, lemma_rat_repr};

verus! {

pub open spec fn wrap64(x: int) -> u64 {
    (x % 0x1_0000_0000_0000_0000) as u64
}

/// One round of a 64-bit finalizing mixer (multiply, shift, xor).
pub open spec fn mix64_s(z0: u64) -> u64 {
    let z1 = wrap64(z0 as int + 0x9E37_79B9_7F4A_7C15);
    let z2 = wrap64((z1 ^ (z1 >> 30)) as int * 0xBF58_476D_1CE4_E5B9);
    let z3 = wrap64((z2 ^ (z2 >> 27)) as int * 0x94D0_49BB_1331_11EB);
    z3 ^ (z3 >> 31)
}

fn mix64(z0: u64) -> (r: u64)
    ensures
        r == mix64_s(z0),
{
    let z1: u64 = (((z0 as u128) + 0x9E37_79B9_7F4A_7C15u128) % 0x1_0000_0000_0000_0000u128)
        as u64;
    let z2: u64 = ((((z1 ^ (z1 >> 30)) as u128) * 0xBF58_476D_1CE4_E5B9u128)
        % 0x1_0000_0000_0000_0000u128) as u64;
    let z3: u64 = ((((z2 ^ (z2 >> 27)) as u128) * 0x94D0_49BB_1331_11EBu128)
        % 0x1_0000_0000_0000_0000u128) as u64;
    z3 ^ (z3 >> 31)
}

/// The seed taken from a time: the low byte of the numerator and of the
/// denominator of `t*t / 10^6`, `None` when that product leaves the machine
/// range.
pub open spec fn seed_of(t: Rat) -> Option<u64> {
    match opt_fit(rat_mul(t, t)) {
        None => None,
        Some(x2) => match opt_fit(rat_div(x2, rat_int(1000000))) {
            None => None,
            Some(x) => Some(((x.n % 256) + 256 * (x.d % 256)) as u64),
        },
    }
}

/// The draw at time `t`: a fraction `k / 2^24` in `[0, 1)`.
pub open spec fn time_rand_s(t: Rat) -> Option<Rat> {
    match seed_of(t) {
        None => None,
        Some(s) => Some(rat((mix64_s(s) >> 40) as int, 0x100_0000)),
    }
}

/// The draw is well formed and lies in `[0, 1)`.
pub proof fn lemma_time_rand_wf(t: Rat)
    ensures
        match time_rand_s(t) {
            Some(d) => rat_wf(d) && crate::time::rat_le(rat_int(0), d) && crate::time::rat_lt(
                d,
                rat_int(1),
            ),
            None => true,
        },
{
    match seed_of(t) {
        None => {},
        Some(s) => {
            let k = (mix64_s(s) >> 40) as int;
            assert(mix64_s(s) >> 40 < 0x100_0000) by (bit_vector);
            lemma_rat_repr(k, 0x100_0000);
            let d = rat(k, 0x100_0000);
            assert(0 <= d.n && d.n < d.d) by (nonlinear_arith)
                requires
                    d.n * 0x100_0000 == k * d.d,
                    1 <= d.d,
                    0 <= k < 0x100_0000,
            ;
        },
    }
}

/// The draw at time `t`, as an exact fraction.
pub fn time_rand(t: &Time) -> (r: Option<Time>)
    requires
        t.wf(),
    ensures
        opt_time_view(r) == time_rand_s(t@),
        opt_time_wf(r),
{
    let x2 = match t.mul(t) {
        None => {
            return None;
        },
        Some(v) => v,
    };
    let million = Time::from_int(1000000);
    let x = match x2.div(&million) {
        None => {
            return None;
        },
        Some(v) => v,
    };
    let m0: i64 = x.n % 256;
    let b0: u64 = if m0 < 0 {
        (m0 + 256) as u64
    } else {
        m0 as u64
    };
    let b1: u64 = (x.d % 256) as u64;
    let seed: u64 = b0 + 256 * b1;
    let k = mix64(seed) >> 40;
    proof {
        assert(mix64_s(seed) >> 40 < 0x100_0000) by (bit_vector);
        lemma_rat_repr(k as int, 0x100_0000);
        assert(crate::time::fits64(rat(k as int, 0x100_0000))) by {
            assert(rat(k as int, 0x100_0000).d <= 0x100_0000);
            assert(crate::time::abs_n(rat(k as int, 0x100_0000).n) <= crate::time::abs_n(
                k as int,
            ));
        }
    }
    let r = Time::new(k as i64, 0x100_0000);
    r
}

} // verus!
