//! Arcs: half-open spans `[start, stop)` of rational time.
//!
//! An arc is the unit a pattern is queried with.  The algebra here follows
//! the pattern calculus: intersection with a half-open touch rule, splitting
//! an arc at whole-cycle boundaries, and mirroring an arc around a point.

use vstd::prelude::*;
use vstd::arithmetic::div_mod::lemma_fundamental_div_mod;
use crate::time::{
    Rat, Time, abs_n, gcd_n, opt_fit, opt_time_view, opt_time_wf, rat_int, rat_floor, rat_le,
    rat_lt, rat_min, rat_max, rat_mul, rat_sub, rat_wf, fits64,
};

verus! {

/// A mathematical arc, used only in specifications.
pub struct RArc {
    pub s: Rat,
    pub e: Rat,
}

pub open spec fn rarc_wf(a: RArc) -> bool {
    rat_wf(a.s) && rat_wf(a.e)
}

/// An ordered arc: `start <= stop`.
pub open spec fn rarc_ord(a: RArc) -> bool {
    rarc_wf(a) && rat_le(a.s, a.e)
}

/// Executable arc over exact rational time.
#[derive(Clone, Copy, PartialEq, Eq, Structural, Debug)]
pub struct Arc {
    pub start: Time,
    pub stop: Time,
}

impl View for Arc {
    type V = RArc;

    open spec fn view(&self) -> RArc {
        RArc { s: self.start@, e: self.stop@ }
    }
}

impl Arc {
    pub open spec fn wf(self) -> bool {
        rarc_wf(self@)
    }

    /// `start <= stop`.
    pub open spec fn ord(self) -> bool {
        rarc_ord(self@)
    }

    /// Build an arc from two times.
    pub fn new(start: Time, stop: Time) -> (r: Arc)
        ensures
            r@ == (RArc { s: start@, e: stop@ }),
    {
        Arc { start, stop }
    }
}

// ---------------------------------------------------------------------------
// Intersection.
// ---------------------------------------------------------------------------

/// The overlap of two arcs: latest start, earliest stop.
pub open spec fn sect_s(a: RArc, b: RArc) -> RArc {
    RArc { s: rat_max(a.s, b.s), e: rat_min(a.e, b.e) }
}

/// Intersection under the half-open convention: a touch at a single boundary
/// point of a non-degenerate arc counts as no overlap at all.
pub open spec fn sub_arc_s(a: RArc, b: RArc) -> Option<RArc> {
    let c = sect_s(a, b);
    if c.s == c.e && c.s == a.e && rat_lt(a.s, a.e) {
        None
    } else if c.s == c.e && c.s == b.e && rat_lt(b.s, b.e) {
        None
    } else if rat_le(c.s, c.e) {
        Some(c)
    } else {
        None
    }
}

pub open spec fn opt_arc_view(r: Option<Arc>) -> Option<RArc> {
    match r {
        Some(a) => Some(a@),
        None => None,
    }
}

/// The overlap of two arcs.
pub fn sect(a: Arc, b: Arc) -> (r: Arc)
    requires
        a.wf(),
        b.wf(),
    ensures
        r.wf(),
        r@ == sect_s(a@, b@),
{
    let s = if a.start.le(&b.start) {
        b.start
    } else {
        a.start
    };
    let e = a.stop.min(&b.stop);
    Arc { start: s, stop: e }
}

/// The overlap of two arcs, or `None` when they only touch at a boundary of
/// a non-degenerate arc (half-open convention) or do not meet at all.
pub fn sub_arc(a: Arc, b: Arc) -> (r: Option<Arc>)
    requires
        a.wf(),
        b.wf(),
    ensures
        opt_arc_view(r) == sub_arc_s(a@, b@),
        match r {
            Some(c) => c.wf(),
            None => true,
        },
{
    let c = sect(a, b);
    let degenerate = c.start.eq_time(&c.stop);
    if degenerate && c.start.eq_time(&a.stop) && a.start.lt(&a.stop) {
        None
    } else if degenerate && c.start.eq_time(&b.stop) && b.start.lt(&b.stop) {
        None
    } else if c.start.le(&c.stop) {
        Some(c)
    } else {
        None
    }
}

// ---------------------------------------------------------------------------
// Floor facts, needed to split arcs at cycle boundaries.
// ---------------------------------------------------------------------------

/// The floor lies at or below the value, and the next whole cycle above it.
pub proof fn lemma_floor_bounds(a: Rat)
    requires
        rat_wf(a),
    ensures
        rat_le(rat_int(rat_floor(a)), a),
        rat_lt(a, rat_int(rat_floor(a) + 1)),
{
    let q = rat_floor(a);
    lemma_fundamental_div_mod(a.n, a.d);
    assert(q * a.d <= a.n && a.n < (q + 1) * a.d) by (nonlinear_arith)
        requires
            a.n == a.d * q + a.n % a.d,
            0 <= (a.n % a.d) < a.d,
            a.d >= 1,
    ;
}

/// Floors respect the order of rationals.
pub proof fn lemma_floor_mono(a: Rat, b: Rat)
    requires
        rat_wf(a),
        rat_wf(b),
        rat_le(a, b),
    ensures
        rat_floor(a) <= rat_floor(b),
{
    lemma_floor_bounds(a);
    lemma_floor_bounds(b);
    assert(rat_floor(a) <= rat_floor(b)) by (nonlinear_arith)
        requires
            rat_floor(a) * a.d <= a.n,
            b.n < (rat_floor(b) + 1) * b.d,
            a.n * b.d <= b.n * a.d,
            a.d >= 1,
            b.d >= 1,
    ;
}

/// A whole number is canonical and is its own floor.
pub proof fn lemma_rat_int_wf(k: int)
    ensures
        rat_wf(rat_int(k)),
        rat_floor(rat_int(k)) == k,
{
    lemma_gcd_int(abs_n(k));
    assert(k / 1 == k);
}

/// `gcd(a, 1) == 1`, exported for whole-number canonicity.
pub proof fn lemma_gcd_int(a: nat)
    ensures
        gcd_n(a, 1) == 1,
{
    reveal_with_fuel(gcd_n, 3);
    assert(a % 1 == 0) by (nonlinear_arith);
}

// ---------------------------------------------------------------------------
// Splitting at cycle boundaries.
// ---------------------------------------------------------------------------

/// One step of the split: `None` when the next cycle boundary leaves the
/// machine range.
pub open spec fn next_boundary(s: Rat) -> Option<Rat> {
    opt_fit(rat_int(rat_floor(s) + 1))
}

/// Split an arc at every whole-cycle boundary, in order; empty when
/// `start >= stop`.  `None` exactly when a boundary leaves the machine range.
pub open spec fn arc_cycles_o(a: RArc) -> Option<Seq<RArc>>
    decreases rat_floor(a.e) - rat_floor(a.s)
        when rarc_wf(a)
    via arc_cycles_o_dec
{
    if !rarc_wf(a) {
        None
    } else if rat_le(a.e, a.s) {
        Some(Seq::empty())
    } else if rat_floor(a.s) == rat_floor(a.e) {
        Some(seq![a])
    } else {
        match next_boundary(a.s) {
            None => None,
            Some(b) => match arc_cycles_o(RArc { s: b, e: a.e }) {
                None => None,
                Some(rest) => Some(seq![RArc { s: a.s, e: b }] + rest),
            },
        }
    }
}

#[via_fn]
proof fn arc_cycles_o_dec(a: RArc) {
    if rarc_wf(a) && !rat_le(a.e, a.s) && rat_floor(a.s) != rat_floor(a.e) {
        assert(rat_le(a.s, a.e)) by (nonlinear_arith)
            requires
                !rat_le(a.e, a.s),
                a.s.d >= 1,
                a.e.d >= 1,
        ;
        lemma_floor_mono(a.s, a.e);
        match next_boundary(a.s) {
            None => {},
            Some(b) => {
                lemma_rat_int_wf(rat_floor(a.s) + 1);
            },
        }
    }
}

/// As `arc_cycles_o`, but a zero-width arc is kept as a single point.
pub open spec fn arc_cycles_zw_o(a: RArc) -> Option<Seq<RArc>> {
    if a.s == a.e {
        Some(seq![a])
    } else {
        arc_cycles_o(a)
    }
}

pub open spec fn arcs_view(v: Seq<Arc>) -> Seq<RArc> {
    v.map_values(|a: Arc| a@)
}

pub open spec fn opt_arcs_view(r: Option<Vec<Arc>>) -> Option<Seq<RArc>> {
    match r {
        Some(v) => Some(arcs_view(v@)),
        None => None,
    }
}

pub open spec fn arcs_wf(s: Seq<RArc>) -> bool {
    forall|i: int| 0 <= i < s.len() ==> rarc_wf(#[trigger] s[i])
}

/// Split an arc at every whole-cycle boundary.
pub fn arc_cycles(a: Arc) -> (r: Option<Vec<Arc>>)
    requires
        a.wf(),
    ensures
        opt_arcs_view(r) == arc_cycles_o(a@),
        match r {
            Some(v) => arcs_wf(arcs_view(v@)),
            None => true,
        },
    decreases rat_floor(a@.e) - rat_floor(a@.s),
{
    if a.stop.le(&a.start) {
        assert(arcs_view(Seq::<Arc>::empty()) =~= Seq::<RArc>::empty());
        return Some(vec![]);
    }
    proof {
        assert(rat_le(a@.s, a@.e)) by (nonlinear_arith)
            requires
                !rat_le(a@.e, a@.s),
                a@.s.d >= 1,
                a@.e.d >= 1,
        ;
        lemma_floor_mono(a@.s, a@.e);
    }
    let fs = a.start.floor();
    let fe = a.stop.floor();
    if fs == fe {
        let v = vec![a];
        assert(arcs_view(v@) =~= seq![a@]);
        return Some(v);
    }
    if fs == i64::MAX {
        proof {
            lemma_rat_int_wf(rat_floor(a@.s) + 1);
        }
        return None;
    }
    let b = Time::from_int(fs + 1);
    proof {
        lemma_rat_int_wf(rat_floor(a@.s) + 1);
        assert(next_boundary(a@.s) == Some(b@));
    }
    let tail_arc = Arc { start: b, stop: a.stop };
    match arc_cycles(tail_arc) {
        None => None,
        Some(rest) => {
            let mut v: Vec<Arc> = vec![Arc { start: a.start, stop: b }];
            let ghost head = v@;
            let mut i: usize = 0;
            let ghost restv = rest@;
            let mut out = v;
            let mut j: usize = 0;
            while j < rest.len()
                invariant
                    0 <= j <= rest.len(),
                    rest@ == restv,
                    out@ == head + restv.take(j as int),
                decreases rest.len() - j,
            {
                out.push(rest[j]);
                assert(out@ =~= head + restv.take(j as int + 1));
                j += 1;
            }
            assert(out@ =~= head + restv);
            assert(arcs_view(out@) =~= seq![RArc { s: a@.s, e: b@ }] + arcs_view(restv));
            Some(out)
        },
    }
}

/// Split an arc at whole-cycle boundaries, keeping a zero-width arc.
pub fn arc_cycles_zw(a: Arc) -> (r: Option<Vec<Arc>>)
    requires
        a.wf(),
    ensures
        opt_arcs_view(r) == arc_cycles_zw_o(a@),
        match r {
            Some(v) => arcs_wf(arcs_view(v@)),
            None => true,
        },
{
    if a.start.eq_time(&a.stop) {
        let v = vec![a];
        assert(arcs_view(v@) =~= seq![a@]);
        Some(v)
    } else {
        arc_cycles(a)
    }
}

/// Reflect `x` across `mid`: `2 * mid - x`, stepwise, `None` when a step
/// leaves the machine range.
pub open spec fn mirror_pt_o(mid: Rat, x: Rat) -> Option<Rat> {
    match opt_fit(rat_mul(rat_int(2), mid)) {
        None => None,
        Some(m2) => opt_fit(rat_sub(m2, x)),
    }
}

/// Reflect an arc across `mid`; start and stop swap roles.
pub open spec fn mirror_arc_o(mid: Rat, a: RArc) -> Option<RArc> {
    match mirror_pt_o(mid, a.e) {
        None => None,
        Some(s) => match mirror_pt_o(mid, a.s) {
            None => None,
            Some(e) => Some(RArc { s: s, e: e }),
        },
    }
}

pub open spec fn opt_rat_wf(r: Option<Rat>) -> bool {
    match r {
        Some(x) => rat_wf(x),
        None => true,
    }
}

pub fn mirror_pt(mid: Time, x: Time) -> (r: Option<Time>)
    requires
        mid.wf(),
        x.wf(),
    ensures
        opt_time_view(r) == mirror_pt_o(mid@, x@),
        opt_time_wf(r),
{
    let two = Time::from_int(2);
    match two.mul(&mid) {
        None => None,
        Some(m2) => m2.sub(&x),
    }
}

pub fn mirror_arc(mid: Time, a: Arc) -> (r: Option<Arc>)
    requires
        mid.wf(),
        a.wf(),
    ensures
        opt_arc_view(r) == mirror_arc_o(mid@, a@),
        match r {
            Some(c) => c.wf(),
            None => true,
        },
{
    match mirror_pt(mid, a.stop) {
        None => None,
        Some(s) => match mirror_pt(mid, a.start) {
            None => None,
            Some(e) => Some(Arc { start: s, stop: e }),
        },
    }
}

} // verus!
