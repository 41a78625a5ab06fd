//! What every query result looks like.
//!
//! `lemma_sem_ok` is the structural invariant of the calculus: on a
//! well-formed pattern and arc, every event a query produces has canonical
//! arcs, a part inside its whole when a whole is present, and a well-formed
//! payload whose nested pattern — if it carries one — is smaller than the
//! pattern queried.  The last point is what lets `inner_join` recurse into
//! a pattern taken out of an event.

use vstd::prelude::*;
use crate::time::{
    Rat, lemma_rat_repr, opt_fit, rat, rat_add, rat_div, rat_int, rat_le, rat_lt, rat_mul,
    rat_sub, rat_wf, rat_floor, lemma_rat_le_frac,
};
use crate::arcs::{
    RArc, arc_cycles_o, arc_cycles_zw_o, lemma_floor_mono, lemma_rat_int_wf, mirror_arc_o,
    mirror_pt_o, next_boundary, rarc_wf, sect_s, sub_arc_s,
};
use crate::value::{EventS, ValS, val_base_wf, val_size, val_wf, ev_ok};
use crate::pattern::{
    CombineOp, PatS, pat_wf, psize, psize_list, xform_wf, lemma_psize_elem, lemma_psize_pos,
};
use crate::sem::{
    afl, afl_consume, arc_oadd, arc_odiv, arc_omul, arc_osub, combine_vals, ev_add, ev_div,
    ev_mirror, ev_sub, filter_map_evs, insert_ev, mid_draw, oadd, odiv, omul, opt_map_evs, osub,
    restrict_arc, sem, sem_cat, sem_degrade, sem_ij, sem_list, sem_off, sem_rev, sort_evs,
    sound_ev, pan_ev, split_sound, unit_ev, unit_evs,
};
use crate::pattern::{lemma_xform_size, lemma_xform_wf, xform_apply_s};

verus! {

pub open spec fn evs_ok(es: Seq<EventS>, n: nat) -> bool {
    forall|i: int| 0 <= i < es.len() ==> ev_ok(#[trigger] es[i], n)
}

pub proof fn lemma_evs_ok_mono(es: Seq<EventS>, n: nat, m: nat)
    requires
        evs_ok(es, n),
        n <= m,
    ensures
        evs_ok(es, m),
{
    assert forall|i: int| 0 <= i < es.len() implies ev_ok(#[trigger] es[i], m) by {
        assert(ev_ok(es[i], n));
    }
}

// ---------------------------------------------------------------------------
// Order lemmas on the checked operations.
// ---------------------------------------------------------------------------

/// The basic operations yield well-formed fractions.
pub proof fn lemma_ops_wf(a: Rat, b: Rat)
    requires
        a.d >= 1,
        b.d >= 1,
    ensures
        rat_wf(rat_add(a, b)),
        rat_wf(rat_sub(a, b)),
        rat_wf(rat_mul(a, b)),
        b.n != 0 ==> rat_wf(rat_div(a, b)),
{
    assert(a.d * b.d >= 1) by (nonlinear_arith)
        requires
            a.d >= 1,
            b.d >= 1,
    ;
    lemma_rat_repr(a.n * b.d + b.n * a.d, a.d * b.d);
    lemma_rat_repr(a.n * b.d - b.n * a.d, a.d * b.d);
    lemma_rat_repr(a.n * b.n, a.d * b.d);
    if b.n != 0 {
        assert(a.d * b.n != 0) by (nonlinear_arith)
            requires
                a.d >= 1,
                b.n != 0,
        ;
        lemma_rat_repr(a.n * b.d, a.d * b.n);
    }
}

/// Shifting by a common offset keeps order; subtracting from a common
/// value reverses it.
pub proof fn lemma_le_shift(x: Rat, y: Rat, t: Rat)
    requires
        rat_wf(x),
        rat_wf(y),
        rat_wf(t),
        rat_le(x, y),
    ensures
        rat_le(rat_add(x, t), rat_add(y, t)),
        rat_le(rat_sub(x, t), rat_sub(y, t)),
        rat_le(rat_sub(t, y), rat_sub(t, x)),
{
    assert(x.d * t.d >= 1 && y.d * t.d >= 1 && t.d * y.d >= 1 && t.d * x.d >= 1)
        by (nonlinear_arith)
        requires
            x.d >= 1,
            y.d >= 1,
            t.d >= 1,
    ;
    lemma_rat_le_frac(x.n * t.d + t.n * x.d, x.d * t.d, y.n * t.d + t.n * y.d, y.d * t.d);
    lemma_rat_le_frac(x.n * t.d - t.n * x.d, x.d * t.d, y.n * t.d - t.n * y.d, y.d * t.d);
    lemma_rat_le_frac(t.n * y.d - y.n * t.d, t.d * y.d, t.n * x.d - x.n * t.d, t.d * x.d);
    assert((x.n * t.d + t.n * x.d) * (y.d * t.d) <= (y.n * t.d + t.n * y.d) * (x.d * t.d))
        by (nonlinear_arith)
        requires
            x.n * y.d <= y.n * x.d,
            x.d >= 1,
            y.d >= 1,
            t.d >= 1,
    ;
    assert((x.n * t.d - t.n * x.d) * (y.d * t.d) <= (y.n * t.d - t.n * y.d) * (x.d * t.d))
        by (nonlinear_arith)
        requires
            x.n * y.d <= y.n * x.d,
            x.d >= 1,
            y.d >= 1,
            t.d >= 1,
    ;
    assert((t.n * y.d - y.n * t.d) * (t.d * x.d) <= (t.n * x.d - x.n * t.d) * (t.d * y.d))
        by (nonlinear_arith)
        requires
            x.n * y.d <= y.n * x.d,
            x.d >= 1,
            y.d >= 1,
            t.d >= 1,
    ;
}

/// Scaling by a positive factor keeps order, in both directions.
pub proof fn lemma_le_scale(x: Rat, y: Rat, r: Rat)
    requires
        rat_wf(x),
        rat_wf(y),
        rat_wf(r),
        r.n > 0,
        rat_le(x, y),
    ensures
        rat_le(rat_mul(x, r), rat_mul(y, r)),
        rat_le(rat_div(x, r), rat_div(y, r)),
{
    assert(x.d * r.d >= 1 && y.d * r.d >= 1 && x.d * r.n >= 1 && y.d * r.n >= 1)
        by (nonlinear_arith)
        requires
            x.d >= 1,
            y.d >= 1,
            r.d >= 1,
            r.n > 0,
    ;
    lemma_rat_le_frac(x.n * r.n, x.d * r.d, y.n * r.n, y.d * r.d);
    lemma_rat_le_frac(x.n * r.d, x.d * r.n, y.n * r.d, y.d * r.n);
    assert((x.n * r.n) * (y.d * r.d) <= (y.n * r.n) * (x.d * r.d)) by (nonlinear_arith)
        requires
            x.n * y.d <= y.n * x.d,
            x.d >= 1,
            y.d >= 1,
            r.d >= 1,
            r.n > 0,
    ;
    assert((x.n * r.d) * (y.d * r.n) <= (y.n * r.d) * (x.d * r.n)) by (nonlinear_arith)
        requires
            x.n * y.d <= y.n * x.d,
            x.d >= 1,
            y.d >= 1,
            r.d >= 1,
            r.n > 0,
    ;
}

// ---------------------------------------------------------------------------
// Per-event transform lemmas.
// ---------------------------------------------------------------------------

pub proof fn lemma_ev_div_ok(r: Rat, e: EventS, n: nat)
    requires
        rat_wf(r),
        r.n > 0,
        ev_ok(e, n),
    ensures
        match ev_div(r, e) {
            Some(e2) => ev_ok(e2, n) && e2.value == e.value,
            None => true,
        },
{
    lemma_ops_wf(e.part.s, r);
    lemma_ops_wf(e.part.e, r);
    match e.whole {
        Some(w) => {
            lemma_ops_wf(w.s, r);
            lemma_ops_wf(w.e, r);
            lemma_le_scale(w.s, e.part.s, r);
            lemma_le_scale(e.part.e, w.e, r);
        },
        None => {},
    }
}

pub proof fn lemma_ev_add_ok(t: Rat, e: EventS, n: nat)
    requires
        rat_wf(t),
        ev_ok(e, n),
    ensures
        match ev_add(t, e) {
            Some(e2) => ev_ok(e2, n) && e2.value == e.value,
            None => true,
        },
{
    lemma_ops_wf(e.part.s, t);
    lemma_ops_wf(e.part.e, t);
    match e.whole {
        Some(w) => {
            lemma_ops_wf(w.s, t);
            lemma_ops_wf(w.e, t);
            lemma_le_shift(w.s, e.part.s, t);
            lemma_le_shift(e.part.e, w.e, t);
        },
        None => {},
    }
}

pub proof fn lemma_ev_sub_ok(t: Rat, e: EventS, n: nat)
    requires
        rat_wf(t),
        ev_ok(e, n),
    ensures
        match ev_sub(t, e) {
            Some(e2) => ev_ok(e2, n) && e2.value == e.value,
            None => true,
        },
{
    lemma_ops_wf(e.part.s, t);
    lemma_ops_wf(e.part.e, t);
    match e.whole {
        Some(w) => {
            lemma_ops_wf(w.s, t);
            lemma_ops_wf(w.e, t);
            lemma_le_shift(w.s, e.part.s, t);
            lemma_le_shift(e.part.e, w.e, t);
        },
        None => {},
    }
}

/// Mirroring keeps the part inside the re-absolutized whole.
pub proof fn lemma_ev_mirror_ok(mid: Rat, e: EventS, n: nat)
    requires
        rat_wf(mid),
        ev_ok(e, n),
    ensures
        match ev_mirror(mid, e) {
            Some(e2) => ev_ok(e2, n) && e2.value == e.value,
            None => true,
        },
{
    let two = rat_int(2);
    lemma_rat_int_wf(2);
    lemma_ops_wf(two, mid);
    let m2 = rat_mul(two, mid);
    if opt_fit(m2) is Some {
        lemma_ops_wf(m2, e.part.s);
        lemma_ops_wf(m2, e.part.e);
        match e.whole {
            Some(w) => {
                match mirror_arc_o(mid, e.part) {
                    Some(mp) => {
                        lemma_ops_wf(e.part.s, w.s);
                        lemma_ops_wf(w.e, e.part.e);
                        let da = rat_sub(e.part.s, w.s);
                        let db = rat_sub(w.e, e.part.e);
                        lemma_ops_wf(mp.s, db);
                        lemma_ops_wf(mp.e, da);
                        // da, db are non-negative because the part sits in the whole.
                        lemma_rat_int_wf(0);
                        crate::time::lemma_rat_of_wf(rat_int(0));
                        assert(e.part.s.d * w.s.d >= 1 && w.e.d * e.part.e.d >= 1)
                            by (nonlinear_arith)
                            requires
                                e.part.s.d >= 1,
                                w.s.d >= 1,
                                w.e.d >= 1,
                                e.part.e.d >= 1,
                        ;
                        lemma_rat_le_frac(
                            0,
                            1,
                            e.part.s.n * w.s.d - w.s.n * e.part.s.d,
                            e.part.s.d * w.s.d,
                        );
                        assert(0 * (e.part.s.d * w.s.d) <= (e.part.s.n * w.s.d - w.s.n
                            * e.part.s.d) * 1) by (nonlinear_arith)
                            requires
                                w.s.n * e.part.s.d <= e.part.s.n * w.s.d,
                        ;
                        assert(rat_le(rat_int(0), da));
                        lemma_rat_le_frac(
                            0,
                            1,
                            w.e.n * e.part.e.d - e.part.e.n * w.e.d,
                            w.e.d * e.part.e.d,
                        );
                        assert(0 * (w.e.d * e.part.e.d) <= (w.e.n * e.part.e.d - e.part.e.n
                            * w.e.d) * 1) by (nonlinear_arith)
                            requires
                                e.part.e.n * w.e.d <= w.e.n * e.part.e.d,
                        ;
                        assert(rat_le(rat_int(0), db));
                        // subtracting a non-negative moves left, adding moves right.
                        lemma_sub_nonneg_le(mp.s, db);
                        lemma_add_nonneg_ge(mp.e, da);
                    },
                    None => {},
                }
            },
            None => {},
        }
    }
}

/// Subtracting a non-negative value does not increase.
pub proof fn lemma_sub_nonneg_le(z: Rat, d: Rat)
    requires
        rat_wf(z),
        rat_wf(d),
        rat_le(rat_int(0), d),
    ensures
        rat_le(rat_sub(z, d), z),
{
    assert(z.d * d.d >= 1) by (nonlinear_arith)
        requires
            z.d >= 1,
            d.d >= 1,
    ;
    lemma_rat_le_frac(z.n * d.d - d.n * z.d, z.d * d.d, z.n, z.d);
    assert((z.n * d.d - d.n * z.d) * z.d <= z.n * (z.d * d.d)) by (nonlinear_arith)
        requires
            0 * d.d <= d.n * 1,
            z.d >= 1,
            d.d >= 1,
    ;
}

/// Adding a non-negative value does not decrease.
pub proof fn lemma_add_nonneg_ge(z: Rat, d: Rat)
    requires
        rat_wf(z),
        rat_wf(d),
        rat_le(rat_int(0), d),
    ensures
        rat_le(z, rat_add(z, d)),
{
    assert(z.d * d.d >= 1) by (nonlinear_arith)
        requires
            z.d >= 1,
            d.d >= 1,
    ;
    lemma_rat_le_frac(z.n, z.d, z.n * d.d + d.n * z.d, z.d * d.d);
    assert(z.n * (z.d * d.d) <= (z.n * d.d + d.n * z.d) * z.d) by (nonlinear_arith)
        requires
            0 * d.d <= d.n * 1,
            z.d >= 1,
            d.d >= 1,
    ;
}

// ---------------------------------------------------------------------------
// Sequence transform lemmas.
// ---------------------------------------------------------------------------

/// A checked map whose transform preserves the invariant preserves it on
/// the whole sequence.
pub proof fn lemma_opt_map_evs_ok(
    s: Seq<EventS>,
    f: spec_fn(EventS) -> Option<EventS>,
    n: nat,
    m: nat,
)
    requires
        evs_ok(s, n),
        forall|e: EventS|
            ev_ok(e, n) ==> match #[trigger] f(e) {
                Some(e2) => ev_ok(e2, m),
                None => true,
            },
    ensures
        match opt_map_evs(s, f) {
            Some(r) => evs_ok(r, m),
            None => true,
        },
    decreases s.len(),
{
    if s.len() > 0 {
        assert(evs_ok(s.drop_last(), n)) by {
            assert(forall|i: int|
                0 <= i < s.len() - 1 ==> #[trigger] s.drop_last()[i] == s[i]);
        }
        lemma_opt_map_evs_ok(s.drop_last(), f, n, m);
        assert(ev_ok(s.last(), n));
    }
}

/// A dropping map whose transform preserves the invariant preserves it.
pub proof fn lemma_filter_map_evs_ok(
    s: Seq<EventS>,
    f: spec_fn(EventS) -> Option<EventS>,
    n: nat,
    m: nat,
)
    requires
        evs_ok(s, n),
        forall|e: EventS|
            ev_ok(e, n) ==> match #[trigger] f(e) {
                Some(e2) => ev_ok(e2, m),
                None => true,
            },
    ensures
        evs_ok(filter_map_evs(s, f), m),
    decreases s.len(),
{
    if s.len() > 0 {
        assert(evs_ok(s.drop_last(), n)) by {
            assert(forall|i: int|
                0 <= i < s.len() - 1 ==> #[trigger] s.drop_last()[i] == s[i]);
        }
        lemma_filter_map_evs_ok(s.drop_last(), f, n, m);
        assert(ev_ok(s.last(), n));
    }
}

/// A filtered sequence keeps the invariant.
pub proof fn lemma_filter_evs_ok(s: Seq<EventS>, pred: spec_fn(EventS) -> bool, n: nat)
    requires
        evs_ok(s, n),
    ensures
        evs_ok(s.filter(pred), n),
    decreases s.len(),
{
    reveal(Seq::filter);
    if s.len() > 0 {
        assert(evs_ok(s.drop_last(), n)) by {
            assert(forall|i: int|
                0 <= i < s.len() - 1 ==> #[trigger] s.drop_last()[i] == s[i]);
        }
        lemma_filter_evs_ok(s.drop_last(), pred, n);
        assert(ev_ok(s.last(), n));
    }
}

pub proof fn lemma_insert_ev_ok(e: EventS, s: Seq<EventS>, n: nat)
    requires
        ev_ok(e, n),
        evs_ok(s, n),
    ensures
        evs_ok(insert_ev(e, s), n),
    decreases s.len(),
{
    if s.len() > 0 && rat_lt(e.part.s, s.last().part.s) {
        assert(evs_ok(s.drop_last(), n)) by {
            assert(forall|i: int|
                0 <= i < s.len() - 1 ==> #[trigger] s.drop_last()[i] == s[i]);
        }
        lemma_insert_ev_ok(e, s.drop_last(), n);
        assert(ev_ok(s.last(), n));
    }
}

pub proof fn lemma_sort_evs_ok(s: Seq<EventS>, n: nat)
    requires
        evs_ok(s, n),
    ensures
        evs_ok(sort_evs(s), n),
    decreases s.len(),
{
    if s.len() > 0 {
        assert(evs_ok(s.drop_last(), n)) by {
            assert(forall|i: int|
                0 <= i < s.len() - 1 ==> #[trigger] s.drop_last()[i] == s[i]);
        }
        lemma_sort_evs_ok(s.drop_last(), n);
        assert(ev_ok(s.last(), n));
        lemma_insert_ev_ok(s.last(), sort_evs(s.drop_last()), n);
    }
}

// ---------------------------------------------------------------------------
// Arc helper lemmas.
// ---------------------------------------------------------------------------

/// A slice the cycle split yields: well formed, ordered, and contained in
/// the cycle its start falls in.
pub open spec fn slice_ok(c: RArc) -> bool {
    rarc_wf(c) && rat_le(c.s, c.e) && rat_le(c.e, rat_int(rat_floor(c.s) + 1))
}

pub proof fn lemma_arc_cycles_ok(a: RArc)
    requires
        rarc_wf(a),
    ensures
        match arc_cycles_o(a) {
            Some(subs) => forall|i: int| 0 <= i < subs.len() ==> slice_ok(#[trigger] subs[i]),
            None => true,
        },
    decreases rat_floor(a.e) - rat_floor(a.s),
{
    if !crate::time::rat_le(a.e, a.s) {
        assert(rat_le(a.s, a.e)) by (nonlinear_arith)
            requires
                !rat_le(a.e, a.s),
                a.s.d >= 1,
                a.e.d >= 1,
        ;
        lemma_floor_mono(a.s, a.e);
        crate::arcs::lemma_floor_bounds(a.s);
        crate::arcs::lemma_floor_bounds(a.e);
        lemma_rat_int_wf(rat_floor(a.s) + 1);
        if rat_floor(a.s) == rat_floor(a.e) {
            assert(slice_ok(a));
        } else {
            match next_boundary(a.s) {
                None => {},
                Some(b) => {
                    assert(slice_ok(RArc { s: a.s, e: b }));
                    lemma_arc_cycles_ok(RArc { s: b, e: a.e });
                },
            }
        }
    }
}

pub proof fn lemma_arc_cycles_zw_ok(a: RArc)
    requires
        rarc_wf(a),
    ensures
        match arc_cycles_zw_o(a) {
            Some(subs) => forall|i: int| 0 <= i < subs.len() ==> slice_ok(#[trigger] subs[i]),
            None => true,
        },
{
    if a.s == a.e {
        crate::arcs::lemma_floor_bounds(a.s);
        lemma_rat_int_wf(rat_floor(a.s) + 1);
        assert(slice_ok(a));
    } else {
        lemma_arc_cycles_ok(a);
    }
}

pub proof fn lemma_sub_arc_wf(a: RArc, b: RArc)
    requires
        rarc_wf(a),
        rarc_wf(b),
    ensures
        match sub_arc_s(a, b) {
            Some(c) => rarc_wf(c),
            None => true,
        },
{
}

pub proof fn lemma_restrict_wf(a: RArc, part: RArc)
    requires
        rarc_wf(a),
        rarc_wf(part),
    ensures
        match restrict_arc(a, part) {
            Some(c) => rarc_wf(c),
            None => true,
        },
{
    lemma_sub_arc_wf(a, part);
    match sub_arc_s(a, part) {
        Some(b) => {
            lemma_sub_arc_wf(b, a);
        },
        None => {},
    }
}

// ---------------------------------------------------------------------------
// Payload lemmas.
// ---------------------------------------------------------------------------

pub proof fn lemma_combine_ok(op: CombineOp, lv: ValS, rv: ValS)
    requires
        val_wf(lv),
        val_wf(rv),
    ensures
        val_wf(combine_vals(op, lv, rv)),
        val_size(combine_vals(op, lv, rv)) <= val_size(lv),
{
    match op {
        CombineOp::SetPan => match (lv, rv) {
            (ValS::Ctrl(m), ValS::Rational(x)) => {
                let m2 = m.insert(crate::value::key_pan(), ValS::Rational(x));
                assert forall|k: Seq<char>| m2.contains_key(k) implies val_base_wf(
                    #[trigger] m2[k],
                ) by {
                    if k != crate::value::key_pan() {
                        assert(m.contains_key(k) && m2[k] == m[k]);
                    }
                }
            },
            _ => {},
        },
        CombineOp::SetPanInv => match (lv, rv) {
            (ValS::Ctrl(m), ValS::Rational(x)) => match osub(rat_int(1), x) {
                None => {},
                Some(y) => {
                    lemma_rat_int_wf(1);
                    lemma_ops_wf(rat_int(1), x);
                    let m2 = m.insert(crate::value::key_pan(), ValS::Rational(y));
                    assert forall|k: Seq<char>| m2.contains_key(k) implies val_base_wf(
                        #[trigger] m2[k],
                    ) by {
                        if k != crate::value::key_pan() {
                            assert(m.contains_key(k) && m2[k] == m[k]);
                        }
                    }
                },
            },
            _ => {},
        },
        CombineOp::MergeRight => match (lv, rv) {
            (ValS::Ctrl(m1), ValS::Ctrl(m2)) => {
                let m3 = m1.union_prefer_right(m2);
                assert forall|k: Seq<char>| m3.contains_key(k) implies val_base_wf(
                    #[trigger] m3[k],
                ) by {
                    if m2.contains_key(k) {
                        assert(m3[k] == m2[k]);
                    } else {
                        assert(m3[k] == m1[k]);
                    }
                }
            },
            _ => {},
        },
    }
}

pub proof fn lemma_sound_ev_ok(e: EventS, n: nat)
    requires
        ev_ok(e, n),
    ensures
        match sound_ev(e) {
            Some(e2) => ev_ok(e2, n),
            None => true,
        },
{
    match e.value {
        ValS::Text(s) => match split_sound(s) {
            None => {},
            Some((name, k)) => {
                let m = Map::<Seq<char>, ValS>::empty().insert(
                    crate::value::key_s(),
                    ValS::Text(name),
                ).insert(crate::value::key_n(), ValS::Int(k));
                assert forall|key: Seq<char>| m.contains_key(key) implies val_base_wf(
                    #[trigger] m[key],
                ) by {}
            },
        },
        _ => {},
    }
}

pub proof fn lemma_pan_ev_ok(e: EventS, n: nat)
    requires
        ev_ok(e, n),
    ensures
        match pan_ev(e) {
            Some(e2) => ev_ok(e2, n),
            None => true,
        },
{
    match e.value {
        ValS::Rational(x) => {
            let m = Map::<Seq<char>, ValS>::empty().insert(crate::value::key_pan(), ValS::Rational(x));
            assert forall|key: Seq<char>| m.contains_key(key) implies val_base_wf(
                #[trigger] m[key],
            ) by {}
        },
        _ => {},
    }
}

// ---------------------------------------------------------------------------
// Pairing lemmas.
// ---------------------------------------------------------------------------

pub proof fn lemma_afl_consume_ok(rs: Seq<EventS>, l_start: Rat, cur: Option<EventS>, n: nat)
    requires
        evs_ok(rs, n),
        match cur {
            Some(c) => ev_ok(c, n),
            None => true,
        },
    ensures
        ({
            let (cur2, rs2) = afl_consume(rs, l_start, cur);
            &&& match cur2 {
                Some(c) => ev_ok(c, n),
                None => true,
            }
            &&& evs_ok(rs2, n)
        }),
    decreases rs.len(),
{
    if rs.len() > 0 && rat_le(rs.first().part.s, l_start) {
        assert(ev_ok(rs[0], n));
        assert(evs_ok(rs.drop_first(), n)) by {
            assert(forall|i: int|
                0 <= i < rs.len() - 1 ==> #[trigger] rs.drop_first()[i] == rs[i + 1]);
        }
        lemma_afl_consume_ok(rs.drop_first(), l_start, Some(rs.first()), n);
    }
}

pub proof fn lemma_afl_ok(
    op: CombineOp,
    ls: Seq<EventS>,
    rs: Seq<EventS>,
    cur: Option<EventS>,
    n: nat,
)
    requires
        evs_ok(ls, n),
        evs_ok(rs, n),
        match cur {
            Some(c) => ev_ok(c, n),
            None => true,
        },
    ensures
        evs_ok(afl(op, ls, rs, cur), n),
    decreases ls.len(),
{
    if ls.len() > 0 {
        let l = ls.first();
        assert(ev_ok(ls[0], n));
        let cur1 = match cur {
            Some(c) => if rat_lt(l.part.e, c.part.s) {
                None
            } else {
                Some(c)
            },
            None => None,
        };
        lemma_afl_consume_ok(rs, l.part.s, cur1, n);
        let (cur2, rs2) = afl_consume(rs, l.part.s, cur1);
        assert(evs_ok(ls.drop_first(), n)) by {
            assert(forall|i: int|
                0 <= i < ls.len() - 1 ==> #[trigger] ls.drop_first()[i] == ls[i + 1]);
        }
        lemma_afl_ok(op, ls.drop_first(), rs2, cur2, n);
        match cur2 {
            Some(c) => {
                lemma_combine_ok(op, l.value, c.value);
            },
            None => {},
        }
    }
}

// ---------------------------------------------------------------------------
// The main induction.
// ---------------------------------------------------------------------------

pub proof fn lemma_unit_evs_ok(v: ValS, subs: Seq<RArc>)
    requires
        val_wf(v),
        forall|i: int| 0 <= i < subs.len() ==> slice_ok(#[trigger] subs[i]),
    ensures
        match unit_evs(v, subs) {
            Some(es) => evs_ok(es, (1 + val_size(v)) as nat),
            None => true,
        },
    decreases subs.len(),
{
    if subs.len() > 0 {
        assert(forall|i: int|
            0 <= i < subs.len() - 1 ==> #[trigger] subs.drop_last()[i] == subs[i]);
        lemma_unit_evs_ok(v, subs.drop_last());
        let c = subs.last();
        assert(slice_ok(c));
        if !(c.s == c.e && !crate::time::rat_is_int(c.s)) {
            match next_boundary(c.s) {
                None => {},
                Some(b) => {
                    lemma_rat_int_wf(rat_floor(c.s));
                    lemma_rat_int_wf(rat_floor(c.s) + 1);
                    crate::arcs::lemma_floor_bounds(c.s);
                },
            }
        }
    }
}

pub proof fn lemma_sem_ok(p: PatS, a: RArc)
    requires
        pat_wf(p),
        rarc_wf(a),
    ensures
        match sem(p, a) {
            Some(es) => evs_ok(es, psize(p)),
            None => true,
        },
    decreases psize(p), 0nat, 0nat,
{
    match p {
        PatS::Silence => {},
        PatS::Unit(v) => {
            lemma_arc_cycles_zw_ok(a);
            match arc_cycles_zw_o(a) {
                None => {},
                Some(subs) => {
                    lemma_unit_evs_ok(v, subs);
                    match unit_evs(v, subs) {
                        Some(es) => {
                            lemma_evs_ok_mono(es, (1 + val_size(v)) as nat, psize(p));
                        },
                        None => {},
                    }
                },
            }
        },
        PatS::Fast(r, q) => {
            if r.n > 0 {
                match arc_omul(a, r) {
                    None => {},
                    Some(a2) => {
                        lemma_ops_wf(a.s, r);
                        lemma_ops_wf(a.e, r);
                        lemma_sem_ok(*q, a2);
                        match sem(*q, a2) {
                            None => {},
                            Some(es) => {
                                assert forall|e: EventS|
                                    ev_ok(e, psize(*q)) implies match #[trigger] ev_div(r, e) {
                                    Some(e2) => ev_ok(e2, psize(p)),
                                    None => true,
                                } by {
                                    lemma_ev_div_ok(r, e, psize(*q));
                                    match ev_div(r, e) {
                                        Some(e2) => {
                                            assert(ev_ok(e2, psize(*q)));
                                        },
                                        None => {},
                                    }
                                }
                                lemma_opt_map_evs_ok(
                                    es,
                                    |e: EventS| ev_div(r, e),
                                    psize(*q),
                                    psize(p),
                                );
                            },
                        }
                    },
                }
            }
        },
        PatS::Stack(ps) => {
            lemma_sem_list_ok(ps, a);
            match sem_list(ps, a) {
                None => {},
                Some(es) => {
                    lemma_sort_evs_ok(es, psize_list(ps) + 1);
                    lemma_evs_ok_mono(sort_evs(es), psize_list(ps) + 1, psize(p));
                },
            }
        },
        PatS::Cat(ps) => {
            if ps.len() > 0 && !(ps.len() > i64::MAX as int) {
                lemma_arc_cycles_zw_ok(a);
                match arc_cycles_zw_o(a) {
                    None => {},
                    Some(subs) => {
                        lemma_sem_cat_ok(ps, subs);
                        match sem_cat(ps, subs) {
                            Some(es) => {
                                lemma_evs_ok_mono(es, psize_list(ps) + 1, psize(p));
                            },
                            None => {},
                        }
                    },
                }
            }
        },
        PatS::Rev(q) => {
            lemma_arc_cycles_zw_ok(a);
            match arc_cycles_zw_o(a) {
                None => {},
                Some(subs) => {
                    lemma_sem_rev_ok(*q, subs);
                    match sem_rev(*q, subs) {
                        Some(es) => {
                            lemma_sort_evs_ok(es, psize(*q) + 1);
                            lemma_evs_ok_mono(sort_evs(es), psize(*q) + 1, psize(p));
                        },
                        None => {},
                    }
                },
            }
        },
        PatS::RotL(t, q) => {
            match arc_oadd(a, t) {
                None => {},
                Some(a2) => {
                    lemma_ops_wf(a.s, t);
                    lemma_ops_wf(a.e, t);
                    lemma_sem_ok(*q, a2);
                    match sem(*q, a2) {
                        None => {},
                        Some(es) => {
                            assert forall|e: EventS|
                                ev_ok(e, psize(*q)) implies match #[trigger] ev_sub(t, e) {
                                Some(e2) => ev_ok(e2, psize(p)),
                                None => true,
                            } by {
                                lemma_ev_sub_ok(t, e, psize(*q));
                            }
                            lemma_opt_map_evs_ok(
                                es,
                                |e: EventS| ev_sub(t, e),
                                psize(*q),
                                psize(p),
                            );
                        },
                    }
                },
            }
        },
        PatS::RotR(t, q) => {
            match arc_osub(a, t) {
                None => {},
                Some(a2) => {
                    lemma_ops_wf(a.s, t);
                    lemma_ops_wf(a.e, t);
                    lemma_sem_ok(*q, a2);
                    match sem(*q, a2) {
                        None => {},
                        Some(es) => {
                            assert forall|e: EventS|
                                ev_ok(e, psize(*q)) implies match #[trigger] ev_add(t, e) {
                                Some(e2) => ev_ok(e2, psize(p)),
                                None => true,
                            } by {
                                lemma_ev_add_ok(t, e, psize(*q));
                            }
                            lemma_opt_map_evs_ok(
                                es,
                                |e: EventS| ev_add(t, e),
                                psize(*q),
                                psize(p),
                            );
                        },
                    }
                },
            }
        },
        PatS::FilterWhen(c, q) => {
            lemma_sem_ok(*q, a);
            match sem(*q, a) {
                None => {},
                Some(es) => {
                    lemma_filter_evs_ok(
                        es,
                        |e: EventS| crate::sem::time_pred_holds(c, e),
                        psize(*q),
                    );
                    lemma_evs_ok_mono(
                        es.filter(|e: EventS| crate::sem::time_pred_holds(c, e)),
                        psize(*q),
                        psize(p),
                    );
                },
            }
        },
        PatS::FilterVals(c, q) => {
            lemma_sem_ok(*q, a);
            match sem(*q, a) {
                None => {},
                Some(es) => {
                    lemma_filter_evs_ok(
                        es,
                        |e: EventS| crate::sem::val_pred_holds(c, e.value),
                        psize(*q),
                    );
                    lemma_evs_ok_mono(
                        es.filter(|e: EventS| crate::sem::val_pred_holds(c, e.value)),
                        psize(*q),
                        psize(p),
                    );
                },
            }
        },
        PatS::DegradeBy(x, q) => {
            lemma_sem_ok(*x, a);
            match sem(*x, a) {
                None => {},
                Some(outer) => {
                    lemma_sem_degrade_ok(true, outer, *q, a, psize(*x));
                    match sem_degrade(true, outer, *q, a) {
                        Some(es) => {
                            lemma_evs_ok_mono(es, psize(*q) + 1, psize(p));
                        },
                        None => {},
                    }
                },
            }
        },
        PatS::UndegradeBy(x, q) => {
            lemma_sem_ok(*x, a);
            match sem(*x, a) {
                None => {},
                Some(outer) => {
                    lemma_sem_degrade_ok(false, outer, *q, a, psize(*x));
                    match sem_degrade(false, outer, *q, a) {
                        Some(es) => {
                            lemma_evs_ok_mono(es, psize(*q) + 1, psize(p));
                        },
                        None => {},
                    }
                },
            }
        },
        PatS::Off(tp, f, q) => {
            lemma_sem_ok(*tp, a);
            lemma_psize_pos(*tp);
            match sem(*tp, a) {
                None => {},
                Some(outer) => {
                    lemma_sem_off_ok(outer, f, *q, a, psize(*tp));
                    match sem_off(outer, f, *q, a) {
                        Some(es) => {
                            lemma_sort_evs_ok(es, psize(*q) + 2 * f.len() + 2);
                            lemma_evs_ok_mono(
                                sort_evs(es),
                                psize(*q) + 2 * f.len() + 2,
                                psize(p),
                            );
                        },
                        None => {},
                    }
                },
            }
        },
        PatS::InnerJoin(q) => {
            lemma_sem_ok(*q, a);
            match sem(*q, a) {
                None => {},
                Some(outer) => {
                    lemma_sem_ij_ok(outer, psize(*q), a);
                    match sem_ij(outer, psize(*q), a) {
                        Some(es) => {
                            lemma_evs_ok_mono(es, psize(*q), psize(p));
                        },
                        None => {},
                    }
                },
            }
        },
        PatS::ApplyLeft(op, l, r) => {
            lemma_sem_ok(*l, a);
            match sem(*l, a) {
                None => {},
                Some(ls) => {
                    lemma_sem_ok(*r, a);
                    match sem(*r, a) {
                        None => {},
                        Some(rs) => {
                            let n0 = psize(*l) + psize(*r);
                            lemma_evs_ok_mono(ls, psize(*l), n0);
                            lemma_evs_ok_mono(rs, psize(*r), n0);
                            lemma_afl_ok(op, ls, rs, None, n0);
                            lemma_evs_ok_mono(afl(op, ls, rs, None), n0, psize(p));
                        },
                    }
                },
            }
        },
        PatS::Sound(q) => {
            lemma_sem_ok(*q, a);
            match sem(*q, a) {
                None => {},
                Some(es) => {
                    assert forall|e: EventS|
                        ev_ok(e, psize(*q)) implies match #[trigger] sound_ev(e) {
                        Some(e2) => ev_ok(e2, psize(p)),
                        None => true,
                    } by {
                        lemma_sound_ev_ok(e, psize(*q));
                    }
                    lemma_filter_map_evs_ok(es, |e: EventS| sound_ev(e), psize(*q), psize(p));
                },
            }
        },
        PatS::Pan(q) => {
            lemma_sem_ok(*q, a);
            match sem(*q, a) {
                None => {},
                Some(es) => {
                    assert forall|e: EventS|
                        ev_ok(e, psize(*q)) implies match #[trigger] pan_ev(e) {
                        Some(e2) => ev_ok(e2, psize(p)),
                        None => true,
                    } by {
                        lemma_pan_ev_ok(e, psize(*q));
                    }
                    lemma_filter_map_evs_ok(es, |e: EventS| pan_ev(e), psize(*q), psize(p));
                },
            }
        },
    }
}

pub proof fn lemma_sem_list_ok(ps: Seq<PatS>, a: RArc)
    requires
        crate::pattern::pats_wf(ps),
        rarc_wf(a),
    ensures
        match sem_list(ps, a) {
            Some(es) => evs_ok(es, psize_list(ps) + 1),
            None => true,
        },
    decreases psize_list(ps), 1nat, 0nat,
{
    if ps.len() > 0 {
        assert(crate::pattern::pats_wf(ps.drop_last())) by {
            assert(forall|i: int|
                0 <= i < ps.len() - 1 ==> #[trigger] ps.drop_last()[i] == ps[i]);
        }
        lemma_psize_pos(ps.last());
        lemma_psize_elem(ps, ps.len() - 1);
        assert(psize_list(ps) == psize_list(ps.drop_last()) + psize(ps.last()));
        lemma_sem_list_ok(ps.drop_last(), a);
        assert(pat_wf(ps.last()));
        lemma_sem_ok(ps.last(), a);
        match sem_list(ps.drop_last(), a) {
            None => {},
            Some(pre) => {
                match sem(ps.last(), a) {
                    None => {},
                    Some(es) => {
                        lemma_evs_ok_mono(pre, psize_list(ps.drop_last()) + 1, psize_list(ps)
                            + 1);
                        lemma_evs_ok_mono(es, psize(ps.last()), psize_list(ps) + 1);
                    },
                }
            },
        }
    }
}

pub proof fn lemma_sem_cat_ok(ps: Seq<PatS>, subs: Seq<RArc>)
    requires
        crate::pattern::pats_wf(ps),
        forall|i: int| 0 <= i < subs.len() ==> rarc_wf(#[trigger] subs[i]),
    ensures
        match sem_cat(ps, subs) {
            Some(es) => evs_ok(es, psize_list(ps) + 1),
            None => true,
        },
    decreases psize_list(ps), 1nat, subs.len(),
{
    if ps.len() > 0 && subs.len() > 0 {
        assert(forall|i: int|
            0 <= i < subs.len() - 1 ==> #[trigger] subs.drop_last()[i] == subs[i]);
        lemma_sem_cat_ok(ps, subs.drop_last());
        match sem_cat(ps, subs.drop_last()) {
            None => {},
            Some(pre) => {
                let c = subs.last();
                assert(rarc_wf(c));
                let n = ps.len() as int;
                let cyc = rat_floor(c.s);
                let i = cyc % n;
                let off = cyc - ((cyc - i) / n);
                if i64::MIN as int <= off <= i64::MAX as int {
                    lemma_rat_int_wf(off);
                    match arc_osub(c, rat_int(off)) {
                        None => {},
                        Some(c2) => {
                            lemma_ops_wf(c.s, rat_int(off));
                            lemma_ops_wf(c.e, rat_int(off));
                            lemma_psize_elem(ps, i);
                            assert(pat_wf(ps[i]));
                            lemma_sem_ok(ps[i], c2);
                            match sem(ps[i], c2) {
                                None => {},
                                Some(es) => {
                                    assert forall|e: EventS|
                                        ev_ok(e, psize(ps[i])) implies match #[trigger] ev_add(
                                        rat_int(off),
                                        e,
                                    ) {
                                        Some(e2) => ev_ok(e2, psize_list(ps) + 1),
                                        None => true,
                                    } by {
                                        lemma_ev_add_ok(rat_int(off), e, psize(ps[i]));
                                        match ev_add(rat_int(off), e) {
                                            Some(e2) => {
                                                assert(ev_ok(e2, psize(ps[i])));
                                            },
                                            None => {},
                                        }
                                    }
                                    lemma_opt_map_evs_ok(
                                        es,
                                        |e: EventS| ev_add(rat_int(off), e),
                                        psize(ps[i]),
                                        psize_list(ps) + 1,
                                    );
                                },
                            }
                        },
                    }
                }
            },
        }
    }
}

pub proof fn lemma_sem_rev_ok(q: PatS, subs: Seq<RArc>)
    requires
        pat_wf(q),
        forall|i: int| 0 <= i < subs.len() ==> rarc_wf(#[trigger] subs[i]),
    ensures
        match sem_rev(q, subs) {
            Some(es) => evs_ok(es, psize(q) + 1),
            None => true,
        },
    decreases psize(q), 1nat, subs.len(),
{
    if subs.len() > 0 {
        assert(forall|i: int|
            0 <= i < subs.len() - 1 ==> #[trigger] subs.drop_last()[i] == subs[i]);
        lemma_sem_rev_ok(q, subs.drop_last());
        match sem_rev(q, subs.drop_last()) {
            None => {},
            Some(pre) => {
                let c = subs.last();
                assert(rarc_wf(c));
                lemma_rat_int_wf(rat_floor(c.s));
                crate::arcs::lemma_gcd_int(1);
                assert(rat_wf(rat(1, 2))) by {
                    lemma_half_wf();
                }
                lemma_ops_wf(rat_int(rat_floor(c.s)), rat(1, 2));
                match oadd(rat_int(rat_floor(c.s)), rat(1, 2)) {
                    None => {},
                    Some(mid) => {
                        lemma_mirror_arc_wf(mid, c);
                        match mirror_arc_o(mid, c) {
                            None => {},
                            Some(na) => {
                                lemma_sem_ok(q, na);
                                match sem(q, na) {
                                    None => {},
                                    Some(es) => {
                                        assert forall|e: EventS|
                                            ev_ok(e, psize(q)) implies match #[trigger] ev_mirror(
                                            mid,
                                            e,
                                        ) {
                                            Some(e2) => ev_ok(e2, psize(q) + 1),
                                            None => true,
                                        } by {
                                            lemma_ev_mirror_ok(mid, e, psize(q));
                                            match ev_mirror(mid, e) {
                                                Some(e2) => {
                                                    assert(ev_ok(e2, psize(q)));
                                                },
                                                None => {},
                                            }
                                        }
                                        lemma_opt_map_evs_ok(
                                            es,
                                            |e: EventS| ev_mirror(mid, e),
                                            psize(q),
                                            psize(q) + 1,
                                        );
                                        match opt_map_evs(es, |e: EventS| ev_mirror(mid, e)) {
                                            None => {},
                                            Some(ms) => {
                                                assert(evs_ok(ms.reverse(), psize(q) + 1)) by {
                                                    assert(forall|i: int|
                                                        0 <= i < ms.len()
                                                            ==> #[trigger] ms.reverse()[i]
                                                            == ms[ms.len() - 1 - i]);
                                                }
                                            },
                                        }
                                    },
                                }
                            },
                        }
                    },
                }
            },
        }
    }
}

/// One half, in lowest terms.
pub proof fn lemma_half_wf()
    ensures
        rat_wf(Rat { n: 1, d: 2 }),
        rat(1, 2) == (Rat { n: 1, d: 2 }),
{
    reveal_with_fuel(crate::time::gcd_n, 4);
    assert(1nat % 2nat == 1nat) by (nonlinear_arith);
    assert(2nat % 1nat == 0nat) by (nonlinear_arith);
    assert(crate::time::gcd_n(1, 2) == 1);
    crate::time::lemma_rat_of_wf(Rat { n: 1, d: 2 });
}

pub proof fn lemma_mirror_arc_wf(mid: Rat, c: RArc)
    requires
        rat_wf(mid),
        rarc_wf(c),
    ensures
        match mirror_arc_o(mid, c) {
            Some(na) => rarc_wf(na),
            None => true,
        },
{
    lemma_rat_int_wf(2);
    lemma_ops_wf(rat_int(2), mid);
    let m2 = rat_mul(rat_int(2), mid);
    if opt_fit(m2) is Some {
        lemma_ops_wf(m2, c.e);
        lemma_ops_wf(m2, c.s);
    }
}

pub proof fn lemma_sem_degrade_ok(
    keep_above: bool,
    outer: Seq<EventS>,
    q: PatS,
    a: RArc,
    n0: nat,
)
    requires
        pat_wf(q),
        rarc_wf(a),
        evs_ok(outer, n0),
    ensures
        match sem_degrade(keep_above, outer, q, a) {
            Some(es) => evs_ok(es, psize(q) + 1),
            None => true,
        },
    decreases psize(q), 1nat, outer.len(),
{
    if outer.len() > 0 {
        assert(forall|i: int|
            0 <= i < outer.len() - 1 ==> #[trigger] outer.drop_last()[i] == outer[i]);
        lemma_sem_degrade_ok(keep_above, outer.drop_last(), q, a, n0);
        let o = outer.last();
        assert(ev_ok(o, n0));
        match o.value {
            ValS::Rational(prob) => {
                lemma_restrict_wf(a, o.part);
                match restrict_arc(a, o.part) {
                    None => {},
                    Some(c) => {
                        lemma_sem_ok(q, c);
                        match sem(q, c) {
                            None => {},
                            Some(es) => {
                                lemma_evs_ok_mono(es, psize(q), psize(q) + 1);
                            },
                        }
                    },
                }
            },
            _ => {},
        }
    }
}

pub proof fn lemma_sem_off_ok(outer: Seq<EventS>, f: Seq<crate::pattern::XStepS>, q: PatS, a: RArc, n0: nat)
    requires
        pat_wf(q),
        xform_wf(f),
        rarc_wf(a),
        evs_ok(outer, n0),
    ensures
        match sem_off(outer, f, q, a) {
            Some(es) => evs_ok(es, psize(q) + 2 * f.len() + 2),
            None => true,
        },
    decreases psize(q) + 2 * f.len() + 1, 1nat, outer.len(),
{
    if outer.len() > 0 {
        assert(forall|i: int|
            0 <= i < outer.len() - 1 ==> #[trigger] outer.drop_last()[i] == outer[i]);
        lemma_sem_off_ok(outer.drop_last(), f, q, a, n0);
        let o = outer.last();
        assert(ev_ok(o, n0));
        match o.value {
            ValS::Rational(t) => {
                lemma_restrict_wf(a, o.part);
                match restrict_arc(a, o.part) {
                    None => {},
                    Some(c) => {
                        lemma_sem_ok(q, c);
                        let shifted = xform_apply_s(f, PatS::RotR(t, Box::new(q)));
                        assert(pat_wf(PatS::RotR(t, Box::new(q)))) by {
                            assert(val_wf(o.value));
                        }
                        lemma_xform_wf(f, PatS::RotR(t, Box::new(q)));
                        lemma_xform_size(f, PatS::RotR(t, Box::new(q)));
                        assert(psize(PatS::RotR(t, Box::new(q))) == psize(q) + 1);
                        lemma_sem_ok(shifted, c);
                        match sem(q, c) {
                            None => {},
                            Some(es1) => {
                                match sem(shifted, c) {
                                    None => {},
                                    Some(es2) => {
                                        lemma_evs_ok_mono(
                                            es1,
                                            psize(q),
                                            psize(q) + 2 * f.len() + 2,
                                        );
                                        lemma_evs_ok_mono(
                                            es2,
                                            psize(shifted),
                                            psize(q) + 2 * f.len() + 2,
                                        );
                                    },
                                }
                            },
                        }
                    },
                }
            },
            _ => {},
        }
    }
}

pub proof fn lemma_sem_ij_ok(outer: Seq<EventS>, bound: nat, a: RArc)
    requires
        rarc_wf(a),
        evs_ok(outer, bound),
    ensures
        match sem_ij(outer, bound, a) {
            Some(es) => evs_ok(es, bound),
            None => true,
        },
    decreases bound, 1nat, outer.len(),
{
    if outer.len() > 0 {
        assert(forall|i: int|
            0 <= i < outer.len() - 1 ==> #[trigger] outer.drop_last()[i] == outer[i]);
        lemma_sem_ij_ok(outer.drop_last(), bound, a);
        let o = outer.last();
        assert(ev_ok(o, bound));
        match o.value {
            ValS::Pat(q) => {
                assert(psize(*q) == val_size(o.value));
                if psize(*q) < bound {
                    lemma_restrict_wf(a, o.part);
                    match restrict_arc(a, o.part) {
                        None => {},
                        Some(c) => {
                            assert(pat_wf(*q)) by {
                                assert(val_wf(o.value));
                            }
                            lemma_sem_ok(*q, c);
                            match sem(*q, c) {
                                None => {},
                                Some(es) => {
                                    lemma_evs_ok_mono(es, psize(*q), bound);
                                },
                            }
                        },
                    }
                }
            },
            _ => {},
        }
    }
}

} // verus!
