//! Part containment: every event a query yields lies inside the query arc.

use vstd::prelude::*;
use vstd::seq_lib::group_to_multiset_ensures;
use crate::time::{
    Rat, rat, rat_add, rat_div, rat_int, rat_le, rat_lt, rat_mul, rat_sub, rat_wf, rat_floor,
    opt_fit, fits64, lemma_rat_repr, lemma_rat_of_wf, lemma_canon_unique, lemma_rat_le_frac,
};
use crate::arcs::{
    RArc, arc_cycles_o, arc_cycles_zw_o, lemma_floor_bounds, lemma_floor_mono, lemma_rat_int_wf,
    mirror_arc_o, mirror_pt_o, next_boundary, rarc_wf, sect_s, sub_arc_s,
};
use crate::value::{EventS, ValS, val_wf, val_size, ev_ok};
use crate::pattern::{PatS, pat_wf, psize, psize_list, xform_wf, lemma_psize_elem,
    lemma_psize_pos, xform_apply_s};
use crate::sem::{
    sem, sem_cat, sem_degrade, sem_ij, sem_list, sem_off, sem_rev, sort_evs, insert_ev, unit_ev,
    unit_evs, ev_add, ev_sub, ev_div, ev_mirror, opt_map_evs, filter_map_evs, restrict_arc,
    oadd, osub, omul, odiv, arc_omul, arc_oadd, arc_osub, afl, afl_consume, sound_ev, pan_ev,
};
use crate::shape::{evs_ok, lemma_sem_ok, lemma_le_shift, lemma_le_scale, lemma_ops_wf,
    lemma_evs_ok_mono, slice_ok, lemma_arc_cycles_zw_ok, lemma_half_wf};

verus! {

/// The event's visible part lies inside the arc.
pub open spec fn ev_in(e: EventS, a: RArc) -> bool {
    rat_le(a.s, e.part.s) && rat_le(e.part.e, a.e)
}

pub open spec fn evs_in(es: Seq<EventS>, a: RArc) -> bool {
    forall|i: int| 0 <= i < es.len() ==> ev_in(#[trigger] es[i], a)
}

/// An ordered arc: the queries the laws speak of.
pub open spec fn arc_ord(a: RArc) -> bool {
    rarc_wf(a) && rat_le(a.s, a.e)
}

// ---------------------------------------------------------------------------
// Order plumbing.
// ---------------------------------------------------------------------------

pub proof fn lemma_le_trans(x: Rat, y: Rat, z: Rat)
    requires
        x.d >= 1,
        y.d >= 1,
        z.d >= 1,
        rat_le(x, y),
        rat_le(y, z),
    ensures
        rat_le(x, z),
{
    assert(x.n * z.d <= z.n * x.d) by (nonlinear_arith)
        requires
            x.n * y.d <= y.n * x.d,
            y.n * z.d <= z.n * y.d,
            x.d >= 1,
            y.d >= 1,
            z.d >= 1,
    ;
}

/// A fraction whose raw form cross-multiplies equal to a canonical value
/// reduces to that value.
pub proof fn lemma_rat_eq_frac(x: Rat, n: int, d: int)
    requires
        rat_wf(x),
        d >= 1,
        x.n * d == n * x.d,
    ensures
        rat(n, d) == x,
{
    lemma_rat_repr(n, d);
    let w = rat(n, d);
    assert(w.n * x.d == x.n * w.d) by (nonlinear_arith)
        requires
            w.n * d == n * w.d,
            x.n * d == n * x.d,
            d >= 1,
            x.d >= 1,
            w.d >= 1,
    ;
    lemma_canon_unique(w, x);
}

/// Multiplying then dividing by the same non-zero factor returns the
/// value.
pub proof fn lemma_scale_cancel(x: Rat, r: Rat)
    requires
        rat_wf(x),
        rat_wf(r),
        r.n != 0,
    ensures
        rat_div(rat_mul(x, r), r) == x,
{
    let v = rat_mul(x, r);
    assert(x.d * r.d >= 1) by (nonlinear_arith)
        requires
            x.d >= 1,
            r.d >= 1,
    ;
    lemma_rat_repr(x.n * r.n, x.d * r.d);
    if r.n >= 1 {
        assert(v.d * r.n >= 1) by (nonlinear_arith)
            requires
                v.d >= 1,
                r.n >= 1,
        ;
        assert(x.n * (v.d * r.n) == (v.n * r.d) * x.d) by (nonlinear_arith)
            requires
                v.n * (x.d * r.d) == (x.n * r.n) * v.d,
                x.d >= 1,
                r.d >= 1,
                v.d >= 1,
        ;
        lemma_rat_eq_frac(x, v.n * r.d, v.d * r.n);
    } else {
        assert(-(v.d * r.n) >= 1) by (nonlinear_arith)
            requires
                v.d >= 1,
                r.n <= -1,
        ;
        assert(x.n * (-(v.d * r.n)) == (-(v.n * r.d)) * x.d) by (nonlinear_arith)
            requires
                v.n * (x.d * r.d) == (x.n * r.n) * v.d,
                x.d >= 1,
                r.d >= 1,
                v.d >= 1,
        ;
        lemma_rat_eq_frac(x, -(v.n * r.d), -(v.d * r.n));
        assert(rat(v.n * r.d, v.d * r.n) == rat(-(v.n * r.d), -(v.d * r.n)));
    }
}

/// Adding then subtracting the same offset returns the value, and the
/// mirror image of a mirror image is the value.
pub proof fn lemma_shift_cancel(x: Rat, t: Rat)
    requires
        rat_wf(x),
        rat_wf(t),
    ensures
        rat_sub(rat_add(x, t), t) == x,
        rat_add(rat_sub(x, t), t) == x,
        rat_sub(t, rat_sub(t, x)) == x,
{
    let v = rat_add(x, t);
    let u = rat_sub(x, t);
    let m = rat_sub(t, x);
    assert(x.d * t.d >= 1 && t.d * x.d >= 1) by (nonlinear_arith)
        requires
            x.d >= 1,
            t.d >= 1,
    ;
    lemma_rat_repr(x.n * t.d + t.n * x.d, x.d * t.d);
    lemma_rat_repr(x.n * t.d - t.n * x.d, x.d * t.d);
    lemma_rat_repr(t.n * x.d - x.n * t.d, t.d * x.d);
    assert(v.d * t.d >= 1 && u.d * t.d >= 1 && t.d * m.d >= 1) by (nonlinear_arith)
        requires
            v.d >= 1,
            u.d >= 1,
            m.d >= 1,
            t.d >= 1,
    ;
    assert(x.n * (v.d * t.d) == (v.n * t.d - t.n * v.d) * x.d) by (nonlinear_arith)
        requires
            v.n * (x.d * t.d) == (x.n * t.d + t.n * x.d) * v.d,
            x.d >= 1,
            t.d >= 1,
            v.d >= 1,
    ;
    lemma_rat_eq_frac(x, v.n * t.d - t.n * v.d, v.d * t.d);
    assert(x.n * (u.d * t.d) == (u.n * t.d + t.n * u.d) * x.d) by (nonlinear_arith)
        requires
            u.n * (x.d * t.d) == (x.n * t.d - t.n * x.d) * u.d,
            x.d >= 1,
            t.d >= 1,
            u.d >= 1,
    ;
    lemma_rat_eq_frac(x, u.n * t.d + t.n * u.d, u.d * t.d);
    assert(x.n * (t.d * m.d) == (t.n * m.d - m.n * t.d) * x.d) by (nonlinear_arith)
        requires
            m.n * (t.d * x.d) == (t.n * x.d - x.n * t.d) * m.d,
            x.d >= 1,
            t.d >= 1,
            m.d >= 1,
    ;
    lemma_rat_eq_frac(x, t.n * m.d - m.n * t.d, t.d * m.d);
}

// ---------------------------------------------------------------------------
// Arc plumbing.
// ---------------------------------------------------------------------------

/// Cycle slices lie inside the arc and are ordered.
pub proof fn lemma_slices_in(a: RArc)
    requires
        rarc_wf(a),
    ensures
        match arc_cycles_o(a) {
            Some(subs) => forall|i: int|
                0 <= i < subs.len() ==> rat_le(a.s, (#[trigger] subs[i]).s) && rat_le(
                    subs[i].e,
                    a.e,
                ) && rat_le(subs[i].s, subs[i].e) && rarc_wf(subs[i]),
            None => true,
        },
    decreases rat_floor(a.e) - rat_floor(a.s),
{
    if !rat_le(a.e, a.s) {
        assert(rat_le(a.s, a.e)) by (nonlinear_arith)
            requires
                !rat_le(a.e, a.s),
                a.s.d >= 1,
                a.e.d >= 1,
        ;
        lemma_floor_mono(a.s, a.e);
        lemma_floor_bounds(a.s);
        lemma_floor_bounds(a.e);
        lemma_rat_int_wf(rat_floor(a.s));
        lemma_rat_int_wf(rat_floor(a.s) + 1);
        if rat_floor(a.s) != rat_floor(a.e) {
            match next_boundary(a.s) {
                None => {},
                Some(b) => {
                    // the boundary lies between the ends
                    assert(rat_le(b, a.e)) by {
                        lemma_rat_le_frac(rat_floor(a.s) + 1, 1, rat_floor(a.e), 1);
                        lemma_rat_of_wf(b);
                        lemma_rat_of_wf(rat_int(rat_floor(a.e)));
                        assert(rat_le(rat_int(rat_floor(a.s) + 1), rat_int(rat_floor(a.e))));
                        lemma_le_trans(b, rat_int(rat_floor(a.e)), a.e);
                    }
                    assert(rat_le(a.s, b)) by {
                        assert(rat_lt(a.s, rat_int(rat_floor(a.s) + 1)));
                        assert(rat_le(a.s, b)) by (nonlinear_arith)
                            requires
                                rat_lt(a.s, b),
                                a.s.d >= 1,
                                b.d >= 1,
                        ;
                    }
                    lemma_slices_in(RArc { s: b, e: a.e });
                    if arc_cycles_o(RArc { s: b, e: a.e }) is Some {
                        let rest = arc_cycles_o(RArc { s: b, e: a.e }).unwrap();
                        let subs = arc_cycles_o(a).unwrap();
                        assert(subs == seq![RArc { s: a.s, e: b }] + rest);
                        assert forall|i: int|
                            0 <= i < subs.len() implies rat_le(
                            a.s,
                            (#[trigger] subs[i]).s,
                        ) && rat_le(subs[i].e, a.e) && rat_le(subs[i].s, subs[i].e)
                            && rarc_wf(subs[i]) by {
                            if i == 0 {
                                assert(subs[0] == (RArc { s: a.s, e: b }));
                            } else {
                                assert(subs[i] == rest[i - 1]);
                                assert(rat_le(b, rest[i - 1].s) && rat_le(
                                    rest[i - 1].e,
                                    a.e,
                                ) && rat_le(rest[i - 1].s, rest[i - 1].e) && rarc_wf(
                                    rest[i - 1],
                                ));
                                lemma_le_trans(a.s, b, rest[i - 1].s);
                            }
                        }
                    }
                },
            }
        }
    }
}

pub proof fn lemma_slices_zw_in(a: RArc)
    requires
        arc_ord(a),
    ensures
        match arc_cycles_zw_o(a) {
            Some(subs) => forall|i: int|
                0 <= i < subs.len() ==> rat_le(a.s, (#[trigger] subs[i]).s) && rat_le(
                    subs[i].e,
                    a.e,
                ) && rat_le(subs[i].s, subs[i].e) && rarc_wf(subs[i]),
            None => true,
        },
{
    if a.s == a.e {
    } else {
        lemma_slices_in(a);
    }
}

/// The restriction of a query by an outer event lies inside the query and
/// is ordered.
pub proof fn lemma_restrict_in(a: RArc, part: RArc)
    requires
        rarc_wf(a),
        rarc_wf(part),
    ensures
        match restrict_arc(a, part) {
            Some(c) => rat_le(a.s, c.s) && rat_le(c.e, a.e) && rat_le(c.s, c.e) && rarc_wf(c),
            None => true,
        },
{
    match sub_arc_s(a, part) {
        None => {},
        Some(b) => {
            match sub_arc_s(b, a) {
                None => {},
                Some(c) => {
                    assert(c == sect_s(b, a));
                    assert(rat_le(a.s, c.s)) by {
                        if rat_le(b.s, a.s) {
                            assert(rat_le(a.s, a.s)) by (nonlinear_arith)
                                requires
                                    a.s.d >= 1,
                            ;
                        }
                    }
                    assert(rat_le(c.e, a.e)) by {
                        if !rat_le(b.e, a.e) {
                            assert(rat_le(a.e, a.e)) by (nonlinear_arith)
                                requires
                                    a.e.d >= 1,
                            ;
                        }
                    }
                },
            }
        },
    }
}

// ---------------------------------------------------------------------------
// Per-sequence plumbing.
// ---------------------------------------------------------------------------

proof fn lemma_sort_evs_in(s: Seq<EventS>, a: RArc)
    requires
        evs_in(s, a),
    ensures
        evs_in(sort_evs(s), a),
    decreases s.len(),
{
    if s.len() > 0 {
        assert(evs_in(s.drop_last(), a)) by {
            assert(forall|i: int| 0 <= i < s.len() - 1 ==> #[trigger] s.drop_last()[i] == s[i]);
        }
        lemma_sort_evs_in(s.drop_last(), a);
        assert(ev_in(s.last(), a));
        lemma_insert_ev_in(s.last(), sort_evs(s.drop_last()), a);
    }
}

proof fn lemma_insert_ev_in(e: EventS, s: Seq<EventS>, a: RArc)
    requires
        ev_in(e, a),
        evs_in(s, a),
    ensures
        evs_in(insert_ev(e, s), a),
    decreases s.len(),
{
    if s.len() > 0 && rat_lt(e.part.s, s.last().part.s) {
        assert(evs_in(s.drop_last(), a)) by {
            assert(forall|i: int| 0 <= i < s.len() - 1 ==> #[trigger] s.drop_last()[i] == s[i]);
        }
        lemma_insert_ev_in(e, s.drop_last(), a);
        assert(ev_in(s.last(), a));
    }
}

// ---------------------------------------------------------------------------
// Sequence plumbing.
// ---------------------------------------------------------------------------

/// Index form of a checked map.
pub proof fn lemma_opt_map_index_pub(s: Seq<EventS>, f: spec_fn(EventS) -> Option<EventS>)
    ensures
        match opt_map_evs(s, f) {
            Some(r) => r.len() == s.len() && forall|j: int|
                0 <= j < s.len() ==> #[trigger] f(s[j]) == Some(r[j]),
            None => true,
        },
    decreases s.len(),
{
    if s.len() > 0 {
        lemma_opt_map_index_pub(s.drop_last(), f);
        match opt_map_evs(s, f) {
            Some(r) => {
                let pre = opt_map_evs(s.drop_last(), f).unwrap();
                assert forall|j: int| 0 <= j < s.len() implies #[trigger] f(s[j]) == Some(
                    r[j],
                ) by {
                    if j < s.len() - 1 {
                        assert(s.drop_last()[j] == s[j]);
                        assert(f(s.drop_last()[j]) == Some(pre[j]));
                        assert(r[j] == pre[j]);
                    } else {
                        assert(s[j] == s.last());
                        assert(r[j] == r.last());
                    }
                }
            },
            None => {},
        }
    }
}

/// A dropped-element map keeps any per-event fact its transform keeps.
proof fn lemma_filter_map_pred(
    s: Seq<EventS>,
    f: spec_fn(EventS) -> Option<EventS>,
    pred: spec_fn(EventS) -> bool,
)
    requires
        forall|j: int|
            0 <= j < s.len() ==> match #[trigger] f(s[j]) {
                Some(e2) => pred(e2),
                None => true,
            },
    ensures
        forall|j: int| 0 <= j < filter_map_evs(s, f).len() ==> pred(#[trigger] filter_map_evs(s, f)[j]),
    decreases s.len(),
{
    if s.len() > 0 {
        assert(forall|j: int| 0 <= j < s.len() - 1 ==> #[trigger] s.drop_last()[j] == s[j]);
        lemma_filter_map_pred(s.drop_last(), f, pred);
        assert(f(s[s.len() - 1]) == f(s.last()));
        let out = filter_map_evs(s, f);
        let pre = filter_map_evs(s.drop_last(), f);
        assert forall|j: int| 0 <= j < out.len() implies pred(#[trigger] out[j]) by {
            match f(s.last()) {
                Some(e2) => {
                    if j < pre.len() {
                        assert(out[j] == pre[j]);
                    } else {
                        assert(out[j] == e2);
                    }
                },
                None => {
                    assert(out[j] == pre[j]);
                },
            }
        }
    }
}

/// A filter keeps any per-event fact.
proof fn lemma_filter_pred(s: Seq<EventS>, keep: spec_fn(EventS) -> bool, pred: spec_fn(EventS) -> bool)
    requires
        forall|j: int| 0 <= j < s.len() ==> pred(#[trigger] s[j]),
    ensures
        forall|j: int|
            0 <= j < s.filter(keep).len() ==> pred(#[trigger] s.filter(keep)[j]),
    decreases s.len(),
{
    reveal(Seq::filter);
    if s.len() > 0 {
        assert(forall|j: int| 0 <= j < s.len() - 1 ==> #[trigger] s.drop_last()[j] == s[j]);
        lemma_filter_pred(s.drop_last(), keep, pred);
        let out = s.filter(keep);
        let pre = s.drop_last().filter(keep);
        assert forall|j: int| 0 <= j < out.len() implies pred(#[trigger] out[j]) by {
            if keep(s.last()) {
                if j < pre.len() {
                    assert(out[j] == pre[j]);
                } else {
                    assert(out[j] == s.last());
                }
            } else {
                assert(out[j] == pre[j]);
            }
        }
    }
}

/// The pairing emits at left timings: containment carries over from the
/// left events.
proof fn lemma_afl_in(
    op: crate::pattern::CombineOp,
    ls: Seq<EventS>,
    rs: Seq<EventS>,
    cur: Option<EventS>,
    a: RArc,
)
    requires
        evs_in(ls, a),
    ensures
        evs_in(afl(op, ls, rs, cur), a),
    decreases ls.len(),
{
    if ls.len() > 0 {
        let l = ls.first();
        assert(ev_in(ls[0], a));
        let cur1 = match cur {
            Some(c) => if rat_lt(l.part.e, c.part.s) {
                None
            } else {
                Some(c)
            },
            None => None,
        };
        let (cur2, rs2) = afl_consume(rs, l.part.s, cur1);
        assert(evs_in(ls.drop_first(), a)) by {
            assert(forall|i: int|
                0 <= i < ls.len() - 1 ==> #[trigger] ls.drop_first()[i] == ls[i + 1]);
        }
        lemma_afl_in(op, ls.drop_first(), rs2, cur2, a);
        let out = afl(op, ls, rs, cur);
        let rest = afl(op, ls.drop_first(), rs2, cur2);
        assert forall|j: int| 0 <= j < out.len() implies ev_in(#[trigger] out[j], a) by {
            match cur2 {
                Some(c) => {
                    if j == 0 {
                    } else {
                        assert(out[j] == rest[j - 1]);
                    }
                },
                None => {
                    assert(out[j] == rest[j]);
                },
            }
        }
    }
}

// ---------------------------------------------------------------------------
// The containment induction.
// ---------------------------------------------------------------------------

/// Every event of every query lies inside the arc it was queried with.
#[verifier::rlimit(100)]
pub proof fn lemma_sem_in(p: PatS, a: RArc)
    requires
        pat_wf(p),
        arc_ord(a),
    ensures
        match sem(p, a) {
            Some(es) => evs_in(es, a),
            None => true,
        },
    decreases psize(p), 0nat, 0nat,
{
    lemma_sem_ok(p, a);
    match p {
        PatS::Silence => {},
        PatS::Unit(v) => {
            lemma_slices_zw_in(a);
            match arc_cycles_zw_o(a) {
                None => {},
                Some(subs) => {
                    lemma_unit_evs_in(v, subs, a);
                },
            }
        },
        PatS::Fast(r, q) => {
            if r.n > 0 {
                lemma_fast_in(r, *q, a);
            }
        },
        PatS::Stack(ps) => {
            lemma_sem_list_in(ps, a);
            match sem_list(ps, a) {
                None => {},
                Some(es) => {
                    lemma_sort_evs_in(es, a);
                },
            }
        },
        PatS::Cat(ps) => {
            if ps.len() > 0 && !(ps.len() > i64::MAX as int) {
                lemma_slices_zw_in(a);
                match arc_cycles_zw_o(a) {
                    None => {},
                    Some(subs) => {
                        lemma_sem_cat_in(ps, subs, a);
                    },
                }
            }
        },
        PatS::Rev(q) => {
            lemma_slices_zw_in(a);
            match arc_cycles_zw_o(a) {
                None => {},
                Some(subs) => {
                    lemma_sem_rev_in(*q, subs, a);
                    match sem_rev(*q, subs) {
                        None => {},
                        Some(es) => {
                            lemma_sort_evs_in(es, a);
                        },
                    }
                },
            }
        },
        PatS::RotL(t, q) => {
            lemma_rot_in(t, *q, a, true);
        },
        PatS::RotR(t, q) => {
            lemma_rot_in(t, *q, a, false);
        },
        PatS::FilterWhen(c, q) => {
            lemma_sem_in(*q, a);
            match sem(*q, a) {
                None => {},
                Some(es) => {
                    lemma_filter_pred(
                        es,
                        |e: EventS| crate::sem::time_pred_holds(c, e),
                        |e: EventS| ev_in(e, a),
                    );
                },
            }
        },
        PatS::FilterVals(c, q) => {
            lemma_sem_in(*q, a);
            match sem(*q, a) {
                None => {},
                Some(es) => {
                    lemma_filter_pred(
                        es,
                        |e: EventS| crate::sem::val_pred_holds(c, e.value),
                        |e: EventS| ev_in(e, a),
                    );
                },
            }
        },
        PatS::DegradeBy(x, q) => {
            match sem(*x, a) {
                None => {},
                Some(outer) => {
                    lemma_sem_ok(*x, a);
                    lemma_sem_degrade_in(true, outer, *q, a, psize(*x));
                },
            }
        },
        PatS::UndegradeBy(x, q) => {
            match sem(*x, a) {
                None => {},
                Some(outer) => {
                    lemma_sem_ok(*x, a);
                    lemma_sem_degrade_in(false, outer, *q, a, psize(*x));
                },
            }
        },
        PatS::Off(tp, f, q) => {
            lemma_psize_pos(*tp);
            match sem(*tp, a) {
                None => {},
                Some(outer) => {
                    lemma_sem_ok(*tp, a);
                    lemma_sem_off_in(outer, f, *q, a, psize(*tp));
                    match sem_off(outer, f, *q, a) {
                        None => {},
                        Some(es) => {
                            lemma_sort_evs_in(es, a);
                        },
                    }
                },
            }
        },
        PatS::InnerJoin(q) => {
            match sem(*q, a) {
                None => {},
                Some(outer) => {
                    lemma_sem_ok(*q, a);
                    lemma_sem_ij_in(outer, psize(*q), a);
                },
            }
        },
        PatS::ApplyLeft(op, l, r) => {
            lemma_sem_in(*l, a);
            match sem(*l, a) {
                None => {},
                Some(ls) => {
                    match sem(*r, a) {
                        None => {},
                        Some(rs) => {
                            lemma_afl_in(op, ls, rs, None, a);
                        },
                    }
                },
            }
        },
        PatS::Sound(q) => {
            lemma_sem_in(*q, a);
            match sem(*q, a) {
                None => {},
                Some(es) => {
                    assert forall|j: int|
                        0 <= j < es.len() implies match #[trigger] sound_ev(es[j]) {
                        Some(e2) => ev_in(e2, a),
                        None => true,
                    } by {
                        assert(ev_in(es[j], a));
                    }
                    lemma_filter_map_pred(
                        es,
                        |e: EventS| sound_ev(e),
                        |e: EventS| ev_in(e, a),
                    );
                },
            }
        },
        PatS::Pan(q) => {
            lemma_sem_in(*q, a);
            match sem(*q, a) {
                None => {},
                Some(es) => {
                    assert forall|j: int|
                        0 <= j < es.len() implies match #[trigger] pan_ev(es[j]) {
                        Some(e2) => ev_in(e2, a),
                        None => true,
                    } by {
                        assert(ev_in(es[j], a));
                    }
                    lemma_filter_map_pred(es, |e: EventS| pan_ev(e), |e: EventS| ev_in(e, a));
                },
            }
        },
    }
}


/// Containment through a positive time scaling.
proof fn lemma_fast_in(r: Rat, q: PatS, a: RArc)
    requires
        rat_wf(r),
        r.n > 0,
        pat_wf(q),
        arc_ord(a),
    ensures
        match sem(PatS::Fast(r, Box::new(q)), a) {
            Some(es) => evs_in(es, a),
            None => true,
        },
    decreases psize(q), 2nat, 0nat,
{
    match arc_omul(a, r) {
        None => {},
        Some(a2) => {
            assert(a2.s == rat_mul(a.s, r) && a2.e == rat_mul(a.e, r));
            lemma_le_scale(a.s, a.e, r);
            lemma_ops_wf(a.s, r);
            lemma_ops_wf(a.e, r);
            lemma_sem_in(q, a2);
            lemma_sem_ok(q, a2);
            match sem(q, a2) {
                None => {},
                Some(es) => {
                    let f = |e: EventS| ev_div(r, e);
                    lemma_opt_map_index_pub(es, f);
                    match opt_map_evs(es, f) {
                        None => {},
                        Some(out) => {
                            assert forall|j: int|
                                0 <= j < out.len() implies ev_in(#[trigger] out[j], a) by {
                                assert(f(es[j]) == Some(out[j]));
                                assert(ev_in(es[j], a2));
                                assert(ev_ok(es[j], psize(q)));
                                lemma_le_scale(a2.s, es[j].part.s, r);
                                lemma_le_scale(es[j].part.e, a2.e, r);
                                lemma_scale_cancel(a.s, r);
                                lemma_scale_cancel(a.e, r);
                                assert(out[j].part.s == rat_div(es[j].part.s, r));
                                assert(out[j].part.e == rat_div(es[j].part.e, r));
                            }
                        },
                    }
                },
            }
        },
    }
}

/// Containment through a rotation, either direction.
proof fn lemma_rot_in(t: Rat, q: PatS, a: RArc, left: bool)
    requires
        rat_wf(t),
        pat_wf(q),
        arc_ord(a),
    ensures
        left ==> match sem(PatS::RotL(t, Box::new(q)), a) {
            Some(es) => evs_in(es, a),
            None => true,
        },
        !left ==> match sem(PatS::RotR(t, Box::new(q)), a) {
            Some(es) => evs_in(es, a),
            None => true,
        },
    decreases psize(q), 2nat, 0nat,
{
    if left {
        match arc_oadd(a, t) {
            None => {},
            Some(a2) => {
                assert(a2.s == rat_add(a.s, t) && a2.e == rat_add(a.e, t));
                lemma_le_shift(a.s, a.e, t);
                lemma_ops_wf(a.s, t);
                lemma_ops_wf(a.e, t);
                lemma_sem_in(q, a2);
                lemma_sem_ok(q, a2);
                match sem(q, a2) {
                    None => {},
                    Some(es) => {
                        let f = |e: EventS| ev_sub(t, e);
                        lemma_opt_map_index_pub(es, f);
                        match opt_map_evs(es, f) {
                            None => {},
                            Some(out) => {
                                assert forall|j: int|
                                    0 <= j < out.len() implies ev_in(#[trigger] out[j], a) by {
                                    assert(f(es[j]) == Some(out[j]));
                                    assert(ev_in(es[j], a2));
                                    assert(ev_ok(es[j], psize(q)));
                                    lemma_le_shift(a2.s, es[j].part.s, t);
                                    lemma_le_shift(es[j].part.e, a2.e, t);
                                    lemma_shift_cancel(a.s, t);
                                    lemma_shift_cancel(a.e, t);
                                    assert(out[j].part.s == rat_sub(es[j].part.s, t));
                                    assert(out[j].part.e == rat_sub(es[j].part.e, t));
                                }
                            },
                        }
                    },
                }
            },
        }
    } else {
        match arc_osub(a, t) {
            None => {},
            Some(a2) => {
                assert(a2.s == rat_sub(a.s, t) && a2.e == rat_sub(a.e, t));
                lemma_le_shift(a.s, a.e, t);
                lemma_ops_wf(a.s, t);
                lemma_ops_wf(a.e, t);
                lemma_sem_in(q, a2);
                lemma_sem_ok(q, a2);
                match sem(q, a2) {
                    None => {},
                    Some(es) => {
                        let f = |e: EventS| ev_add(t, e);
                        lemma_opt_map_index_pub(es, f);
                        match opt_map_evs(es, f) {
                            None => {},
                            Some(out) => {
                                assert forall|j: int|
                                    0 <= j < out.len() implies ev_in(#[trigger] out[j], a) by {
                                    assert(f(es[j]) == Some(out[j]));
                                    assert(ev_in(es[j], a2));
                                    assert(ev_ok(es[j], psize(q)));
                                    lemma_le_shift(a2.s, es[j].part.s, t);
                                    lemma_le_shift(es[j].part.e, a2.e, t);
                                    lemma_shift_cancel(a.s, t);
                                    lemma_shift_cancel(a.e, t);
                                    assert(out[j].part.s == rat_add(es[j].part.s, t));
                                    assert(out[j].part.e == rat_add(es[j].part.e, t));
                                }
                            },
                        }
                    },
                }
            },
        }
    }
}

proof fn lemma_unit_evs_in(v: ValS, subs: Seq<RArc>, a: RArc)
    requires
        forall|i: int|
            0 <= i < subs.len() ==> rat_le(a.s, (#[trigger] subs[i]).s) && rat_le(
                subs[i].e,
                a.e,
            ),
    ensures
        match unit_evs(v, subs) {
            Some(es) => evs_in(es, a),
            None => true,
        },
    decreases subs.len(),
{
    if subs.len() > 0 {
        assert(forall|i: int|
            0 <= i < subs.len() - 1 ==> #[trigger] subs.drop_last()[i] == subs[i]);
        lemma_unit_evs_in(v, subs.drop_last(), a);
        let c = subs.last();
        assert(rat_le(a.s, c.s) && rat_le(c.e, a.e));
    }
}

proof fn lemma_sem_list_in(ps: Seq<PatS>, a: RArc)
    requires
        crate::pattern::pats_wf(ps),
        arc_ord(a),
    ensures
        match sem_list(ps, a) {
            Some(es) => evs_in(es, a),
            None => true,
        },
    decreases psize_list(ps), 1nat, 0nat,
{
    if ps.len() > 0 {
        assert(crate::pattern::pats_wf(ps.drop_last())) by {
            assert(forall|i: int|
                0 <= i < ps.len() - 1 ==> #[trigger] ps.drop_last()[i] == ps[i]);
        }
        lemma_psize_pos(ps.last());
        lemma_psize_elem(ps, ps.len() - 1);
        lemma_sem_list_in(ps.drop_last(), a);
        assert(pat_wf(ps.last()));
        lemma_sem_in(ps.last(), a);
    }
}

proof fn lemma_sem_cat_in(ps: Seq<PatS>, subs: Seq<RArc>, a: RArc)
    requires
        crate::pattern::pats_wf(ps),
        forall|i: int|
            0 <= i < subs.len() ==> rat_le(a.s, (#[trigger] subs[i]).s) && rat_le(
                subs[i].e,
                a.e,
            ) && rat_le(subs[i].s, subs[i].e) && rarc_wf(subs[i]),
        rarc_wf(a),
    ensures
        match sem_cat(ps, subs) {
            Some(es) => evs_in(es, a),
            None => true,
        },
    decreases psize_list(ps), 1nat, subs.len(),
{
    if ps.len() > 0 && subs.len() > 0 {
        assert(forall|i: int|
            0 <= i < subs.len() - 1 ==> #[trigger] subs.drop_last()[i] == subs[i]);
        lemma_sem_cat_in(ps, subs.drop_last(), a);
        let c = subs.last();
        assert(rat_le(a.s, c.s) && rat_le(c.e, a.e) && rat_le(c.s, c.e) && rarc_wf(c));
        let n = ps.len() as int;
        let cyc = rat_floor(c.s);
        let i = cyc % n;
        let off = cyc - ((cyc - i) / n);
        if i64::MIN as int <= off <= i64::MAX as int {
            lemma_rat_int_wf(off);
            match arc_osub(c, rat_int(off)) {
                None => {},
                Some(c2) => {
                    assert(c2.s == rat_sub(c.s, rat_int(off)) && c2.e == rat_sub(
                        c.e,
                        rat_int(off),
                    ));
                    lemma_le_shift(c.s, c.e, rat_int(off));
                    lemma_ops_wf(c.s, rat_int(off));
                    lemma_ops_wf(c.e, rat_int(off));
                    lemma_psize_elem(ps, i);
                    assert(pat_wf(ps[i]));
                    lemma_sem_in(ps[i], c2);
                    lemma_sem_ok(ps[i], c2);
                    match sem(ps[i], c2) {
                        None => {},
                        Some(es) => {
                            let f = |e: EventS| ev_add(rat_int(off), e);
                            lemma_opt_map_index_pub(es, f);
                            match opt_map_evs(es, f) {
                                None => {},
                                Some(out) => {
                                    assert forall|j: int|
                                        0 <= j < out.len() implies ev_in(#[trigger] out[j], a) by {
                                        assert(f(es[j]) == Some(out[j]));
                                        assert(ev_in(es[j], c2));
                                        assert(ev_ok(es[j], psize(ps[i])));
                                        lemma_le_shift(c2.s, es[j].part.s, rat_int(off));
                                        lemma_le_shift(es[j].part.e, c2.e, rat_int(off));
                                        lemma_shift_cancel(c.s, rat_int(off));
                                        lemma_shift_cancel(c.e, rat_int(off));
                                        assert(out[j].part.s == rat_add(
                                            es[j].part.s,
                                            rat_int(off),
                                        ));
                                        assert(out[j].part.e == rat_add(
                                            es[j].part.e,
                                            rat_int(off),
                                        ));
                                        lemma_ops_wf(es[j].part.s, rat_int(off));
                                        lemma_ops_wf(es[j].part.e, rat_int(off));
                                        lemma_le_trans(a.s, c.s, out[j].part.s);
                                        lemma_le_trans(out[j].part.e, c.e, a.e);
                                    }
                                },
                            }
                        },
                    }
                },
            }
        }
    }
}

proof fn lemma_sem_rev_in(q: PatS, subs: Seq<RArc>, a: RArc)
    requires
        pat_wf(q),
        forall|i: int|
            0 <= i < subs.len() ==> rat_le(a.s, (#[trigger] subs[i]).s) && rat_le(
                subs[i].e,
                a.e,
            ) && rat_le(subs[i].s, subs[i].e) && rarc_wf(subs[i]),
        rarc_wf(a),
    ensures
        match sem_rev(q, subs) {
            Some(es) => evs_in(es, a),
            None => true,
        },
    decreases psize(q), 1nat, subs.len(),
{
    if subs.len() > 0 {
        assert(forall|i: int|
            0 <= i < subs.len() - 1 ==> #[trigger] subs.drop_last()[i] == subs[i]);
        lemma_sem_rev_in(q, subs.drop_last(), a);
        let c = subs.last();
        assert(rat_le(a.s, c.s) && rat_le(c.e, a.e) && rat_le(c.s, c.e) && rarc_wf(c));
        lemma_rat_int_wf(rat_floor(c.s));
        lemma_half_wf();
        lemma_ops_wf(rat_int(rat_floor(c.s)), rat(1, 2));
        match oadd(rat_int(rat_floor(c.s)), rat(1, 2)) {
            None => {},
            Some(mid) => {
                lemma_rat_int_wf(2);
                lemma_ops_wf(rat_int(2), mid);
                let m2 = rat_mul(rat_int(2), mid);
                match mirror_arc_o(mid, c) {
                    None => {},
                    Some(na) => {
                        assert(na.s == rat_sub(m2, c.e) && na.e == rat_sub(m2, c.s));
                        lemma_le_shift(c.s, c.e, m2);
                        lemma_ops_wf(m2, c.s);
                        lemma_ops_wf(m2, c.e);
                        lemma_sem_in(q, na);
                        lemma_sem_ok(q, na);
                        match sem(q, na) {
                            None => {},
                            Some(es) => {
                                let f = |e: EventS| crate::sem::ev_mirror(mid, e);
                                lemma_opt_map_index_pub(es, f);
                                match opt_map_evs(es, f) {
                                    None => {},
                                    Some(ms) => {
                                        assert forall|j: int|
                                            0 <= j < ms.len() implies ev_in(
                                            #[trigger] ms[j],
                                            c,
                                        ) by {
                                            assert(f(es[j]) == Some(ms[j]));
                                            assert(ev_in(es[j], na));
                                            assert(ev_ok(es[j], psize(q)));
                                            let ps_ = es[j].part.s;
                                            let pe_ = es[j].part.e;
                                            assert(ms[j].part.s == rat_sub(m2, pe_)
                                                && ms[j].part.e == rat_sub(m2, ps_));
                                            lemma_le_shift(na.s, ps_, m2);
                                            lemma_le_shift(pe_, na.e, m2);
                                            lemma_shift_cancel(c.s, m2);
                                            lemma_shift_cancel(c.e, m2);
                                        }
                                        assert forall|j: int|
                                            0 <= j < ms.reverse().len() implies ev_in(
                                            #[trigger] ms.reverse()[j],
                                            a,
                                        ) by {
                                            assert(ms.reverse()[j] == ms[ms.len() - 1 - j]);
                                            assert(ev_in(ms[ms.len() - 1 - j], c));
                                            assert(f(es[ms.len() - 1 - j]) == Some(
                                                ms[ms.len() - 1 - j],
                                            ));
                                            crate::shape::lemma_ev_mirror_ok(
                                                mid,
                                                es[ms.len() - 1 - j],
                                                psize(q),
                                            );
                                            lemma_le_trans(
                                                a.s,
                                                c.s,
                                                ms[ms.len() - 1 - j].part.s,
                                            );
                                            lemma_le_trans(
                                                ms[ms.len() - 1 - j].part.e,
                                                c.e,
                                                a.e,
                                            );
                                        }
                                    },
                                }
                            },
                        }
                    },
                }
            },
        }
    }
}

proof fn lemma_sem_degrade_in(keep_above: bool, outer: Seq<EventS>, q: PatS, a: RArc, n0: nat)
    requires
        pat_wf(q),
        arc_ord(a),
        evs_ok(outer, n0),
    ensures
        match sem_degrade(keep_above, outer, q, a) {
            Some(es) => evs_in(es, a),
            None => true,
        },
    decreases psize(q), 1nat, outer.len(),
{
    if outer.len() > 0 {
        assert(forall|i: int|
            0 <= i < outer.len() - 1 ==> #[trigger] outer.drop_last()[i] == outer[i]);
        lemma_sem_degrade_in(keep_above, outer.drop_last(), q, a, n0);
        let o = outer.last();
        assert(ev_ok(o, n0));
        match o.value {
            ValS::Rational(prob) => {
                lemma_restrict_in(a, o.part);
                match restrict_arc(a, o.part) {
                    None => {},
                    Some(c) => {
                        lemma_sem_in(q, c);
                        match sem(q, c) {
                            None => {},
                            Some(es) => {
                                assert forall|j: int|
                                    0 <= j < es.len() implies ev_in(#[trigger] es[j], a) by {
                                    assert(ev_in(es[j], c));
                                    lemma_sem_ok(q, c);
                                    assert(ev_ok(es[j], psize(q)));
                                    lemma_le_trans(a.s, c.s, es[j].part.s);
                                    lemma_le_trans(es[j].part.e, c.e, a.e);
                                }
                            },
                        }
                    },
                }
            },
            _ => {},
        }
    }
}

proof fn lemma_sem_off_in(outer: Seq<EventS>, f: Seq<crate::pattern::XStepS>, q: PatS, a: RArc, n0: nat)
    requires
        pat_wf(q),
        xform_wf(f),
        arc_ord(a),
        evs_ok(outer, n0),
    ensures
        match sem_off(outer, f, q, a) {
            Some(es) => evs_in(es, a),
            None => true,
        },
    decreases psize(q) + 2 * f.len() + 1, 1nat, outer.len(),
{
    if outer.len() > 0 {
        assert(forall|i: int|
            0 <= i < outer.len() - 1 ==> #[trigger] outer.drop_last()[i] == outer[i]);
        lemma_sem_off_in(outer.drop_last(), f, q, a, n0);
        let o = outer.last();
        assert(ev_ok(o, n0));
        match o.value {
            ValS::Rational(t) => {
                lemma_restrict_in(a, o.part);
                match restrict_arc(a, o.part) {
                    None => {},
                    Some(c) => {
                        let shifted = xform_apply_s(f, PatS::RotR(t, Box::new(q)));
                        lemma_sem_in(q, c);
                        lemma_sem_ok(q, c);
                        if rat_wf(t) {
                            crate::pattern::lemma_xform_wf(f, PatS::RotR(t, Box::new(q)));
                        }
                        crate::pattern::lemma_xform_size(f, PatS::RotR(t, Box::new(q)));
                        if pat_wf(shifted) {
                            lemma_sem_in(shifted, c);
                            lemma_sem_ok(shifted, c);
                        }
                        match sem(q, c) {
                            None => {},
                            Some(es1) => {
                                match sem(shifted, c) {
                                    None => {},
                                    Some(es2) => {
                                        assert forall|j: int|
                                            0 <= j < es1.len() implies ev_in(
                                            #[trigger] es1[j],
                                            a,
                                        ) by {
                                            assert(ev_in(es1[j], c));
                                            assert(ev_ok(es1[j], psize(q)));
                                            lemma_le_trans(a.s, c.s, es1[j].part.s);
                                            lemma_le_trans(es1[j].part.e, c.e, a.e);
                                        }
                                        if pat_wf(shifted) {
                                            assert forall|j: int|
                                                0 <= j < es2.len() implies ev_in(
                                                #[trigger] es2[j],
                                                a,
                                            ) by {
                                                assert(ev_in(es2[j], c));
                                                assert(ev_ok(es2[j], psize(shifted)));
                                                lemma_le_trans(a.s, c.s, es2[j].part.s);
                                                lemma_le_trans(es2[j].part.e, c.e, a.e);
                                            }
                                        }
                                    },
                                }
                            },
                        }
                    },
                }
            },
            _ => {},
        }
    }
}

proof fn lemma_sem_ij_in(outer: Seq<EventS>, bound: nat, a: RArc)
    requires
        evs_ok(outer, bound),
        arc_ord(a),
    ensures
        match sem_ij(outer, bound, a) {
            Some(es) => evs_in(es, a),
            None => true,
        },
    decreases bound, 1nat, outer.len(),
{
    if outer.len() > 0 {
        assert(forall|i: int|
            0 <= i < outer.len() - 1 ==> #[trigger] outer.drop_last()[i] == outer[i]);
        lemma_sem_ij_in(outer.drop_last(), bound, a);
        let o = outer.last();
        assert(ev_ok(o, bound));
        match o.value {
            ValS::Pat(q) => {
                if psize(*q) < bound {
                    lemma_restrict_in(a, o.part);
                    match restrict_arc(a, o.part) {
                        None => {},
                        Some(c) => {
                            assert(pat_wf(*q)) by {
                                assert(val_wf(o.value));
                            }
                            lemma_sem_in(*q, c);
                            lemma_sem_ok(*q, c);
                            match sem(*q, c) {
                                None => {},
                                Some(es) => {
                                    assert forall|j: int|
                                        0 <= j < es.len() implies ev_in(#[trigger] es[j], a) by {
                                        assert(ev_in(es[j], c));
                                        assert(ev_ok(es[j], psize(*q)));
                                        lemma_le_trans(a.s, c.s, es[j].part.s);
                                        lemma_le_trans(es[j].part.e, c.e, a.e);
                                    }
                                },
                            }
                        },
                    }
                }
            },
            _ => {},
        }
    }
}


} // verus!
