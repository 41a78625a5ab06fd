//! Laws of the pattern calculus, each proved against the semantics.

use vstd::prelude::*;
use vstd::seq_lib::group_to_multiset_ensures;
use vstd::arithmetic::div_mod::{lemma_fundamental_div_mod, lemma_fundamental_div_mod_converse};
use crate::time::{
    Rat, rat, rat_int, rat_le, rat_lt, rat_mul, rat_div, rat_sub, rat_floor, rat_wf, opt_fit,
    lemma_rat_of_wf, lemma_rat_repr, lemma_canon_unique,
};
use crate::arcs::{RArc, rarc_wf};
use crate::value::{EventS, whole_or_part_s, ev_ok};
use crate::pattern::{PatS, pat_wf, psize};
use crate::sem::{
    sem, sem_list, sem_degrade, sem_cat, sort_evs, insert_ev, ev_div, ev_add, opt_map_evs,
    arc_omul, mid_draw, restrict_arc,
};
use crate::arcs::{arc_cycles_o, arc_cycles_zw_o, next_boundary, lemma_rat_int_wf};
use crate::time::fits64;
use crate::value::ValS;
use crate::shape::{evs_ok, lemma_sem_ok, lemma_ops_wf};
use crate::contain::lemma_rat_eq_frac;

verus! {

/// Onsets never decrease along a sequence of events.
pub open spec fn sorted_evs(s: Seq<EventS>) -> bool {
    forall|i: int| 0 <= i < s.len() - 1 ==> rat_le(#[trigger] s[i].part.s, s[i + 1].part.s)
}

proof fn lemma_insert_ev_sorted(e: EventS, s: Seq<EventS>)
    requires
        sorted_evs(s),
    ensures
        sorted_evs(insert_ev(e, s)),
    decreases s.len(),
{
    if s.len() == 0 {
    } else if rat_lt(e.part.s, s.last().part.s) {
        assert(sorted_evs(s.drop_last())) by {
            assert(forall|i: int| 0 <= i < s.len() - 1 ==> #[trigger] s.drop_last()[i] == s[i]);
        }
        lemma_insert_ev_sorted(e, s.drop_last());
        let r = insert_ev(e, s.drop_last()).push(s.last());
        let pre = insert_ev(e, s.drop_last());
        assert(sorted_evs(r)) by {
            lemma_insert_last(e, s.drop_last());
            assert(forall|i: int| 0 <= i < pre.len() ==> #[trigger] r[i] == pre[i]);
            assert(r[r.len() - 1] == s.last());
            if s.len() >= 2 {
                assert(rat_le(s[s.len() - 2].part.s, s[s.len() - 1].part.s));
            }
            assert forall|i: int| 0 <= i < r.len() - 1 implies rat_le(
                #[trigger] r[i].part.s,
                r[i + 1].part.s,
            ) by {
                if i < pre.len() - 1 {
                    assert(rat_le(pre[i].part.s, pre[i + 1].part.s));
                } else {
                    // the last element of the insertion is `e` or the old last
                    assert(!rat_le(s.last().part.s, e.part.s) ==> rat_le(
                        r[i].part.s,
                        r[i + 1].part.s,
                    ));
                }
            }
        }
    } else {
        assert(sorted_evs(s.push(e))) by {
            assert(forall|i: int| 0 <= i < s.len() ==> #[trigger] s.push(e)[i] == s[i]);
            assert(s.push(e)[s.len() as int] == e);
        }
    }
}

/// The last element of a stable insertion is the inserted event or an
/// event at or after it.
proof fn lemma_insert_last(e: EventS, s: Seq<EventS>)
    ensures
        insert_ev(e, s).len() == s.len() + 1,
        insert_ev(e, s).last() == e || (s.len() > 0 && insert_ev(e, s).last() == s.last()
            && rat_lt(e.part.s, s.last().part.s)),
        rat_le(e.part.s, insert_ev(e, s).last().part.s),
    decreases s.len(),
{
    if s.len() == 0 {
    } else if rat_lt(e.part.s, s.last().part.s) {
        lemma_insert_last(e, s.drop_last());
    }
}

/// A stable sort leaves onsets in order.
pub proof fn lemma_sort_evs_sorted(s: Seq<EventS>)
    ensures
        sorted_evs(sort_evs(s)),
    decreases s.len(),
{
    if s.len() > 0 {
        lemma_sort_evs_sorted(s.drop_last());
        lemma_insert_ev_sorted(s.last(), sort_evs(s.drop_last()));
    }
}

/// A stable sort neither adds nor drops events.
pub proof fn lemma_sort_evs_multiset(s: Seq<EventS>)
    ensures
        sort_evs(s).to_multiset() == s.to_multiset(),
    decreases s.len(),
{
    broadcast use group_to_multiset_ensures;

    if s.len() > 0 {
        lemma_sort_evs_multiset(s.drop_last());
        lemma_insert_ev_multiset(s.last(), sort_evs(s.drop_last()));
        assert(s =~= s.drop_last().push(s.last()));
    }
}

proof fn lemma_insert_ev_multiset(e: EventS, s: Seq<EventS>)
    ensures
        insert_ev(e, s).to_multiset() == s.to_multiset().insert(e),
    decreases s.len(),
{
    broadcast use group_to_multiset_ensures;

    if s.len() == 0 {
        assert(insert_ev(e, s) =~= Seq::<EventS>::empty().push(e));
    } else if rat_lt(e.part.s, s.last().part.s) {
        lemma_insert_ev_multiset(e, s.drop_last());
        assert(s =~= s.drop_last().push(s.last()));
        assert(insert_ev(e, s.drop_last()).push(s.last()).to_multiset() == insert_ev(
            e,
            s.drop_last(),
        ).to_multiset().insert(s.last()));
        assert(s.drop_last().to_multiset().insert(e).insert(s.last())
            =~= s.drop_last().to_multiset().insert(s.last()).insert(e));
    }
}

// ---------------------------------------------------------------------------
// Whole–part and determinism.
// ---------------------------------------------------------------------------

/// Every event a query yields has its part inside its whole, when a whole
/// is present.
pub proof fn law_whole_part(p: PatS, a: RArc)
    requires
        pat_wf(p),
        rarc_wf(a),
    ensures
        match sem(p, a) {
            Some(es) => forall|i: int|
                0 <= i < es.len() ==> match (#[trigger] es[i]).whole {
                    Some(w) => rat_le(w.s, es[i].part.s) && rat_le(es[i].part.e, w.e),
                    None => true,
                },
            None => true,
        },
{
    lemma_sem_ok(p, a);
    match sem(p, a) {
        Some(es) => {
            assert forall|i: int|
                0 <= i < es.len() implies match (#[trigger] es[i]).whole {
                Some(w) => rat_le(w.s, es[i].part.s) && rat_le(es[i].part.e, w.e),
                None => true,
            } by {
                assert(ev_ok(es[i], psize(p)));
            }
        },
        None => {},
    }
}

/// A query is a pure function of the pattern and the arc: two queries of
/// the same pattern on the same arc yield identical events, draws
/// included.
pub proof fn law_determinism(p: PatS, a: RArc, b: RArc)
    requires
        a == b,
    ensures
        sem(p, a) == sem(p, b),
{
}

// ---------------------------------------------------------------------------
// Stack laws: order and content.
// ---------------------------------------------------------------------------

/// A stack's result is non-decreasing in onset.
pub proof fn law_stack_sorted(ps: Seq<PatS>, a: RArc)
    ensures
        match sem(PatS::Stack(ps), a) {
            Some(es) => sorted_evs(es),
            None => true,
        },
{
    match sem_list(ps, a) {
        Some(all) => {
            lemma_sort_evs_sorted(all);
        },
        None => {},
    }
}

/// A `rev` result is non-decreasing in onset.
pub proof fn law_rev_sorted(p: PatS, a: RArc)
    ensures
        match sem(PatS::Rev(Box::new(p)), a) {
            Some(es) => sorted_evs(es),
            None => true,
        },
{
    match crate::arcs::arc_cycles_zw_o(a) {
        None => {},
        Some(subs) => {
            match crate::sem::sem_rev(p, subs) {
                None => {},
                Some(all) => {
                    lemma_sort_evs_sorted(all);
                },
            }
        },
    }
}

/// An `off` result is non-decreasing in onset.
pub proof fn law_off_sorted(tp: PatS, f: Seq<crate::pattern::XStepS>, p: PatS, a: RArc)
    ensures
        match sem(PatS::Off(Box::new(tp), f, Box::new(p)), a) {
            Some(es) => sorted_evs(es),
            None => true,
        },
{
    match sem(tp, a) {
        Some(outer) => {
            match crate::sem::sem_off(outer, f, p, a) {
                Some(all) => {
                    lemma_sort_evs_sorted(all);
                },
                None => {},
            }
        },
        None => {},
    }
}

/// The events of a stack of two patterns are exactly the events of the two
/// patterns together, as a multiset.
pub proof fn law_stack_merge(p: PatS, q: PatS, a: RArc)
    requires
        sem(PatS::Stack(seq![p, q]), a) is Some,
    ensures
        sem(p, a) is Some,
        sem(q, a) is Some,
        sem(PatS::Stack(seq![p, q]), a).unwrap().to_multiset() == sem(p, a).unwrap().to_multiset().add(
            sem(q, a).unwrap().to_multiset(),
        ),
{
    broadcast use group_to_multiset_ensures;

    let ps = seq![p, q];
    assert(ps.drop_last() =~= seq![p]);
    assert(seq![p].drop_last() =~= Seq::<PatS>::empty());
    assert(ps.last() == q);
    assert(seq![p].last() == p);
    assert(sem_list(Seq::<PatS>::empty(), a) == Some(Seq::<EventS>::empty()));
    if sem(p, a) is None {
        assert(sem_list(seq![p], a) is None);
        assert(sem_list(ps, a) is None);
        assert(false);
    }
    let es_p = sem(p, a).unwrap();
    assert(sem_list(seq![p], a) == Some(Seq::<EventS>::empty() + es_p));
    if sem(q, a) is None {
        assert(sem_list(ps, a) is None);
        assert(false);
    }
    let es_q = sem(q, a).unwrap();
    assert(sem_list(ps, a) == Some((Seq::<EventS>::empty() + es_p) + es_q));
    assert(Seq::<EventS>::empty() + es_p =~= es_p);
    lemma_sort_evs_multiset(es_p + es_q);
    lemma_concat_multiset(es_p, es_q);
}

proof fn lemma_concat_multiset(x: Seq<EventS>, y: Seq<EventS>)
    ensures
        (x + y).to_multiset() == x.to_multiset().add(y.to_multiset()),
    decreases y.len(),
{
    broadcast use group_to_multiset_ensures;

    if y.len() == 0 {
        assert(x + y =~= x);
        assert(x.to_multiset().add(y.to_multiset()) =~= x.to_multiset());
    } else {
        lemma_concat_multiset(x, y.drop_last());
        assert(x + y =~= (x + y.drop_last()).push(y.last()));
        assert(y =~= y.drop_last().push(y.last()));
        assert(x.to_multiset().add(y.drop_last().to_multiset().insert(y.last()))
            =~= x.to_multiset().add(y.drop_last().to_multiset()).insert(y.last()));
    }
}

// ---------------------------------------------------------------------------
// Fast identity.
// ---------------------------------------------------------------------------

/// Scaling time by one changes nothing: on every machine-ranged arc,
/// `fast(1, p)` answers a query exactly as `p` does.
pub proof fn law_fast_identity(p: PatS, a: RArc)
    requires
        pat_wf(p),
        rarc_wf(a),
        crate::time::fits64(a.s),
        crate::time::fits64(a.e),
    ensures
        sem(p, a) is None ==> sem(PatS::Fast(rat_int(1), Box::new(p)), a) is None,
        sem(PatS::Fast(rat_int(1), Box::new(p)), a) is Some ==> sem(
            PatS::Fast(rat_int(1), Box::new(p)),
            a,
        ) == sem(p, a),
{
    let one = rat_int(1);
    crate::arcs::lemma_rat_int_wf(1);
    lemma_mul_one(a.s);
    lemma_mul_one(a.e);
    assert(arc_omul(a, one) == Some(a)) by {
        assert(opt_fit(rat_mul(a.s, one)) == Some(a.s));
        assert(opt_fit(rat_mul(a.e, one)) == Some(a.e));
    }
    match sem(p, a) {
        None => {},
        Some(es) => {
            lemma_sem_ok(p, a);
            lemma_map_div_one(es, psize(p));
        },
    }
}

/// Multiplying or dividing a canonical fraction by one returns it.
proof fn lemma_mul_one(x: Rat)
    requires
        rat_wf(x),
    ensures
        rat_mul(x, rat_int(1)) == x,
        rat_div(x, rat_int(1)) == x,
{
    assert(x.n * 1 == x.n && x.d * 1 == x.d);
    lemma_rat_of_wf(x);
}

/// Where a checked division by one succeeds it is the identity, event by
/// event.
proof fn lemma_map_div_one(es: Seq<EventS>, n: nat)
    requires
        evs_ok(es, n),
    ensures
        match opt_map_evs(es, |e: EventS| ev_div(rat_int(1), e)) {
            Some(r) => r == es,
            None => true,
        },
    decreases es.len(),
{
    if es.len() > 0 {
        assert(evs_ok(es.drop_last(), n)) by {
            assert(forall|i: int|
                0 <= i < es.len() - 1 ==> #[trigger] es.drop_last()[i] == es[i]);
        }
        lemma_map_div_one(es.drop_last(), n);
        let e = es.last();
        assert(ev_ok(e, n));
        lemma_mul_one(e.part.s);
        lemma_mul_one(e.part.e);
        match ev_div(rat_int(1), e) {
            Some(e2) => {
                assert(e2 == e) by {
                    match e.whole {
                        Some(w) => {
                            lemma_mul_one(w.s);
                            lemma_mul_one(w.e);
                        },
                        None => {},
                    }
                }
                assert(es.drop_last().push(e) =~= es);
            },
            None => {},
        }
    }
}

// ---------------------------------------------------------------------------
// Fast composition.
// ---------------------------------------------------------------------------

/// A product of positive canonical fractions is positive and canonical.
pub proof fn lemma_mul_pos(r: Rat, s: Rat)
    requires
        rat_wf(r),
        rat_wf(s),
        r.n > 0,
        s.n > 0,
    ensures
        rat_wf(rat_mul(r, s)),
        rat_mul(r, s).n > 0,
{
    lemma_ops_wf(r, s);
    let m = rat_mul(r, s);
    assert(r.d * s.d >= 1) by (nonlinear_arith)
        requires
            r.d >= 1,
            s.d >= 1,
    ;
    lemma_rat_repr(r.n * s.n, r.d * s.d);
    assert(m.n > 0) by (nonlinear_arith)
        requires
            m.n * (r.d * s.d) == (r.n * s.n) * m.d,
            r.n > 0,
            s.n > 0,
            r.d >= 1,
            s.d >= 1,
            m.d >= 1,
    ;
}

/// Scaling twice is scaling by the product.
pub proof fn lemma_mul_assoc(x: Rat, r: Rat, s: Rat)
    requires
        rat_wf(x),
        rat_wf(r),
        rat_wf(s),
    ensures
        rat_mul(rat_mul(x, r), s) == rat_mul(x, rat_mul(r, s)),
{
    let u = rat_mul(x, r);
    let m = rat_mul(r, s);
    lemma_ops_wf(x, r);
    lemma_ops_wf(u, s);
    lemma_ops_wf(r, s);
    let v = rat_mul(u, s);
    assert(x.d * r.d >= 1 && u.d * s.d >= 1 && r.d * s.d >= 1 && x.d * m.d >= 1)
        by (nonlinear_arith)
        requires
            x.d >= 1,
            r.d >= 1,
            s.d >= 1,
            u.d >= 1,
            m.d >= 1,
    ;
    lemma_rat_repr(x.n * r.n, x.d * r.d);
    lemma_rat_repr(u.n * s.n, u.d * s.d);
    lemma_rat_repr(r.n * s.n, r.d * s.d);
    // v equals x * (r*s) at the raw-fraction level, cancelling the
    // intermediate denominators one at a time
    assert((v.n * (u.d * s.d)) * (x.d * r.d) == ((u.n * s.n) * v.d) * (x.d * r.d));
    assert(((u.n * s.n) * v.d) * (x.d * r.d) == (u.n * (x.d * r.d)) * (s.n * v.d))
        by (nonlinear_arith);
    assert((u.n * (x.d * r.d)) * (s.n * v.d) == ((x.n * r.n) * u.d) * (s.n * v.d));
    assert(((x.n * r.n) * u.d) * (s.n * v.d) == (x.n * (r.n * s.n) * v.d) * u.d)
        by (nonlinear_arith);
    assert((v.n * (u.d * s.d)) * (x.d * r.d) == (v.n * ((x.d * r.d) * s.d)) * u.d)
        by (nonlinear_arith);
    assert(v.n * ((x.d * r.d) * s.d) == x.n * (r.n * s.n) * v.d) by (nonlinear_arith)
        requires
            (v.n * ((x.d * r.d) * s.d)) * u.d == (x.n * (r.n * s.n) * v.d) * u.d,
            u.d >= 1,
    ;
    assert((v.n * ((x.d * r.d) * s.d)) * m.d == (x.n * (r.n * s.n) * v.d) * m.d);
    assert((x.n * (r.n * s.n) * v.d) * m.d == (x.n * v.d) * ((r.n * s.n) * m.d))
        by (nonlinear_arith);
    assert((x.n * v.d) * ((r.n * s.n) * m.d) == (x.n * v.d) * (m.n * (r.d * s.d)));
    assert((x.n * v.d) * (m.n * (r.d * s.d)) == ((x.n * m.n) * v.d) * (r.d * s.d))
        by (nonlinear_arith);
    assert((v.n * ((x.d * r.d) * s.d)) * m.d == (v.n * (x.d * m.d)) * (r.d * s.d))
        by (nonlinear_arith);
    assert(v.n * (x.d * m.d) == (x.n * m.n) * v.d) by (nonlinear_arith)
        requires
            (v.n * (x.d * m.d)) * (r.d * s.d) == ((x.n * m.n) * v.d) * (r.d * s.d),
            r.d * s.d >= 1,
    ;
    lemma_rat_eq_frac(v, x.n * m.n, x.d * m.d);
}

/// Dividing twice is dividing by the product.
pub proof fn lemma_div_chain(x: Rat, r: Rat, s: Rat)
    requires
        rat_wf(x),
        rat_wf(r),
        rat_wf(s),
        r.n > 0,
        s.n > 0,
    ensures
        rat_div(rat_div(x, s), r) == rat_div(x, rat_mul(r, s)),
{
    let u = rat_div(x, s);
    let m = rat_mul(r, s);
    lemma_mul_pos(r, s);
    lemma_ops_wf(x, s);
    lemma_ops_wf(u, r);
    let y = rat_div(u, r);
    assert(x.d * s.n >= 1 && u.d * r.n >= 1 && r.d * s.d >= 1 && x.d * m.n >= 1)
        by (nonlinear_arith)
        requires
            x.d >= 1,
            s.n > 0,
            u.d >= 1,
            r.n > 0,
            r.d >= 1,
            s.d >= 1,
            m.n > 0,
    ;
    lemma_rat_repr(x.n * s.d, x.d * s.n);
    lemma_rat_repr(u.n * r.d, u.d * r.n);
    lemma_rat_repr(r.n * s.n, r.d * s.d);
    // y equals x / (r*s) at the raw-fraction level
    assert((y.n * (u.d * r.n)) * (x.d * s.n) == ((u.n * r.d) * y.d) * (x.d * s.n));
    assert(((u.n * r.d) * y.d) * (x.d * s.n) == (u.n * (x.d * s.n)) * (r.d * y.d))
        by (nonlinear_arith);
    assert((u.n * (x.d * s.n)) * (r.d * y.d) == ((x.n * s.d) * u.d) * (r.d * y.d));
    assert(((x.n * s.d) * u.d) * (r.d * y.d) == (x.n * (s.d * r.d) * y.d) * u.d)
        by (nonlinear_arith);
    assert((y.n * (u.d * r.n)) * (x.d * s.n) == (y.n * ((x.d * s.n) * r.n)) * u.d)
        by (nonlinear_arith);
    assert(y.n * ((x.d * s.n) * r.n) == x.n * (s.d * r.d) * y.d) by (nonlinear_arith)
        requires
            (y.n * ((x.d * s.n) * r.n)) * u.d == (x.n * (s.d * r.d) * y.d) * u.d,
            u.d >= 1,
    ;
    assert((y.n * ((x.d * s.n) * r.n)) * m.d == (x.n * (s.d * r.d) * y.d) * m.d);
    assert((y.n * ((x.d * s.n) * r.n)) * m.d == (y.n * x.d) * ((r.n * s.n) * m.d))
        by (nonlinear_arith);
    assert((y.n * x.d) * ((r.n * s.n) * m.d) == (y.n * x.d) * (m.n * (r.d * s.d)));
    assert((y.n * x.d) * (m.n * (r.d * s.d)) == (y.n * (x.d * m.n)) * (r.d * s.d))
        by (nonlinear_arith);
    assert((x.n * (s.d * r.d) * y.d) * m.d == ((x.n * m.d) * y.d) * (r.d * s.d))
        by (nonlinear_arith);
    assert(y.n * (x.d * m.n) == (x.n * m.d) * y.d) by (nonlinear_arith)
        requires
            (y.n * (x.d * m.n)) * (r.d * s.d) == ((x.n * m.d) * y.d) * (r.d * s.d),
            r.d * s.d >= 1,
    ;
    lemma_rat_eq_frac(y, x.n * m.d, x.d * m.n);
}

/// Speeding a pattern up twice is speeding it up by the product: where
/// both forms stay in the machine range, their queries agree event by
/// event.  (The two forms compute different intermediates, so one can
/// leave the range where the other does not; on those inputs they differ
/// only in failing.)
#[verifier::rlimit(100)]
pub proof fn law_fast_composition(r: Rat, s: Rat, p: PatS, a: RArc)
    requires
        rat_wf(r),
        rat_wf(s),
        r.n > 0,
        s.n > 0,
        pat_wf(p),
        rarc_wf(a),
        sem(PatS::Fast(r, Box::new(PatS::Fast(s, Box::new(p)))), a) is Some,
        sem(PatS::Fast(rat_mul(r, s), Box::new(p)), a) is Some,
    ensures
        sem(PatS::Fast(r, Box::new(PatS::Fast(s, Box::new(p)))), a) == sem(
            PatS::Fast(rat_mul(r, s), Box::new(p)),
            a,
        ),
{
    let m = rat_mul(r, s);
    lemma_mul_pos(r, s);
    let inner = PatS::Fast(s, Box::new(p));
    let lhs = PatS::Fast(r, Box::new(inner));
    assert(arc_omul(a, r) is Some) by {
        if arc_omul(a, r) is None {
            assert(sem(lhs, a) is None);
        }
    }
    let a1 = arc_omul(a, r).unwrap();
    assert(a1.s == rat_mul(a.s, r) && a1.e == rat_mul(a.e, r));
    assert(sem(lhs, a) == match sem(inner, a1) {
        None => None::<Seq<EventS>>,
        Some(es0) => opt_map_evs(es0, |e: EventS| ev_div(r, e)),
    });
    assert(sem(inner, a1) is Some);
    assert(arc_omul(a1, s) is Some) by {
        if arc_omul(a1, s) is None {
            assert(sem(inner, a1) is None);
        }
    }
    let a2 = arc_omul(a1, s).unwrap();
    assert(a2.s == rat_mul(rat_mul(a.s, r), s) && a2.e == rat_mul(rat_mul(a.e, r), s));
    lemma_mul_assoc(a.s, r, s);
    lemma_mul_assoc(a.e, r, s);
    assert(arc_omul(a, m) == Some(a2));
    assert(sem(inner, a1) == match sem(p, a2) {
        None => None::<Seq<EventS>>,
        Some(es0) => opt_map_evs(es0, |e: EventS| ev_div(s, e)),
    });
    assert(sem(p, a2) is Some);
    lemma_ops_wf(a.s, r);
    lemma_ops_wf(a.e, r);
    lemma_ops_wf(a1.s, s);
    lemma_ops_wf(a1.e, s);
    lemma_sem_ok(p, a2);
    let es = sem(p, a2).unwrap();
    let fs = |e: EventS| ev_div(s, e);
    let fr = |e: EventS| ev_div(r, e);
    let fm = |e: EventS| ev_div(m, e);
    assert(opt_map_evs(es, fs) is Some);
    crate::contain::lemma_opt_map_index_pub(es, fs);
    let es1 = opt_map_evs(es, fs).unwrap();
    assert(sem(inner, a1) == Some(es1));
    assert(sem(lhs, a) == opt_map_evs(es1, fr));
    assert(opt_map_evs(es1, fr) is Some);
    crate::contain::lemma_opt_map_index_pub(es1, fr);
    let out = opt_map_evs(es1, fr).unwrap();
    assert(sem(PatS::Fast(m, Box::new(p)), a) == opt_map_evs(es, fm));
    assert(opt_map_evs(es, fm) is Some);
    crate::contain::lemma_opt_map_index_pub(es, fm);
    let out2 = opt_map_evs(es, fm).unwrap();
    assert forall|j: int| 0 <= j < es.len() implies #[trigger] out[j] == out2[j] by {
        assert(fs(es[j]) == Some(es1[j]));
        assert(fr(es1[j]) == Some(out[j]));
        assert(fm(es[j]) == Some(out2[j]));
        assert(ev_ok(es[j], psize(p)));
        let e = es[j];
        lemma_div_chain(e.part.s, r, s);
        lemma_div_chain(e.part.e, r, s);
        assert(es1[j].part.s == rat_div(e.part.s, s) && es1[j].part.e == rat_div(
            e.part.e,
            s,
        ));
        match e.whole {
            Some(w) => {
                lemma_div_chain(w.s, r, s);
                lemma_div_chain(w.e, r, s);
                assert(es1[j].whole == Some(
                    RArc { s: rat_div(w.s, s), e: rat_div(w.e, s) },
                ));
            },
            None => {
                assert(es1[j].whole is None);
            },
        }
    }
    assert(out =~= out2);
}

// ---------------------------------------------------------------------------
// Degrade and undegrade are exact complements.
// ---------------------------------------------------------------------------

/// The events a degrade would see before any dropping: each probability
/// event's restricted slice of the inner pattern, unfiltered.
pub open spec fn sem_degrade_all(outer: Seq<EventS>, q: PatS, a: RArc) -> Option<Seq<EventS>>
    decreases outer.len(),
{
    if outer.len() == 0 {
        Some(Seq::empty())
    } else {
        match sem_degrade_all(outer.drop_last(), q, a) {
            None => None,
            Some(pre) => {
                let o = outer.last();
                match o.value {
                    ValS::Rational(prob) => match restrict_arc(a, o.part) {
                        None => Some(pre),
                        Some(c) => match mid_draw(c) {
                            None => None,
                            Some(draw) => match sem(q, c) {
                                None => None,
                                Some(es) => Some(pre + es),
                            },
                        },
                    },
                    _ => Some(pre),
                }
            },
        }
    }
}

/// For one and the same draw, the kept and the dropped events partition
/// the unfiltered slices: `degrade_by` and `undegrade_by` are exact
/// complements.  (As a multiset equation against a plain query of the
/// inner pattern the item fails — the probability events' slices re-cut
/// the query, e.g. for `fast(1/3, unit(v))` over three cycles — so the
/// law speaks of the common unfiltered slices.)
pub proof fn lemma_degrade_partition(outer: Seq<EventS>, q: PatS, a: RArc)
    ensures
        sem_degrade(true, outer, q, a) is Some <==> sem_degrade(false, outer, q, a) is Some,
        sem_degrade(true, outer, q, a) is Some <==> sem_degrade_all(outer, q, a) is Some,
        sem_degrade(true, outer, q, a) is Some ==> sem_degrade(
            true,
            outer,
            q,
            a,
        ).unwrap().to_multiset().add(sem_degrade(false, outer, q, a).unwrap().to_multiset())
            == sem_degrade_all(outer, q, a).unwrap().to_multiset(),
    decreases outer.len(),
{
    broadcast use group_to_multiset_ensures;

    if outer.len() > 0 {
        lemma_degrade_partition(outer.drop_last(), q, a);
        let o = outer.last();
        match (sem_degrade(true, outer.drop_last(), q, a), sem_degrade(
            false,
            outer.drop_last(),
            q,
            a,
        ), sem_degrade_all(outer.drop_last(), q, a)) {
            (Some(pre_d), Some(pre_u), Some(pre_a)) => {
                match o.value {
                    ValS::Rational(prob) => {
                        match restrict_arc(a, o.part) {
                            None => {},
                            Some(c) => {
                                match mid_draw(c) {
                                    None => {},
                                    Some(draw) => {
                                        match sem(q, c) {
                                            None => {},
                                            Some(es) => {
                                                lemma_concat_multiset(pre_d, es);
                                                lemma_concat_multiset(pre_u, es);
                                                lemma_concat_multiset(pre_a, es);
                                                if rat_lt(prob, draw) {
                                                    assert((pre_d.to_multiset().add(
                                                        es.to_multiset(),
                                                    )).add(pre_u.to_multiset())
                                                        =~= (pre_d.to_multiset().add(
                                                        pre_u.to_multiset(),
                                                    )).add(es.to_multiset()));
                                                } else {
                                                    assert(pre_d.to_multiset().add(
                                                        pre_u.to_multiset().add(
                                                            es.to_multiset(),
                                                        ),
                                                    ) =~= (pre_d.to_multiset().add(
                                                        pre_u.to_multiset(),
                                                    )).add(es.to_multiset()));
                                                }
                                            },
                                        }
                                    },
                                }
                            },
                        }
                    },
                    _ => {},
                }
            },
            _ => {},
        }
    }
}

/// The public face of the complement: when a degraded query answers, so
/// does its complement, and together they hold exactly the unfiltered
/// slice events.
pub proof fn law_degrade_complement(xp: PatS, p: PatS, a: RArc)
    requires
        sem(PatS::DegradeBy(Box::new(xp), Box::new(p)), a) is Some,
    ensures
        sem(xp, a) is Some,
        sem(PatS::UndegradeBy(Box::new(xp), Box::new(p)), a) is Some,
        sem_degrade_all(sem(xp, a).unwrap(), p, a) is Some,
        sem(PatS::DegradeBy(Box::new(xp), Box::new(p)), a).unwrap().to_multiset().add(
            sem(PatS::UndegradeBy(Box::new(xp), Box::new(p)), a).unwrap().to_multiset(),
        ) == sem_degrade_all(sem(xp, a).unwrap(), p, a).unwrap().to_multiset(),
{
    let outer = sem(xp, a).unwrap();
    lemma_degrade_partition(outer, p, a);
}

// ---------------------------------------------------------------------------
// Cat walks its patterns cycle by cycle.
// ---------------------------------------------------------------------------

/// A Euclidean quotient lies between zero and the dividend.
proof fn lemma_div_between(x: int, n: int)
    requires
        n >= 1,
    ensures
        x >= 0 ==> 0 <= x / n <= x,
        x <= 0 ==> x <= x / n <= 0,
{
    lemma_fundamental_div_mod(x, n);
    let q = x / n;
    let r = x % n;
    if x >= 0 {
        assert(0 <= q <= x) by (nonlinear_arith)
            requires
                n * q + r == x,
                0 <= r < n,
                n >= 1,
                x >= 0,
        ;
    } else {
        assert(x <= q <= 0) by (nonlinear_arith)
            requires
                n * q + r == x,
                0 <= r < n,
                n >= 1,
                x <= 0,
        ;
    }
}

/// On the single whole cycle `[k, k+1)`, a `cat` of `n` patterns answers
/// with pattern `k mod n` (mathematical modulo), queried on its home cycle
/// `(k - k mod n) / n` and translated back by the offset — exactly the
/// round-robin walk.  (For sub-patterns that play the same in every cycle,
/// the home-cycle query equals a query of `[0, 1)` translated by `+k`.)
pub proof fn law_cat_cycle(ps: Seq<PatS>, k: int, a: RArc)
    requires
        1 <= ps.len() <= i64::MAX as int,
        a.s == rat_int(k),
        a.e == rat_int(k + 1),
        fits64(rat_int(k)),
        fits64(rat_int(k + 1)),
    ensures
        ({
            let n = ps.len() as int;
            let i = k % n;
            let off = k - ((k - i) / n);
            sem(PatS::Cat(ps), a) == match sem(
                ps[i],
                RArc { s: rat_int(k - off), e: rat_int(k + 1 - off) },
            ) {
                None => None::<Seq<EventS>>,
                Some(es) => opt_map_evs(es, |e: EventS| ev_add(rat_int(off), e)),
            }
        }),
{
    let n = ps.len() as int;
    let i = k % n;
    let q = (k - i) / n;
    let off = k - q;
    lemma_rat_int_wf(k);
    lemma_rat_int_wf(k + 1);
    lemma_rat_int_wf(off);
    // the quotient is the whole-cycle index: (k - k mod n) is exactly n * (k / n)
    lemma_fundamental_div_mod(k, n);
    assert(k - i == n * (k / n));
    assert(k - i == (k / n) * n + 0) by (nonlinear_arith)
        requires
            k - i == n * (k / n),
    ;
    lemma_fundamental_div_mod_converse(k - i, n, k / n, 0);
    assert(q == k / n);
    lemma_div_between(k, n);
    // the single-cycle split of [k, k+1)
    assert(rat_floor(a.s) == k && rat_floor(a.e) == k + 1);
    assert(a.s != a.e);
    assert(!rat_le(a.e, a.s));
    assert(next_boundary(a.s) == Some(rat_int(k + 1)));
    let tail = RArc { s: rat_int(k + 1), e: a.e };
    assert(rat_le(tail.e, tail.s));
    assert(arc_cycles_o(tail) == Some(Seq::<RArc>::empty()));
    assert(arc_cycles_o(a) == Some(seq![RArc { s: a.s, e: rat_int(k + 1) }] + Seq::<
        RArc,
    >::empty()));
    let subs = seq![a];
    assert((seq![RArc { s: a.s, e: rat_int(k + 1) }] + Seq::<RArc>::empty()) =~= subs);
    assert(arc_cycles_zw_o(a) == Some(subs));
    // one slice of the cat fold
    assert(subs.drop_last() =~= Seq::<RArc>::empty());
    assert(sem_cat(ps, Seq::<RArc>::empty()) == Some(Seq::<EventS>::empty()));
    assert(subs.last() == a);
    assert(i64::MIN as int <= off <= i64::MAX as int) by {
        if k >= 0 {
            assert(0 <= q <= k);
        } else {
            assert(k <= q <= 0);
        }
    }
    // the shifted query arc is the home cycle, as whole numbers
    lemma_sub_int(k, off);
    lemma_sub_int(k + 1, off);
    assert(fits64(rat_int(k - off)) && fits64(rat_int(k + 1 - off))) by {
        if k >= 0 {
            assert(0 <= q <= k);
        } else {
            assert(k <= q <= 0);
        }
    }
    assert(crate::sem::arc_osub(a, rat_int(off)) == Some(
        RArc { s: rat_int(k - off), e: rat_int(k + 1 - off) },
    ));
    let c2 = RArc { s: rat_int(k - off), e: rat_int(k + 1 - off) };
    assert(sem(PatS::Cat(ps), a) == sem_cat(ps, subs));
    match sem(ps[i], c2) {
        None => {
            assert(sem_cat(ps, subs) is None);
        },
        Some(es) => {
            match opt_map_evs(es, |e: EventS| ev_add(rat_int(off), e)) {
                None => {
                    assert(sem_cat(ps, subs) is None);
                },
                Some(sh) => {
                    assert(Seq::<EventS>::empty() + sh =~= sh);
                    assert(sem_cat(ps, subs) == Some(sh));
                },
            }
        },
    }
}

/// Subtracting whole numbers of cycles stays a whole number.
proof fn lemma_sub_int(x: int, y: int)
    ensures
        rat_sub(rat_int(x), rat_int(y)) == rat_int(x - y),
{
    lemma_rat_int_wf(x - y);
    let a = rat_int(x);
    let b = rat_int(y);
    assert(a.n == x && a.d == 1 && b.n == y && b.d == 1);
    assert(a.n * b.d - b.n * a.d == x - y);
    assert(a.d * b.d == 1);
    assert(rat_sub(a, b) == rat(x - y, 1));
    crate::time::lemma_rat_of_wf(rat_int(x - y));
}

} // verus!
