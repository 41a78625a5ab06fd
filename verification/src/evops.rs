//! Executable event transforms, each proved against its checked
//! specification: shifting, scaling and mirroring events, the stable sort
//! by onset, the filters, and the events of a unit pattern.

use vstd::prelude::*;
use crate::time::{
    Rat, Time, opt_fit, rat, rat_add, rat_floor, rat_int, rat_le, rat_lt, rat_sub, rat_wf,
    fits64, abs_n, lemma_rat_repr,
};
use vstd::arithmetic::div_mod::lemma_fundamental_div_mod;
use crate::arcs::{Arc, RArc, rarc_wf, opt_arc_view, arcs_view, lemma_rat_int_wf};
use crate::value::{Event, EventS, Value, evs_view, opt_evs_view, ValS};
use crate::pattern::{TimePred, ValPred};
use crate::sem::{
    arc_oadd, arc_osub, arc_odiv, cycle_pos_s, ev_add, ev_div, ev_mirror, ev_sub, insert_ev,
    oadd, osub, sort_evs, time_pred_holds, unit_ev, unit_evs, val_pred_holds,
};

verus! {

/// The arcs of an event are well formed.
pub open spec fn ev_arcs_wf(e: EventS) -> bool {
    rarc_wf(e.part) && match e.whole {
        Some(w) => rarc_wf(w),
        None => true,
    }
}

pub open spec fn evs_arcs_wf(s: Seq<EventS>) -> bool {
    forall|i: int| 0 <= i < s.len() ==> ev_arcs_wf(#[trigger] s[i])
}

/// The position within the cycle always fits the machine range.
pub proof fn lemma_cycle_pos_fits(x: Rat)
    requires
        rat_wf(x),
        fits64(x),
    ensures
        fits64(rat_sub(x, rat_int(rat_floor(x)))),
        rat_sub(x, rat_int(rat_floor(x))) == rat(x.n - rat_floor(x) * x.d, x.d),
{
    let f = rat_floor(x);
    lemma_fundamental_div_mod(x.n, x.d);
    assert(x.n * 1 - f * x.d == x.n % x.d) by (nonlinear_arith)
        requires
            x.n == x.d * f + x.n % x.d,
    ;
    assert(rat_sub(x, rat_int(f)) == rat(x.n - f * x.d, x.d * 1));
    lemma_rat_repr(x.n - f * x.d, x.d);
    assert(abs_n(x.n - f * x.d) < x.d) by {
        assert(0 <= (x.n % x.d) < x.d);
    }
}

/// Where a time falls within its cycle, as an always-representable value.
pub fn cycle_pos(t: &Time) -> (r: Time)
    requires
        t.wf(),
    ensures
        r.wf(),
        r@ == cycle_pos_s(t@),
{
    let s = t.sam();
    proof {
        lemma_cycle_pos_fits(t@);
    }
    t.sub(&s).unwrap()
}

/// A deep copy of an event with the same abstraction.
pub fn dup_event(e: &Event) -> (r: Event)
    ensures
        r@ == e@,
{
    Event { whole: e.whole, part: e.part, value: e.value.dup() }
}

// ---------------------------------------------------------------------------
// Point transforms of one event.
// ---------------------------------------------------------------------------

pub fn arc_add_t(a: &Arc, t: &Time) -> (r: Option<Arc>)
    requires
        a.wf(),
        t.wf(),
    ensures
        opt_arc_view(r) == arc_oadd(a@, t@),
        match r {
            Some(c) => c.wf(),
            None => true,
        },
{
    match a.start.add(t) {
        None => None,
        Some(s) => match a.stop.add(t) {
            None => None,
            Some(e) => Some(Arc { start: s, stop: e }),
        },
    }
}

pub fn arc_sub_t(a: &Arc, t: &Time) -> (r: Option<Arc>)
    requires
        a.wf(),
        t.wf(),
    ensures
        opt_arc_view(r) == arc_osub(a@, t@),
        match r {
            Some(c) => c.wf(),
            None => true,
        },
{
    match a.start.sub(t) {
        None => None,
        Some(s) => match a.stop.sub(t) {
            None => None,
            Some(e) => Some(Arc { start: s, stop: e }),
        },
    }
}

pub fn arc_div_t(a: &Arc, t: &Time) -> (r: Option<Arc>)
    requires
        a.wf(),
        t.wf(),
        t@.n != 0,
    ensures
        opt_arc_view(r) == arc_odiv(a@, t@),
        match r {
            Some(c) => c.wf(),
            None => true,
        },
{
    match a.start.div(t) {
        None => None,
        Some(s) => match a.stop.div(t) {
            None => None,
            Some(e) => Some(Arc { start: s, stop: e }),
        },
    }
}

pub fn ev_add_x(e: &Event, t: &Time) -> (r: Option<Event>)
    requires
        ev_arcs_wf(e@),
        t.wf(),
    ensures
        match r {
            Some(e2) => ev_add(t@, e@) == Some(e2@),
            None => ev_add(t@, e@) is None,
        },
{
    match arc_add_t(&e.part, t) {
        None => None,
        Some(p2) => match &e.whole {
            None => Some(Event { whole: None, part: p2, value: e.value.dup() }),
            Some(w) => match arc_add_t(w, t) {
                None => None,
                Some(w2) => Some(Event { whole: Some(w2), part: p2, value: e.value.dup() }),
            },
        },
    }
}

pub fn ev_sub_x(e: &Event, t: &Time) -> (r: Option<Event>)
    requires
        ev_arcs_wf(e@),
        t.wf(),
    ensures
        match r {
            Some(e2) => ev_sub(t@, e@) == Some(e2@),
            None => ev_sub(t@, e@) is None,
        },
{
    match arc_sub_t(&e.part, t) {
        None => None,
        Some(p2) => match &e.whole {
            None => Some(Event { whole: None, part: p2, value: e.value.dup() }),
            Some(w) => match arc_sub_t(w, t) {
                None => None,
                Some(w2) => Some(Event { whole: Some(w2), part: p2, value: e.value.dup() }),
            },
        },
    }
}

pub fn ev_div_x(e: &Event, t: &Time) -> (r: Option<Event>)
    requires
        ev_arcs_wf(e@),
        t.wf(),
        t@.n != 0,
    ensures
        match r {
            Some(e2) => ev_div(t@, e@) == Some(e2@),
            None => ev_div(t@, e@) is None,
        },
{
    match arc_div_t(&e.part, t) {
        None => None,
        Some(p2) => match &e.whole {
            None => Some(Event { whole: None, part: p2, value: e.value.dup() }),
            Some(w) => match arc_div_t(w, t) {
                None => None,
                Some(w2) => Some(Event { whole: Some(w2), part: p2, value: e.value.dup() }),
            },
        },
    }
}

/// Mirror one event across `mid`.
pub fn ev_mirror_x(e: &Event, mid: &Time) -> (r: Option<Event>)
    requires
        ev_arcs_wf(e@),
        mid.wf(),
    ensures
        match r {
            Some(e2) => ev_mirror(mid@, e@) == Some(e2@),
            None => ev_mirror(mid@, e@) is None,
        },
{
    match crate::arcs::mirror_arc(*mid, e.part) {
        None => None,
        Some(mp) => match &e.whole {
            None => Some(Event { whole: None, part: mp, value: e.value.dup() }),
            Some(w) => match e.part.start.sub(&w.start) {
                None => None,
                Some(da) => match w.stop.sub(&e.part.stop) {
                    None => None,
                    Some(db) => match mp.start.sub(&db) {
                        None => None,
                        Some(ws) => match mp.stop.add(&da) {
                            None => None,
                            Some(we) => Some(
                                Event {
                                    whole: Some(Arc { start: ws, stop: we }),
                                    part: mp,
                                    value: e.value.dup(),
                                },
                            ),
                        },
                    },
                },
            },
        },
    }
}

// ---------------------------------------------------------------------------
// Checked maps over event vectors.
// ---------------------------------------------------------------------------

pub fn map_evs_add(es: &Vec<Event>, t: &Time) -> (r: Option<Vec<Event>>)
    requires
        evs_arcs_wf(evs_view(es@)),
        t.wf(),
    ensures
        opt_evs_view(r) == crate::sem::opt_map_evs(evs_view(es@), |e: EventS| ev_add(t@, e)),
{
    let ghost f = |e: EventS| ev_add(t@, e);
    let mut out: Vec<Event> = Vec::new();
    let n = es.len();
    let mut i: usize = 0;
    proof {
        assert(evs_view(es@.take(0)) =~= Seq::<EventS>::empty());
    }
    while i < n
        invariant
            0 <= i <= n,
            n == es@.len(),
            evs_arcs_wf(evs_view(es@)),
            t.wf(),
            f == (|e: EventS| ev_add(t@, e)),
            crate::sem::opt_map_evs(evs_view(es@.take(i as int)), f) == Some(evs_view(out@)),
        decreases n - i,
    {
        proof {
            assert(evs_view(es@)[i as int] == es@[i as int]@);
            assert(ev_arcs_wf(es@[i as int]@));
        }
        let e2 = match ev_add_x(&es[i], t) {
            None => {
                proof {
                    assert(evs_view(es@.take(n as int)) =~= evs_view(es@));
                    lemma_opt_map_step_none(es@, f, i as int);
                }
                return None;
            },
            Some(v) => v,
        };
        out.push(e2);
        proof {
            lemma_opt_map_step(es@, f, i as int);
            assert(evs_view(out@) =~= evs_view(out@.drop_last()).push(e2@));
        }
        i += 1;
    }
    proof {
        assert(es@.take(n as int) =~= es@);
    }
    Some(out)
}

/// One step of a checked map: the prefix extended by index `i`.
proof fn lemma_opt_map_step(es: Seq<Event>, f: spec_fn(EventS) -> Option<EventS>, i: int)
    requires
        0 <= i < es.len(),
    ensures
        crate::sem::opt_map_evs(evs_view(es.take(i + 1)), f) == match crate::sem::opt_map_evs(
            evs_view(es.take(i)),
            f,
        ) {
            None => None::<Seq<EventS>>,
            Some(pre) => match f(es[i]@) {
                None => None::<Seq<EventS>>,
                Some(e2) => Some(pre.push(e2)),
            },
        },
{
    assert(evs_view(es.take(i + 1)).drop_last() =~= evs_view(es.take(i)));
    assert(evs_view(es.take(i + 1)).last() == es[i]@);
    assert(evs_view(es.take(i + 1)).len() == i + 1);
}

/// A failing step fails the whole map.
proof fn lemma_opt_map_step_none(es: Seq<Event>, f: spec_fn(EventS) -> Option<EventS>, i: int)
    requires
        0 <= i < es.len(),
        f(es[i]@) is None,
    ensures
        crate::sem::opt_map_evs(evs_view(es), f) is None,
    decreases es.len(),
{
    if es.len() - 1 > i {
        assert(evs_view(es).drop_last() =~= evs_view(es.drop_last()));
        assert(es.drop_last()[i] == es[i]);
        lemma_opt_map_step_none(es.drop_last(), f, i);
    } else {
        assert(evs_view(es).last() == es[i]@);
        assert(evs_view(es).len() == es.len());
    }
}

pub fn map_evs_sub(es: &Vec<Event>, t: &Time) -> (r: Option<Vec<Event>>)
    requires
        evs_arcs_wf(evs_view(es@)),
        t.wf(),
    ensures
        opt_evs_view(r) == crate::sem::opt_map_evs(evs_view(es@), |e: EventS| ev_sub(t@, e)),
{
    let ghost f = |e: EventS| ev_sub(t@, e);
    let mut out: Vec<Event> = Vec::new();
    let n = es.len();
    let mut i: usize = 0;
    proof {
        assert(evs_view(es@.take(0)) =~= Seq::<EventS>::empty());
    }
    while i < n
        invariant
            0 <= i <= n,
            n == es@.len(),
            evs_arcs_wf(evs_view(es@)),
            t.wf(),
            f == (|e: EventS| ev_sub(t@, e)),
            crate::sem::opt_map_evs(evs_view(es@.take(i as int)), f) == Some(evs_view(out@)),
        decreases n - i,
    {
        proof {
            assert(evs_view(es@)[i as int] == es@[i as int]@);
            assert(ev_arcs_wf(es@[i as int]@));
        }
        let e2 = match ev_sub_x(&es[i], t) {
            None => {
                proof {
                    lemma_opt_map_step_none(es@, f, i as int);
                }
                return None;
            },
            Some(v) => v,
        };
        out.push(e2);
        proof {
            lemma_opt_map_step(es@, f, i as int);
            assert(evs_view(out@) =~= evs_view(out@.drop_last()).push(e2@));
        }
        i += 1;
    }
    proof {
        assert(es@.take(n as int) =~= es@);
    }
    Some(out)
}

pub fn map_evs_div(es: &Vec<Event>, t: &Time) -> (r: Option<Vec<Event>>)
    requires
        evs_arcs_wf(evs_view(es@)),
        t.wf(),
        t@.n != 0,
    ensures
        opt_evs_view(r) == crate::sem::opt_map_evs(evs_view(es@), |e: EventS| ev_div(t@, e)),
{
    let ghost f = |e: EventS| ev_div(t@, e);
    let mut out: Vec<Event> = Vec::new();
    let n = es.len();
    let mut i: usize = 0;
    proof {
        assert(evs_view(es@.take(0)) =~= Seq::<EventS>::empty());
    }
    while i < n
        invariant
            0 <= i <= n,
            n == es@.len(),
            evs_arcs_wf(evs_view(es@)),
            t.wf(),
            t@.n != 0,
            f == (|e: EventS| ev_div(t@, e)),
            crate::sem::opt_map_evs(evs_view(es@.take(i as int)), f) == Some(evs_view(out@)),
        decreases n - i,
    {
        proof {
            assert(evs_view(es@)[i as int] == es@[i as int]@);
            assert(ev_arcs_wf(es@[i as int]@));
        }
        let e2 = match ev_div_x(&es[i], t) {
            None => {
                proof {
                    lemma_opt_map_step_none(es@, f, i as int);
                }
                return None;
            },
            Some(v) => v,
        };
        out.push(e2);
        proof {
            lemma_opt_map_step(es@, f, i as int);
            assert(evs_view(out@) =~= evs_view(out@.drop_last()).push(e2@));
        }
        i += 1;
    }
    proof {
        assert(es@.take(n as int) =~= es@);
    }
    Some(out)
}

pub fn map_evs_mirror(es: &Vec<Event>, mid: &Time) -> (r: Option<Vec<Event>>)
    requires
        evs_arcs_wf(evs_view(es@)),
        mid.wf(),
    ensures
        opt_evs_view(r) == crate::sem::opt_map_evs(
            evs_view(es@),
            |e: EventS| ev_mirror(mid@, e),
        ),
{
    let ghost f = |e: EventS| ev_mirror(mid@, e);
    let mut out: Vec<Event> = Vec::new();
    let n = es.len();
    let mut i: usize = 0;
    proof {
        assert(evs_view(es@.take(0)) =~= Seq::<EventS>::empty());
    }
    while i < n
        invariant
            0 <= i <= n,
            n == es@.len(),
            evs_arcs_wf(evs_view(es@)),
            mid.wf(),
            f == (|e: EventS| ev_mirror(mid@, e)),
            crate::sem::opt_map_evs(evs_view(es@.take(i as int)), f) == Some(evs_view(out@)),
        decreases n - i,
    {
        proof {
            assert(evs_view(es@)[i as int] == es@[i as int]@);
            assert(ev_arcs_wf(es@[i as int]@));
        }
        let e2 = match ev_mirror_x(&es[i], mid) {
            None => {
                proof {
                    lemma_opt_map_step_none(es@, f, i as int);
                }
                return None;
            },
            Some(v) => v,
        };
        out.push(e2);
        proof {
            lemma_opt_map_step(es@, f, i as int);
            assert(evs_view(out@) =~= evs_view(out@.drop_last()).push(e2@));
        }
        i += 1;
    }
    proof {
        assert(es@.take(n as int) =~= es@);
    }
    Some(out)
}

/// Reverse a vector of events.
pub fn reverse_events(es: Vec<Event>) -> (r: Vec<Event>)
    ensures
        evs_view(r@) == evs_view(es@).reverse(),
{
    let mut out: Vec<Event> = Vec::new();
    let n = es.len();
    let mut i: usize = 0;
    while i < n
        invariant
            0 <= i <= n,
            n == es@.len(),
            out@.len() == i,
            forall|j: int| 0 <= j < i ==> #[trigger] out@[j]@ == es@[n - 1 - j]@,
        decreases n - i,
    {
        let e = dup_event(&es[n - 1 - i]);
        out.push(e);
        i += 1;
    }
    proof {
        assert(evs_view(out@) =~= evs_view(es@).reverse());
    }
    out
}

// ---------------------------------------------------------------------------
// Stable sort by onset.
// ---------------------------------------------------------------------------

/// Stable insertion sort by `part.start`.
pub fn sort_events(es: &Vec<Event>) -> (r: Vec<Event>)
    requires
        evs_arcs_wf(evs_view(es@)),
    ensures
        evs_view(r@) == sort_evs(evs_view(es@)),
{
    let mut out: Vec<Event> = Vec::new();
    let n = es.len();
    let mut i: usize = 0;
    proof {
        assert(evs_view(es@.take(0)) =~= Seq::<EventS>::empty());
        assert(evs_view(out@) =~= sort_evs(evs_view(es@.take(0))));
    }
    while i < n
        invariant
            0 <= i <= n,
            n == es@.len(),
            evs_arcs_wf(evs_view(es@)),
            evs_view(out@) == sort_evs(evs_view(es@.take(i as int))),
            evs_arcs_wf(evs_view(out@)),
        decreases n - i,
    {
        proof {
            assert(evs_view(es@)[i as int] == es@[i as int]@);
        }
        let e = dup_event(&es[i]);
        let ghost before = evs_view(out@);
        let mut j: usize = out.len();
        proof {
            assert(before.skip(j as int) =~= Seq::<EventS>::empty());
            assert(insert_ev(e@, before) == insert_ev(e@, before.take(j as int))
                + before.skip(j as int)) by {
                assert(before.take(j as int) =~= before);
                assert(insert_ev(e@, before) + Seq::<EventS>::empty() =~= insert_ev(
                    e@,
                    before,
                ));
            }
        }
        let mut moving = true;
        while moving && j > 0
            invariant
                0 <= j <= out@.len(),
                evs_view(out@) == before,
                evs_arcs_wf(before),
                ev_arcs_wf(e@),
                insert_ev(e@, before) == insert_ev(e@, before.take(j as int)) + before.skip(
                    j as int,
                ),
                !moving ==> j > 0 && !rat_lt(e@.part.s, before[j as int - 1].part.s),
            decreases j + (if moving { 1int } else { 0int }),
        {
            proof {
                assert(before[j - 1] == evs_view(out@)[j - 1]);
            }
            if e.part.start.lt(&out[j - 1].part.start) {
                proof {
                    assert(before.take(j as int).last() == before[j - 1]);
                    assert(before.take(j as int).drop_last() =~= before.take(j as int - 1));
                    assert(insert_ev(e@, before.take(j as int)) == insert_ev(
                        e@,
                        before.take(j as int - 1),
                    ).push(before[j - 1]));
                    assert(insert_ev(e@, before.take(j as int - 1)).push(before[j - 1])
                        + before.skip(j as int) =~= insert_ev(e@, before.take(j as int - 1))
                        + before.skip(j as int - 1));
                }
                j = j - 1;
            } else {
                moving = false;
            }
        }
        proof {
            if j > 0 {
                assert(before.take(j as int).last() == before[j - 1]);
                assert(!rat_lt(e@.part.s, before[j - 1].part.s));
                assert(insert_ev(e@, before.take(j as int)) == before.take(j as int).push(e@));
            } else {
                assert(before.take(0) =~= Seq::<EventS>::empty());
                assert(insert_ev(e@, before.take(0)) =~= seq![e@]);
            }
        }
        out.insert(j, e);
        proof {
            assert(evs_view(out@) =~= insert_ev(evs_view(es@)[i as int], before)) by {
                assert(out@.len() == before.len() + 1);
                assert(forall|k: int|
                    0 <= k < j ==> #[trigger] out@[k]@ == before.take(j as int)[k]);
                assert(out@[j as int]@ == evs_view(es@)[i as int]);
                assert(forall|k: int|
                    j < k < out@.len() ==> #[trigger] out@[k]@ == before.skip(j as int)[k - j
                        - 1]);
                assert(insert_ev(evs_view(es@)[i as int], before) == before.take(j as int).push(
                    evs_view(es@)[i as int],
                ) + before.skip(j as int));
            }
            assert(evs_view(es@.take(i as int + 1)).drop_last() =~= evs_view(
                es@.take(i as int),
            ));
            assert(evs_view(es@.take(i as int + 1)).last() == es@[i as int]@);
            assert(evs_view(es@.take(i as int + 1)).len() == i + 1);
            lemma_insert_arcs_wf(evs_view(es@)[i as int], before);
        }
        i += 1;
    }
    proof {
        assert(es@.take(n as int) =~= es@);
    }
    out
}

/// Insertion keeps arcs well formed.
proof fn lemma_insert_arcs_wf(e: EventS, s: Seq<EventS>)
    requires
        ev_arcs_wf(e),
        evs_arcs_wf(s),
    ensures
        evs_arcs_wf(insert_ev(e, s)),
    decreases s.len(),
{
    if s.len() == 0 {
    } else if rat_lt(e.part.s, s.last().part.s) {
        assert(evs_arcs_wf(s.drop_last())) by {
            assert(forall|i: int| 0 <= i < s.len() - 1 ==> #[trigger] s.drop_last()[i] == s[i]);
        }
        lemma_insert_arcs_wf(e, s.drop_last());
        assert(ev_arcs_wf(s.last()));
    } else {
        assert(ev_arcs_wf(e));
    }
}

// ---------------------------------------------------------------------------
// Filters.
// ---------------------------------------------------------------------------

pub fn eval_time_pred(c: &TimePred, e: &Event) -> (r: bool)
    requires
        crate::pattern::time_pred_wf(c@),
        ev_arcs_wf(e@),
    ensures
        r == time_pred_holds(c@, e@),
{
    let base = e.whole_or_part();
    proof {
        assert(base.wf());
    }
    let cp = cycle_pos(&base.start);
    match c {
        TimePred::CycleIn(a) => a.start.le(&cp) && cp.lt(&a.stop),
        TimePred::CycleNotIn(a) => !(a.start.le(&cp) && cp.lt(&a.stop)),
    }
}

pub fn eval_val_pred(c: &ValPred, v: &Value) -> (r: bool)
    ensures
        r == val_pred_holds(c@, v@),
{
    match c {
        ValPred::IsText => matches!(v, Value::Text(_)),
        ValPred::IsInt => matches!(v, Value::Int(_)),
        ValPred::IsRational => matches!(v, Value::Rational(_)),
        ValPred::IsCtrl => matches!(v, Value::Ctrl(_)),
        ValPred::TextEq(s) => match v {
            Value::Text(vs) => crate::value::eq_chars(vs, s),
            _ => false,
        },
    }
}

pub fn filter_when_events(es: &Vec<Event>, c: &TimePred) -> (r: Vec<Event>)
    requires
        crate::pattern::time_pred_wf(c@),
        evs_arcs_wf(evs_view(es@)),
    ensures
        evs_view(r@) == evs_view(es@).filter(|e: EventS| time_pred_holds(c@, e)),
{
    let ghost f = |e: EventS| time_pred_holds(c@, e);
    let mut out: Vec<Event> = Vec::new();
    let n = es.len();
    let mut i: usize = 0;
    proof {
        reveal(Seq::filter);
        assert(evs_view(es@.take(0)) =~= Seq::<EventS>::empty());
        assert(evs_view(out@) =~= evs_view(es@.take(0)).filter(f));
    }
    while i < n
        invariant
            0 <= i <= n,
            n == es@.len(),
            crate::pattern::time_pred_wf(c@),
            evs_arcs_wf(evs_view(es@)),
            f == (|e: EventS| time_pred_holds(c@, e)),
            evs_view(out@) == evs_view(es@.take(i as int)).filter(f),
        decreases n - i,
    {
        proof {
            reveal(Seq::filter);
            assert(evs_view(es@)[i as int] == es@[i as int]@);
            assert(evs_view(es@.take(i as int + 1)).drop_last() =~= evs_view(
                es@.take(i as int),
            ));
            assert(evs_view(es@.take(i as int + 1)).last() == es@[i as int]@);
            assert(evs_view(es@.take(i as int + 1)).len() == i + 1);
        }
        if eval_time_pred(c, &es[i]) {
            let e = dup_event(&es[i]);
            out.push(e);
            proof {
                assert(evs_view(out@) =~= evs_view(out@.drop_last()).push(es@[i as int]@));
            }
        }
        i += 1;
    }
    proof {
        assert(es@.take(n as int) =~= es@);
    }
    out
}

pub fn filter_vals_events(es: &Vec<Event>, c: &ValPred) -> (r: Vec<Event>)
    ensures
        evs_view(r@) == evs_view(es@).filter(|e: EventS| val_pred_holds(c@, e.value)),
{
    let ghost f = |e: EventS| val_pred_holds(c@, e.value);
    let mut out: Vec<Event> = Vec::new();
    let n = es.len();
    let mut i: usize = 0;
    proof {
        reveal(Seq::filter);
        assert(evs_view(es@.take(0)) =~= Seq::<EventS>::empty());
        assert(evs_view(out@) =~= evs_view(es@.take(0)).filter(f));
    }
    while i < n
        invariant
            0 <= i <= n,
            n == es@.len(),
            f == (|e: EventS| val_pred_holds(c@, e.value)),
            evs_view(out@) == evs_view(es@.take(i as int)).filter(f),
        decreases n - i,
    {
        proof {
            reveal(Seq::filter);
            assert(evs_view(es@)[i as int] == es@[i as int]@);
            assert(evs_view(es@.take(i as int + 1)).drop_last() =~= evs_view(
                es@.take(i as int),
            ));
            assert(evs_view(es@.take(i as int + 1)).last() == es@[i as int]@);
            assert(evs_view(es@.take(i as int + 1)).len() == i + 1);
        }
        if eval_val_pred(c, &es[i].value) {
            let e = dup_event(&es[i]);
            out.push(e);
            proof {
                assert(evs_view(out@) =~= evs_view(out@.drop_last()).push(es@[i as int]@));
            }
        }
        i += 1;
    }
    proof {
        assert(es@.take(n as int) =~= es@);
    }
    out
}

// ---------------------------------------------------------------------------
// Unit events.
// ---------------------------------------------------------------------------

/// The events a unit pattern produces on the cycle slices of a query.
pub fn unit_events(v: &Value, subs: &Vec<Arc>) -> (r: Option<Vec<Event>>)
    requires
        forall|i: int| 0 <= i < subs@.len() ==> rarc_wf(#[trigger] subs@[i]@),
    ensures
        opt_evs_view(r) == unit_evs(v@, arcs_view(subs@)),
{
    let mut out: Vec<Event> = Vec::new();
    let n = subs.len();
    let mut i: usize = 0;
    proof {
        assert(arcs_view(subs@.take(0)) =~= Seq::<RArc>::empty());
        assert(unit_evs(v@, arcs_view(subs@.take(0))) == Some(evs_view(out@))) by {
            assert(evs_view(out@) =~= Seq::<EventS>::empty());
        }
    }
    while i < n
        invariant
            0 <= i <= n,
            n == subs@.len(),
            forall|k: int| 0 <= k < subs@.len() ==> rarc_wf(#[trigger] subs@[k]@),
            unit_evs(v@, arcs_view(subs@.take(i as int))) == Some(evs_view(out@)),
        decreases n - i,
    {
        let c = subs[i];
        proof {
            assert(arcs_view(subs@)[i as int] == subs@[i as int]@);
            assert(rarc_wf(c@));
            assert(arcs_view(subs@.take(i as int + 1)).drop_last() =~= arcs_view(
                subs@.take(i as int),
            ));
            assert(arcs_view(subs@.take(i as int + 1)).last() == c@);
            assert(arcs_view(subs@.take(i as int + 1)).len() == i + 1);
        }
        let zw = c.start.eq_time(&c.stop);
        if zw && !c.start.is_integer() {
            proof {
                assert(unit_ev(v@, c@) == Some(Seq::<EventS>::empty()));
                assert(evs_view(out@) + Seq::<EventS>::empty() =~= evs_view(out@));
            }
        } else {
            let fs = c.start.floor();
            if fs == i64::MAX {
                proof {
                    assert(!fits64(rat_int(rat_floor(c@.s) + 1)));
                    lemma_unit_evs_none(v@, arcs_view(subs@), i as int);
                }
                return None;
            }
            let b = Time::from_int(fs + 1);
            proof {
                lemma_rat_int_wf(rat_floor(c@.s) + 1);
                assert(crate::arcs::next_boundary(c@.s) == Some(b@));
            }
            let w = Arc { start: Time::from_int(fs), stop: b };
            let e = Event { whole: Some(w), part: c, value: v.dup() };
            out.push(e);
            proof {
                assert(unit_ev(v@, c@) == Some(seq![e@]));
                assert(evs_view(out@) =~= evs_view(out@.drop_last()) + seq![e@]);
            }
        }
        i += 1;
    }
    proof {
        assert(subs@.take(n as int) =~= subs@);
    }
    Some(out)
}

/// A slice whose boundary leaves the range fails the whole split.
proof fn lemma_unit_evs_none(v: ValS, subs: Seq<RArc>, i: int)
    requires
        0 <= i < subs.len(),
        unit_ev(v, subs[i]) is None,
    ensures
        unit_evs(v, subs) is None,
    decreases subs.len(),
{
    if subs.len() - 1 > i {
        assert(subs.drop_last()[i] == subs[i]);
        lemma_unit_evs_none(v, subs.drop_last(), i);
    } else {
        assert(subs.last() == subs[i]);
    }
}

} // verus!
