//! The meaning of a query.
//!
//! `sem(p, a)` is the sequence of events the pattern `p` produces on the arc
//! `a` — the single specification every executable query is proved against.
//! It is total: `None` marks exactly the queries whose exact arithmetic
//! leaves the machine word range, and each arithmetic step mirrors the
//! corresponding reduced-fraction operation.

use vstd::prelude::*;
use crate::time::{
    Rat, opt_fit, rat, rat_add, rat_div, rat_floor, rat_int, rat_is_int, rat_le, rat_lt, rat_mul,
    rat_sub,
};
use crate::arcs::{RArc, arc_cycles_zw_o, mirror_arc_o, next_boundary, rarc_wf, sub_arc_s};
use crate::value::{EventS, ValS, whole_or_part_s};
use crate::pattern::{
    CombineOp, PatS, TimePredS, ValPredS, XStepS, pat_wf, psize, psize_list, xform_wf,
    lemma_psize_elem, lemma_psize_pos, xform_apply_s, lemma_xform_size,
};
use crate::rand::time_rand_s;

verus! {

// ---------------------------------------------------------------------------
// Checked arithmetic on arcs and events.
// ---------------------------------------------------------------------------

pub open spec fn oadd(a: Rat, b: Rat) -> Option<Rat> {
    opt_fit(rat_add(a, b))
}

pub open spec fn osub(a: Rat, b: Rat) -> Option<Rat> {
    opt_fit(rat_sub(a, b))
}

pub open spec fn omul(a: Rat, b: Rat) -> Option<Rat> {
    opt_fit(rat_mul(a, b))
}

pub open spec fn odiv(a: Rat, b: Rat) -> Option<Rat> {
    opt_fit(rat_div(a, b))
}

/// Apply a checked point operation to both ends of an arc.
pub open spec fn arc_omul(a: RArc, r: Rat) -> Option<RArc> {
    match omul(a.s, r) {
        None => None,
        Some(s) => match omul(a.e, r) {
            None => None,
            Some(e) => Some(RArc { s, e }),
        },
    }
}

pub open spec fn arc_odiv(a: RArc, r: Rat) -> Option<RArc> {
    match odiv(a.s, r) {
        None => None,
        Some(s) => match odiv(a.e, r) {
            None => None,
            Some(e) => Some(RArc { s, e }),
        },
    }
}

pub open spec fn arc_oadd(a: RArc, t: Rat) -> Option<RArc> {
    match oadd(a.s, t) {
        None => None,
        Some(s) => match oadd(a.e, t) {
            None => None,
            Some(e) => Some(RArc { s, e }),
        },
    }
}

pub open spec fn arc_osub(a: RArc, t: Rat) -> Option<RArc> {
    match osub(a.s, t) {
        None => None,
        Some(s) => match osub(a.e, t) {
            None => None,
            Some(e) => Some(RArc { s, e }),
        },
    }
}

/// Apply a checked arc operation to an optional whole.
pub open spec fn owhole(w: Option<RArc>, f: spec_fn(RArc) -> Option<RArc>) -> Option<
    Option<RArc>,
> {
    match w {
        None => Some(None),
        Some(a) => match f(a) {
            None => None,
            Some(b) => Some(Some(b)),
        },
    }
}

/// Transform part and whole of an event with the same checked arc operation.
pub open spec fn ev_arcs(e: EventS, f: spec_fn(RArc) -> Option<RArc>) -> Option<EventS> {
    match f(e.part) {
        None => None,
        Some(p) => match owhole(e.whole, f) {
            None => None,
            Some(w) => Some(EventS { whole: w, part: p, value: e.value }),
        },
    }
}

pub open spec fn ev_div(r: Rat, e: EventS) -> Option<EventS> {
    ev_arcs(e, |a: RArc| arc_odiv(a, r))
}

pub open spec fn ev_add(t: Rat, e: EventS) -> Option<EventS> {
    ev_arcs(e, |a: RArc| arc_oadd(a, t))
}

pub open spec fn ev_sub(t: Rat, e: EventS) -> Option<EventS> {
    ev_arcs(e, |a: RArc| arc_osub(a, t))
}

/// Map a checked transform over events, in order; any failure fails the
/// whole sequence.
pub open spec fn opt_map_evs(s: Seq<EventS>, f: spec_fn(EventS) -> Option<EventS>) -> Option<
    Seq<EventS>,
>
    decreases s.len(),
{
    if s.len() == 0 {
        Some(Seq::empty())
    } else {
        match opt_map_evs(s.drop_last(), f) {
            None => None,
            Some(pre) => match f(s.last()) {
                None => None,
                Some(e) => Some(pre.push(e)),
            },
        }
    }
}

/// Map a partial transform over events, dropping those it rejects.
pub open spec fn filter_map_evs(s: Seq<EventS>, f: spec_fn(EventS) -> Option<EventS>) -> Seq<
    EventS,
>
    decreases s.len(),
{
    if s.len() == 0 {
        Seq::empty()
    } else {
        let pre = filter_map_evs(s.drop_last(), f);
        match f(s.last()) {
            None => pre,
            Some(e) => pre.push(e),
        }
    }
}

// ---------------------------------------------------------------------------
// Stable ordering by onset.
// ---------------------------------------------------------------------------

/// Insert an event behind every earlier or equal onset: a stable insertion.
pub open spec fn insert_ev(e: EventS, s: Seq<EventS>) -> Seq<EventS>
    decreases s.len(),
{
    if s.len() == 0 {
        seq![e]
    } else if rat_lt(e.part.s, s.last().part.s) {
        insert_ev(e, s.drop_last()).push(s.last())
    } else {
        s.push(e)
    }
}

/// Stable insertion sort by onset (`part.start`).
pub open spec fn sort_evs(s: Seq<EventS>) -> Seq<EventS>
    decreases s.len(),
{
    if s.len() == 0 {
        Seq::empty()
    } else {
        insert_ev(s.last(), sort_evs(s.drop_last()))
    }
}

// ---------------------------------------------------------------------------
// Per-variant helpers that do not query sub-patterns.
// ---------------------------------------------------------------------------

/// The event a unit pattern puts in one cycle-slice of the query: its whole
/// is the enclosing cycle, its part the slice itself.  A zero-width slice
/// yields an event only on a cycle boundary.
pub open spec fn unit_ev(v: ValS, c: RArc) -> Option<Seq<EventS>> {
    if c.s == c.e && !rat_is_int(c.s) {
        Some(Seq::empty())
    } else {
        match next_boundary(c.s) {
            None => None,
            Some(b) => Some(
                seq![
                    EventS {
                        whole: Some(RArc { s: rat_int(rat_floor(c.s)), e: b }),
                        part: c,
                        value: v,
                    },
                ],
            ),
        }
    }
}

pub open spec fn unit_evs(v: ValS, subs: Seq<RArc>) -> Option<Seq<EventS>>
    decreases subs.len(),
{
    if subs.len() == 0 {
        Some(Seq::empty())
    } else {
        match unit_evs(v, subs.drop_last()) {
            None => None,
            Some(pre) => match unit_ev(v, subs.last()) {
                None => None,
                Some(es) => Some(pre + es),
            },
        }
    }
}

/// Where `t` falls within its cycle.
pub open spec fn cycle_pos_s(t: Rat) -> Rat {
    rat_sub(t, rat_int(rat_floor(t)))
}

pub open spec fn time_pred_holds(c: TimePredS, e: EventS) -> bool {
    match c {
        TimePredS::CycleIn(a) => {
            let cp = cycle_pos_s(whole_or_part_s(e).s);
            rat_le(a.s, cp) && rat_lt(cp, a.e)
        },
        TimePredS::CycleNotIn(a) => {
            let cp = cycle_pos_s(whole_or_part_s(e).s);
            !(rat_le(a.s, cp) && rat_lt(cp, a.e))
        },
    }
}

pub open spec fn val_pred_holds(c: ValPredS, v: ValS) -> bool {
    match c {
        ValPredS::IsText => v is Text,
        ValPredS::IsInt => v is Int,
        ValPredS::IsRational => v is Rational,
        ValPredS::IsCtrl => v is Ctrl,
        ValPredS::TextEq(s) => v == ValS::Text(s),
    }
}

/// The arc a sub-query is restricted to by an outer event: the overlap of
/// the query arc and the event's part, under the half-open convention.
pub open spec fn restrict_arc(a: RArc, part: RArc) -> Option<RArc> {
    match sub_arc_s(a, part) {
        None => None,
        Some(b) => sub_arc_s(b, a),
    }
}

/// The draw that decides a degrade at the midpoint of an arc: `None` when
/// the midpoint or the draw's seed leaves the machine range.
pub open spec fn mid_draw(c: RArc) -> Option<Rat> {
    match oadd(c.s, c.e) {
        None => None,
        Some(s2) => match odiv(s2, rat_int(2)) {
            None => None,
            Some(mid) => time_rand_s(mid),
        },
    }
}

// ---------------------------------------------------------------------------
// Combining values (apply_from_left).
// ---------------------------------------------------------------------------

/// Combine a left value with a right value.  A value of an unexpected shape
/// leaves the left value unchanged.
pub open spec fn combine_vals(op: CombineOp, lv: ValS, rv: ValS) -> ValS {
    match op {
        CombineOp::SetPan => match (lv, rv) {
            (ValS::Ctrl(m), ValS::Rational(x)) => ValS::Ctrl(
                m.insert(crate::value::key_pan(), ValS::Rational(x)),
            ),
            _ => lv,
        },
        CombineOp::SetPanInv => match (lv, rv) {
            (ValS::Ctrl(m), ValS::Rational(x)) => match osub(rat_int(1), x) {
                None => lv,
                Some(y) => ValS::Ctrl(m.insert(crate::value::key_pan(), ValS::Rational(y))),
            },
            _ => lv,
        },
        CombineOp::MergeRight => match (lv, rv) {
            (ValS::Ctrl(m1), ValS::Ctrl(m2)) => ValS::Ctrl(m1.union_prefer_right(m2)),
            _ => lv,
        },
    }
}

/// Advance the current right event past every right event at or before the
/// left onset; returns the new current and what remains of the rights.
pub open spec fn afl_consume(rs: Seq<EventS>, l_start: Rat, cur: Option<EventS>) -> (
    Option<EventS>,
    Seq<EventS>,
)
    decreases rs.len(),
{
    if rs.len() == 0 {
        (cur, rs)
    } else if rat_le(rs.first().part.s, l_start) {
        afl_consume(rs.drop_first(), l_start, Some(rs.first()))
    } else {
        (cur, rs)
    }
}

/// The left-biased applicative pairing: each left event combines with the
/// latest right event whose onset is not after its own; left events with no
/// surviving right partner are dropped.
pub open spec fn afl(op: CombineOp, ls: Seq<EventS>, rs: Seq<EventS>, cur0: Option<EventS>) -> Seq<
    EventS,
>
    decreases ls.len(),
{
    if ls.len() == 0 {
        Seq::empty()
    } else {
        let l = ls.first();
        let cur1 = match cur0 {
            Some(c) => if rat_lt(l.part.e, c.part.s) {
                None
            } else {
                Some(c)
            },
            None => None,
        };
        let (cur2, rs2) = afl_consume(rs, l.part.s, cur1);
        let rest = afl(op, ls.drop_first(), rs2, cur2);
        match cur2 {
            Some(c) => seq![
                EventS {
                    whole: l.whole,
                    part: l.part,
                    value: combine_vals(op, l.value, c.value),
                },
            ] + rest,
            None => rest,
        }
    }
}

// ---------------------------------------------------------------------------
// Sound and pan payload maps.
// ---------------------------------------------------------------------------

pub open spec fn first_colon_from(s: Seq<char>, i: int) -> Option<int>
    decreases s.len() - i,
{
    if i < 0 || i >= s.len() {
        None
    } else if s[i] == ':' {
        Some(i)
    } else {
        first_colon_from(s, i + 1)
    }
}

pub open spec fn is_digits(s: Seq<char>) -> bool {
    s.len() > 0 && forall|i: int| 0 <= i < s.len() ==> '0' <= #[trigger] s[i] <= '9'
}

pub open spec fn digits_val(s: Seq<char>) -> int
    decreases s.len(),
{
    if s.len() == 0 {
        0
    } else {
        digits_val(s.drop_last()) * 10 + (s.last() as int - '0' as int)
    }
}

/// Split `name:n` at the first colon: the sample name and the variation
/// index.  No colon means variation `0`; a variation that is not a plain
/// number in range is rejected.
pub open spec fn split_sound(s: Seq<char>) -> Option<(Seq<char>, int)> {
    match first_colon_from(s, 0) {
        None => Some((s, 0)),
        Some(i) => {
            let num = s.subrange(i + 1, s.len() as int);
            if is_digits(num) && digits_val(num) <= i64::MAX as int {
                Some((s.subrange(0, i), digits_val(num)))
            } else {
                None
            }
        },
    }
}

/// A text event becomes a control map `{s: name, n: variation}`; any other
/// event, and a text whose variation does not parse, is dropped.
pub open spec fn sound_ev(e: EventS) -> Option<EventS> {
    match e.value {
        ValS::Text(s) => match split_sound(s) {
            None => None,
            Some((name, n)) => Some(
                EventS {
                    whole: e.whole,
                    part: e.part,
                    value: ValS::Ctrl(
                        Map::empty().insert(crate::value::key_s(), ValS::Text(name)).insert(crate::value::key_n(), ValS::Int(n)),
                    ),
                },
            ),
        },
        _ => None,
    }
}

/// A rational event becomes a control map `{pan: x}`; other events are
/// dropped.
pub open spec fn pan_ev(e: EventS) -> Option<EventS> {
    match e.value {
        ValS::Rational(x) => Some(
            EventS {
                whole: e.whole,
                part: e.part,
                value: ValS::Ctrl(Map::empty().insert(crate::value::key_pan(), ValS::Rational(x))),
            },
        ),
        _ => None,
    }
}

// ---------------------------------------------------------------------------
// Transform application.
// ---------------------------------------------------------------------------

// ---------------------------------------------------------------------------
// The semantics.
// ---------------------------------------------------------------------------

pub open spec fn sem(p: PatS, a: RArc) -> Option<Seq<EventS>>
    decreases psize(p), 0nat, 0nat,
    via sem_dec
{
    match p {
        PatS::Silence => Some(Seq::empty()),
        PatS::Unit(v) => match arc_cycles_zw_o(a) {
            None => None,
            Some(subs) => unit_evs(v, subs),
        },
        PatS::Fast(r, q) => {
            if !(r.n > 0) {
                Some(Seq::empty())
            } else {
                match arc_omul(a, r) {
                    None => None,
                    Some(a2) => match sem(*q, a2) {
                        None => None,
                        Some(es) => opt_map_evs(es, |e: EventS| ev_div(r, e)),
                    },
                }
            }
        },
        PatS::Stack(ps) => match sem_list(ps, a) {
            None => None,
            Some(es) => Some(sort_evs(es)),
        },
        PatS::Cat(ps) => {
            if ps.len() == 0 {
                Some(Seq::empty())
            } else if ps.len() > i64::MAX as int {
                None
            } else {
                match arc_cycles_zw_o(a) {
                    None => None,
                    Some(subs) => sem_cat(ps, subs),
                }
            }
        },
        PatS::Rev(q) => match arc_cycles_zw_o(a) {
            None => None,
            Some(subs) => match sem_rev(*q, subs) {
                None => None,
                Some(es) => Some(sort_evs(es)),
            },
        },
        PatS::RotL(t, q) => match arc_oadd(a, t) {
            None => None,
            Some(a2) => match sem(*q, a2) {
                None => None,
                Some(es) => opt_map_evs(es, |e: EventS| ev_sub(t, e)),
            },
        },
        PatS::RotR(t, q) => match arc_osub(a, t) {
            None => None,
            Some(a2) => match sem(*q, a2) {
                None => None,
                Some(es) => opt_map_evs(es, |e: EventS| ev_add(t, e)),
            },
        },
        PatS::FilterWhen(c, q) => match sem(*q, a) {
            None => None,
            Some(es) => Some(es.filter(|e: EventS| time_pred_holds(c, e))),
        },
        PatS::FilterVals(c, q) => match sem(*q, a) {
            None => None,
            Some(es) => Some(es.filter(|e: EventS| val_pred_holds(c, e.value))),
        },
        PatS::DegradeBy(x, q) => match sem(*x, a) {
            None => None,
            Some(outer) => sem_degrade(true, outer, *q, a),
        },
        PatS::UndegradeBy(x, q) => match sem(*x, a) {
            None => None,
            Some(outer) => sem_degrade(false, outer, *q, a),
        },
        PatS::Off(tp, f, q) => match sem(*tp, a) {
            None => None,
            Some(outer) => match sem_off(outer, f, *q, a) {
                None => None,
                Some(es) => Some(sort_evs(es)),
            },
        },
        PatS::InnerJoin(q) => match sem(*q, a) {
            None => None,
            Some(outer) => sem_ij(outer, psize(*q), a),
        },
        PatS::ApplyLeft(op, l, r) => match sem(*l, a) {
            None => None,
            Some(ls) => match sem(*r, a) {
                None => None,
                Some(rs) => Some(afl(op, ls, rs, None)),
            },
        },
        PatS::Sound(q) => match sem(*q, a) {
            None => None,
            Some(es) => Some(filter_map_evs(es, |e: EventS| sound_ev(e))),
        },
        PatS::Pan(q) => match sem(*q, a) {
            None => None,
            Some(es) => Some(filter_map_evs(es, |e: EventS| pan_ev(e))),
        },
    }
}

/// Query every pattern of a stack, in order, and lay the results end to
/// end (the stack itself then sorts them).
pub open spec fn sem_list(ps: Seq<PatS>, a: RArc) -> Option<Seq<EventS>>
    decreases psize_list(ps), 1nat, 0nat,
    via sem_list_dec
{
    if ps.len() == 0 {
        Some(Seq::empty())
    } else {
        match sem_list(ps.drop_last(), a) {
            None => None,
            Some(pre) => match sem(ps.last(), a) {
                None => None,
                Some(es) => Some(pre + es),
            },
        }
    }
}

/// One sub-pattern per cycle: each single-cycle slice `c` of the query goes
/// to pattern `cyc mod n` shifted to its home cycle, and the events come
/// back shifted to `c`.
pub open spec fn sem_cat(ps: Seq<PatS>, subs: Seq<RArc>) -> Option<Seq<EventS>>
    decreases psize_list(ps), 1nat, subs.len(),
    via sem_cat_dec
{
    if ps.len() == 0 {
        Some(Seq::empty())
    } else if subs.len() == 0 {
        Some(Seq::empty())
    } else {
        match sem_cat(ps, subs.drop_last()) {
            None => None,
            Some(pre) => {
                let c = subs.last();
                let n = ps.len() as int;
                let cyc = rat_floor(c.s);
                let i = cyc % n;
                let off = cyc - ((cyc - i) / n);
                if !(i64::MIN as int <= off <= i64::MAX as int) {
                    None
                } else {
                    match arc_osub(c, rat_int(off)) {
                        None => None,
                        Some(c2) => match sem(ps[i], c2) {
                            None => None,
                            Some(es) => match opt_map_evs(
                                es,
                                |e: EventS| ev_add(rat_int(off), e),
                            ) {
                                None => None,
                                Some(shifted) => Some(pre + shifted),
                            },
                        },
                    }
                }
            },
        }
    }
}

/// Reverse each single-cycle slice: query the mirror of the slice around
/// the cycle's midpoint, mirror the parts back, and carry each whole along
/// as offsets from the part so it lands mirrored too.
pub open spec fn sem_rev(q: PatS, subs: Seq<RArc>) -> Option<Seq<EventS>>
    decreases psize(q), 1nat, subs.len(),
{
    if subs.len() == 0 {
        Some(Seq::empty())
    } else {
        match sem_rev(q, subs.drop_last()) {
            None => None,
            Some(pre) => {
                let c = subs.last();
                match oadd(rat_int(rat_floor(c.s)), rat(1, 2)) {
                    None => None,
                    Some(mid) => match mirror_arc_o(mid, c) {
                        None => None,
                        Some(na) => match sem(q, na) {
                            None => None,
                            Some(es) => match opt_map_evs(es, |e: EventS| ev_mirror(mid, e)) {
                                None => None,
                                Some(ms) => Some(pre + ms.reverse()),
                            },
                        },
                    },
                }
            },
        }
    }
}

/// Mirror one event across `mid`: the part is reflected; the whole is made
/// relative to the part, the part reflected, and the whole re-absolutized.
pub open spec fn ev_mirror(mid: Rat, e: EventS) -> Option<EventS> {
    match mirror_arc_o(mid, e.part) {
        None => None,
        Some(mp) => match e.whole {
            None => Some(EventS { whole: None, part: mp, value: e.value }),
            Some(w) => match osub(e.part.s, w.s) {
                None => None,
                Some(da) => match osub(w.e, e.part.e) {
                    None => None,
                    Some(db) => match osub(mp.s, db) {
                        None => None,
                        Some(ws) => match oadd(mp.e, da) {
                            None => None,
                            Some(we) => Some(
                                EventS { whole: Some(RArc { s: ws, e: we }), part: mp, value: e.value },
                            ),
                        },
                    },
                },
            },
        },
    }
}

/// Degrade: each probability event restricts the query; the whole slice of
/// the inner pattern is kept when the midpoint draw exceeds the probability
/// (`keep_above`), or exactly otherwise (`!keep_above`).
pub open spec fn sem_degrade(keep_above: bool, outer: Seq<EventS>, q: PatS, a: RArc) -> Option<
    Seq<EventS>,
>
    decreases psize(q), 1nat, outer.len(),
{
    if outer.len() == 0 {
        Some(Seq::empty())
    } else {
        match sem_degrade(keep_above, outer.drop_last(), q, a) {
            None => None,
            Some(pre) => {
                let o = outer.last();
                match o.value {
                    ValS::Rational(prob) => match restrict_arc(a, o.part) {
                        None => Some(pre),
                        Some(c) => match mid_draw(c) {
                            None => None,
                            Some(draw) => match sem(q, c) {
                                None => None,
                                Some(es) => {
                                    let keep = if keep_above {
                                        rat_lt(prob, draw)
                                    } else {
                                        !rat_lt(prob, draw)
                                    };
                                    if keep {
                                        Some(pre + es)
                                    } else {
                                        Some(pre)
                                    }
                                },
                            },
                        },
                    },
                    _ => Some(pre),
                }
            },
        }
    }
}

/// Off: each offset event overlays the plain pattern with its transform
/// shifted later by the offset, on the restricted arc.
pub open spec fn sem_off(outer: Seq<EventS>, f: Seq<XStepS>, q: PatS, a: RArc) -> Option<
    Seq<EventS>,
>
    decreases psize(q) + 2 * f.len() + 1, 1nat, outer.len(),
    via sem_off_dec
{
    if outer.len() == 0 {
        Some(Seq::empty())
    } else {
        match sem_off(outer.drop_last(), f, q, a) {
            None => None,
            Some(pre) => {
                let o = outer.last();
                match o.value {
                    ValS::Rational(t) => match restrict_arc(a, o.part) {
                        None => Some(pre),
                        Some(c) => match sem(q, c) {
                            None => None,
                            Some(es1) => match sem(
                                xform_apply_s(f, PatS::RotR(t, Box::new(q))),
                                c,
                            ) {
                                None => None,
                                Some(es2) => Some(pre + es1 + es2),
                            },
                        },
                    },
                    _ => Some(pre),
                }
            },
        }
    }
}

/// Inner join: each outer event that carries a pattern queries it on the
/// restricted arc; the outer pattern decides when to listen, the inner what
/// plays.  (Patterns in events always come from payloads, so the size guard
/// holds of every event a query can produce.)
pub open spec fn sem_ij(outer: Seq<EventS>, bound: nat, a: RArc) -> Option<Seq<EventS>>
    decreases bound, 1nat, outer.len(),
{
    if outer.len() == 0 {
        Some(Seq::empty())
    } else {
        match sem_ij(outer.drop_last(), bound, a) {
            None => None,
            Some(pre) => {
                let o = outer.last();
                match o.value {
                    ValS::Pat(q) => {
                        if psize(*q) < bound {
                            match restrict_arc(a, o.part) {
                                None => Some(pre),
                                Some(c) => match sem(*q, c) {
                                    None => None,
                                    Some(es) => Some(pre + es),
                                },
                            }
                        } else {
                            Some(pre)
                        }
                    },
                    _ => Some(pre),
                }
            },
        }
    }
}

#[via_fn]
proof fn sem_dec(p: PatS, a: RArc) {
    match p {
        PatS::Off(tp, f, q) => {
            lemma_psize_pos(*tp);
        },
        _ => {},
    }
}

#[via_fn]
proof fn sem_list_dec(ps: Seq<PatS>, a: RArc) {
    if ps.len() > 0 {
        lemma_psize_pos(ps.last());
        lemma_psize_elem(ps, ps.len() - 1);
    }
}

#[via_fn]
proof fn sem_cat_dec(ps: Seq<PatS>, subs: Seq<RArc>) {
    if ps.len() > 0 && subs.len() > 0 {
        let c = subs.last();
        let n = ps.len() as int;
        let cyc = rat_floor(c.s);
        let i = cyc % n;
        lemma_psize_elem(ps, i);
    }
}

#[via_fn]
proof fn sem_off_dec(outer: Seq<EventS>, f: Seq<XStepS>, q: PatS, a: RArc) {
    if outer.len() > 0 {
        let o = outer.last();
        match o.value {
            ValS::Rational(t) => {
                lemma_xform_size(f, PatS::RotR(t, Box::new(q)));
            },
            _ => {},
        }
    }
}

} // verus!
