//! Executable pieces of the query that sit between whole-pattern recursion
//! and single-event transforms: arc restriction, the degrade draw, value
//! combination, the left-biased pairing, and the sound / pan payload maps.

use vstd::prelude::*;
use vstd::arithmetic::div_mod::{lemma_fundamental_div_mod, lemma_fundamental_div_mod_converse};
use crate::time::{
    Rat, Time, floor_div64, opt_fit, opt_time_view, opt_time_wf, rat, rat_int, rat_le, rat_lt,
    rat_wf,
};
use crate::arcs::{Arc, RArc, opt_arc_view, rarc_wf, sub_arc, sub_arc_s};
use crate::value::{
    ControlMap, Event, EventS, ValS, Value, dup_chars, evs_view, key_n, key_pan, key_s,
};
use crate::pattern::CombineOp;
use crate::sem::{
    afl, afl_consume, combine_vals, digits_val, filter_map_evs, first_colon_from, is_digits,
    mid_draw, osub, pan_ev, restrict_arc, sound_ev, split_sound,
};
use crate::evops::{dup_event, ev_arcs_wf, evs_arcs_wf};
use crate::rand::time_rand;

verus! {

/// The arc an outer event restricts a sub-query to.
pub fn restrict(a: &Arc, part: &Arc) -> (r: Option<Arc>)
    requires
        a.wf(),
        part.wf(),
    ensures
        opt_arc_view(r) == restrict_arc(a@, part@),
        match r {
            Some(c) => c.wf(),
            None => true,
        },
{
    match sub_arc(*a, *part) {
        None => None,
        Some(b) => sub_arc(b, *a),
    }
}

/// The draw at the midpoint of an arc.
pub fn mid_draw_x(c: &Arc) -> (r: Option<Time>)
    requires
        c.wf(),
    ensures
        opt_time_view(r) == mid_draw(c@),
        opt_time_wf(r),
{
    match c.start.add(&c.stop) {
        None => None,
        Some(s2) => {
            let two = Time::from_int(2);
            match s2.div(&two) {
                None => None,
                Some(mid) => time_rand(&mid),
            }
        },
    }
}

pub fn key_pan_vec() -> (r: Vec<char>)
    ensures
        r@ == key_pan(),
{
    let mut v: Vec<char> = Vec::new();
    v.push('p');
    v.push('a');
    v.push('n');
    proof {
        assert(v@ =~= key_pan());
    }
    v
}

pub fn key_s_vec() -> (r: Vec<char>)
    ensures
        r@ == key_s(),
{
    let mut v: Vec<char> = Vec::new();
    v.push('s');
    proof {
        assert(v@ =~= key_s());
    }
    v
}

pub fn key_n_vec() -> (r: Vec<char>)
    ensures
        r@ == key_n(),
{
    let mut v: Vec<char> = Vec::new();
    v.push('n');
    proof {
        assert(v@ =~= key_n());
    }
    v
}

/// Combine a left value with a right value for `apply_from_left`.
pub fn combine_exec(op: CombineOp, lv: &Value, rv: &Value) -> (r: Value)
    requires
        crate::value::val_wf(rv@),
    ensures
        r@ == combine_vals(op, lv@, rv@),
{
    match op {
        CombineOp::SetPan => match (lv, rv) {
            (Value::Ctrl(m), Value::Rational(x)) => {
                let mut m2 = m.dup();
                m2.insert(key_pan_vec(), Value::Rational(*x));
                Value::Ctrl(m2)
            },
            _ => lv.dup(),
        },
        CombineOp::SetPanInv => match (lv, rv) {
            (Value::Ctrl(m), Value::Rational(x)) => {
                let one = Time::from_int(1);
                match one.sub(x) {
                    None => lv.dup(),
                    Some(y) => {
                        let mut m2 = m.dup();
                        m2.insert(key_pan_vec(), Value::Rational(y));
                        Value::Ctrl(m2)
                    },
                }
            },
            _ => lv.dup(),
        },
        CombineOp::MergeRight => match (lv, rv) {
            (Value::Ctrl(m1), Value::Ctrl(m2)) => Value::Ctrl(m1.merge(m2)),
            _ => lv.dup(),
        },
    }
}

pub open spec fn opt_ev_view(c: Option<Event>) -> Option<EventS> {
    match c {
        Some(e) => Some(e@),
        None => None,
    }
}

/// The payloads of the events are well formed.
pub open spec fn evs_vals_wf(s: Seq<EventS>) -> bool {
    forall|i: int| 0 <= i < s.len() ==> crate::value::val_wf(#[trigger] s[i].value)
}

/// The left-biased applicative pairing over two query results.
pub fn afl_exec(op: CombineOp, ls: &Vec<Event>, rs: &Vec<Event>) -> (out: Vec<Event>)
    requires
        evs_arcs_wf(evs_view(ls@)),
        evs_arcs_wf(evs_view(rs@)),
        evs_vals_wf(evs_view(rs@)),
    ensures
        evs_view(out@) == afl(op, evs_view(ls@), evs_view(rs@), None),
{
    let ghost gls = evs_view(ls@);
    let ghost grs = evs_view(rs@);
    let mut out: Vec<Event> = Vec::new();
    let mut cur: Option<Event> = None;
    let mut j: usize = 0;
    let mut i: usize = 0;
    let nl = ls.len();
    let nr = rs.len();
    proof {
        assert(gls.skip(0) =~= gls);
        assert(grs.skip(0) =~= grs);
        assert(evs_view(out@) + afl(op, gls.skip(0), grs.skip(0), None) =~= afl(
            op,
            gls,
            grs,
            None,
        ));
    }
    while i < nl
        invariant
            0 <= i <= nl,
            0 <= j <= nr,
            nl == ls@.len(),
            nr == rs@.len(),
            gls == evs_view(ls@),
            grs == evs_view(rs@),
            evs_arcs_wf(gls),
            evs_arcs_wf(grs),
            evs_vals_wf(grs),
            match cur {
                Some(c) => ev_arcs_wf(c@) && crate::value::val_wf(c@.value),
                None => true,
            },
            afl(op, gls, grs, None) == evs_view(out@) + afl(
                op,
                gls.skip(i as int),
                grs.skip(j as int),
                opt_ev_view(cur),
            ),
        decreases nl - i,
    {
        proof {
            assert(gls.skip(i as int).first() == gls[i as int]);
            assert(gls[i as int] == ls@[i as int]@);
            assert(ev_arcs_wf(gls[i as int]));
            assert(gls.skip(i as int).drop_first() =~= gls.skip(i as int + 1));
        }
        let l_whole = ls[i].whole;
        let l_part = ls[i].part;
        proof {
            assert(l_part@ == gls[i as int].part);
            assert(rarc_wf(l_part@));
        }
        // drop a current right event that starts after this left event ends
        let keep_cur = match &cur {
            Some(c) => !l_part.stop.lt(&c.part.start),
            None => false,
        };
        if !keep_cur {
            cur = None;
        }
        let ghost cur1 = opt_ev_view(cur);
        // pull every right event at or before the left onset
        let ghost j0 = j as int;
        proof {
            assert(afl_consume(grs.skip(j0), gls[i as int].part.s, cur1) == afl_consume(
                grs.skip(j as int),
                gls[i as int].part.s,
                opt_ev_view(cur),
            ));
        }
        let mut moving = true;
        while moving && j < nr
            invariant
                0 <= j <= nr,
                nr == rs@.len(),
                grs == evs_view(rs@),
                evs_arcs_wf(grs),
                evs_vals_wf(grs),
                0 <= i < nl,
                nl == ls@.len(),
                gls == evs_view(ls@),
                evs_arcs_wf(gls),
                l_part@ == gls[i as int].part,
                match cur {
                    Some(c) => ev_arcs_wf(c@) && crate::value::val_wf(c@.value),
                    None => true,
                },
                0 <= j0 <= j,
                afl_consume(grs.skip(j0), gls[i as int].part.s, cur1) == afl_consume(
                    grs.skip(j as int),
                    gls[i as int].part.s,
                    opt_ev_view(cur),
                ),
                !moving ==> j < nr && !rat_le(grs[j as int].part.s, gls[i as int].part.s),
            decreases nr - j + (if moving { 1int } else { 0int }),
        {
            proof {
                assert(grs.skip(j as int).first() == grs[j as int]);
                assert(grs[j as int] == rs@[j as int]@);
                assert(ev_arcs_wf(grs[j as int]));
                assert(crate::value::val_wf(grs[j as int].value));
                assert(grs.skip(j as int).drop_first() =~= grs.skip(j as int + 1));
            }
            if rs[j].part.start.le(&l_part.start) {
                cur = Some(dup_event(&rs[j]));
                j += 1;
            } else {
                moving = false;
            }
        }
        proof {
            if j < nr {
                assert(grs.skip(j as int).first() == grs[j as int]);
                assert(!rat_le(grs.skip(j as int).first().part.s, gls[i as int].part.s));
            } else {
                assert(grs.skip(j as int).len() == 0);
            }
            assert(afl_consume(grs.skip(j as int), gls[i as int].part.s, opt_ev_view(cur)) == (
                opt_ev_view(cur),
                grs.skip(j as int),
            ));
        }
        match &cur {
            Some(c) => {
                let ev = Event {
                    whole: l_whole,
                    part: l_part,
                    value: combine_exec(op, &ls[i].value, &c.value),
                };
                out.push(ev);
                proof {
                    assert(evs_view(out@) =~= evs_view(out@.drop_last()).push(ev@));
                    assert(evs_view(out@.drop_last()).push(ev@) + afl(
                        op,
                        gls.skip(i as int + 1),
                        grs.skip(j as int),
                        opt_ev_view(cur),
                    ) =~= evs_view(out@.drop_last()) + (seq![ev@] + afl(
                        op,
                        gls.skip(i as int + 1),
                        grs.skip(j as int),
                        opt_ev_view(cur),
                    )));
                }
            },
            None => {},
        }
        i += 1;
    }
    proof {
        assert(gls.skip(nl as int).len() == 0);
        assert(evs_view(out@) + Seq::<EventS>::empty() =~= evs_view(out@));
    }
    out
}

// ---------------------------------------------------------------------------
// Sound and pan.
// ---------------------------------------------------------------------------

/// Digit prefixes never outweigh the whole number.
proof fn lemma_digits_mono(s: Seq<char>, m: int)
    requires
        0 <= m <= s.len(),
        forall|i: int| 0 <= i < s.len() ==> '0' <= #[trigger] s[i] <= '9',
    ensures
        digits_val(s.take(m)) >= 0,
        digits_val(s) >= digits_val(s.take(m)),
    decreases s.len(),
{
    if s.len() == 0 {
        assert(s.take(m) =~= s);
    } else if m == s.len() {
        assert(s.take(m) =~= s);
        assert(forall|i: int|
            0 <= i < s.len() - 1 ==> #[trigger] s.drop_last()[i] == s[i]);
        lemma_digits_mono(s.drop_last(), s.len() - 1);
        assert(s.drop_last().take(s.len() - 1) =~= s.drop_last());
        assert(digits_val(s) == digits_val(s.drop_last()) * 10 + (s.last() as int
            - '0' as int));
        assert(digits_val(s.drop_last()) * 10 >= digits_val(s.drop_last()))
            by (nonlinear_arith)
            requires
                digits_val(s.drop_last()) >= 0,
        ;
    } else {
        assert(forall|i: int|
            0 <= i < s.len() - 1 ==> #[trigger] s.drop_last()[i] == s[i]);
        lemma_digits_mono(s.drop_last(), m);
        assert(s.drop_last().take(m) =~= s.take(m));
        lemma_digits_mono(s.drop_last(), s.len() - 1);
        assert(s.drop_last().take(s.len() - 1) =~= s.drop_last());
        assert('0' <= s[s.len() - 1] <= '9');
        assert(digits_val(s) == digits_val(s.drop_last()) * 10 + (s.last() as int
            - '0' as int));
        assert(digits_val(s.drop_last()) * 10 >= digits_val(s.drop_last()))
            by (nonlinear_arith)
            requires
                digits_val(s.drop_last()) >= 0,
        ;
    }
}

/// Parse a digit sequence when it is one in range; `None` exactly when the
/// specification rejects it.
fn parse_digits(s: &Vec<char>, from: usize) -> (r: Option<i64>)
    requires
        from <= s@.len(),
    ensures
        ({
            let num = s@.subrange(from as int, s@.len() as int);
            match r {
                Some(k) => is_digits(num) && digits_val(num) == k as int && k >= 0,
                None => !(is_digits(num) && digits_val(num) <= i64::MAX as int),
            }
        }),
{
    let ghost num = s@.subrange(from as int, s@.len() as int);
    let n = s.len();
    if from == n {
        proof {
            assert(num.len() == 0);
            assert(!is_digits(num));
        }
        return None;
    }
    let mut acc: i64 = 0;
    let mut k: usize = from;
    proof {
        assert(num.take(0) =~= Seq::<char>::empty());
    }
    while k < n
        invariant
            from <= k <= n,
            n == s@.len(),
            from < n,
            num == s@.subrange(from as int, n as int),
            forall|i: int| 0 <= i < k - from ==> '0' <= #[trigger] num[i] <= '9',
            0 <= acc,
            acc as int == digits_val(num.take(k - from)),
        decreases n - k,
    {
        let c = s[k];
        proof {
            assert(num[k - from] == s@[k as int]);
        }
        if !('0' <= c && c <= '9') {
            proof {
                assert(!is_digits(num));
            }
            return None;
        }
        let d: i64 = (c as u32 - 48) as i64;
        proof {
            assert(d as int == c as int - '0' as int);
        }
        let next: i128 = (acc as i128) * 10 + (d as i128);
        proof {
            assert(num.take(k - from + 1).drop_last() =~= num.take(k - from));
            assert(num.take(k - from + 1).last() == num[k - from]);
            assert(digits_val(num.take(k - from + 1)) == acc as int * 10 + d as int);
        }
        if next > i64::MAX as i128 {
            proof {
                if is_digits(num) {
                    lemma_digits_mono(num, k - from + 1);
                    assert(digits_val(num) > i64::MAX as int);
                }
            }
            return None;
        }
        acc = next as i64;
        k += 1;
    }
    proof {
        assert(num.take(n - from) =~= num);
        assert(is_digits(num));
    }
    Some(acc)
}

/// The sound payload map on one event.
fn sound_one(e: &Event) -> (r: Option<Event>)
    ensures
        match r {
            Some(e2) => sound_ev(e@) == Some(e2@),
            None => sound_ev(e@) is None,
        },
{
    let s: &Vec<char> = match &e.value {
        Value::Text(s) => s,
        _ => {
            return None;
        },
    };
    // find the first colon
    let n = s.len();
    let mut k: usize = 0;
    let mut colon: Option<usize> = None;
    while k < n && colon.is_none()
        invariant
            0 <= k <= n,
            n == s@.len(),
            match colon {
                Some(ci) => ci < n && s@[ci as int] == ':' && first_colon_from(s@, 0) == Some(
                    ci as int,
                ),
                None => first_colon_from(s@, 0) == first_colon_from(s@, k as int),
            },
        decreases n - k + (if colon.is_none() { 1int } else { 0int }),
    {
        if s[k] == ':' {
            colon = Some(k);
        } else {
            k += 1;
        }
    }
    let ghost fc = first_colon_from(s@, 0);
    match colon {
        None => {
            proof {
                assert(fc is None);
            }
            let name = dup_chars(s);
            let mut m = ControlMap::new();
            m.insert(key_s_vec(), Value::Text(name));
            m.insert(key_n_vec(), Value::Int(0));
            let ev = Event { whole: e.whole, part: e.part, value: Value::Ctrl(m) };
            proof {
                assert(split_sound(s@) == Some((s@, 0int)));
            }
            Some(ev)
        },
        Some(ci) => {
            proof {
                assert(fc == Some(ci as int));
            }
            match parse_digits(s, ci + 1) {
                None => {
                    proof {
                        assert(split_sound(s@) is None);
                    }
                    None
                },
                Some(k2) => {
                    let ghost num = s@.subrange(ci as int + 1, s@.len() as int);
                    let mut name: Vec<char> = Vec::new();
                    let mut t: usize = 0;
                    while t < ci
                        invariant
                            0 <= t <= ci < s@.len(),
                            name@ == s@.subrange(0, t as int),
                        decreases ci - t,
                    {
                        name.push(s[t]);
                        proof {
                            assert(name@ =~= s@.subrange(0, t as int + 1));
                        }
                        t += 1;
                    }
                    let mut m = ControlMap::new();
                    m.insert(key_s_vec(), Value::Text(name));
                    m.insert(key_n_vec(), Value::Int(k2));
                    let ev = Event { whole: e.whole, part: e.part, value: Value::Ctrl(m) };
                    proof {
                        assert(split_sound(s@) == Some((s@.subrange(0, ci as int), k2 as int)));
                    }
                    Some(ev)
                },
            }
        },
    }
}

/// The pan payload map on one event.
fn pan_one(e: &Event) -> (r: Option<Event>)
    ensures
        match r {
            Some(e2) => pan_ev(e@) == Some(e2@),
            None => pan_ev(e@) is None,
        },
{
    match &e.value {
        Value::Rational(x) => {
            let mut m = ControlMap::new();
            m.insert(key_pan_vec(), Value::Rational(*x));
            Some(Event { whole: e.whole, part: e.part, value: Value::Ctrl(m) })
        },
        _ => None,
    }
}

/// Map the sound payload over a query result, dropping rejected events.
pub fn sound_events(es: &Vec<Event>) -> (out: Vec<Event>)
    ensures
        evs_view(out@) == filter_map_evs(evs_view(es@), |e: EventS| sound_ev(e)),
{
    let ghost f = |e: EventS| sound_ev(e);
    let mut out: Vec<Event> = Vec::new();
    let n = es.len();
    let mut i: usize = 0;
    proof {
        assert(evs_view(es@.take(0)) =~= Seq::<EventS>::empty());
        assert(evs_view(out@) =~= filter_map_evs(evs_view(es@.take(0)), f));
    }
    while i < n
        invariant
            0 <= i <= n,
            n == es@.len(),
            f == (|e: EventS| sound_ev(e)),
            evs_view(out@) == filter_map_evs(evs_view(es@.take(i as int)), f),
        decreases n - i,
    {
        proof {
            assert(evs_view(es@)[i as int] == es@[i as int]@);
            assert(evs_view(es@.take(i as int + 1)).drop_last() =~= evs_view(
                es@.take(i as int),
            ));
            assert(evs_view(es@.take(i as int + 1)).last() == es@[i as int]@);
            assert(evs_view(es@.take(i as int + 1)).len() == i + 1);
        }
        match sound_one(&es[i]) {
            Some(e2) => {
                out.push(e2);
                proof {
                    assert(evs_view(out@) =~= evs_view(out@.drop_last()).push(
                        out@.last()@,
                    ));
                }
            },
            None => {},
        }
        i += 1;
    }
    proof {
        assert(es@.take(n as int) =~= es@);
    }
    out
}

/// Map the pan payload over a query result, dropping rejected events.
pub fn pan_events(es: &Vec<Event>) -> (out: Vec<Event>)
    ensures
        evs_view(out@) == filter_map_evs(evs_view(es@), |e: EventS| pan_ev(e)),
{
    let ghost f = |e: EventS| pan_ev(e);
    let mut out: Vec<Event> = Vec::new();
    let n = es.len();
    let mut i: usize = 0;
    proof {
        assert(evs_view(es@.take(0)) =~= Seq::<EventS>::empty());
        assert(evs_view(out@) =~= filter_map_evs(evs_view(es@.take(0)), f));
    }
    while i < n
        invariant
            0 <= i <= n,
            n == es@.len(),
            f == (|e: EventS| pan_ev(e)),
            evs_view(out@) == filter_map_evs(evs_view(es@.take(i as int)), f),
        decreases n - i,
    {
        proof {
            assert(evs_view(es@)[i as int] == es@[i as int]@);
            assert(evs_view(es@.take(i as int + 1)).drop_last() =~= evs_view(
                es@.take(i as int),
            ));
            assert(evs_view(es@.take(i as int + 1)).last() == es@[i as int]@);
            assert(evs_view(es@.take(i as int + 1)).len() == i + 1);
        }
        match pan_one(&es[i]) {
            Some(e2) => {
                out.push(e2);
                proof {
                    assert(evs_view(out@) =~= evs_view(out@.drop_last()).push(
                        out@.last()@,
                    ));
                }
            },
            None => {},
        }
        i += 1;
    }
    proof {
        assert(es@.take(n as int) =~= es@);
    }
    out
}

// ---------------------------------------------------------------------------
// Whole-number helpers for `cat`.
// ---------------------------------------------------------------------------

/// The Euclidean remainder of machine words.
pub fn emod64(x: i64, n: i64) -> (r: i64)
    requires
        1 <= n,
    ensures
        r == x as int % n as int,
        0 <= r < n,
{
    let q = floor_div64(x, n);
    proof {
        lemma_fundamental_div_mod(x as int, n as int);
        assert(-0x4000_0000_0000_0000_0000_0000_0000_0000 <= (n as i128) * (q as i128)
            <= 0x4000_0000_0000_0000_0000_0000_0000_0000) by (nonlinear_arith)
            requires
                -0x8000_0000_0000_0000 <= q as i128 <= 0x7FFF_FFFF_FFFF_FFFF,
                1 <= n as i128 <= 0x7FFF_FFFF_FFFF_FFFF,
        ;
    }
    let r128: i128 = (x as i128) - (n as i128) * (q as i128);
    r128 as i64
}

} // verus!
