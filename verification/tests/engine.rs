//! End-to-end checks of the pattern calculus, the parser and the scheduler.

use pattern_engine::arcs::Arc;
use pattern_engine::combinators::{
    cat, degrade_by, filter_when, inner_join, jux_by, off, overlay, pan, rev, rot_l, rot_r,
    silence, sound, stack, undegrade_by, unit, within,
};
use pattern_engine::parse::parse_pattern;
use pattern_engine::pattern::{apply_xform, fast, CombineOp, Pattern, TimePred, XStep, Xform};
use pattern_engine::player::{delay_ms, Player, SampleBank};
use pattern_engine::rand::time_rand;
use pattern_engine::time::Time;
use pattern_engine::value::{ControlMap, Event, Value};

fn t(n: i64, d: i64) -> Time {
    Time::new(n, d).unwrap()
}

fn arc(sn: i64, sd: i64, en: i64, ed: i64) -> Arc {
    Arc {
        start: t(sn, sd),
        stop: t(en, ed),
    }
}

fn chars(s: &str) -> Vec<char> {
    s.chars().collect()
}

fn text(s: &str) -> Value {
    Value::Text(chars(s))
}

fn q(p: &Pattern, a: &Arc) -> Vec<Event> {
    p.query(a).expect("query in range")
}

fn show(es: &[Event]) -> String {
    format!("{:?}", es)
}

#[test]
fn time_reduces_to_lowest_terms() {
    let x = t(2, 4);
    assert_eq!(x, Time { n: 1, d: 2 });
    let y = Time::new(3, -6).unwrap();
    assert_eq!(y, Time { n: -1, d: 2 });
    assert!(Time::new(5, 0).is_none());
}

#[test]
fn time_floor_is_euclidean() {
    assert_eq!(t(7, 2).floor(), 3);
    assert_eq!(t(-7, 2).floor(), -4);
    assert_eq!(t(-4, 1).floor(), -4);
}

#[test]
fn time_add_out_of_range_is_none() {
    let big = t(i64::MAX, 1);
    assert!(big.add(&t(1, 1)).is_none());
    assert_eq!(big.add(&t(0, 1)).unwrap(), big);
}

#[test]
fn unit_emits_one_event_per_cycle() {
    // three whole cycles: three events, each value "x"
    let p = unit(text("x"));
    let es = q(&p, &arc(0, 1, 3, 1));
    assert_eq!(es.len(), 3);
    for (i, e) in es.iter().enumerate() {
        assert_eq!(e.part.start, t(i as i64, 1));
        assert_eq!(e.part.stop, t(i as i64 + 1, 1));
        assert_eq!(e.whole, Some(arc(i as i64, 1, i as i64 + 1, 1)));
        match &e.value {
            Value::Text(s) => assert_eq!(s, &chars("x")),
            other => panic!("unexpected value {:?}", other),
        }
    }
}

#[test]
fn unit_clips_a_partial_first_cycle() {
    let p = unit(text("x"));
    let es = q(&p, &arc(1, 2, 2, 1));
    assert_eq!(es.len(), 2);
    assert_eq!(es[0].part, arc(1, 2, 1, 1));
    assert_eq!(es[0].whole, Some(arc(0, 1, 1, 1)));
    assert_eq!(es[1].part, arc(1, 1, 2, 1));
}

#[test]
fn unit_zero_width_query_on_boundary() {
    let p = unit(Value::Int(7));
    let on = q(&p, &arc(1, 1, 1, 1));
    assert_eq!(on.len(), 1);
    assert_eq!(on[0].part, arc(1, 1, 1, 1));
    let off_boundary = q(&p, &arc(1, 2, 1, 2));
    assert_eq!(off_boundary.len(), 0);
}

#[test]
fn fast_two_doubles_the_events() {
    // six events at half-cycle parts
    let p = fast(t(2, 1), unit(Value::Int(1)));
    let es = q(&p, &arc(0, 1, 3, 1));
    assert_eq!(es.len(), 6);
    for (i, e) in es.iter().enumerate() {
        assert_eq!(e.part.start, t(i as i64, 2));
        assert_eq!(e.part.stop, t(i as i64 + 1, 2));
    }
}

#[test]
fn fast_third_stretches_one_event_across() {
    let p = fast(t(1, 3), unit(Value::Int(1)));
    let es = q(&p, &arc(0, 1, 3, 1));
    assert_eq!(es.len(), 1);
    assert_eq!(es[0].part, arc(0, 1, 3, 1));
    assert_eq!(es[0].whole, Some(arc(0, 1, 3, 1)));
}

#[test]
fn fast_zero_is_silence() {
    let p = fast(t(0, 1), unit(Value::Int(1)));
    assert_eq!(q(&p, &arc(0, 1, 4, 1)).len(), 0);
}

#[test]
fn fast_one_is_identity() {
    let p = unit(text("a"));
    let l = fast(t(1, 1), unit(text("a")));
    assert_eq!(show(&q(&l, &arc(0, 1, 3, 1))), show(&q(&p, &arc(0, 1, 3, 1))));
}

#[test]
fn fast_composes_multiplicatively() {
    let l = fast(t(2, 1), fast(t(3, 1), unit(Value::Int(1))));
    let r = fast(t(6, 1), unit(Value::Int(1)));
    let a = arc(0, 1, 2, 1);
    assert_eq!(show(&q(&l, &a)), show(&q(&r, &a)));
}

#[test]
fn fast_negative_reverses() {
    let l = fast(t(-1, 1), unit(text("a")));
    let r = rev(fast(t(1, 1), unit(text("a"))));
    let a = arc(0, 1, 2, 1);
    assert_eq!(show(&q(&l, &a)), show(&q(&r, &a)));
}

#[test]
fn cat_alternates_per_cycle() {
    // values 2,1,2,1,2,1 at integer onsets
    let p = cat(vec![unit(Value::Int(2)), unit(Value::Int(1))]);
    let es = q(&p, &arc(0, 1, 6, 1));
    assert_eq!(es.len(), 6);
    for (i, e) in es.iter().enumerate() {
        assert_eq!(e.part.start, t(i as i64, 1));
        let expect = if i % 2 == 0 { 2 } else { 1 };
        match &e.value {
            Value::Int(k) => assert_eq!(*k, expect),
            other => panic!("unexpected value {:?}", other),
        }
    }
}

#[test]
fn cat_cycles_through_shifted_queries() {
    // cycle 5 of a two-pattern cat plays the second pattern
    let p = cat(vec![unit(text("a")), unit(text("b"))]);
    let es = q(&p, &arc(5, 1, 6, 1));
    assert_eq!(es.len(), 1);
    assert_eq!(es[0].part, arc(5, 1, 6, 1));
    match &es[0].value {
        Value::Text(s) => assert_eq!(s, &chars("b")),
        other => panic!("unexpected value {:?}", other),
    }
}

#[test]
fn cat_of_nothing_is_silence() {
    let p = cat(vec![]);
    assert_eq!(q(&p, &arc(0, 1, 5, 1)).len(), 0);
}

#[test]
fn stack_merges_in_onset_order() {
    let p = stack(vec![
        fast(t(2, 1), unit(text("a"))),
        unit(text("b")),
    ]);
    let es = q(&p, &arc(0, 1, 1, 1));
    assert_eq!(es.len(), 3);
    // sorted by onset, stable: a and b share onset 0 with a first
    assert_eq!(es[0].part.start, t(0, 1));
    assert_eq!(es[1].part.start, t(0, 1));
    assert_eq!(es[2].part.start, t(1, 2));
    match (&es[0].value, &es[1].value) {
        (Value::Text(x), Value::Text(y)) => {
            assert_eq!(x, &chars("a"));
            assert_eq!(y, &chars("b"));
        },
        _ => panic!("unexpected values"),
    }
}

#[test]
fn stack_is_the_union_of_its_parts() {
    let l = fast(t(3, 1), unit(Value::Int(1)));
    let r = unit(Value::Int(2));
    let a = arc(0, 1, 2, 1);
    let merged = q(&stack(vec![fast(t(3, 1), unit(Value::Int(1))), unit(Value::Int(2))]), &a);
    assert_eq!(merged.len(), q(&l, &a).len() + q(&r, &a).len());
}

#[test]
fn rev_plays_each_cycle_backwards() {
    let p = rev(fast(t(2, 1), unit(text("a"))));
    let es = q(&p, &arc(0, 1, 1, 1));
    assert_eq!(es.len(), 2);
    assert_eq!(es[0].part, arc(0, 1, 1, 2));
    assert_eq!(es[1].part, arc(1, 2, 1, 1));
}

#[test]
fn rev_twice_is_identity_on_whole_cycles() {
    let p = fast(t(3, 1), unit(text("a")));
    let rr = rev(rev(fast(t(3, 1), unit(text("a")))));
    let a = arc(0, 1, 2, 1);
    assert_eq!(show(&q(&rr, &a)), show(&q(&p, &a)));
}

#[test]
fn rotation_shifts_and_returns() {
    // shifting right shows the tail of the previous cycle's event and the
    // shifted onset
    let p = unit(text("a"));
    let shifted = rot_r(t(1, 4), unit(text("a")));
    let es = q(&shifted, &arc(0, 1, 1, 1));
    assert_eq!(es.len(), 2);
    assert_eq!(es[0].part, arc(0, 1, 1, 4));
    assert_eq!(es[1].part, arc(1, 4, 1, 1));
    assert_eq!(es[1].whole, Some(arc(1, 4, 5, 4)));
    let back = rot_l(t(1, 4), rot_r(t(1, 4), unit(text("a"))));
    let a = arc(0, 1, 2, 1);
    assert_eq!(show(&q(&back, &a)), show(&q(&p, &a)));
}

#[test]
fn filter_when_keeps_the_window() {
    let p = filter_when(
        TimePred::CycleIn(arc(0, 1, 1, 2)),
        fast(t(4, 1), unit(Value::Int(1))),
    );
    let es = q(&p, &arc(0, 1, 1, 1));
    assert_eq!(es.len(), 2);
    assert_eq!(es[0].part.start, t(0, 1));
    assert_eq!(es[1].part.start, t(1, 4));
}

#[test]
fn within_transforms_half_the_cycle() {
    // the sped-up copy plays inside [0,1/2): one event there; the plain
    // event at onset 0 falls inside the window too, so it is filtered out
    let f = Xform { steps: vec![XStep::XFast(t(2, 1))] };
    let p = within(arc(0, 1, 1, 2), &f, unit(Value::Int(1)));
    let es = q(&p, &arc(0, 1, 1, 1));
    assert_eq!(es.len(), 1);
    assert_eq!(es[0].part, arc(0, 1, 1, 2));
}

#[test]
fn degrade_and_undegrade_partition_the_events() {
    let p = fast(t(8, 1), unit(Value::Int(1)));
    let probability = unit(Value::Rational(t(1, 2)));
    let a = arc(0, 1, 4, 1);
    let kept = q(&degrade_by(probability, fast(t(8, 1), unit(Value::Int(1)))), &a);
    let dropped = q(
        &undegrade_by(unit(Value::Rational(t(1, 2))), fast(t(8, 1), unit(Value::Int(1)))),
        &a,
    );
    let all = q(&p, &a);
    assert_eq!(kept.len() + dropped.len(), all.len());
}

#[test]
fn draws_are_identical_across_queries() {
    let p = degrade_by(
        unit(Value::Rational(t(1, 2))),
        fast(t(16, 1), unit(Value::Int(1))),
    );
    let a = arc(0, 1, 8, 1);
    assert_eq!(show(&q(&p, &a)), show(&q(&p, &a)));
    let d1 = time_rand(&t(3, 7)).unwrap();
    let d2 = time_rand(&t(3, 7)).unwrap();
    assert_eq!(d1, d2);
}

#[test]
fn off_overlays_a_shifted_copy() {
    let f = Xform { steps: vec![] };
    let p = off(
        unit(Value::Rational(t(1, 4))),
        f,
        unit(text("a")),
    );
    let es = q(&p, &arc(0, 1, 1, 1));
    // the plain event, the wrapped tail of the shifted copy, and the
    // shifted onset
    assert_eq!(es.len(), 3);
    assert_eq!(es[0].part.start, t(0, 1));
    assert_eq!(es[1].part.start, t(0, 1));
    assert_eq!(es[2].part.start, t(1, 4));
    // non-decreasing onsets
    for w in es.windows(2) {
        assert!(!w[1].part.start.lt(&w[0].part.start));
    }
}

#[test]
fn sound_splits_name_and_variation() {
    let p = sound(unit(text("bd:2")));
    let es = q(&p, &arc(0, 1, 1, 1));
    assert_eq!(es.len(), 1);
    match &es[0].value {
        Value::Ctrl(m) => {
            match m.get(&chars("s")).unwrap() {
                Value::Text(s) => assert_eq!(s, &chars("bd")),
                other => panic!("unexpected s {:?}", other),
            }
            match m.get(&chars("n")).unwrap() {
                Value::Int(k) => assert_eq!(*k, 2),
                other => panic!("unexpected n {:?}", other),
            }
        },
        other => panic!("unexpected value {:?}", other),
    }
}

#[test]
fn sound_drops_an_unparsable_variation() {
    let p = sound(unit(text("bd:x")));
    assert_eq!(q(&p, &arc(0, 1, 1, 1)).len(), 0);
}

#[test]
fn pan_wraps_the_weight() {
    let p = pan(unit(Value::Rational(t(1, 4))));
    let es = q(&p, &arc(0, 1, 1, 1));
    assert_eq!(es.len(), 1);
    match &es[0].value {
        Value::Ctrl(m) => match m.get(&chars("pan")).unwrap() {
            Value::Rational(x) => assert_eq!(*x, t(1, 4)),
            other => panic!("unexpected pan {:?}", other),
        },
        other => panic!("unexpected value {:?}", other),
    }
}

#[test]
fn jux_by_pans_the_two_sides() {
    let f = Xform { steps: vec![XStep::XRev] };
    let p = jux_by(
        unit(Value::Rational(t(0, 1))),
        &f,
        sound(unit(text("bd"))),
    );
    let es = q(&p, &arc(0, 1, 1, 1));
    assert_eq!(es.len(), 2);
    let mut pans = vec![];
    for e in &es {
        match &e.value {
            Value::Ctrl(m) => match m.get(&chars("pan")).unwrap() {
                Value::Rational(x) => pans.push(*x),
                other => panic!("unexpected pan {:?}", other),
            },
            other => panic!("unexpected value {:?}", other),
        }
    }
    pans.sort_by_key(|x| (x.n, x.d));
    assert_eq!(pans, vec![t(0, 1), t(1, 1)]);
}

#[test]
fn inner_join_listens_to_the_outer() {
    let inner = unit(Value::Pat(Box::new(fast(t(2, 1), unit(text("a"))))));
    let p = inner_join(inner);
    let es = q(&p, &arc(0, 1, 1, 1));
    assert_eq!(es.len(), 2);
    assert_eq!(es[0].part.start, t(0, 1));
    assert_eq!(es[1].part.start, t(1, 2));
}

#[test]
fn overlay_and_silence() {
    let p = overlay(unit(text("a")), silence());
    assert_eq!(q(&p, &arc(0, 1, 2, 1)).len(), 2);
}

#[test]
fn apply_xform_composes_steps() {
    // speed up, then rotate: the shifted halves land at 0 (wrapped tail),
    // 1/4 and 3/4
    let f = Xform { steps: vec![XStep::XFast(t(2, 1)), XStep::XRotR(t(1, 4))] };
    let p = apply_xform(&f, unit(Value::Int(1)));
    let es = q(&p, &arc(0, 1, 1, 1));
    assert_eq!(es.len(), 3);
    assert_eq!(es[0].part, arc(0, 1, 1, 4));
    assert_eq!(es[1].part, arc(1, 4, 3, 4));
    assert_eq!(es[2].part, arc(3, 4, 1, 1));
}

#[test]
fn control_map_merge_prefers_the_right() {
    let mut a = ControlMap::new();
    a.insert(chars("s"), text("bd"));
    a.insert(chars("n"), Value::Int(1));
    let mut b = ControlMap::new();
    b.insert(chars("n"), Value::Int(7));
    let m = a.merge(&b);
    match m.get(&chars("n")).unwrap() {
        Value::Int(k) => assert_eq!(*k, 7),
        other => panic!("unexpected {:?}", other),
    }
    match m.get(&chars("s")).unwrap() {
        Value::Text(s) => assert_eq!(s, &chars("bd")),
        other => panic!("unexpected {:?}", other),
    }
    assert!(m.get(&chars("pan")).is_none());
}

#[test]
fn parser_compiles_a_plain_sequence() {
    let p = parse_pattern(&chars("bd cp")).unwrap();
    let es = q(&p, &arc(0, 1, 1, 1));
    assert_eq!(es.len(), 2);
    assert_eq!(es[0].part, arc(0, 1, 1, 2));
    assert_eq!(es[1].part, arc(1, 2, 1, 1));
    match (&es[0].value, &es[1].value) {
        (Value::Text(a), Value::Text(b)) => {
            assert_eq!(a, &chars("bd"));
            assert_eq!(b, &chars("cp"));
        },
        _ => panic!("unexpected values"),
    }
}

#[test]
fn parser_rest_speed_and_groups() {
    let p = parse_pattern(&chars("~ [bd bd] cp*2 x/2")).unwrap();
    let es = q(&p, &arc(0, 1, 1, 1));
    // rest contributes nothing; [bd bd] two; cp*2 two; x/2 one (half event)
    assert_eq!(es.len(), 5);
}

#[test]
fn parser_alternation_and_nesting() {
    let p = parse_pattern(&chars("bd <cp*2 bd*2> [cp bd]")).unwrap();
    let es = q(&p, &arc(0, 1, 3, 1));
    assert_eq!(es.len(), 15);
    // cycle 0: bd, cp, cp, cp, bd at 0, 1/3, 1/2, 2/3, 5/6
    let starts: Vec<Time> = es[..5].iter().map(|e| e.part.start).collect();
    assert_eq!(starts, vec![t(0, 1), t(1, 3), t(1, 2), t(2, 3), t(5, 6)]);
    let names: Vec<&Vec<char>> = es[..5]
        .iter()
        .map(|e| match &e.value {
            Value::Text(s) => s,
            other => panic!("unexpected value {:?}", other),
        })
        .collect();
    assert_eq!(
        names,
        vec![&chars("bd"), &chars("cp"), &chars("cp"), &chars("cp"), &chars("bd")]
    );
    // cycle 1 substitutes the alternation: bd*2 in the middle
    let mid: Vec<&Vec<char>> = es[5..10]
        .iter()
        .map(|e| match &e.value {
            Value::Text(s) => s,
            other => panic!("unexpected value {:?}", other),
        })
        .collect();
    assert_eq!(
        mid,
        vec![&chars("bd"), &chars("bd"), &chars("bd"), &chars("cp"), &chars("bd")]
    );
}

#[test]
fn parser_rejects_bad_input() {
    assert!(parse_pattern(&chars("")).is_err());
    assert!(parse_pattern(&chars("bd!3")).is_err());
    assert!(parse_pattern(&chars("bd/0")).is_err());
    assert!(parse_pattern(&chars("[bd")).is_err());
    assert!(parse_pattern(&chars("bd )")).is_err());
}

#[test]
fn parser_errors_name_the_offset() {
    // the unsupported repeat operator sits at offset 2
    assert_eq!(parse_pattern(&chars("bd!3")).unwrap_err().offset(), 2);
    // the stray parenthesis sits at offset 3
    assert_eq!(parse_pattern(&chars("bd )")).unwrap_err().offset(), 3);
    // a divide-by-zero factor: the number starts at offset 3
    assert_eq!(parse_pattern(&chars("bd/0")).unwrap_err().offset(), 3);
}

#[test]
fn parser_decimal_factors_are_exact() {
    // the slowed event spans two cycles; the cycle split shows one slice
    // per cycle, both of the same whole
    let p = parse_pattern(&chars("bd*0.5")).unwrap();
    let es = q(&p, &arc(0, 1, 2, 1));
    assert_eq!(es.len(), 2);
    assert_eq!(es[0].part, arc(0, 1, 1, 1));
    assert_eq!(es[1].part, arc(1, 1, 2, 1));
    assert_eq!(es[0].whole, Some(arc(0, 1, 2, 1)));
    assert_eq!(es[1].whole, Some(arc(0, 1, 2, 1)));
}

#[test]
fn replacing_a_channel_pattern_silences_the_old_one() {
    // the superseded pattern must not keep playing
    let mut player = Player::new(1000);
    player.set_pattern(chars("d1"), sound(parse_pattern(&chars("bd")).unwrap()));
    player.set_pattern(chars("d1"), sound(parse_pattern(&chars("cp cp")).unwrap()));
    let cmds = player.tick().unwrap();
    assert_eq!(cmds.len(), 2);
    assert_eq!(cmds[0].name, chars("cp"));
    assert_eq!(cmds[1].name, chars("cp"));
    // a second channel is untouched by the replacement
    player.set_pattern(chars("d2"), sound(parse_pattern(&chars("bd")).unwrap()));
    player.set_pattern(chars("d1"), sound(parse_pattern(&chars("hh")).unwrap()));
    let cmds2 = player.tick().unwrap();
    let names: Vec<String> = cmds2.iter().map(|c| c.name.iter().collect()).collect();
    assert_eq!(names, vec!["hh".to_string(), "bd".to_string()]);
}

#[test]
fn rev_output_is_sorted_even_when_events_overlap() {
    let p = rev(stack(vec![unit(text("a")), fast(t(2, 1), unit(text("b")))]));
    let es = q(&p, &arc(0, 1, 1, 1));
    assert_eq!(es.len(), 3);
    for w in es.windows(2) {
        assert!(!w[1].part.start.lt(&w[0].part.start));
    }
}

#[test]
fn scheduler_commands_a_parsed_pattern() {
    // within one tick the sink is told to play bd at 0 and cp at 1/2
    let mut player = Player::new(1000);
    let p = sound(parse_pattern(&chars("bd cp")).unwrap());
    player.set_pattern(chars("d1"), p);
    let cmds = player.tick().unwrap();
    assert_eq!(cmds.len(), 2);
    assert_eq!(cmds[0].name, chars("bd"));
    assert_eq!(cmds[0].onset, t(0, 1));
    assert_eq!(cmds[0].variation, 0);
    assert_eq!(cmds[0].pan, t(1, 2));
    assert_eq!(cmds[1].name, chars("cp"));
    assert_eq!(cmds[1].onset, t(1, 2));
    assert_eq!(cmds[1].pan, t(1, 2));
    assert_eq!(player.current, t(1, 1));
    // the next tick covers the next cycle
    let cmds2 = player.tick().unwrap();
    assert_eq!(cmds2.len(), 2);
    assert_eq!(cmds2[0].onset, t(1, 1));
}

#[test]
fn scheduler_sleep_times_follow_the_tempo() {
    assert_eq!(delay_ms(&t(0, 1), &t(1, 2), 1000).unwrap(), 500);
    assert_eq!(delay_ms(&t(1, 2), &t(1, 2), 1000).unwrap(), 0);
    // never negative
    assert_eq!(delay_ms(&t(1, 1), &t(1, 2), 1000).unwrap(), 0);
    assert_eq!(delay_ms(&t(0, 1), &t(1, 3), 1000).unwrap(), 333);
}

#[test]
fn sample_bank_stores_and_looks_up() {
    let mut bank = SampleBank::new();
    bank.add_sample_set(chars("bd"), vec![vec![1, 2], vec![3]]);
    bank.add_sample_set(chars("cp"), vec![vec![9]]);
    assert_eq!(bank.get_sample(&chars("bd"), 0).unwrap(), &vec![1u8, 2]);
    assert_eq!(bank.get_sample(&chars("bd"), 1).unwrap(), &vec![3u8]);
    assert!(bank.get_sample(&chars("bd"), 2).is_none());
    assert!(bank.get_sample(&chars("xx"), 0).is_none());
    // a later set shadows an earlier one of the same name
    bank.add_sample_set(chars("bd"), vec![vec![7]]);
    assert_eq!(bank.get_sample(&chars("bd"), 0).unwrap(), &vec![7u8]);
}

#[test]
fn events_keep_part_inside_query_and_whole() {
    let p = parse_pattern(&chars("bd <cp*2 [bd bd*4]> cp")).unwrap();
    let a = arc(1, 3, 7, 2);
    for e in q(&p, &a) {
        assert!(!e.part.start.lt(&a.start));
        assert!(!a.stop.lt(&e.part.stop));
        if let Some(w) = e.whole {
            assert!(!e.part.start.lt(&w.start));
            assert!(!w.stop.lt(&e.part.stop));
        }
    }
}
