//! Querying a pattern: the executable walk of the tree, proved to return
//! exactly what the semantics says — the events when every arithmetic step
//! stays in range, nothing otherwise.

use vstd::prelude::*;
use crate::time::{Time, rat, rat_int, rat_floor, rat_lt, rat_wf, floor_div64};
use vstd::arithmetic::div_mod::{lemma_fundamental_div_mod, lemma_fundamental_div_mod_converse};
use crate::arcs::{Arc, RArc, arcs_view, arc_cycles_zw, rarc_wf, mirror_arc};
use crate::value::{Event, EventS, ValS, Value, evs_view, opt_evs_view, val_size, val_wf, ev_ok};
use crate::pattern::{
    PatS, Pattern, apply_xform, lemma_pats_view, lemma_psize_elem, lemma_psize_pos,
    lemma_xform_size, lemma_xform_wf, pat_wf, pats_view, psize, psize_list, xform_apply_s,
};
use crate::sem::{
    sem, sem_cat, sem_degrade, sem_ij, sem_list, sem_off, sem_rev, sort_evs, unit_evs,
    opt_map_evs, ev_add, ev_sub, ev_div, ev_mirror, restrict_arc, mid_draw, time_pred_holds,
    val_pred_holds, filter_map_evs, sound_ev, pan_ev, afl,
};
use crate::shape::{evs_ok, lemma_sem_ok, lemma_half_wf, lemma_sem_list_ok};
use crate::evops::{
    ev_arcs_wf, evs_arcs_wf, map_evs_add, map_evs_sub, map_evs_div, map_evs_mirror,
    reverse_events, sort_events, filter_when_events, filter_vals_events, dup_event,
};
use crate::qops::{afl_exec, emod64, evs_vals_wf, mid_draw_x, pan_events, restrict, sound_events};

verus! {

/// Append the events of `es` to `acc`.
pub(crate) fn extend_events(acc: &mut Vec<Event>, es: &Vec<Event>)
    ensures
        evs_view(final(acc)@) == evs_view(old(acc)@) + evs_view(es@),
{
    let n = es.len();
    let mut k: usize = 0;
    proof {
        assert(evs_view(acc@) =~= evs_view(acc@) + evs_view(es@.take(0)));
    }
    while k < n
        invariant
            0 <= k <= n,
            n == es@.len(),
            evs_view(acc@) == evs_view(old(acc)@) + evs_view(es@.take(k as int)),
        decreases n - k,
    {
        let e = dup_event(&es[k]);
        let ghost before = acc@;
        acc.push(e);
        proof {
            assert(acc@.drop_last() =~= before);
            assert(evs_view(acc@) =~= evs_view(before).push(es@[k as int]@)) by {
                assert(forall|j: int|
                    0 <= j < before.len() ==> #[trigger] acc@[j]@ == before[j]@);
                assert(acc@[before.len() as int]@ == es@[k as int]@);
            }
            assert(evs_view(es@.take(k as int + 1)) =~= evs_view(es@.take(k as int)).push(
                es@[k as int]@,
            ));
            assert(evs_view(old(acc)@) + evs_view(es@.take(k as int + 1)) =~= (evs_view(
                old(acc)@,
            ) + evs_view(es@.take(k as int))).push(es@[k as int]@));
        }
        k += 1;
    }
    proof {
        assert(es@.take(n as int) =~= es@);
    }
}

// Prefix failures fail the whole fold, for each per-slice helper.

pub(crate) proof fn lemma_list_bubble(ps: Seq<PatS>, a: RArc, j: int)
    requires
        0 <= j <= ps.len(),
        sem_list(ps.take(j), a) is None,
    ensures
        sem_list(ps, a) is None,
    decreases ps.len() - j,
{
    if j == ps.len() {
        assert(ps.take(j) =~= ps);
    } else {
        assert(ps.take(j + 1).drop_last() =~= ps.take(j));
        lemma_list_bubble(ps, a, j + 1);
    }
}

proof fn lemma_cat_bubble(ps: Seq<PatS>, subs: Seq<RArc>, j: int)
    requires
        0 <= j <= subs.len(),
        sem_cat(ps, subs.take(j)) is None,
    ensures
        sem_cat(ps, subs) is None,
    decreases subs.len() - j,
{
    if j == subs.len() {
        assert(subs.take(j) =~= subs);
    } else {
        assert(subs.take(j + 1).drop_last() =~= subs.take(j));
        lemma_cat_bubble(ps, subs, j + 1);
    }
}

proof fn lemma_rev_bubble(q: PatS, subs: Seq<RArc>, j: int)
    requires
        0 <= j <= subs.len(),
        sem_rev(q, subs.take(j)) is None,
    ensures
        sem_rev(q, subs) is None,
    decreases subs.len() - j,
{
    if j == subs.len() {
        assert(subs.take(j) =~= subs);
    } else {
        assert(subs.take(j + 1).drop_last() =~= subs.take(j));
        lemma_rev_bubble(q, subs, j + 1);
    }
}

proof fn lemma_unit_bubble(v: ValS, subs: Seq<RArc>, j: int)
    requires
        0 <= j <= subs.len(),
        unit_evs(v, subs.take(j)) is None,
    ensures
        unit_evs(v, subs) is None,
    decreases subs.len() - j,
{
    if j == subs.len() {
        assert(subs.take(j) =~= subs);
    } else {
        assert(subs.take(j + 1).drop_last() =~= subs.take(j));
        lemma_unit_bubble(v, subs, j + 1);
    }
}

proof fn lemma_degrade_bubble(b: bool, outer: Seq<EventS>, q: PatS, a: RArc, j: int)
    requires
        0 <= j <= outer.len(),
        sem_degrade(b, outer.take(j), q, a) is None,
    ensures
        sem_degrade(b, outer, q, a) is None,
    decreases outer.len() - j,
{
    if j == outer.len() {
        assert(outer.take(j) =~= outer);
    } else {
        assert(outer.take(j + 1).drop_last() =~= outer.take(j));
        lemma_degrade_bubble(b, outer, q, a, j + 1);
    }
}

proof fn lemma_off_bubble(
    outer: Seq<EventS>,
    f: Seq<crate::pattern::XStepS>,
    q: PatS,
    a: RArc,
    j: int,
)
    requires
        0 <= j <= outer.len(),
        sem_off(outer.take(j), f, q, a) is None,
    ensures
        sem_off(outer, f, q, a) is None,
    decreases outer.len() - j,
{
    if j == outer.len() {
        assert(outer.take(j) =~= outer);
    } else {
        assert(outer.take(j + 1).drop_last() =~= outer.take(j));
        lemma_off_bubble(outer, f, q, a, j + 1);
    }
}

proof fn lemma_ij_bubble(outer: Seq<EventS>, bound: nat, a: RArc, j: int)
    requires
        0 <= j <= outer.len(),
        sem_ij(outer.take(j), bound, a) is None,
    ensures
        sem_ij(outer, bound, a) is None,
    decreases outer.len() - j,
{
    if j == outer.len() {
        assert(outer.take(j) =~= outer);
    } else {
        assert(outer.take(j + 1).drop_last() =~= outer.take(j));
        lemma_ij_bubble(outer, bound, a, j + 1);
    }
}

impl Pattern {
    /// Query the pattern over an arc: the events whose parts fall inside
    /// the arc, exactly as the semantics states them; `None` exactly when
    /// the exact arithmetic of this query leaves the machine range.
    pub fn query(&self, a: &Arc) -> (r: Option<Vec<Event>>)
        requires
            self.wf(),
            a.wf(),
        ensures
            opt_evs_view(r) == sem(self@, a@),
        decreases psize(self@), 1nat,
    {
        match self {
            Pattern::Silence => {
                let v: Vec<Event> = Vec::new();
                proof {
                    assert(evs_view(v@) =~= Seq::<EventS>::empty());
                }
                Some(v)
            },
            Pattern::Unit(v) => {
                proof {
                    assert(self@ == PatS::Unit(v@));
                }
                match arc_cycles_zw(*a) {
                    None => None,
                    Some(subs) => {
                        proof {
                            assert(forall|i: int|
                                0 <= i < subs@.len() ==> rarc_wf(
                                    #[trigger] arcs_view(subs@)[i],
                                ));
                            assert(forall|i: int|
                                0 <= i < subs@.len() ==> rarc_wf(#[trigger] subs@[i]@)) by {
                                assert(forall|i: int|
                                    0 <= i < subs@.len() ==> #[trigger] subs@[i]@ == arcs_view(
                                        subs@,
                                    )[i]);
                            }
                        }
                        crate::evops::unit_events(v, &subs)
                    },
                }
            },
            Pattern::Fast(r, p) => {
                proof {
                    assert(self@ == PatS::Fast(r@, Box::new(p@)));
                    assert(rat_lt(rat_int(0), r@));
                    assert(r@.n > 0) by (nonlinear_arith)
                        requires
                            rat_lt(rat_int(0), r@),
                            r@.d >= 1,
                    ;
                }
                let s2 = match a.start.mul(r) {
                    None => {
                        return None;
                    },
                    Some(x) => x,
                };
                let e2 = match a.stop.mul(r) {
                    None => {
                        return None;
                    },
                    Some(x) => x,
                };
                let a2 = Arc { start: s2, stop: e2 };
                let es = match p.query(&a2) {
                    None => {
                        return None;
                    },
                    Some(x) => x,
                };
                proof {
                    lemma_sem_ok(p@, a2@);
                    assert(evs_arcs_wf(evs_view(es@))) by {
                        assert(forall|i: int|
                            0 <= i < evs_view(es@).len() ==> ev_ok(
                                #[trigger] evs_view(es@)[i],
                                psize(p@),
                            ));
                    }
                }
                map_evs_div(&es, r)
            },
            Pattern::Stack(ps) => self.query_stack(a, ps),
            Pattern::Cat(ps) => self.query_cat(a, ps),
            Pattern::Rev(p) => self.query_rev(a, p),
            Pattern::RotL(t, p) => {
                proof {
                    assert(self@ == PatS::RotL(t@, Box::new(p@)));
                }
                let s2 = match a.start.add(t) {
                    None => {
                        return None;
                    },
                    Some(x) => x,
                };
                let e2 = match a.stop.add(t) {
                    None => {
                        return None;
                    },
                    Some(x) => x,
                };
                let a2 = Arc { start: s2, stop: e2 };
                let es = match p.query(&a2) {
                    None => {
                        return None;
                    },
                    Some(x) => x,
                };
                proof {
                    lemma_sem_ok(p@, a2@);
                    assert(evs_arcs_wf(evs_view(es@))) by {
                        assert(forall|i: int|
                            0 <= i < evs_view(es@).len() ==> ev_ok(
                                #[trigger] evs_view(es@)[i],
                                psize(p@),
                            ));
                    }
                }
                map_evs_sub(&es, t)
            },
            Pattern::RotR(t, p) => {
                proof {
                    assert(self@ == PatS::RotR(t@, Box::new(p@)));
                }
                let s2 = match a.start.sub(t) {
                    None => {
                        return None;
                    },
                    Some(x) => x,
                };
                let e2 = match a.stop.sub(t) {
                    None => {
                        return None;
                    },
                    Some(x) => x,
                };
                let a2 = Arc { start: s2, stop: e2 };
                let es = match p.query(&a2) {
                    None => {
                        return None;
                    },
                    Some(x) => x,
                };
                proof {
                    lemma_sem_ok(p@, a2@);
                    assert(evs_arcs_wf(evs_view(es@))) by {
                        assert(forall|i: int|
                            0 <= i < evs_view(es@).len() ==> ev_ok(
                                #[trigger] evs_view(es@)[i],
                                psize(p@),
                            ));
                    }
                }
                map_evs_add(&es, t)
            },
            Pattern::FilterWhen(c, p) => {
                proof {
                    assert(self@ == PatS::FilterWhen(c@, Box::new(p@)));
                }
                let es = match p.query(a) {
                    None => {
                        return None;
                    },
                    Some(x) => x,
                };
                proof {
                    lemma_sem_ok(p@, a@);
                    assert(evs_arcs_wf(evs_view(es@))) by {
                        assert(forall|i: int|
                            0 <= i < evs_view(es@).len() ==> ev_ok(
                                #[trigger] evs_view(es@)[i],
                                psize(p@),
                            ));
                    }
                }
                Some(filter_when_events(&es, c))
            },
            Pattern::FilterVals(c, p) => {
                proof {
                    assert(self@ == PatS::FilterVals(c@, Box::new(p@)));
                }
                let es = match p.query(a) {
                    None => {
                        return None;
                    },
                    Some(x) => x,
                };
                Some(filter_vals_events(&es, c))
            },
            Pattern::DegradeBy(x, p) => {
                proof {
                    assert(self@ == PatS::DegradeBy(Box::new(x@), Box::new(p@)));
                }
                self.query_degrade(a, x, p, true)
            },
            Pattern::UndegradeBy(x, p) => {
                proof {
                    assert(self@ == PatS::UndegradeBy(Box::new(x@), Box::new(p@)));
                }
                self.query_degrade(a, x, p, false)
            },
            Pattern::Off(tp, f, p) => self.query_off(a, tp, f, p),
            Pattern::InnerJoin(p) => self.query_ij(a, p),
            Pattern::ApplyLeft(op, l, r) => {
                proof {
                    assert(self@ == PatS::ApplyLeft(*op, Box::new(l@), Box::new(r@)));
                }
                let ls = match l.query(a) {
                    None => {
                        return None;
                    },
                    Some(x) => x,
                };
                let rs = match r.query(a) {
                    None => {
                        return None;
                    },
                    Some(x) => x,
                };
                proof {
                    lemma_sem_ok(l@, a@);
                    lemma_sem_ok(r@, a@);
                    assert(evs_arcs_wf(evs_view(ls@))) by {
                        assert(forall|i: int|
                            0 <= i < evs_view(ls@).len() ==> ev_ok(
                                #[trigger] evs_view(ls@)[i],
                                psize(l@),
                            ));
                    }
                    assert(evs_arcs_wf(evs_view(rs@)) && evs_vals_wf(evs_view(rs@))) by {
                        assert(forall|i: int|
                            0 <= i < evs_view(rs@).len() ==> ev_ok(
                                #[trigger] evs_view(rs@)[i],
                                psize(r@),
                            ));
                    }
                }
                Some(afl_exec(*op, &ls, &rs))
            },
            Pattern::Sound(p) => {
                proof {
                    assert(self@ == PatS::Sound(Box::new(p@)));
                }
                let es = match p.query(a) {
                    None => {
                        return None;
                    },
                    Some(x) => x,
                };
                Some(sound_events(&es))
            },
            Pattern::Pan(p) => {
                proof {
                    assert(self@ == PatS::Pan(Box::new(p@)));
                }
                let es = match p.query(a) {
                    None => {
                        return None;
                    },
                    Some(x) => x,
                };
                Some(pan_events(&es))
            },
        }
    }


    #[verifier::rlimit(80)]
    fn query_stack(&self, a: &Arc, ps: &Vec<Pattern>) -> (r: Option<Vec<Event>>)
        requires
            self.wf(),
            a.wf(),
            self@ == PatS::Stack(pats_view(ps@)),
        ensures
            opt_evs_view(r) == sem(self@, a@),
        decreases psize(self@), 0nat,
    {

                proof {
                    assert(self@ == PatS::Stack(pats_view(ps@)));
                    lemma_pats_view(ps@);
                }
                let ghost gps = pats_view(ps@);
                let mut acc: Vec<Event> = Vec::new();
                let n = ps.len();
                let mut i: usize = 0;
                proof {
                    assert(gps.take(0) =~= Seq::<PatS>::empty());
                    assert(evs_view(acc@) =~= Seq::<EventS>::empty());
                }
                while i < n
                    invariant
                        0 <= i <= n,
                        n == ps@.len(),
                        gps == pats_view(ps@),
                        gps.len() == n,
                        forall|k: int| 0 <= k < n ==> gps[k] == #[trigger] ps@[k]@,
                        crate::pattern::pats_wf(gps),
                        a.wf(),
                        sem_list(gps.take(i as int), a@) == Some(evs_view(acc@)),
                        psize_list(gps) < psize(self@),
                        self@ == PatS::Stack(gps),
                        self.wf(),
                    decreases n - i,
                {
                    proof {
                        assert(pat_wf(gps[i as int]));
                        lemma_psize_elem(gps, i as int);
                        assert(gps.take(i as int + 1).drop_last() =~= gps.take(i as int));
                        assert(gps.take(i as int + 1).last() == gps[i as int]);
                    }
                    let es = match ps[i].query(a) {
                        None => {
                            proof {
                                lemma_list_bubble(gps, a@, i as int + 1);
                            }
                            return None;
                        },
                        Some(x) => x,
                    };
                    extend_events(&mut acc, &es);
                    i += 1;
                }
                proof {
                    assert(gps.take(n as int) =~= gps);
                    lemma_sem_list_ok(gps, a@);
                    assert(evs_arcs_wf(evs_view(acc@))) by {
                        assert(forall|k: int|
                            0 <= k < evs_view(acc@).len() ==> ev_ok(
                                #[trigger] evs_view(acc@)[k],
                                psize_list(gps) + 1,
                            ));
                    }
                }
                let sorted = sort_events(&acc);
                Some(sorted)
            
    }

    #[verifier::rlimit(80)]
    fn query_cat(&self, a: &Arc, ps: &Vec<Pattern>) -> (r: Option<Vec<Event>>)
        requires
            self.wf(),
            a.wf(),
            self@ == PatS::Cat(pats_view(ps@)),
        ensures
            opt_evs_view(r) == sem(self@, a@),
        decreases psize(self@), 0nat,
    {

                proof {
                    assert(self@ == PatS::Cat(pats_view(ps@)));
                    lemma_pats_view(ps@);
                }
                let ghost gps = pats_view(ps@);
                if ps.len() == 0 {
                    let v: Vec<Event> = Vec::new();
                    proof {
                        assert(evs_view(v@) =~= Seq::<EventS>::empty());
                    }
                    return Some(v);
                }
                if ps.len() as u128 > i64::MAX as u128 {
                    return None;
                }
                let subs = match arc_cycles_zw(*a) {
                    None => {
                        return None;
                    },
                    Some(x) => x,
                };
                let ghost gsubs = arcs_view(subs@);
                let n_pats = ps.len();
                let n_i: i64 = n_pats as i64;
                let mut acc: Vec<Event> = Vec::new();
                let ns = subs.len();
                let mut i: usize = 0;
                proof {
                    assert(gsubs.take(0) =~= Seq::<RArc>::empty());
                    assert(evs_view(acc@) =~= Seq::<EventS>::empty());
                }
                while i < ns
                    invariant
                        0 <= i <= ns,
                        ns == subs@.len(),
                        gsubs == arcs_view(subs@),
                        gsubs.len() == ns,
                        forall|k: int|
                            0 <= k < ns ==> rarc_wf(#[trigger] gsubs[k]) && gsubs[k]
                                == subs@[k]@,
                        gps == pats_view(ps@),
                        gps.len() == n_pats,
                        1 <= n_pats,
                        n_pats as int <= i64::MAX as int,
                        n_i == n_pats as i64,
                        n_pats == ps@.len(),
                        forall|k: int| 0 <= k < gps.len() ==> gps[k] == #[trigger] ps@[k]@,
                        crate::pattern::pats_wf(gps),
                        a.wf(),
                        sem_cat(gps, gsubs.take(i as int)) == Some(evs_view(acc@)),
                        psize_list(gps) < psize(self@),
                        self@ == PatS::Cat(gps),
                        self.wf(),
                        crate::arcs::arc_cycles_zw_o(a@) == Some(gsubs),
                        1 <= gps.len() <= i64::MAX as int,
                    decreases ns - i,
                {
                    proof {
                        assert(gsubs.take(i as int + 1).drop_last() =~= gsubs.take(i as int));
                        assert(gsubs.take(i as int + 1).last() == gsubs[i as int]);
                        assert(rarc_wf(gsubs[i as int]));
                    }
                    let c = subs[i];
                    let cyc = c.start.floor();
                    let ii = emod64(cyc, n_i);
                    let q = floor_div64(cyc, n_i);
                    proof {
                        lemma_fundamental_div_mod(cyc as int, n_i as int);
                        assert((cyc as int - ii as int) == (n_i as int) * (q as int));
                        lemma_fundamental_div_mod_converse(
                            cyc as int - ii as int,
                            n_i as int,
                            q as int,
                            0,
                        );
                        assert((cyc as int - ii as int) / (n_i as int) == q as int);
                    }
                    let off128: i128 = (cyc as i128) - (q as i128);
                    if off128 > (i64::MAX as i128) || off128 < (i64::MIN as i128) {
                        proof {
                            lemma_cat_bubble(gps, gsubs, i as int + 1);
                        }
                        return None;
                    }
                    let offt = Time::from_int(off128 as i64);
                    let c2 = match crate::evops::arc_sub_t(&c, &offt) {
                        None => {
                            proof {
                                lemma_cat_bubble(gps, gsubs, i as int + 1);
                            }
                            return None;
                        },
                        Some(x) => x,
                    };
                    proof {
                        assert(0 <= ii < n_i);
                        assert(pat_wf(gps[ii as int]));
                        lemma_psize_elem(gps, ii as int);
                        assert(gps[ii as int] == ps@[ii as int]@);
                    }
                    let es = match ps[ii as usize].query(&c2) {
                        None => {
                            proof {
                                lemma_cat_bubble(gps, gsubs, i as int + 1);
                            }
                            return None;
                        },
                        Some(x) => x,
                    };
                    proof {
                        lemma_sem_ok(gps[ii as int], c2@);
                        assert(evs_arcs_wf(evs_view(es@))) by {
                            assert(forall|k: int|
                                0 <= k < evs_view(es@).len() ==> ev_ok(
                                    #[trigger] evs_view(es@)[k],
                                    psize(gps[ii as int]),
                                ));
                        }
                    }
                    let shifted = match map_evs_add(&es, &offt) {
                        None => {
                            proof {
                                lemma_cat_bubble(gps, gsubs, i as int + 1);
                            }
                            return None;
                        },
                        Some(x) => x,
                    };
                    extend_events(&mut acc, &shifted);
                    i += 1;
                }
                proof {
                    assert(gsubs.take(ns as int) =~= gsubs);
                }
                Some(acc)
            
    }

    #[verifier::rlimit(80)]
    fn query_rev(&self, a: &Arc, p: &Box<Pattern>) -> (r: Option<Vec<Event>>)
        requires
            self.wf(),
            a.wf(),
            self@ == PatS::Rev(Box::new(p@)),
        ensures
            opt_evs_view(r) == sem(self@, a@),
        decreases psize(self@), 0nat,
    {

                proof {
                    assert(self@ == PatS::Rev(Box::new(p@)));
                }
                let subs = match arc_cycles_zw(*a) {
                    None => {
                        return None;
                    },
                    Some(x) => x,
                };
                let ghost gsubs = arcs_view(subs@);
                let mut acc: Vec<Event> = Vec::new();
                let ns = subs.len();
                let mut i: usize = 0;
                proof {
                    assert(gsubs.take(0) =~= Seq::<RArc>::empty());
                    assert(evs_view(acc@) =~= Seq::<EventS>::empty());
                }
                while i < ns
                    invariant
                        0 <= i <= ns,
                        ns == subs@.len(),
                        gsubs == arcs_view(subs@),
                        gsubs.len() == ns,
                        forall|k: int|
                            0 <= k < ns ==> rarc_wf(#[trigger] gsubs[k]) && gsubs[k]
                                == subs@[k]@,
                        pat_wf(p@),
                        a.wf(),
                        sem_rev(p@, gsubs.take(i as int)) == Some(evs_view(acc@)),
                        psize(p@) < psize(self@),
                        self@ == PatS::Rev(Box::new(p@)),
                        self.wf(),
                        crate::arcs::arc_cycles_zw_o(a@) == Some(gsubs),
                    decreases ns - i,
                {
                    proof {
                        assert(gsubs.take(i as int + 1).drop_last() =~= gsubs.take(i as int));
                        assert(gsubs.take(i as int + 1).last() == gsubs[i as int]);
                        assert(rarc_wf(gsubs[i as int]));
                        lemma_half_wf();
                    }
                    let c = subs[i];
                    let fs = c.start.floor();
                    let fsam = Time::from_int(fs);
                    let half = Time { n: 1, d: 2 };
                    let mid = match fsam.add(&half) {
                        None => {
                            proof {
                                lemma_rev_bubble(p@, gsubs, i as int + 1);
                            }
                            return None;
                        },
                        Some(x) => x,
                    };
                    let na = match mirror_arc(mid, c) {
                        None => {
                            proof {
                                lemma_rev_bubble(p@, gsubs, i as int + 1);
                            }
                            return None;
                        },
                        Some(x) => x,
                    };
                    let es = match p.query(&na) {
                        None => {
                            proof {
                                lemma_rev_bubble(p@, gsubs, i as int + 1);
                            }
                            return None;
                        },
                        Some(x) => x,
                    };
                    proof {
                        lemma_sem_ok(p@, na@);
                        assert(evs_arcs_wf(evs_view(es@))) by {
                            assert(forall|k: int|
                                0 <= k < evs_view(es@).len() ==> ev_ok(
                                    #[trigger] evs_view(es@)[k],
                                    psize(p@),
                                ));
                        }
                    }
                    let ms = match map_evs_mirror(&es, &mid) {
                        None => {
                            proof {
                                lemma_rev_bubble(p@, gsubs, i as int + 1);
                            }
                            return None;
                        },
                        Some(x) => x,
                    };
                    let rev = reverse_events(ms);
                    extend_events(&mut acc, &rev);
                    i += 1;
                }
                proof {
                    assert(gsubs.take(ns as int) =~= gsubs);
                    crate::shape::lemma_sem_rev_ok(p@, gsubs);
                    assert(evs_arcs_wf(evs_view(acc@))) by {
                        assert(forall|k: int|
                            0 <= k < evs_view(acc@).len() ==> ev_ok(
                                #[trigger] evs_view(acc@)[k],
                                psize(p@) + 1,
                            ));
                    }
                }
                let sorted = sort_events(&acc);
                Some(sorted)
            
    }

    #[verifier::rlimit(80)]
    fn query_off(&self, a: &Arc, tp: &Box<Pattern>, f: &crate::pattern::Xform, p: &Box<Pattern>) -> (r: Option<Vec<Event>>)
        requires
            self.wf(),
            a.wf(),
            self@ == PatS::Off(Box::new(tp@), f@, Box::new(p@)),
        ensures
            opt_evs_view(r) == sem(self@, a@),
        decreases psize(self@), 0nat,
    {

                proof {
                    assert(self@ == PatS::Off(Box::new(tp@), f@, Box::new(p@)));
                    lemma_psize_pos(tp@);
                }
                let outer = match tp.query(a) {
                    None => {
                        return None;
                    },
                    Some(x) => x,
                };
                let ghost gouter = evs_view(outer@);
                proof {
                    lemma_sem_ok(tp@, a@);
                    assert(forall|k: int|
                        0 <= k < gouter.len() ==> ev_ok(#[trigger] gouter[k], psize(tp@)));
                }
                let mut acc: Vec<Event> = Vec::new();
                let no = outer.len();
                let mut i: usize = 0;
                proof {
                    assert(gouter.take(0) =~= Seq::<EventS>::empty());
                    assert(evs_view(acc@) =~= Seq::<EventS>::empty());
                }
                while i < no
                    invariant
                        0 <= i <= no,
                        no == outer@.len(),
                        gouter == evs_view(outer@),
                        gouter.len() == no,
                        forall|k: int|
                            0 <= k < no ==> ev_ok(#[trigger] gouter[k], psize(tp@)) && gouter[k]
                                == outer@[k]@,
                        pat_wf(p@),
                        crate::pattern::xform_wf(f@),
                        a.wf(),
                        sem_off(gouter.take(i as int), f@, p@, a@) == Some(evs_view(acc@)),
                        psize(p@) + 2 * f@.len() + 1 < psize(self@),
                        self@ == PatS::Off(Box::new(tp@), f@, Box::new(p@)),
                        self.wf(),
                        sem(tp@, a@) == Some(gouter),
                    decreases no - i,
                {
                    proof {
                        assert(gouter.take(i as int + 1).drop_last() =~= gouter.take(
                            i as int,
                        ));
                        assert(gouter.take(i as int + 1).last() == gouter[i as int]);
                        assert(ev_ok(gouter[i as int], psize(tp@)));
                    }
                    match &outer[i].value {
                        Value::Rational(t) => {
                            let c = match restrict(a, &outer[i].part) {
                                None => {
                                    i += 1;
                                    continue;
                                },
                                Some(x) => x,
                            };
                            let es1 = match p.query(&c) {
                                None => {
                                    proof {
                                        lemma_off_bubble(gouter, f@, p@, a@, i as int + 1);
                                    }
                                    return None;
                                },
                                Some(x) => x,
                            };
                            let base = Pattern::RotR(*t, Box::new(p.dup()));
                            proof {
                                assert(base@ == PatS::RotR(t@, Box::new(p@)));
                                assert(rat_wf(t@));
                                assert(pat_wf(base@));
                                lemma_xform_size(f@, PatS::RotR(t@, Box::new(p@)));
                                assert(psize(base@) == 1 + psize(p@));
                            }
                            let shifted = apply_xform(f, base);
                            let es2 = match shifted.query(&c) {
                                None => {
                                    proof {
                                        lemma_off_bubble(gouter, f@, p@, a@, i as int + 1);
                                    }
                                    return None;
                                },
                                Some(x) => x,
                            };
                            extend_events(&mut acc, &es1);
                            extend_events(&mut acc, &es2);
                            proof {
                                assert(evs_view(acc@) =~= sem_off(
                                    gouter.take(i as int),
                                    f@,
                                    p@,
                                    a@,
                                ).unwrap() + evs_view(es1@) + evs_view(es2@));
                            }
                        },
                        _ => {},
                    }
                    i += 1;
                }
                proof {
                    assert(gouter.take(no as int) =~= gouter);
                    crate::shape::lemma_sem_off_ok(gouter, f@, p@, a@, psize(tp@));
                    assert(evs_arcs_wf(evs_view(acc@))) by {
                        assert(forall|k: int|
                            0 <= k < evs_view(acc@).len() ==> ev_ok(
                                #[trigger] evs_view(acc@)[k],
                                psize(p@) + 2 * f@.len() + 2,
                            ));
                    }
                }
                let sorted = sort_events(&acc);
                Some(sorted)
            
    }

    #[verifier::rlimit(80)]
    fn query_ij(&self, a: &Arc, p: &Box<Pattern>) -> (r: Option<Vec<Event>>)
        requires
            self.wf(),
            a.wf(),
            self@ == PatS::InnerJoin(Box::new(p@)),
        ensures
            opt_evs_view(r) == sem(self@, a@),
        decreases psize(self@), 0nat,
    {

                proof {
                    assert(self@ == PatS::InnerJoin(Box::new(p@)));
                }
                let outer = match p.query(a) {
                    None => {
                        return None;
                    },
                    Some(x) => x,
                };
                let ghost gouter = evs_view(outer@);
                proof {
                    lemma_sem_ok(p@, a@);
                    assert(forall|k: int|
                        0 <= k < gouter.len() ==> ev_ok(#[trigger] gouter[k], psize(p@)));
                }
                let mut acc: Vec<Event> = Vec::new();
                let no = outer.len();
                let mut i: usize = 0;
                proof {
                    assert(gouter.take(0) =~= Seq::<EventS>::empty());
                    assert(evs_view(acc@) =~= Seq::<EventS>::empty());
                }
                while i < no
                    invariant
                        0 <= i <= no,
                        no == outer@.len(),
                        gouter == evs_view(outer@),
                        gouter.len() == no,
                        forall|k: int|
                            0 <= k < no ==> ev_ok(#[trigger] gouter[k], psize(p@)) && gouter[k]
                                == outer@[k]@,
                        a.wf(),
                        sem_ij(gouter.take(i as int), psize(p@), a@) == Some(evs_view(acc@)),
                        psize(p@) < psize(self@),
                        self@ == PatS::InnerJoin(Box::new(p@)),
                        self.wf(),
                        sem(p@, a@) == Some(gouter),
                    decreases no - i,
                {
                    proof {
                        assert(gouter.take(i as int + 1).drop_last() =~= gouter.take(
                            i as int,
                        ));
                        assert(gouter.take(i as int + 1).last() == gouter[i as int]);
                        assert(ev_ok(gouter[i as int], psize(p@)));
                    }
                    match &outer[i].value {
                        Value::Pat(qq) => {
                            proof {
                                assert(gouter[i as int].value == ValS::Pat(Box::new(qq@)));
                                assert(val_size(gouter[i as int].value) == psize(qq@));
                                assert(psize(qq@) < psize(p@));
                                assert(val_wf(gouter[i as int].value));
                                assert(pat_wf(qq@));
                            }
                            let c = match restrict(a, &outer[i].part) {
                                None => {
                                    i += 1;
                                    continue;
                                },
                                Some(x) => x,
                            };
                            let es = match qq.query(&c) {
                                None => {
                                    proof {
                                        assert(sem_ij(
                                            gouter.take(i as int + 1),
                                            psize(p@),
                                            a@,
                                        ) is None);
                                        lemma_ij_bubble(gouter, psize(p@), a@, i as int + 1);
                                        assert(sem(p@, a@) == Some(gouter));
                                        assert(sem(self@, a@) == sem_ij(
                                            gouter,
                                            psize(p@),
                                            a@,
                                        ));
                                    }
                                    return None;
                                },
                                Some(x) => x,
                            };
                            extend_events(&mut acc, &es);
                        },
                        _ => {},
                    }
                    i += 1;
                }
                proof {
                    assert(gouter.take(no as int) =~= gouter);
                }
                Some(acc)
            
    }

    /// The shared body of `DegradeBy` and `UndegradeBy`.
    #[verifier::rlimit(80)]
    fn query_degrade(&self, a: &Arc, x: &Pattern, p: &Pattern, keep_above: bool) -> (r: Option<
        Vec<Event>,
    >)
        requires
            self.wf(),
            a.wf(),
            keep_above ==> self@ == PatS::DegradeBy(Box::new(x@), Box::new(p@)),
            !keep_above ==> self@ == PatS::UndegradeBy(Box::new(x@), Box::new(p@)),
        ensures
            opt_evs_view(r) == sem(self@, a@),
        decreases psize(self@), 0nat,
    {
        proof {
            assert(pat_wf(x@) && pat_wf(p@));
            assert(psize(x@) < psize(self@));
            assert(psize(p@) < psize(self@));
        }
        let outer = match x.query(a) {
            None => {
                return None;
            },
            Some(v) => v,
        };
        let ghost gouter = evs_view(outer@);
        proof {
            lemma_sem_ok(x@, a@);
            assert(forall|k: int|
                0 <= k < gouter.len() ==> ev_ok(#[trigger] gouter[k], psize(x@)));
        }
        let mut acc: Vec<Event> = Vec::new();
        let no = outer.len();
        let mut i: usize = 0;
        proof {
            assert(gouter.take(0) =~= Seq::<EventS>::empty());
            assert(evs_view(acc@) =~= Seq::<EventS>::empty());
        }
        while i < no
            invariant
                0 <= i <= no,
                no == outer@.len(),
                gouter == evs_view(outer@),
                gouter.len() == no,
                forall|k: int|
                    0 <= k < no ==> ev_ok(#[trigger] gouter[k], psize(x@)) && gouter[k]
                        == outer@[k]@,
                pat_wf(p@),
                a.wf(),
                sem_degrade(keep_above, gouter.take(i as int), p@, a@) == Some(evs_view(acc@)),
                psize(p@) < psize(self@),
                self.wf(),
                sem(x@, a@) == Some(gouter),
                keep_above ==> self@ == PatS::DegradeBy(Box::new(x@), Box::new(p@)),
                !keep_above ==> self@ == PatS::UndegradeBy(Box::new(x@), Box::new(p@)),
            decreases no - i,
        {
            proof {
                assert(gouter.take(i as int + 1).drop_last() =~= gouter.take(i as int));
                assert(gouter.take(i as int + 1).last() == gouter[i as int]);
                assert(ev_ok(gouter[i as int], psize(x@)));
            }
            match &outer[i].value {
                Value::Rational(prob) => {
                    proof {
                        assert(rat_wf(prob@)) by {
                            assert(val_wf(gouter[i as int].value));
                        }
                    }
                    let c = match restrict(a, &outer[i].part) {
                        None => {
                            i += 1;
                            continue;
                        },
                        Some(v) => v,
                    };
                    let draw = match mid_draw_x(&c) {
                        None => {
                            proof {
                                lemma_degrade_bubble(
                                    keep_above,
                                    gouter,
                                    p@,
                                    a@,
                                    i as int + 1,
                                );
                            }
                            return None;
                        },
                        Some(v) => v,
                    };
                    let es = match p.query(&c) {
                        None => {
                            proof {
                                lemma_degrade_bubble(
                                    keep_above,
                                    gouter,
                                    p@,
                                    a@,
                                    i as int + 1,
                                );
                            }
                            return None;
                        },
                        Some(v) => v,
                    };
                    let above = prob.lt(&draw);
                    let keep = if keep_above {
                        above
                    } else {
                        !above
                    };
                    if keep {
                        extend_events(&mut acc, &es);
                    }
                },
                _ => {},
            }
            i += 1;
        }
        proof {
            assert(gouter.take(no as int) =~= gouter);
        }
        Some(acc)
    }
}

} // verus!
