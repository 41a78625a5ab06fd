//! The public combinator library: every function builds a pattern tree
//! whose meaning under `sem` is stated exactly by its view.

use vstd::prelude::*;
use crate::time::{Time, rat, rat_int, rat_lt, rat_wf, fits64, abs_n};
use crate::arcs::{Arc, RArc, lemma_rat_int_wf};
use crate::value::{Value, val_wf};
use crate::pattern::{
    CombineOp, PatS, Pattern, TimePred, ValPred, XStep, Xform, apply_xform, pat_wf, pats_view,
    lemma_pats_view, psize, xform_apply_s, xform_wf,
};

verus! {

/// The pattern with no events at all.
pub fn silence() -> (q: Pattern)
    ensures
        q@ == PatS::Silence,
        q.wf(),
{
    Pattern::Silence
}

/// One event per cycle carrying `v`, its whole the full cycle.
pub fn unit(v: Value) -> (q: Pattern)
    ensures
        q@ == PatS::Unit(v@),
        v.wf() ==> q.wf(),
{
    Pattern::Unit(v)
}

/// The identity combinator.
pub fn id(p: Pattern) -> (q: Pattern)
    ensures
        q@ == p@,
{
    p
}

/// All patterns at once, merged in onset order.
pub fn stack(ps: Vec<Pattern>) -> (q: Pattern)
    ensures
        q@ == PatS::Stack(pats_view(ps@)),
        (forall|i: int| 0 <= i < ps@.len() ==> pat_wf(#[trigger] ps@[i]@)) ==> q.wf(),
{
    let ghost gps = pats_view(ps@);
    proof {
        lemma_pats_view(ps@);
        if forall|i: int| 0 <= i < ps@.len() ==> pat_wf(#[trigger] ps@[i]@) {
            assert forall|i: int| 0 <= i < gps.len() implies pat_wf(#[trigger] gps[i]) by {
                assert(gps[i] == ps@[i]@);
                assert(pat_wf(ps@[i]@));
            }
            assert(crate::pattern::pats_wf(gps));
            assert(pat_wf(PatS::Stack(gps)));
        }
    }
    let q = Pattern::Stack(ps);
    proof {
        assert(q@ == PatS::Stack(gps));
    }
    q
}

/// One pattern per cycle, round robin; the empty list is silence at query
/// time.
pub fn cat(ps: Vec<Pattern>) -> (q: Pattern)
    ensures
        q@ == PatS::Cat(pats_view(ps@)),
        (forall|i: int| 0 <= i < ps@.len() ==> pat_wf(#[trigger] ps@[i]@)) ==> q.wf(),
{
    let ghost gps = pats_view(ps@);
    proof {
        lemma_pats_view(ps@);
        if forall|i: int| 0 <= i < ps@.len() ==> pat_wf(#[trigger] ps@[i]@) {
            assert forall|i: int| 0 <= i < gps.len() implies pat_wf(#[trigger] gps[i]) by {
                assert(gps[i] == ps@[i]@);
                assert(pat_wf(ps@[i]@));
            }
            assert(crate::pattern::pats_wf(gps));
            assert(pat_wf(PatS::Cat(gps)));
        }
    }
    let q = Pattern::Cat(ps);
    proof {
        assert(q@ == PatS::Cat(gps));
    }
    q
}

/// Each cycle played backwards.
pub fn rev(p: Pattern) -> (q: Pattern)
    ensures
        q@ == PatS::Rev(Box::new(p@)),
        p.wf() ==> q.wf(),
{
    Pattern::Rev(Box::new(p))
}

/// Shift the pattern earlier by `t`.
pub fn rot_l(t: Time, p: Pattern) -> (q: Pattern)
    requires
        t.wf(),
    ensures
        q@ == PatS::RotL(t@, Box::new(p@)),
        p.wf() ==> q.wf(),
{
    Pattern::RotL(t, Box::new(p))
}

/// Shift the pattern later by `t`.
pub fn rot_r(t: Time, p: Pattern) -> (q: Pattern)
    requires
        t.wf(),
    ensures
        q@ == PatS::RotR(t@, Box::new(p@)),
        p.wf() ==> q.wf(),
{
    Pattern::RotR(t, Box::new(p))
}

/// Both patterns at once.
pub fn overlay(a: Pattern, b: Pattern) -> (q: Pattern)
    ensures
        q@ == PatS::Stack(seq![a@, b@]),
        a.wf() && b.wf() ==> q.wf(),
{
    let ghost ga = a@;
    let ghost gb = b@;
    let mut ps: Vec<Pattern> = Vec::new();
    ps.push(a);
    ps.push(b);
    proof {
        lemma_pats_view(ps@);
        assert(ps@[0]@ == ga);
        assert(ps@[1]@ == gb);
        assert(pats_view(ps@)[0] == ps@[0]@);
        assert(pats_view(ps@)[1] == ps@[1]@);
        assert(pats_view(ps@) =~= seq![ga, gb]);
        assert(pat_wf(ga) && pat_wf(gb) ==> crate::pattern::pats_wf(pats_view(ps@)));
    }
    Pattern::Stack(ps)
}

/// The pattern overlaid with its transform.
pub fn superimpose(f: &Xform, p: Pattern) -> (q: Pattern)
    requires
        xform_wf(f@),
    ensures
        q@ == PatS::Stack(seq![p@, xform_apply_s(f@, p@)]),
        p.wf() ==> q.wf(),
{
    let ghost gp = p@;
    let copy = p.dup();
    let fp = apply_xform(f, copy);
    proof {
        if pat_wf(gp) {
            crate::pattern::lemma_xform_wf(f@, gp);
        }
    }
    overlay(p, fp)
}

/// Keep only the events whose onset satisfies the predicate.
pub fn filter_when(c: TimePred, p: Pattern) -> (q: Pattern)
    ensures
        q@ == PatS::FilterWhen(c@, Box::new(p@)),
        p.wf() && crate::pattern::time_pred_wf(c@) ==> q.wf(),
{
    Pattern::FilterWhen(c, Box::new(p))
}

/// Keep only the events whose payload satisfies the predicate.
pub fn filter_values(c: ValPred, p: Pattern) -> (q: Pattern)
    ensures
        q@ == PatS::FilterVals(c@, Box::new(p@)),
        p.wf() ==> q.wf(),
{
    Pattern::FilterVals(c, Box::new(p))
}

/// The mathematical tree `within` builds: the transform inside the cycle
/// window, the plain pattern outside it.
pub open spec fn within_s(w: RArc, f: Seq<crate::pattern::XStepS>, p: PatS) -> PatS {
    PatS::Stack(
        seq![
            PatS::FilterWhen(crate::pattern::TimePredS::CycleIn(w), Box::new(
                xform_apply_s(f, p),
            )),
            PatS::FilterWhen(crate::pattern::TimePredS::CycleNotIn(w), Box::new(p)),
        ],
    )
}

/// Apply the transform only while the position within the cycle lies in
/// `w`; elsewhere the pattern plays unchanged.
pub fn within(w: Arc, f: &Xform, p: Pattern) -> (q: Pattern)
    requires
        xform_wf(f@),
        w.wf(),
    ensures
        q@ == within_s(w@, f@, p@),
        p.wf() ==> q.wf(),
{
    let ghost gp = p@;
    let copy = p.dup();
    let fp = apply_xform(f, copy);
    proof {
        if pat_wf(gp) {
            crate::pattern::lemma_xform_wf(f@, gp);
        }
    }
    let inside = Pattern::FilterWhen(TimePred::CycleIn(w), Box::new(fp));
    let outside = Pattern::FilterWhen(TimePred::CycleNotIn(w), Box::new(p));
    let ghost gi = inside@;
    let ghost go = outside@;
    let mut ps: Vec<Pattern> = Vec::new();
    ps.push(inside);
    ps.push(outside);
    proof {
        lemma_pats_view(ps@);
        assert(ps@[0]@ == gi);
        assert(ps@[1]@ == go);
        assert(pats_view(ps@)[0] == ps@[0]@);
        assert(pats_view(ps@)[1] == ps@[1]@);
        assert(pats_view(ps@) =~= seq![gi, go]);
        assert(pat_wf(gi) && pat_wf(go) ==> crate::pattern::pats_wf(pats_view(ps@)));
    }
    Pattern::Stack(ps)
}

/// The slices `chunk` walks through: slice `i` of `n` is transformed in
/// cycle `i`.
pub open spec fn chunk_slices(n: int, f: Seq<crate::pattern::XStepS>, p: PatS) -> Seq<PatS> {
    Seq::new(
        n as nat,
        |i: int|
            within_s(
                RArc { s: rat(i, n), e: rat(i + 1, n) },
                f,
                p,
            ),
    )
}

/// Cycle through `n` positions, transforming the `i`-th slice of width
/// `1/n` in cycle `i mod n`.  Zero slices is silence.
pub fn chunk(n: usize, f: &Xform, p: &Pattern) -> (q: Pattern)
    requires
        xform_wf(f@),
        n as int <= i64::MAX as int,
    ensures
        q@ == PatS::Cat(chunk_slices(n as int, f@, p@)),
        p.wf() ==> q.wf(),
{
    let ghost gp = p@;
    let mut parts: Vec<Pattern> = Vec::new();
    let mut i: usize = 0;
    while i < n
        invariant
            0 <= i <= n,
            n as int <= i64::MAX as int,
            xform_wf(f@),
            gp == p@,
            pats_view(parts@) == chunk_slices(n as int, f@, gp).take(i as int),
            pat_wf(gp) ==> crate::pattern::pats_wf(pats_view(parts@)),
        decreases n - i,
    {
        proof {
            crate::time::lemma_rat_repr(i as int, n as int);
            crate::time::lemma_rat_repr(i as int + 1, n as int);
            assert(fits64(rat(i as int, n as int))) by {
                assert(abs_n(rat(i as int, n as int).n) <= abs_n(i as int));
                assert(rat(i as int, n as int).d <= n as int);
            }
            assert(fits64(rat(i as int + 1, n as int))) by {
                assert(abs_n(rat(i as int + 1, n as int).n) <= abs_n(i as int + 1));
                assert(rat(i as int + 1, n as int).d <= n as int);
            }
        }
        let lo = Time::new(i as i64, n as i64).unwrap();
        let hi = Time::new((i + 1) as i64, n as i64).unwrap();
        proof {
            assert(lo@ == rat(i as int, n as int));
            assert(hi@ == rat(i as int + 1, n as int));
        }
        let w = Arc { start: lo, stop: hi };
        let part = within(w, f, p.dup());
        let ghost gpart = part@;
        let ghost old_parts = parts@;
        parts.push(part);
        proof {
            lemma_pats_view(old_parts);
            lemma_pats_view(parts@);
            assert(parts@.drop_last() =~= old_parts);
            assert(gpart == chunk_slices(n as int, f@, gp)[i as int]) by {
                assert(w@ == (RArc { s: rat(i as int, n as int), e: rat(i as int + 1, n as int) }));
            }
            assert(pats_view(parts@) =~= chunk_slices(n as int, f@, gp).take(i as int + 1)) by {
                assert(parts@[i as int]@ == gpart);
                assert(pats_view(parts@)[i as int] == parts@[i as int]@);
                assert(forall|k: int|
                    0 <= k < i ==> #[trigger] pats_view(parts@)[k] == parts@[k]@ && parts@[k]
                        == old_parts[k]);
                assert(forall|k: int|
                    0 <= k < i ==> #[trigger] old_parts[k]@ == pats_view(old_parts)[k]);
            }
        }
        i += 1;
    }
    proof {
        assert(chunk_slices(n as int, f@, gp).take(n as int) =~= chunk_slices(
            n as int,
            f@,
            gp,
        ));
        lemma_pats_view(parts@);
    }
    let q = Pattern::Cat(parts);
    q
}

/// Drop events: each is kept only when the seeded draw at the slice
/// midpoint exceeds the probability the first pattern gives.
pub fn degrade_by(x: Pattern, p: Pattern) -> (q: Pattern)
    ensures
        q@ == PatS::DegradeBy(Box::new(x@), Box::new(p@)),
        x.wf() && p.wf() ==> q.wf(),
{
    Pattern::DegradeBy(Box::new(x), Box::new(p))
}

/// Keep exactly the events `degrade_by` drops.
pub fn undegrade_by(x: Pattern, p: Pattern) -> (q: Pattern)
    ensures
        q@ == PatS::UndegradeBy(Box::new(x@), Box::new(p@)),
        x.wf() && p.wf() ==> q.wf(),
{
    Pattern::UndegradeBy(Box::new(x), Box::new(p))
}

/// Sometimes apply the transform: the degraded pattern overlaid with the
/// transformed complement.
pub fn sometimes_by(x: Pattern, f: &Xform, p: Pattern) -> (q: Pattern)
    requires
        xform_wf(f@),
    ensures
        q@ == PatS::Stack(
            seq![
                PatS::DegradeBy(Box::new(x@), Box::new(p@)),
                PatS::UndegradeBy(Box::new(x@), Box::new(xform_apply_s(f@, p@))),
            ],
        ),
        x.wf() && p.wf() ==> q.wf(),
{
    let ghost gp = p@;
    let xcopy = x.dup();
    let pcopy = p.dup();
    let fp = apply_xform(f, pcopy);
    proof {
        if pat_wf(gp) {
            crate::pattern::lemma_xform_wf(f@, gp);
        }
    }
    let left = degrade_by(x, p);
    let right = undegrade_by(xcopy, fp);
    overlay(left, right)
}

/// The pattern, overlaid with its transform shifted later by each offset
/// the first pattern produces.
pub fn off(tp: Pattern, f: Xform, p: Pattern) -> (q: Pattern)
    ensures
        q@ == PatS::Off(Box::new(tp@), f@, Box::new(p@)),
        tp.wf() && p.wf() && xform_wf(f@) ==> q.wf(),
{
    Pattern::Off(Box::new(tp), f, Box::new(p))
}

/// Flatten a pattern whose events carry patterns: the outer pattern decides
/// when to listen, the inner patterns what plays.
pub fn inner_join(pp: Pattern) -> (q: Pattern)
    ensures
        q@ == PatS::InnerJoin(Box::new(pp@)),
        pp.wf() ==> q.wf(),
{
    Pattern::InnerJoin(Box::new(pp))
}

/// Combine each left event with the latest right event at or before its
/// onset; left events with no right partner are dropped.
pub fn apply_from_left(op: CombineOp, lhs: Pattern, rhs: Pattern) -> (q: Pattern)
    ensures
        q@ == PatS::ApplyLeft(op, Box::new(lhs@), Box::new(rhs@)),
        lhs.wf() && rhs.wf() ==> q.wf(),
{
    Pattern::ApplyLeft(op, Box::new(lhs), Box::new(rhs))
}

/// Text events become control maps: `name:n` splits into sample name and
/// variation index.
pub fn sound(p: Pattern) -> (q: Pattern)
    ensures
        q@ == PatS::Sound(Box::new(p@)),
        p.wf() ==> q.wf(),
{
    Pattern::Sound(Box::new(p))
}

/// Rational events become `pan` control maps.
pub fn pan(p: Pattern) -> (q: Pattern)
    ensures
        q@ == PatS::Pan(Box::new(p@)),
        p.wf() ==> q.wf(),
{
    Pattern::Pan(Box::new(p))
}

/// Stereo split: the transformed pattern panned to one side, the plain
/// pattern to the other, weights drawn from the first pattern.
pub fn jux_by(n: Pattern, f: &Xform, p: Pattern) -> (q: Pattern)
    requires
        xform_wf(f@),
    ensures
        q@ == PatS::Stack(
            seq![
                PatS::ApplyLeft(CombineOp::SetPan, Box::new(xform_apply_s(f@, p@)), Box::new(
                    n@,
                )),
                PatS::ApplyLeft(CombineOp::SetPanInv, Box::new(p@), Box::new(n@)),
            ],
        ),
        n.wf() && p.wf() ==> q.wf(),
{
    let ghost gp = p@;
    let ncopy = n.dup();
    let pcopy = p.dup();
    let fp = apply_xform(f, pcopy);
    proof {
        if pat_wf(gp) {
            crate::pattern::lemma_xform_wf(f@, gp);
        }
    }
    let left = apply_from_left(CombineOp::SetPan, fp, ncopy);
    let right = apply_from_left(CombineOp::SetPanInv, p, n);
    overlay(left, right)
}

} // verus!
