//! The pattern tree.
//!
//! A pattern is a pure function from an arc to a finite sequence of events.
//! The library represents that function as a tree of combinators; querying
//! walks the tree.  `PatS` is the mathematical tree the contracts speak of,
//! with unbounded rationals at the leaves; `Pattern` is its executable twin.

use vstd::prelude::*;
use crate::time::{Rat, Time, rat, rat_int, rat_lt, rat_wf, opt_fit, lemma_rat_repr};
use crate::arcs::{Arc, RArc, rarc_wf};
use crate::value::{ValS, Value, val_wf, val_size};

verus! {

/// A predicate on an event's onset, used by `filter_when` and `within`:
/// is the position within the cycle inside (outside) the given arc?
#[derive(Debug, Clone, Copy, PartialEq)]
pub enum TimePred {
    CycleIn(Arc),
    CycleNotIn(Arc),
}

pub enum TimePredS {
    CycleIn(RArc),
    CycleNotIn(RArc),
}

impl View for TimePred {
    type V = TimePredS;

    open spec fn view(&self) -> TimePredS {
        match self {
            TimePred::CycleIn(a) => TimePredS::CycleIn(a@),
            TimePred::CycleNotIn(a) => TimePredS::CycleNotIn(a@),
        }
    }
}

pub open spec fn time_pred_wf(p: TimePredS) -> bool {
    match p {
        TimePredS::CycleIn(a) => rarc_wf(a),
        TimePredS::CycleNotIn(a) => rarc_wf(a),
    }
}

/// A predicate on an event's payload, used by `filter_values`.
#[derive(Debug, Clone)]
pub enum ValPred {
    IsText,
    IsInt,
    IsRational,
    IsCtrl,
    TextEq(Vec<char>),
}

pub enum ValPredS {
    IsText,
    IsInt,
    IsRational,
    IsCtrl,
    TextEq(Seq<char>),
}

impl View for ValPred {
    type V = ValPredS;

    open spec fn view(&self) -> ValPredS {
        match self {
            ValPred::IsText => ValPredS::IsText,
            ValPred::IsInt => ValPredS::IsInt,
            ValPred::IsRational => ValPredS::IsRational,
            ValPred::IsCtrl => ValPredS::IsCtrl,
            ValPred::TextEq(s) => ValPredS::TextEq(s@),
        }
    }
}

/// One step of a pattern transform handed to the higher-order combinators
/// (`off`, `within`, `chunk`, `sometimes_by`, `jux_by`, `superimpose`).
#[derive(Debug, Clone, Copy, PartialEq)]
pub enum XStep {
    XFast(Time),
    XRev,
    XRotL(Time),
    XRotR(Time),
}

pub enum XStepS {
    XFast(Rat),
    XRev,
    XRotL(Rat),
    XRotR(Rat),
}

impl View for XStep {
    type V = XStepS;

    open spec fn view(&self) -> XStepS {
        match self {
            XStep::XFast(t) => XStepS::XFast(t@),
            XStep::XRev => XStepS::XRev,
            XStep::XRotL(t) => XStepS::XRotL(t@),
            XStep::XRotR(t) => XStepS::XRotR(t@),
        }
    }
}

pub open spec fn xstep_wf(s: XStepS) -> bool {
    match s {
        XStepS::XFast(t) => rat_wf(t),
        XStepS::XRev => true,
        XStepS::XRotL(t) => rat_wf(t),
        XStepS::XRotR(t) => rat_wf(t),
    }
}

/// A pattern transform: the steps are applied innermost first.
#[derive(Debug, Clone)]
pub struct Xform {
    pub steps: Vec<XStep>,
}

impl View for Xform {
    type V = Seq<XStepS>;

    open spec fn view(&self) -> Seq<XStepS> {
        self.steps@.map_values(|s: XStep| s@)
    }
}

pub open spec fn xform_wf(steps: Seq<XStepS>) -> bool {
    forall|i: int| 0 <= i < steps.len() ==> xstep_wf(#[trigger] steps[i])
}

/// How `apply_from_left` combines a left value with a right value.
#[derive(Debug, Clone, Copy, PartialEq)]
pub enum CombineOp {
    /// Write the right value (a panning weight) under `"pan"`.
    SetPan,
    /// Write one minus the right value under `"pan"`.
    SetPanInv,
    /// Merge two control maps, the right one overriding.
    MergeRight,
}

// ---------------------------------------------------------------------------
// The tree.
// ---------------------------------------------------------------------------

/// The mathematical pattern tree.
pub enum PatS {
    /// No events at all.
    Silence,
    /// One event per cycle carrying the value.
    Unit(ValS),
    /// Time scaled by a positive factor.
    Fast(Rat, Box<PatS>),
    /// All sub-patterns at once, merged in onset order.
    Stack(Seq<PatS>),
    /// One sub-pattern per cycle, round robin.
    Cat(Seq<PatS>),
    /// Each cycle played backwards.
    Rev(Box<PatS>),
    /// Shifted earlier by the offset.
    RotL(Rat, Box<PatS>),
    /// Shifted later by the offset.
    RotR(Rat, Box<PatS>),
    /// Only events whose onset satisfies the predicate.
    FilterWhen(TimePredS, Box<PatS>),
    /// Only events whose payload satisfies the predicate.
    FilterVals(ValPredS, Box<PatS>),
    /// Drop events by a seeded draw above the probability pattern.
    DegradeBy(Box<PatS>, Box<PatS>),
    /// Keep exactly the events `DegradeBy` drops.
    UndegradeBy(Box<PatS>, Box<PatS>),
    /// The pattern, overlaid with its transform shifted by each offset the
    /// first pattern produces.
    Off(Box<PatS>, Seq<XStepS>, Box<PatS>),
    /// A pattern of patterns, flattened: the outer decides when to listen,
    /// the inner what plays.
    InnerJoin(Box<PatS>),
    /// The left pattern's events, each combined with the latest right event
    /// at or before its onset.
    ApplyLeft(CombineOp, Box<PatS>, Box<PatS>),
    /// Text events become control maps: `name:n` splits into `s` and `n`.
    Sound(Box<PatS>),
    /// Rational events become `pan` control maps.
    Pan(Box<PatS>),
}

/// The executable pattern tree.  Build one with the combinator functions;
/// query it with [`Pattern::query`].
#[derive(Debug)]
pub enum Pattern {
    Silence,
    Unit(Value),
    Fast(Time, Box<Pattern>),
    Stack(Vec<Pattern>),
    Cat(Vec<Pattern>),
    Rev(Box<Pattern>),
    RotL(Time, Box<Pattern>),
    RotR(Time, Box<Pattern>),
    FilterWhen(TimePred, Box<Pattern>),
    FilterVals(ValPred, Box<Pattern>),
    DegradeBy(Box<Pattern>, Box<Pattern>),
    UndegradeBy(Box<Pattern>, Box<Pattern>),
    Off(Box<Pattern>, Xform, Box<Pattern>),
    InnerJoin(Box<Pattern>),
    ApplyLeft(CombineOp, Box<Pattern>, Box<Pattern>),
    Sound(Box<Pattern>),
    Pan(Box<Pattern>),
}

pub open spec fn pats_view(s: Seq<Pattern>) -> Seq<PatS>
    decreases s, 0nat,
{
    if s.len() == 0 {
        Seq::empty()
    } else {
        pats_view(s.drop_last()).push(pat_view(s.last()))
    }
}

pub open spec fn pat_view(p: Pattern) -> PatS
    decreases p, 1nat,
{
    match p {
        Pattern::Silence => PatS::Silence,
        Pattern::Unit(v) => PatS::Unit(crate::value::val_view(v)),
        Pattern::Fast(r, q) => PatS::Fast(r@, Box::new(pat_view(*q))),
        Pattern::Stack(ps) => PatS::Stack(pats_view(ps@)),
        Pattern::Cat(ps) => PatS::Cat(pats_view(ps@)),
        Pattern::Rev(q) => PatS::Rev(Box::new(pat_view(*q))),
        Pattern::RotL(t, q) => PatS::RotL(t@, Box::new(pat_view(*q))),
        Pattern::RotR(t, q) => PatS::RotR(t@, Box::new(pat_view(*q))),
        Pattern::FilterWhen(c, q) => PatS::FilterWhen(c@, Box::new(pat_view(*q))),
        Pattern::FilterVals(c, q) => PatS::FilterVals(c@, Box::new(pat_view(*q))),
        Pattern::DegradeBy(x, q) => PatS::DegradeBy(
            Box::new(pat_view(*x)),
            Box::new(pat_view(*q)),
        ),
        Pattern::UndegradeBy(x, q) => PatS::UndegradeBy(
            Box::new(pat_view(*x)),
            Box::new(pat_view(*q)),
        ),
        Pattern::Off(tp, f, q) => PatS::Off(Box::new(pat_view(*tp)), f@, Box::new(pat_view(*q))),
        Pattern::InnerJoin(q) => PatS::InnerJoin(Box::new(pat_view(*q))),
        Pattern::ApplyLeft(op, l, r) => PatS::ApplyLeft(
            op,
            Box::new(pat_view(*l)),
            Box::new(pat_view(*r)),
        ),
        Pattern::Sound(q) => PatS::Sound(Box::new(pat_view(*q))),
        Pattern::Pan(q) => PatS::Pan(Box::new(pat_view(*q))),
    }
}

impl View for Pattern {
    type V = PatS;

    open spec fn view(&self) -> PatS {
        pat_view(*self)
    }
}

/// Index form of `pats_view`.
pub proof fn lemma_pats_view(s: Seq<Pattern>)
    ensures
        pats_view(s).len() == s.len(),
        forall|i: int| 0 <= i < s.len() ==> pats_view(s)[i] == #[trigger] s[i]@,
    decreases s,
{
    if s.len() > 0 {
        lemma_pats_view(s.drop_last());
        assert forall|i: int| 0 <= i < s.len() implies pats_view(s)[i] == #[trigger] s[i]@ by {
            if i < s.len() - 1 {
                assert(s.drop_last()[i] == s[i]);
                assert(pats_view(s)[i] == pats_view(s.drop_last())[i]);
            }
        }
    }
}

// ---------------------------------------------------------------------------
// Well-formedness and size.
// ---------------------------------------------------------------------------

/// Every rational canonical, every `Fast` factor positive, every payload
/// well formed.
pub open spec fn pat_wf(p: PatS) -> bool
    decreases p, 1nat, 0nat,
{
    match p {
        PatS::Silence => true,
        PatS::Unit(v) => val_wf(v),
        PatS::Fast(r, q) => rat_wf(r) && rat_lt(rat_int(0), r) && pat_wf(*q),
        PatS::Stack(ps) => pats_wf(ps),
        PatS::Cat(ps) => pats_wf(ps),
        PatS::Rev(q) => pat_wf(*q),
        PatS::RotL(t, q) => rat_wf(t) && pat_wf(*q),
        PatS::RotR(t, q) => rat_wf(t) && pat_wf(*q),
        PatS::FilterWhen(c, q) => time_pred_wf(c) && pat_wf(*q),
        PatS::FilterVals(_, q) => pat_wf(*q),
        PatS::DegradeBy(x, q) => pat_wf(*x) && pat_wf(*q),
        PatS::UndegradeBy(x, q) => pat_wf(*x) && pat_wf(*q),
        PatS::Off(tp, f, q) => pat_wf(*tp) && xform_wf(f) && pat_wf(*q),
        PatS::InnerJoin(q) => pat_wf(*q),
        PatS::ApplyLeft(_, l, r) => pat_wf(*l) && pat_wf(*r),
        PatS::Sound(q) => pat_wf(*q),
        PatS::Pan(q) => pat_wf(*q),
    }
}

pub open spec fn pats_wf(s: Seq<PatS>) -> bool
    decreases s, 0nat, 0nat,
{
    forall|i: int| 0 <= i < s.len() ==> pat_wf(#[trigger] s[i])
}

/// Structural size; the measure every recursion over the tree descends on.
/// A `Unit` payload counts the pattern it may carry, so a join into an
/// event's pattern descends too.
pub open spec fn psize(p: PatS) -> nat
    decreases p, 1nat, 0nat,
{
    match p {
        PatS::Silence => 1,
        PatS::Unit(v) => 1 + val_size(v),
        PatS::Fast(_, q) => 1 + psize(*q),
        PatS::Stack(ps) => 1 + psize_list(ps),
        PatS::Cat(ps) => 1 + psize_list(ps),
        PatS::Rev(q) => 1 + psize(*q),
        PatS::RotL(_, q) => 1 + psize(*q),
        PatS::RotR(_, q) => 1 + psize(*q),
        PatS::FilterWhen(_, q) => 1 + psize(*q),
        PatS::FilterVals(_, q) => 1 + psize(*q),
        PatS::DegradeBy(x, q) => 1 + psize(*x) + psize(*q),
        PatS::UndegradeBy(x, q) => 1 + psize(*x) + psize(*q),
        PatS::Off(tp, f, q) => 1 + psize(*tp) + 2 * f.len() + psize(*q),
        PatS::InnerJoin(q) => 1 + psize(*q),
        PatS::ApplyLeft(_, l, r) => 1 + psize(*l) + psize(*r),
        PatS::Sound(q) => 1 + psize(*q),
        PatS::Pan(q) => 1 + psize(*q),
    }
}

pub open spec fn psize_list(s: Seq<PatS>) -> nat
    decreases s, 0nat, 0nat,
{
    if s.len() == 0 {
        0
    } else {
        psize_list(s.drop_last()) + psize(s.last())
    }
}

/// Every pattern has positive size.
pub proof fn lemma_psize_pos(p: PatS)
    ensures
        psize(p) >= 1,
{
}

/// An element never outweighs its list.
pub proof fn lemma_psize_elem(s: Seq<PatS>, i: int)
    requires
        0 <= i < s.len(),
    ensures
        psize(s[i]) <= psize_list(s),
    decreases s.len(),
{
    if i == s.len() - 1 {
    } else {
        lemma_psize_elem(s.drop_last(), i);
    }
}

impl Pattern {
    pub open spec fn wf(self) -> bool {
        pat_wf(self@)
    }

    /// A deep copy with the same abstraction.
    pub fn dup(&self) -> (r: Pattern)
        ensures
            r@ == self@,
        decreases self,
    {
        match self {
            Pattern::Silence => Pattern::Silence,
            Pattern::Unit(v) => Pattern::Unit(v.dup()),
            Pattern::Fast(t, p) => Pattern::Fast(*t, Box::new(p.dup())),
            Pattern::Stack(ps) => Pattern::Stack(dup_list(ps)),
            Pattern::Cat(ps) => Pattern::Cat(dup_list(ps)),
            Pattern::Rev(p) => Pattern::Rev(Box::new(p.dup())),
            Pattern::RotL(t, p) => Pattern::RotL(*t, Box::new(p.dup())),
            Pattern::RotR(t, p) => Pattern::RotR(*t, Box::new(p.dup())),
            Pattern::FilterWhen(c, p) => Pattern::FilterWhen(*c, Box::new(p.dup())),
            Pattern::FilterVals(c, p) => Pattern::FilterVals(dup_val_pred(c), Box::new(p.dup())),
            Pattern::DegradeBy(x, p) => Pattern::DegradeBy(
                Box::new(x.dup()),
                Box::new(p.dup()),
            ),
            Pattern::UndegradeBy(x, p) => Pattern::UndegradeBy(
                Box::new(x.dup()),
                Box::new(p.dup()),
            ),
            Pattern::Off(tp, f, p) => Pattern::Off(
                Box::new(tp.dup()),
                dup_xform(f),
                Box::new(p.dup()),
            ),
            Pattern::InnerJoin(p) => Pattern::InnerJoin(Box::new(p.dup())),
            Pattern::ApplyLeft(op, l, r) => Pattern::ApplyLeft(
                *op,
                Box::new(l.dup()),
                Box::new(r.dup()),
            ),
            Pattern::Sound(p) => Pattern::Sound(Box::new(p.dup())),
            Pattern::Pan(p) => Pattern::Pan(Box::new(p.dup())),
        }
    }
}

fn dup_val_pred(c: &ValPred) -> (r: ValPred)
    ensures
        r@ == c@,
{
    match c {
        ValPred::IsText => ValPred::IsText,
        ValPred::IsInt => ValPred::IsInt,
        ValPred::IsRational => ValPred::IsRational,
        ValPred::IsCtrl => ValPred::IsCtrl,
        ValPred::TextEq(s) => ValPred::TextEq(crate::value::dup_chars(s)),
    }
}

fn dup_xform(f: &Xform) -> (r: Xform)
    ensures
        r@ == f@,
{
    let mut steps: Vec<XStep> = Vec::new();
    let n = f.steps.len();
    let mut i: usize = 0;
    while i < n
        invariant
            0 <= i <= n,
            n == f.steps@.len(),
            steps@.len() == i,
            forall|j: int| 0 <= j < i ==> #[trigger] steps@[j] == f.steps@[j],
        decreases n - i,
    {
        steps.push(f.steps[i]);
        i += 1;
    }
    let r = Xform { steps };
    proof {
        assert(r@ =~= f@);
    }
    r
}

fn dup_list(ps: &Vec<Pattern>) -> (r: Vec<Pattern>)
    ensures
        pats_view(r@) == pats_view(ps@),
        r@.len() == ps@.len(),
    decreases ps,
{
    let mut out: Vec<Pattern> = Vec::new();
    let n = ps.len();
    let mut i: usize = 0;
    while i < n
        invariant
            0 <= i <= n,
            n == ps@.len(),
            out@.len() == i,
            forall|j: int| 0 <= j < i ==> #[trigger] out@[j]@ == ps@[j]@,
        decreases n - i,
    {
        let q = ps[i].dup();
        out.push(q);
        i += 1;
    }
    proof {
        lemma_pats_view_congruent(out@, ps@);
    }
    out
}

/// Lists equal pairwise under the view have the same viewed list.
proof fn lemma_pats_view_congruent(a: Seq<Pattern>, b: Seq<Pattern>)
    requires
        a.len() == b.len(),
        forall|j: int| 0 <= j < a.len() ==> #[trigger] a[j]@ == b[j]@,
    ensures
        pats_view(a) == pats_view(b),
    decreases a,
{
    if a.len() > 0 {
        assert(a[a.len() - 1]@ == b[b.len() - 1]@);
        assert forall|j: int| 0 <= j < a.len() - 1 implies #[trigger] a.drop_last()[j]@
            == b.drop_last()[j]@ by {
            assert(a.drop_last()[j] == a[j]);
            assert(b.drop_last()[j] == b[j]);
        }
        lemma_pats_view_congruent(a.drop_last(), b.drop_last());
    }
}

/// `fast` at the tree level: zero is silence, a negative factor is the
/// reverse of the positive one (when its negation stays in range).
pub open spec fn fast_s(r: Rat, q: PatS) -> PatS {
    if r.n == 0 {
        PatS::Silence
    } else if r.n > 0 {
        PatS::Fast(r, Box::new(q))
    } else {
        match opt_fit(rat(-r.n, r.d)) {
            Some(m) => PatS::Rev(Box::new(PatS::Fast(m, Box::new(q)))),
            None => PatS::Silence,
        }
    }
}

/// Wrap a pattern in one transform step.
pub open spec fn xstep_s(s: XStepS, q: PatS) -> PatS {
    match s {
        XStepS::XFast(r) => fast_s(r, q),
        XStepS::XRev => PatS::Rev(Box::new(q)),
        XStepS::XRotL(t) => PatS::RotL(t, Box::new(q)),
        XStepS::XRotR(t) => PatS::RotR(t, Box::new(q)),
    }
}

/// Apply a transform, innermost step first.
pub open spec fn xform_apply_s(steps: Seq<XStepS>, q: PatS) -> PatS
    decreases steps.len(),
{
    if steps.len() == 0 {
        q
    } else {
        xform_apply_s(steps.drop_first(), xstep_s(steps.first(), q))
    }
}

/// One transform step grows the tree by at most two nodes.
pub proof fn lemma_xstep_size(s: XStepS, q: PatS)
    ensures
        psize(xstep_s(s, q)) <= psize(q) + 2,
{
    lemma_psize_pos(q);
    match s {
        XStepS::XFast(r) => {
            if r.n == 0 {
                assert(psize(PatS::Silence) == 1);
            } else if r.n > 0 {
                assert(psize(PatS::Fast(r, Box::new(q))) == 1 + psize(q));
            } else {
                match opt_fit(rat(-r.n, r.d)) {
                    Some(m) => {
                        assert(psize(PatS::Fast(m, Box::new(q))) == 1 + psize(q));
                        assert(psize(PatS::Rev(Box::new(PatS::Fast(m, Box::new(q))))) == 2
                            + psize(q));
                    },
                    None => {
                        assert(psize(PatS::Silence) == 1);
                    },
                }
            }
        },
        XStepS::XRev => {
            assert(psize(PatS::Rev(Box::new(q))) == 1 + psize(q));
        },
        XStepS::XRotL(t) => {
            assert(psize(PatS::RotL(t, Box::new(q))) == 1 + psize(q));
        },
        XStepS::XRotR(t) => {
            assert(psize(PatS::RotR(t, Box::new(q))) == 1 + psize(q));
        },
    }
}

/// A transform grows the tree by at most two nodes per step.
pub proof fn lemma_xform_size(steps: Seq<XStepS>, q: PatS)
    ensures
        psize(xform_apply_s(steps, q)) <= psize(q) + 2 * steps.len(),
    decreases steps.len(),
{
    if steps.len() > 0 {
        lemma_xstep_size(steps.first(), q);
        lemma_xform_size(steps.drop_first(), xstep_s(steps.first(), q));
    }
}

/// A transform of a well-formed pattern is well formed.
pub proof fn lemma_xform_wf(steps: Seq<XStepS>, q: PatS)
    requires
        xform_wf(steps),
        pat_wf(q),
    ensures
        pat_wf(xform_apply_s(steps, q)),
    decreases steps.len(),
{
    if steps.len() > 0 {
        let s0 = steps.first();
        assert(xstep_wf(steps[0]));
        lemma_xstep_wf(s0, q);
        assert forall|i: int| 0 <= i < steps.drop_first().len() implies xstep_wf(
            #[trigger] steps.drop_first()[i],
        ) by {
            assert(steps.drop_first()[i] == steps[i + 1]);
        }
        lemma_xform_wf(steps.drop_first(), xstep_s(s0, q));
    }
}

/// One well-formed transform step keeps the pattern well formed.
pub proof fn lemma_xstep_wf(s: XStepS, q: PatS)
    requires
        xstep_wf(s),
        pat_wf(q),
    ensures
        pat_wf(xstep_s(s, q)),
{
    match s {
        XStepS::XFast(r) => {
            if r.n > 0 {
                assert(rat_lt(rat_int(0), r)) by (nonlinear_arith)
                    requires
                        r.n > 0,
                        r.d >= 1,
                ;
                assert(pat_wf(PatS::Fast(r, Box::new(q))));
            } else if r.n < 0 {
                lemma_rat_repr(-r.n, r.d);
                match opt_fit(rat(-r.n, r.d)) {
                    Some(m) => {
                        assert(m.n * r.d == -r.n * m.d);
                        assert(m.n > 0) by (nonlinear_arith)
                            requires
                                m.n * r.d == -r.n * m.d,
                                r.n < 0,
                                r.d >= 1,
                                m.d >= 1,
                        ;
                        assert(rat_lt(rat_int(0), m)) by (nonlinear_arith)
                            requires
                                m.n > 0,
                                m.d >= 1,
                        ;
                        assert(pat_wf(PatS::Fast(m, Box::new(q))));
                        assert(pat_wf(PatS::Rev(Box::new(PatS::Fast(m, Box::new(q))))));
                    },
                    None => {},
                }
            }
        },
        XStepS::XRev => {
            assert(pat_wf(PatS::Rev(Box::new(q))));
        },
        XStepS::XRotL(t) => {
            assert(pat_wf(PatS::RotL(t, Box::new(q))));
        },
        XStepS::XRotR(t) => {
            assert(pat_wf(PatS::RotR(t, Box::new(q))));
        },
    }
}


/// Scale time by `r`: `r == 0` silences the pattern, a negative `r` plays
/// the positive scaling backwards.  (The one unrepresentable case — a
/// factor whose negation leaves the machine range — also yields silence.)
pub fn fast(r: Time, p: Pattern) -> (q: Pattern)
    requires
        r.wf(),
    ensures
        q@ == fast_s(r@, p@),
        p.wf() ==> q.wf(),
{
    proof {
        if r@.n < 0 {
            lemma_rat_repr(-r@.n, r@.d);
        }
    }
    if r.n == 0 {
        Pattern::Silence
    } else if r.n > 0 {
        proof {
            assert(rat_lt(rat_int(0), r@)) by (nonlinear_arith)
                requires
                    r@.n > 0,
                    r@.d >= 1,
            ;
        }
        let q = Pattern::Fast(r, Box::new(p));
        proof {
            assert(q@ == PatS::Fast(r@, Box::new(p@)));
        }
        q
    } else {
        match r.neg() {
            Some(m) => {
                proof {
                    assert(m@.n * r@.d == -r@.n * m@.d);
                    assert(m@.n > 0) by (nonlinear_arith)
                        requires
                            m@.n * r@.d == -r@.n * m@.d,
                            r@.n < 0,
                            r@.d >= 1,
                            m@.d >= 1,
                    ;
                    assert(rat_lt(rat_int(0), m@)) by (nonlinear_arith)
                        requires
                            m@.n > 0,
                            m@.d >= 1,
                    ;
                }
                let inner = Pattern::Fast(m, Box::new(p));
                proof {
                    assert(inner@ == PatS::Fast(m@, Box::new(p@)));
                }
                let q = Pattern::Rev(Box::new(inner));
                proof {
                    assert(q@ == PatS::Rev(Box::new(inner@)));
                    assert(pat_wf(p@) ==> pat_wf(inner@));
                }
                q
            },
            None => Pattern::Silence,
        }
    }
}

/// Wrap a pattern in one transform step.
pub fn apply_xstep(s: &XStep, p: Pattern) -> (q: Pattern)
    requires
        xstep_wf(s@),
    ensures
        q@ == xstep_s(s@, p@),
        p.wf() ==> q.wf(),
{
    proof {
        if pat_wf(p@) {
            lemma_xstep_wf(s@, p@);
        }
    }
    match s {
        XStep::XFast(r) => {
            proof {
                assert(rat_wf(r@)) by {
                    assert(xstep_wf(s@));
                }
            }
            fast(*r, p)
        },
        XStep::XRev => {
            let q = Pattern::Rev(Box::new(p));
            proof {
                assert(q@ == PatS::Rev(Box::new(p@)));
            }
            q
        },
        XStep::XRotL(t) => {
            let q = Pattern::RotL(*t, Box::new(p));
            proof {
                assert(q@ == PatS::RotL(t@, Box::new(p@)));
            }
            q
        },
        XStep::XRotR(t) => {
            let q = Pattern::RotR(*t, Box::new(p));
            proof {
                assert(q@ == PatS::RotR(t@, Box::new(p@)));
            }
            q
        },
    }
}

/// Apply a transform to a pattern, innermost step first.
pub fn apply_xform(f: &Xform, p: Pattern) -> (q: Pattern)
    requires
        xform_wf(f@),
    ensures
        q@ == xform_apply_s(f@, p@),
        p.wf() ==> q.wf(),
{
    let mut cur = p;
    let ghost p0 = cur@;
    let ghost wf0 = pat_wf(p0);
    let n = f.steps.len();
    let mut i: usize = 0;
    proof {
        assert(f@.skip(0) =~= f@);
    }
    while i < n
        invariant
            0 <= i <= n,
            n == f.steps@.len(),
            xform_wf(f@),
            xform_apply_s(f@, p0) == xform_apply_s(f@.skip(i as int), cur@),
            wf0 == pat_wf(p0),
            wf0 ==> cur.wf(),
        decreases n - i,
    {
        proof {
            assert(f@[i as int] == f.steps@[i as int]@);
            assert(xstep_wf(f@[i as int]));
            assert(f@.skip(i as int).first() == f@[i as int]);
            assert(f@.skip(i as int).drop_first() =~= f@.skip(i as int + 1));
        }
        let step = f.steps[i];
        cur = apply_xstep(&step, cur);
        i += 1;
    }
    proof {
        assert(f@.skip(n as int) =~= Seq::<XStepS>::empty());
    }
    cur
}

} // verus!
