//! Event payloads: tagged scalar values, string-keyed control maps, and the
//! timed events a pattern query returns.
//!
//! Each executable type has a mathematical counterpart used in contracts:
//! `Value` abstracts to `ValS`, `ControlMap` to a `Map` from key to value
//! (insertion order is irrelevant, later writes win), `Event` to `EventS`.

use vstd::prelude::*;
use crate::time::{Rat, Time, rat_wf};
use crate::arcs::{Arc, RArc, rarc_wf};
use crate::pattern::{Pattern, PatS, pat_wf, psize};

verus! {

/// A mathematical payload value.
pub enum ValS {
    Text(Seq<char>),
    Int(int),
    Rational(Rat),
    Ctrl(Map<Seq<char>, ValS>),
    Pat(Box<PatS>),
}

/// A tagged scalar or map payload.  `Rational` carries exact rational
/// numbers; the engine has no floating point, panning weights are fractions.
#[derive(Debug)]
pub enum Value {
    Text(Vec<char>),
    Int(i64),
    Rational(Time),
    Ctrl(ControlMap),
    Pat(Box<Pattern>),
}

/// A string-keyed map of values.  Entries are kept in write order and later
/// writes shadow earlier ones; the abstraction is the resulting map.
#[derive(Debug)]
pub struct ControlMap {
    pub entries: Vec<(Vec<char>, Value)>,
}

pub open spec fn entries_map(s: Seq<(Vec<char>, Value)>) -> Map<Seq<char>, ValS>
    decreases s, 0nat,
{
    if s.len() == 0 {
        Map::empty()
    } else {
        entries_map(s.drop_last()).insert(s.last().0@, val_view(s.last().1))
    }
}

pub open spec fn val_view(v: Value) -> ValS
    decreases v, 2nat,
{
    match v {
        Value::Text(s) => ValS::Text(s@),
        Value::Int(k) => ValS::Int(k as int),
        Value::Rational(t) => ValS::Rational(t@),
        Value::Ctrl(m) => ValS::Ctrl(entries_map(m.entries@)),
        Value::Pat(p) => ValS::Pat(Box::new(crate::pattern::pat_view(*p))),
    }
}

impl View for ControlMap {
    type V = Map<Seq<char>, ValS>;

    open spec fn view(&self) -> Map<Seq<char>, ValS> {
        entries_map(self.entries@)
    }
}

impl View for Value {
    type V = ValS;

    open spec fn view(&self) -> ValS {
        val_view(*self)
    }
}

/// Scalar well-formedness: rationals are canonical; a pattern is not hidden
/// inside a control map.
pub open spec fn val_base_wf(v: ValS) -> bool {
    match v {
        ValS::Text(_) => true,
        ValS::Int(_) => true,
        ValS::Rational(r) => rat_wf(r),
        ValS::Ctrl(_) => false,
        ValS::Pat(_) => false,
    }
}

/// Payload well-formedness: rationals canonical, nested patterns well
/// formed, control maps holding scalars only.
pub open spec fn val_wf(v: ValS) -> bool
    decreases v, 2nat, 0nat,
{
    match v {
        ValS::Text(_) => true,
        ValS::Int(_) => true,
        ValS::Rational(r) => rat_wf(r),
        ValS::Ctrl(m) => forall|k: Seq<char>|
            m.contains_key(k) ==> val_base_wf(#[trigger] m[k]),
        ValS::Pat(p) => pat_wf(*p),
    }
}

/// The size of the pattern a payload carries, if any; lets a join recurse
/// into a pattern taken out of an event.
pub open spec fn val_size(v: ValS) -> nat
    decreases v, 2nat, 0nat,
{
    match v {
        ValS::Pat(p) => psize(*p),
        _ => 0,
    }
}

// ---------------------------------------------------------------------------
// Events.
// ---------------------------------------------------------------------------

/// A mathematical event.
pub struct EventS {
    pub whole: Option<RArc>,
    pub part: RArc,
    pub value: ValS,
}

/// A timed value: active during `part`; `whole` is its undivided arc when
/// the query sliced it, absent for point events.
#[derive(Debug)]
pub struct Event {
    pub whole: Option<Arc>,
    pub part: Arc,
    pub value: Value,
}

pub open spec fn opt_whole_view(w: Option<Arc>) -> Option<RArc> {
    match w {
        Some(a) => Some(a@),
        None => None,
    }
}

impl View for Event {
    type V = EventS;

    open spec fn view(&self) -> EventS {
        EventS { whole: opt_whole_view(self.whole), part: self.part@, value: self.value@ }
    }
}

impl Event {
    /// The event's undivided arc when known, otherwise its visible part.
    pub fn whole_or_part(&self) -> (r: Arc)
        ensures
            r@ == whole_or_part_s(self@),
    {
        if let Some(a) = self.whole {
            a
        } else {
            self.part
        }
    }
}

pub open spec fn whole_or_part_s(e: EventS) -> RArc {
    match e.whole {
        Some(a) => a,
        None => e.part,
    }
}

/// Arcs well formed, part inside the whole when a whole is present, and the
/// payload well formed with its nested pattern, if any, smaller than `n`.
pub open spec fn ev_ok(e: EventS, n: nat) -> bool {
    &&& rarc_wf(e.part)
    &&& match e.whole {
        Some(w) => rarc_wf(w) && crate::time::rat_le(w.s, e.part.s) && crate::time::rat_le(
            e.part.e,
            w.e,
        ),
        None => true,
    }
    &&& val_wf(e.value)
    &&& val_size(e.value) < n
}

pub open spec fn evs_view(v: Seq<Event>) -> Seq<EventS> {
    v.map_values(|e: Event| e@)
}

pub open spec fn opt_evs_view(r: Option<Vec<Event>>) -> Option<Seq<EventS>> {
    match r {
        Some(v) => Some(evs_view(v@)),
        None => None,
    }
}

// ---------------------------------------------------------------------------
// Value operations.
// ---------------------------------------------------------------------------

/// Copy a character sequence.
pub fn dup_chars(s: &Vec<char>) -> (r: Vec<char>)
    ensures
        r@ == s@,
{
    let mut out: Vec<char> = Vec::new();
    let n = s.len();
    let mut i: usize = 0;
    while i < n
        invariant
            0 <= i <= n,
            n == s@.len(),
            out@ == s@.take(i as int),
        decreases n - i,
    {
        out.push(s[i]);
        assert(out@ =~= s@.take(i as int + 1));
        i += 1;
    }
    assert(out@ =~= s@);
    out
}

/// Compare two character sequences.
pub fn eq_chars(a: &Vec<char>, b: &Vec<char>) -> (r: bool)
    ensures
        r == (a@ == b@),
{
    if a.len() != b.len() {
        assert(a@ != b@) by {
            assert(a@.len() != b@.len());
        }
        return false;
    }
    let n = a.len();
    let mut i: usize = 0;
    while i < n
        invariant
            0 <= i <= n,
            n == a@.len() == b@.len(),
            forall|j: int| 0 <= j < i ==> a@[j] == b@[j],
        decreases n - i,
    {
        if a[i] != b[i] {
            return false;
        }
        i += 1;
    }
    assert(a@ =~= b@);
    true
}

/// The key a sound event's sample name sits under.
pub open spec fn key_s() -> Seq<char> {
    seq!['s']
}

/// The key a sound event's variation index sits under.
pub open spec fn key_n() -> Seq<char> {
    seq!['n']
}

/// The key a panning weight sits under.
pub open spec fn key_pan() -> Seq<char> {
    seq!['p', 'a', 'n']
}

impl Value {
    pub open spec fn wf(self) -> bool {
        val_wf(self@)
    }

    /// A deep copy with the same abstraction.
    pub fn dup(&self) -> (r: Value)
        ensures
            r@ == self@,
        decreases self,
    {
        match self {
            Value::Text(s) => Value::Text(dup_chars(s)),
            Value::Int(k) => Value::Int(*k),
            Value::Rational(t) => Value::Rational(*t),
            Value::Ctrl(m) => Value::Ctrl(m.dup()),
            Value::Pat(p) => Value::Pat(Box::new(p.dup())),
        }
    }

    /// The text payload; type mismatch is an error.
    pub fn try_text(&self) -> (r: Result<&Vec<char>, ()>)
        ensures
            match r {
                Ok(s) => self@ is Text && self@ == ValS::Text(s@),
                Err(_) => !(self@ is Text),
            },
    {
        match self {
            Value::Text(s) => Ok(s),
            _ => Err(()),
        }
    }

    /// The integer payload; type mismatch is an error.
    pub fn try_int(&self) -> (r: Result<i64, ()>)
        ensures
            match r {
                Ok(k) => self@ == ValS::Int(k as int),
                Err(_) => !(self@ is Int),
            },
    {
        match self {
            Value::Int(k) => Ok(*k),
            _ => Err(()),
        }
    }

    /// The rational payload; type mismatch is an error.
    pub fn try_rational(&self) -> (r: Result<Time, ()>)
        ensures
            match r {
                Ok(t) => self@ == ValS::Rational(t@),
                Err(_) => !(self@ is Rational),
            },
    {
        match self {
            Value::Rational(t) => Ok(*t),
            _ => Err(()),
        }
    }
}

impl ControlMap {
    /// Scalar entries only, with canonical rationals.
    pub open spec fn wf(self) -> bool {
        val_wf(ValS::Ctrl(self@))
    }

    /// The empty map.
    pub fn new() -> (r: ControlMap)
        ensures
            r@ == Map::<Seq<char>, ValS>::empty(),
            r.entries@.len() == 0,
    {
        ControlMap { entries: Vec::new() }
    }

    /// A deep copy with the same abstraction.
    pub fn dup(&self) -> (r: ControlMap)
        ensures
            r@ == self@,
        decreases self,
    {
        let mut out: Vec<(Vec<char>, Value)> = Vec::new();
        let n = self.entries.len();
        let mut i: usize = 0;
        while i < n
            invariant
                0 <= i <= n,
                n == self.entries.len(),
                out@.len() == i,
                forall|j: int|
                    0 <= j < i ==> #[trigger] out@[j].0@ == self.entries@[j].0@ && out@[j].1@
                        == self.entries@[j].1@,
            decreases n - i,
        {
            let k = dup_chars(&self.entries[i].0);
            let v = self.entries[i].1.dup();
            out.push((k, v));
            i += 1;
        }
        let r = ControlMap { entries: out };
        proof {
            lemma_entries_map_congruent(r.entries@, self.entries@);
        }
        r
    }

    /// Write `k := v`; a later write wins over an earlier one.
    pub fn insert(&mut self, k: Vec<char>, v: Value)
        ensures
            final(self)@ == old(self)@.insert(k@, v@),
    {
        self.entries.push((k, v));
        proof {
            assert(self.entries@.drop_last() =~= old(self).entries@);
        }
    }

    /// Look the key up: the value of the latest write, if any.
    pub fn get(&self, k: &Vec<char>) -> (r: Option<&Value>)
        ensures
            match r {
                Some(v) => self@.contains_key(k@) && v@ == self@[k@],
                None => !self@.contains_key(k@),
            },
    {
        let ghost full = self.entries@;
        let mut i = self.entries.len();
        proof {
            assert(full.take(i as int) =~= full);
        }
        while i > 0
            invariant
                0 <= i <= full.len(),
                full == self.entries@,
                entries_map(full).contains_key(k@) == entries_map(
                    full.take(i as int),
                ).contains_key(k@),
                entries_map(full).contains_key(k@) ==> entries_map(full)[k@] == entries_map(
                    full.take(i as int),
                )[k@],
            decreases i,
        {
            let ghost prev = i as int;
            i = i - 1;
            proof {
                assert(full.take(prev).drop_last() =~= full.take(i as int));
                assert(full.take(prev).last() == full[i as int]);
            }
            if eq_chars(&self.entries[i].0, k) {
                return Some(&self.entries[i].1);
            }
        }
        proof {
            assert(full.take(0) =~= Seq::<(Vec<char>, Value)>::empty());
        }
        None
    }

    /// Pointwise merge, the right map overriding the left.
    pub fn merge(&self, other: &ControlMap) -> (r: ControlMap)
        ensures
            r@ == self@.union_prefer_right(other@),
    {
        let mut base = self.dup();
        let n = other.entries.len();
        let mut i: usize = 0;
        proof {
            lemma_union_take_zero(self@, other.entries@);
        }
        while i < n
            invariant
                0 <= i <= n,
                n == other.entries@.len(),
                base@ == self@.union_prefer_right(entries_map(other.entries@.take(i as int))),
            decreases n - i,
        {
            let k = dup_chars(&other.entries[i].0);
            let v = other.entries[i].1.dup();
            proof {
                assert(other.entries@.take(i as int + 1).drop_last() =~= other.entries@.take(
                    i as int,
                ));
                lemma_union_insert(
                    self@,
                    entries_map(other.entries@.take(i as int)),
                    k@,
                    v@,
                );
            }
            base.insert(k, v);
            i += 1;
        }
        proof {
            assert(other.entries@.take(n as int) =~= other.entries@);
        }
        base
    }
}

/// Entry lists equal pairwise have the same map.
proof fn lemma_entries_map_congruent(a: Seq<(Vec<char>, Value)>, b: Seq<(Vec<char>, Value)>)
    requires
        a.len() == b.len(),
        forall|j: int| 0 <= j < a.len() ==> #[trigger] a[j].0@ == b[j].0@ && a[j].1@ == b[j].1@,
    ensures
        entries_map(a) == entries_map(b),
    decreases a,
{
    if a.len() > 0 {
        lemma_entries_map_congruent(a.drop_last(), b.drop_last());
    }
}

proof fn lemma_union_take_zero(m: Map<Seq<char>, ValS>, s: Seq<(Vec<char>, Value)>)
    ensures
        m.union_prefer_right(entries_map(s.take(0))) == m,
{
    assert(s.take(0) =~= Seq::<(Vec<char>, Value)>::empty());
    assert(m.union_prefer_right(Map::empty()) =~= m);
}

proof fn lemma_union_insert(
    m: Map<Seq<char>, ValS>,
    o: Map<Seq<char>, ValS>,
    k: Seq<char>,
    v: ValS,
)
    ensures
        m.union_prefer_right(o).insert(k, v) == m.union_prefer_right(o.insert(k, v)),
{
    assert(m.union_prefer_right(o).insert(k, v) =~= m.union_prefer_right(o.insert(k, v)));
}

} // verus!
