//! The playback scheduler and the sample catalog.
//!
//! The scheduler holds one pattern per named channel and a cursor time.
//! One tick queries every channel over the next window, merges the events
//! in onset order, and turns each into a play command — sample name,
//! variation index, panning weight — for a sink to perform.  Real time
//! (sleeping, audio output, the mutex around this state) lives outside the
//! library; this is the whole decision logic of the loop.

use vstd::prelude::*;
use crate::time::{Rat, Time, rat, rat_int, rat_floor, rat_le, rat_wf, opt_time_view};
use crate::arcs::{Arc, RArc, rarc_wf};
use crate::value::{Event, EventS, ValS, Value, dup_chars, eq_chars, evs_view, key_n, key_pan,
    key_s};
use crate::pattern::{PatS, Pattern, pat_wf, psize};
use crate::sem::{oadd, omul, osub, sem, sem_list, sort_evs};
use crate::shape::{evs_ok, lemma_sem_list_ok, lemma_half_wf};
use crate::evops::{ev_arcs_wf, evs_arcs_wf, sort_events};
use crate::qops::{key_n_vec, key_pan_vec, key_s_vec};
use crate::value::ev_ok;

verus! {

// ---------------------------------------------------------------------------
// The sample catalog.
// ---------------------------------------------------------------------------

pub open spec fn samples_view(v: Seq<Vec<u8>>) -> Seq<Seq<u8>> {
    v.map_values(|b: Vec<u8>| b@)
}

pub open spec fn bank_map(s: Seq<(Vec<char>, Vec<Vec<u8>>)>) -> Map<Seq<char>, Seq<Seq<u8>>>
    decreases s,
{
    if s.len() == 0 {
        Map::empty()
    } else {
        bank_map(s.drop_last()).insert(s.last().0@, samples_view(s.last().1@))
    }
}

/// A mapping from sample-set name to its ordered variations: raw sample
/// bytes, `name:n` selecting index `n`.
#[derive(Debug)]
pub struct SampleBank {
    pub sets: Vec<(Vec<char>, Vec<Vec<u8>>)>,
}

impl View for SampleBank {
    type V = Map<Seq<char>, Seq<Seq<u8>>>;

    open spec fn view(&self) -> Map<Seq<char>, Seq<Seq<u8>>> {
        bank_map(self.sets@)
    }
}

impl SampleBank {
    /// The empty catalog.
    pub fn new() -> (r: SampleBank)
        ensures
            r@ == Map::<Seq<char>, Seq<Seq<u8>>>::empty(),
    {
        SampleBank { sets: Vec::new() }
    }

    /// Install a sample set under a name; a later set shadows an earlier
    /// one of the same name.
    pub fn add_sample_set(&mut self, name: Vec<char>, samples: Vec<Vec<u8>>)
        ensures
            final(self)@ == old(self)@.insert(name@, samples_view(samples@)),
    {
        self.sets.push((name, samples));
        proof {
            assert(self.sets@.drop_last() =~= old(self).sets@);
        }
    }

    /// The bytes of one variation of one sample set, when both exist.
    pub fn get_sample(&self, name: &Vec<char>, variation: usize) -> (r: Option<&Vec<u8>>)
        ensures
            match r {
                Some(b) => self@.contains_key(name@) && variation < self@[name@].len()
                    && b@ == self@[name@][variation as int],
                None => !self@.contains_key(name@) || variation >= self@[name@].len()
                    || !self@.contains_key(name@),
            },
    {
        let ghost full = self.sets@;
        let mut i = self.sets.len();
        proof {
            assert(full.take(i as int) =~= full);
        }
        while i > 0
            invariant
                0 <= i <= full.len(),
                full == self.sets@,
                bank_map(full).contains_key(name@) == bank_map(full.take(i as int)).contains_key(
                    name@,
                ),
                bank_map(full).contains_key(name@) ==> bank_map(full)[name@] == bank_map(
                    full.take(i as int),
                )[name@],
            decreases i,
        {
            let ghost prev = i as int;
            i = i - 1;
            proof {
                assert(full.take(prev).drop_last() =~= full.take(i as int));
                assert(full.take(prev).last() == full[i as int]);
            }
            if eq_chars(&self.sets[i].0, name) {
                let vars = &self.sets[i].1;
                if variation < vars.len() {
                    proof {
                        assert(samples_view(vars@)[variation as int] == vars@[variation as int]@);
                    }
                    return Some(&vars[variation]);
                } else {
                    return None;
                }
            }
        }
        proof {
            assert(full.take(0) =~= Seq::<(Vec<char>, Vec<Vec<u8>>)>::empty());
        }
        None
    }
}

// ---------------------------------------------------------------------------
// Play commands.
// ---------------------------------------------------------------------------

/// A mathematical play command.
pub struct CmdS {
    pub onset: Rat,
    pub name: Seq<char>,
    pub variation: int,
    pub pan: Rat,
}

/// One instruction for the sink: play the named sample's variation with
/// the given panning weight when the cursor reaches the onset.
#[derive(Debug)]
pub struct PlayCmd {
    pub onset: Time,
    pub name: Vec<char>,
    pub variation: i64,
    pub pan: Time,
}

impl View for PlayCmd {
    type V = CmdS;

    open spec fn view(&self) -> CmdS {
        CmdS { onset: self.onset@, name: self.name@, variation: self.variation as int, pan: self.pan@ }
    }
}

pub open spec fn cmds_view(v: Seq<PlayCmd>) -> Seq<CmdS> {
    v.map_values(|c: PlayCmd| c@)
}

/// The command an event dispatches: its control map must name a sample
/// under `s`; the variation defaults to `0`, the panning weight to `1/2`.
/// Events without a sample name are skipped.
pub open spec fn cmd_of_ev(e: EventS) -> Option<CmdS> {
    match e.value {
        ValS::Ctrl(m) => {
            if m.contains_key(key_s()) && m[key_s()] is Text {
                let name = m[key_s()]->Text_0;
                let variation = if m.contains_key(key_n()) && m[key_n()] is Int {
                    m[key_n()]->Int_0
                } else {
                    0
                };
                let pan = if m.contains_key(key_pan()) && m[key_pan()] is Rational {
                    m[key_pan()]->Rational_0
                } else {
                    rat(1, 2)
                };
                Some(CmdS { onset: e.part.s, name, variation, pan })
            } else {
                None
            }
        },
        _ => None,
    }
}

pub open spec fn cmds_of_evs(s: Seq<EventS>) -> Seq<CmdS>
    decreases s.len(),
{
    if s.len() == 0 {
        Seq::empty()
    } else {
        let pre = cmds_of_evs(s.drop_last());
        match cmd_of_ev(s.last()) {
            Some(c) => pre.push(c),
            None => pre,
        }
    }
}

// ---------------------------------------------------------------------------
// The scheduler.
// ---------------------------------------------------------------------------

pub open spec fn chans_pats(s: Seq<(Vec<char>, Pattern)>) -> Seq<PatS>
    decreases s,
{
    if s.len() == 0 {
        Seq::empty()
    } else {
        chans_pats(s.drop_last()).push(crate::pattern::pat_view(s.last().1))
    }
}

/// Some channel of this name is installed.
pub open spec fn has_channel(s: Seq<(Vec<char>, Pattern)>, name: Seq<char>) -> bool {
    exists|j: int| 0 <= j < s.len() && (#[trigger] s[j]).0@ == name
}

/// The channels as the mapping they stand for: each name to the pattern
/// currently playing there.
pub open spec fn chans_map(s: Seq<(Vec<char>, Pattern)>) -> Map<Seq<char>, PatS>
    decreases s,
{
    if s.len() == 0 {
        Map::empty()
    } else {
        chans_map(s.drop_last()).insert(s.last().0@, crate::pattern::pat_view(s.last().1))
    }
}

/// Channel names occur at most once.
pub open spec fn chans_unique(s: Seq<(Vec<char>, Pattern)>) -> bool {
    forall|i: int, j: int|
        0 <= i < j < s.len() ==> (#[trigger] s[i]).0@ != (#[trigger] s[j]).0@
}

/// Replacing the entry that holds a name is, at the map level, writing
/// that name.
proof fn lemma_chans_map_update(s: Seq<(Vec<char>, Pattern)>, i: int, name: Vec<char>, p: Pattern)
    requires
        0 <= i < s.len(),
        s[i].0@ == name@,
        chans_unique(s),
    ensures
        chans_map(s.update(i, (name, p))) == chans_map(s).insert(
            name@,
            crate::pattern::pat_view(p),
        ),
    decreases s.len(),
{
    let s2 = s.update(i, (name, p));
    if i == s.len() - 1 {
        assert(s2.drop_last() =~= s.drop_last());
        assert(s2.last() == (name, p));
        assert(chans_map(s.drop_last()).insert(s.last().0@, crate::pattern::pat_view(
            s.last().1,
        )).insert(name@, crate::pattern::pat_view(p)) =~= chans_map(s.drop_last()).insert(
            name@,
            crate::pattern::pat_view(p),
        ));
    } else {
        assert(s2.drop_last() =~= s.drop_last().update(i, (name, p)));
        assert(s2.last() == s.last());
        assert(chans_unique(s.drop_last())) by {
            assert(forall|k: int| 0 <= k < s.len() - 1 ==> #[trigger] s.drop_last()[k] == s[k]);
        }
        assert(s.drop_last()[i] == s[i]);
        lemma_chans_map_update(s.drop_last(), i, name, p);
        assert(s.last().0@ != name@);
        assert(chans_map(s.drop_last()).insert(name@, crate::pattern::pat_view(p)).insert(
            s.last().0@,
            crate::pattern::pat_view(s.last().1),
        ) =~= chans_map(s.drop_last()).insert(s.last().0@, crate::pattern::pat_view(
            s.last().1,
        )).insert(name@, crate::pattern::pat_view(p)));
    }
}

/// What one tick returns and where it leaves the cursor: every installed
/// pattern queried over `[cur, cur + delta)`, the events merged in onset
/// order, each turned into a command.
pub open spec fn tick_s(chs: Seq<PatS>, cur: Rat, delta: Rat) -> Option<(Seq<CmdS>, Rat)> {
    match oadd(cur, delta) {
        None => None,
        Some(next) => match sem_list(chs, RArc { s: cur, e: next }) {
            None => None,
            Some(es) => Some((cmds_of_evs(sort_evs(es)), next)),
        },
    }
}

/// The scheduler state: named channels, the cursor, the tick width, and
/// the tempo in milliseconds per cycle.
#[derive(Debug)]
pub struct Player {
    pub channels: Vec<(Vec<char>, Pattern)>,
    pub current: Time,
    pub delta: Time,
    pub tempo_ms: i64,
}

impl Player {
    pub open spec fn wf(self) -> bool {
        &&& self.current.wf()
        &&& self.delta.wf()
        &&& forall|i: int|
            0 <= i < self.channels@.len() ==> pat_wf(
                crate::pattern::pat_view(#[trigger] self.channels@[i].1),
            )
        &&& chans_unique(self.channels@)
    }

    /// A scheduler with no channels, the cursor at zero, one cycle per
    /// tick.
    pub fn new(tempo_ms: i64) -> (r: Player)
        ensures
            r.wf(),
            r.channels@.len() == 0,
            r.current@ == rat_int(0),
            r.delta@ == rat_int(1),
            r.tempo_ms == tempo_ms,
    {
        proof {
            crate::arcs::lemma_rat_int_wf(0);
            crate::arcs::lemma_rat_int_wf(1);
        }
        Player {
            channels: Vec::new(),
            current: Time::from_int(0),
            delta: Time::from_int(1),
            tempo_ms,
        }
    }

    /// Install or replace the pattern on a channel: the channel map gains
    /// or overwrites exactly this name, every other channel is untouched,
    /// and the replacement plays from the next tick's query on.  The
    /// superseded pattern is gone; replacement is the cancellation
    /// primitive.
    pub fn set_pattern(&mut self, name: Vec<char>, p: Pattern)
        requires
            old(self).wf(),
            p.wf(),
        ensures
            final(self).wf(),
            chans_map(final(self).channels@) == chans_map(old(self).channels@).insert(
                name@,
                crate::pattern::pat_view(p),
            ),
            !has_channel(old(self).channels@, name@) ==> final(self).channels@
                == old(self).channels@.push((name, p)),
            has_channel(old(self).channels@, name@) ==> exists|j: int|
                0 <= j < old(self).channels@.len() && (#[trigger] old(self).channels@[j]).0@
                    == name@ && final(self).channels@ == old(self).channels@.update(
                    j,
                    (name, p),
                ),
            final(self).current == old(self).current,
            final(self).delta == old(self).delta,
            final(self).tempo_ms == old(self).tempo_ms,
    {
        let ghost gname = name@;
        let ghost gp = crate::pattern::pat_view(p);
        let n = self.channels.len();
        let mut i: usize = 0;
        while i < n
            invariant
                0 <= i <= n,
                n == self.channels@.len(),
                *self == *old(self),
                old(self).wf(),
                p.wf(),
                gname == name@,
                gp == crate::pattern::pat_view(p),
                forall|k: int| 0 <= k < i ==> (#[trigger] self.channels@[k]).0@ != gname,
            decreases n - i,
        {
            if eq_chars(&self.channels[i].0, &name) {
                let ghost gi = i as int;
                self.channels[i] = (name, p);
                proof {
                    assert(self.channels@ == old(self).channels@.update(gi, (name, p)));
                    lemma_chans_map_update(old(self).channels@, gi, name, p);
                    assert(self.wf()) by {
                        assert forall|a: int, b: int|
                            0 <= a < b < self.channels@.len() implies (
                        #[trigger] self.channels@[a]).0@ != (#[trigger] self.channels@[b]).0@ by {
                            assert(old(self).channels@[a].0@ != old(self).channels@[b].0@);
                        }
                        assert(forall|k: int|
                            0 <= k < self.channels@.len() ==> pat_wf(
                                crate::pattern::pat_view(#[trigger] self.channels@[k].1),
                            ));
                    }
                    assert(has_channel(old(self).channels@, gname)) by {
                        assert(old(self).channels@[gi].0@ == gname);
                    }
                }
                return;
            }
            i += 1;
        }
        self.channels.push((name, p));
        proof {
            assert(self.channels@.drop_last() =~= old(self).channels@);
            assert(self.channels@.last() == (name, p));
            assert(!has_channel(old(self).channels@, gname));
            assert(self.wf()) by {
                assert forall|a: int, b: int|
                    0 <= a < b < self.channels@.len() implies (
                #[trigger] self.channels@[a]).0@ != (#[trigger] self.channels@[b]).0@ by {
                    if b < self.channels@.len() - 1 {
                        assert(old(self).channels@[a].0@ != old(self).channels@[b].0@);
                    } else {
                        assert(self.channels@[a] == old(self).channels@[a]);
                        assert(old(self).channels@[a].0@ != gname);
                    }
                }
                assert(forall|k: int|
                    0 <= k < self.channels@.len() - 1 ==> #[trigger] self.channels@[k]
                        == old(self).channels@[k]);
            }
        }
    }

    /// One tick: query every channel over the coming window, merge the
    /// events by onset, command each playable one, and advance the cursor.
    /// `None` when the window's exact arithmetic leaves the machine range;
    /// the state is then unchanged.
    pub fn tick(&mut self) -> (r: Option<Vec<PlayCmd>>)
        requires
            old(self).wf(),
        ensures
            final(self).wf(),
            final(self).channels@ == old(self).channels@,
            final(self).delta == old(self).delta,
            final(self).tempo_ms == old(self).tempo_ms,
            match r {
                Some(cmds) => tick_s(
                    chans_pats(old(self).channels@),
                    old(self).current@,
                    old(self).delta@,
                ) == Some((cmds_view(cmds@), final(self).current@)),
                None => tick_s(
                    chans_pats(old(self).channels@),
                    old(self).current@,
                    old(self).delta@,
                ) is None && final(self).current == old(self).current,
            },
    {
        let ghost gch = chans_pats(self.channels@);
        proof {
            lemma_chans_pats(self.channels@);
        }
        let next = match self.current.add(&self.delta) {
            None => {
                return None;
            },
            Some(v) => v,
        };
        let arc = Arc { start: self.current, stop: next };
        let mut all: Vec<Event> = Vec::new();
        let n = self.channels.len();
        let mut i: usize = 0;
        proof {
            assert(gch.take(0) =~= Seq::<PatS>::empty());
            assert(evs_view(all@) =~= Seq::<EventS>::empty());
        }
        while i < n
            invariant
                0 <= i <= n,
                n == self.channels@.len(),
                gch == chans_pats(self.channels@),
                gch.len() == n,
                forall|k: int|
                    0 <= k < n ==> #[trigger] gch[k] == crate::pattern::pat_view(
                        self.channels@[k].1,
                    ),
                self.wf(),
                arc.wf(),
                self.channels@ == old(self).channels@,
                self.current == old(self).current,
                self.delta == old(self).delta,
                self.tempo_ms == old(self).tempo_ms,
                next.wf(),
                oadd(old(self).current@, old(self).delta@) == Some(next@),
                arc@ == (RArc { s: old(self).current@, e: next@ }),
                sem_list(gch.take(i as int), arc@) == Some(evs_view(all@)),
            decreases n - i,
        {
            proof {
                assert(gch.take(i as int + 1).drop_last() =~= gch.take(i as int));
                assert(gch.take(i as int + 1).last() == gch[i as int]);
                assert(pat_wf(gch[i as int]));
            }
            let es = match self.channels[i].1.query(&arc) {
                None => {
                    proof {
                        crate::query::lemma_list_bubble(gch, arc@, i as int + 1);
                    }
                    return None;
                },
                Some(v) => v,
            };
            crate::query::extend_events(&mut all, &es);
            i += 1;
        }
        proof {
            assert(gch.take(n as int) =~= gch);
            assert(forall|k: int| 0 <= k < gch.len() ==> pat_wf(#[trigger] gch[k]));
            lemma_sem_list_ok(gch, arc@);
            assert(evs_arcs_wf(evs_view(all@))) by {
                assert(forall|k: int|
                    0 <= k < evs_view(all@).len() ==> ev_ok(
                        #[trigger] evs_view(all@)[k],
                        crate::pattern::psize_list(gch) + 1,
                    ));
            }
        }
        let sorted = sort_events(&all);
        let ghost gall = evs_view(all@);
        let mut cmds: Vec<PlayCmd> = Vec::new();
        let ns = sorted.len();
        let mut k: usize = 0;
        proof {
            assert(evs_view(sorted@.take(0)) =~= Seq::<EventS>::empty());
            assert(cmds_view(cmds@) =~= cmds_of_evs(evs_view(sorted@.take(0))));
        }
        while k < ns
            invariant
                0 <= k <= ns,
                ns == sorted@.len(),
                self.wf(),
                self.channels@ == old(self).channels@,
                self.current == old(self).current,
                self.delta == old(self).delta,
                self.tempo_ms == old(self).tempo_ms,
                next.wf(),
                gch == chans_pats(old(self).channels@),
                oadd(old(self).current@, old(self).delta@) == Some(next@),
                sem_list(gch, RArc { s: old(self).current@, e: next@ }) == Some(gall),
                evs_view(sorted@) == sort_evs(gall),
                cmds_view(cmds@) == cmds_of_evs(evs_view(sorted@.take(k as int))),
            decreases ns - k,
        {
            proof {
                assert(evs_view(sorted@)[k as int] == sorted@[k as int]@);
                assert(evs_view(sorted@.take(k as int + 1)).drop_last() =~= evs_view(
                    sorted@.take(k as int),
                ));
                assert(evs_view(sorted@.take(k as int + 1)).last() == sorted@[k as int]@);
                assert(evs_view(sorted@.take(k as int + 1)).len() == k + 1);
            }
            match cmd_of_event(&sorted[k]) {
                Some(c) => {
                    cmds.push(c);
                    proof {
                        assert(cmds_view(cmds@) =~= cmds_view(cmds@.drop_last()).push(
                            cmds@.last()@,
                        ));
                    }
                },
                None => {},
            }
            k += 1;
        }
        proof {
            assert(sorted@.take(ns as int) =~= sorted@);
        }
        self.current = next;
        Some(cmds)
    }
}

proof fn lemma_chans_pats(s: Seq<(Vec<char>, Pattern)>)
    ensures
        chans_pats(s).len() == s.len(),
        forall|i: int|
            0 <= i < s.len() ==> chans_pats(s)[i] == crate::pattern::pat_view(
                #[trigger] s[i].1,
            ),
    decreases s,
{
    if s.len() > 0 {
        lemma_chans_pats(s.drop_last());
        assert forall|i: int|
            0 <= i < s.len() implies chans_pats(s)[i] == crate::pattern::pat_view(
            #[trigger] s[i].1,
        ) by {
            if i < s.len() - 1 {
                assert(s.drop_last()[i] == s[i]);
                assert(chans_pats(s)[i] == chans_pats(s.drop_last())[i]);
            }
        }
    }
}

/// Turn one event into a command, if its control map names a sample.
fn cmd_of_event(e: &Event) -> (r: Option<PlayCmd>)
    ensures
        match r {
            Some(c) => cmd_of_ev(e@) == Some(c@),
            None => cmd_of_ev(e@) is None,
        },
{
    let m = match &e.value {
        Value::Ctrl(m) => m,
        _ => {
            return None;
        },
    };
    let ks = key_s_vec();
    let name = match m.get(&ks) {
        Some(Value::Text(s)) => dup_chars(s),
        _ => {
            return None;
        },
    };
    let kn = key_n_vec();
    let variation: i64 = match m.get(&kn) {
        Some(Value::Int(k)) => *k,
        _ => 0,
    };
    let kp = key_pan_vec();
    let pan: Time = match m.get(&kp) {
        Some(Value::Rational(x)) => *x,
        _ => {
            proof {
                lemma_half_wf();
            }
            Time { n: 1, d: 2 }
        },
    };
    Some(PlayCmd { onset: e.part.start, name, variation, pan })
}

/// The milliseconds to sleep from one time to another at the given tempo:
/// the elapsed cycles times the tempo, floored, never negative.  `None`
/// when the exact arithmetic leaves the machine range.
pub open spec fn delay_ms_s(from: Rat, to: Rat, tempo_ms: int) -> Option<int> {
    match osub(to, from) {
        None => None,
        Some(diff) => match omul(diff, rat_int(tempo_ms)) {
            None => None,
            Some(ms) => Some(
                if rat_floor(ms) >= 0 {
                    rat_floor(ms)
                } else {
                    0
                },
            ),
        },
    }
}

/// The milliseconds to sleep from `from` to `to` at `tempo_ms` per cycle.
pub fn delay_ms(from: &Time, to: &Time, tempo_ms: i64) -> (r: Option<i64>)
    requires
        from.wf(),
        to.wf(),
    ensures
        match r {
            Some(d) => delay_ms_s(from@, to@, tempo_ms as int) == Some(d as int),
            None => delay_ms_s(from@, to@, tempo_ms as int) is None,
        },
{
    let diff = match to.sub(from) {
        None => {
            return None;
        },
        Some(v) => v,
    };
    let tempo = Time::from_int(tempo_ms);
    let ms = match diff.mul(&tempo) {
        None => {
            return None;
        },
        Some(v) => v,
    };
    let f = ms.floor();
    if f >= 0 {
        Some(f)
    } else {
        Some(0)
    }
}

} // verus!
