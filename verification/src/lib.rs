//! A live-coding pattern engine: a calculus of musical patterns over exact
//! rational time.
//!
//! A pattern is a pure function from a half-open time arc to a finite
//! sequence of timed events.  The library provides the combinator algebra
//! (`fast`, `cat`, `stack`, `rev`, rotation, conditional and random
//! transforms), a mini-notation parser that compiles text to the algebra,
//! and the playback scheduler that turns queries into play commands.  Every
//! query is proved to return exactly what the denotational semantics
//! (`sem`) states, and the laws of the calculus are proved against that
//! semantics.

use vstd::prelude::*;

pub mod time;
pub mod arcs;
pub mod value;
pub mod pattern;
pub mod rand;
pub mod sem;
pub mod shape;
pub mod evops;
pub mod qops;
pub mod query;
pub mod combinators;
pub mod parse;
pub mod laws;
pub mod contain;
pub mod player;

verus! {

/// The number of events a query yields, `None` when its exact arithmetic
/// leaves the machine range.
pub fn query_len(p: &pattern::Pattern, a: &arcs::Arc) -> (r: Option<usize>)
    requires
        p.wf(),
        a.wf(),
    ensures
        match r {
            Some(n) => sem::sem(p@, a@) is Some && n == sem::sem(p@, a@).unwrap().len(),
            None => sem::sem(p@, a@) is None,
        },
{
    match p.query(a) {
        Some(v) => Some(v.len()),
        None => None,
    }
}

} // verus!
