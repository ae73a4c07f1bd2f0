//! Client side of a cycle-accurate simulator's request/response protocol: a tri-state
//! cache of the simulator's answers, a synchronous query surface that never waits for a
//! round trip, the decoding of the wire's names, values and times, and the store that
//! answers point-in-time queries on interval samples.
use vstd::prelude::*;

pub mod cache;
pub mod container;
pub mod encoding;
pub mod instruction;
pub mod protocol;
pub mod query;
pub mod refs;
pub mod state;
pub mod worker;

verus! {

} // verus!
