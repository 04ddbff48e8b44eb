//! A small streaming pipeline: a source of items, order-keeping transforms,
//! and sinks that deliver each item, with the per-item decisions verified.
use vstd::prelude::*;

pub mod console;
pub mod delivery;

verus! {

} // verus!
