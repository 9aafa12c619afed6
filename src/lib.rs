//! Exhaustive solver for three-in-a-row on a 3x3x3 grid with gravity.
//!
//! The library holds the verified core: the state codec, the rules of the
//! game, the enumeration of reachable states, the retrograde solver and the
//! sorted result table with its lookup.

pub mod codec;
pub mod rules;
pub mod work_queue;
pub mod enumerate;
pub mod solve;
pub mod table;
pub mod text;
pub mod pipeline;
