//! A synthesis engine for the eight-instruction tape-machine language:
//! it searches, breadth-first over program length, for a minimal program
//! that emits a given byte sequence from an all-zero tape and halts.

use vstd::prelude::*;

pub mod data;
pub mod brackets;
pub mod semantics;
pub mod tracker;
pub mod run;
pub mod util;
pub mod codec;
pub mod search;

verus! {

/// Default tape width used by the search.
pub const MAX_TAPE_SIZE: usize = 4;

} // verus!
