//! What a puzzle asks for.

use crate::naive_next_puyo::NaiveNextPuyo;
use vstd::prelude::*;

verus! {

/// The chain length to reach, and the pieces to reach it with.
#[derive(Debug, Clone, Copy)]
pub struct NazopuyoInfo {
    pub chain: u32,
    pub next: NaiveNextPuyo,
}

} // verus!
