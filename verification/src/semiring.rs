//! The semiring under which the best derivation is scored.
use vstd::prelude::*;

verus! {

/// The Viterbi semiring: scores multiply along a derivation, and of two
/// derivations the better one counts (one is 1, nothing is 0).
#[derive(Debug, Clone, Copy)]
pub struct ViterbiSemiring;

} // verus!
