//! The result of a Markov blanket search.
use vstd::prelude::*;
use std::collections::BTreeSet;

verus! {

/// A Markov blanket, with the number of conditional independence tests that
/// the search made to find it.
pub struct ResultMB {
    pub mb: BTreeSet<usize>,
    pub num_ci_test: usize,
}

} // verus!
