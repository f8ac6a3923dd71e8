//! A clause: a disjunction of literals.

use vstd::prelude::*;

verus! {

/// A finite ordered sequence of literals, read as their disjunction.
#[derive(Debug, Clone, PartialEq, Eq)]
pub struct Clause(pub Vec<i32>);

} // verus!
