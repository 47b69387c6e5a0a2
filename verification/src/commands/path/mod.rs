//! Path: the shortest chain of relations from one symbol to another, and
//! the pairs of same-named candidates worth reporting on.

pub mod search;

use vstd::prelude::*;

verus! {

} // verus!
