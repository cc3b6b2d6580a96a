use vstd::prelude::*;

pub mod field;
pub mod inverse;
pub mod rpn;

verus! {

} // verus!
