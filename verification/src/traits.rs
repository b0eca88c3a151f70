//! The capability of being reduced to a single value.

use vstd::prelude::*;

verus! {

/// Something that can be evaluated to a value of its `Output` type.
///
/// `spec_output` is the mathematical value the implementor denotes;
/// `evaluate` computes exactly that value.
pub trait Evaluatable {
    type Output;

    spec fn spec_output(&self) -> Self::Output;

    fn evaluate(&self) -> (r: Self::Output)
        ensures
            r == self.spec_output(),
    ;
}

} // verus!
