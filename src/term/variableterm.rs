use vstd::prelude::*;

verus! {

/// A term that gives its input back.
pub struct VariableTerm {}

impl VariableTerm {
    /// The variable `t`.
    pub fn new() -> (r: VariableTerm) {
        VariableTerm {  }
    }
}

} // verus!
