use vstd::prelude::*;

verus! {

/// A term that gives its constant whatever the input.
pub struct ConstantTerm {
    pub c: i64,
}

impl ConstantTerm {
    /// A term that always gives `param`.
    pub fn new(param: i64) -> (r: ConstantTerm)
        ensures
            r.c == param,
    {
        ConstantTerm { c: param }
    }
}

} // verus!
