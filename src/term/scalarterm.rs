use vstd::prelude::*;
use super::Term;

verus! {

/// A term that multiplies its sub-term by a fixed factor (a leading `-` is the
/// factor `-1`).
pub struct ScalarTerm {
    pub term: Box<Term>,
    pub scale: i64,
}

impl ScalarTerm {
    /// `scale` times `term`.
    pub fn new(term: Box<Term>, scale: i64) -> (r: ScalarTerm)
        ensures
            r.term == term,
            r.scale == scale,
    {
        ScalarTerm { term, scale }
    }
}

} // verus!

verus! {

impl ScalarTerm {
    /// The factor times the sub-term's value.
    pub fn evaluate<F: super::FunctionTable>(&self, t: i64, functions: &F) -> (r: Result<
        i64,
        super::EvalError,
    >)
        ensures
            super::evaluates(Term::Scalar(*self), t, functions, r),
        decreases self,
    {
        let v = self.term.evaluate(t, functions);
        proof {
            assert(super::outcomes(*self.term, t, functions).contains(v));
        }
        match v {
            Err(e) => Err(e),
            Ok(x) => match self.scale.checked_mul(x) {
                Some(p) => Ok(p),
                None => Err(super::EvalError::Overflow),
            },
        }
    }
}

} // verus!
