use vstd::prelude::*;
use super::Term;

verus! {

/// A term that applies a registered function, named by its index in the list of
/// shorthands, to its sub-term.
pub struct FunctionTerm {
    pub term: Box<Term>,
    pub index: usize,
}

impl FunctionTerm {
    /// The function registered at `index` applied to `term`.
    pub fn new(term: Box<Term>, index: usize) -> (r: FunctionTerm)
        ensures
            r.term == term,
            r.index == index,
    {
        FunctionTerm { term, index }
    }
}

} // verus!

verus! {

impl FunctionTerm {
    /// The registered function applied to the sub-term's value.
    pub fn evaluate<F: super::FunctionTable>(&self, t: i64, functions: &F) -> (r: Result<
        i64,
        super::EvalError,
    >)
        ensures
            super::evaluates(Term::Function(*self), t, functions, r),
        decreases self,
    {
        let v = self.term.evaluate(t, functions);
        proof {
            assert(super::outcomes(*self.term, t, functions).contains(v));
        }
        match v {
            Err(e) => Err(e),
            Ok(x) => match functions.apply(self.index, x) {
                Some(y) => Ok(y),
                None => Err(super::EvalError::Conversion),
            },
        }
    }
}

} // verus!
