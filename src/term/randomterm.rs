use vstd::prelude::*;
use super::Term;

verus! {

/// A term that draws a new value between its two bounds at each evaluation: at
/// least the lower bound and below the upper one.
pub struct RandomTerm {
    pub min: Box<Term>,
    pub max: Box<Term>,
}

impl RandomTerm {
    /// A value drawn anew from `[min, max)` at each evaluation.
    pub fn new(min: Box<Term>, max: Box<Term>) -> (r: RandomTerm)
        ensures
            r.min == min,
            r.max == max,
    {
        RandomTerm { min, max }
    }
}

} // verus!

verus! {

impl RandomTerm {
    /// A value drawn from between the bounds' values, lower bound first.
    pub fn evaluate<F: super::FunctionTable>(&self, t: i64, functions: &F) -> (r: Result<
        i64,
        super::EvalError,
    >)
        ensures
            super::evaluates(Term::Random(*self), t, functions, r),
        decreases self,
    {
        let lo = self.min.evaluate(t, functions);
        proof {
            assert(super::outcomes(*self.min, t, functions).contains(lo));
        }
        match lo {
            Err(e) => Err(e),
            Ok(a) => {
                let hi = self.max.evaluate(t, functions);
                proof {
                    assert(super::outcomes(*self.max, t, functions).contains(hi));
                }
                match hi {
                    Err(e) => Err(e),
                    Ok(b) => {
                        if a < b {
                            Ok(crate::trusted::random_in(a, b))
                        } else {
                            Err(super::EvalError::InvalidRandomBounds)
                        }
                    },
                }
            },
        }
    }
}

} // verus!
