use vstd::prelude::*;
use super::Term;

verus! {

/// A term that divides one sub-term by another, truncating toward zero.
pub struct FractionTerm {
    pub numerator: Box<Term>,
    pub denominator: Box<Term>,
}

impl FractionTerm {
    /// `numerator` divided by `denominator`.
    pub fn new(numerator: Box<Term>, denominator: Box<Term>) -> (r: FractionTerm)
        ensures
            r.numerator == numerator,
            r.denominator == denominator,
    {
        FractionTerm { numerator, denominator }
    }
}

} // verus!

verus! {

impl FractionTerm {
    /// The numerator's value divided by the denominator's, truncating toward
    /// zero; the denominator is evaluated first, and a zero there fails.
    pub fn evaluate<F: super::FunctionTable>(&self, t: i64, functions: &F) -> (r: Result<
        i64,
        super::EvalError,
    >)
        ensures
            super::evaluates(Term::Fraction(*self), t, functions, r),
        decreases self,
    {
        let d = self.denominator.evaluate(t, functions);
        proof {
            assert(super::outcomes(*self.denominator, t, functions).contains(d));
        }
        match d {
            Err(e) => Err(e),
            Ok(dv) => {
                if dv == 0 {
                    Err(super::EvalError::DivisionByZero)
                } else {
                    let n = self.numerator.evaluate(t, functions);
                    proof {
                        assert(super::outcomes(*self.numerator, t, functions).contains(n));
                    }
                    match n {
                        Err(e) => Err(e),
                        Ok(nv) => match nv.checked_div(dv) {
                            Some(q) => Ok(q),
                            None => Err(super::EvalError::Overflow),
                        },
                    }
                }
            },
        }
    }
}

} // verus!
