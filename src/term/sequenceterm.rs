use vstd::prelude::*;
use super::Term;

verus! {

/// The operations that a sequence folds its terms with.
#[derive(Debug, Clone, Copy, PartialEq, Eq, Structural)]
pub enum SequenceOperations {
    Addition,
    Multiplication,
}

/// A term that folds its sub-terms from left to right with one operation.
pub struct SequenceTerm {
    pub terms: Vec<Term>,
    pub operation: SequenceOperations,
}

impl SequenceTerm {
    /// The fold of `terms` with `operation`.
    pub fn new(terms: Vec<Term>, operation: SequenceOperations) -> (r: SequenceTerm)
        ensures
            r.terms == terms,
            r.operation == operation,
    {
        SequenceTerm { terms, operation }
    }
}

} // verus!

verus! {

impl SequenceTerm {
    /// The value the fold starts from: zero for a sum, one for a product.
    pub fn unit(&self) -> (r: i64)
        ensures
            r == super::unit_of(self.operation),
    {
        match self.operation {
            SequenceOperations::Addition => 0,
            SequenceOperations::Multiplication => 1,
        }
    }

    /// One step of the fold.
    pub fn compound(&self, l: i64, r: i64) -> (res: Result<i64, super::EvalError>)
        ensures
            res == super::combine(self.operation, l, r),
    {
        match self.operation {
            SequenceOperations::Addition => match l.checked_add(r) {
                Some(v) => Ok(v),
                None => Err(super::EvalError::Overflow),
            },
            SequenceOperations::Multiplication => match l.checked_mul(r) {
                Some(v) => Ok(v),
                None => Err(super::EvalError::Overflow),
            },
        }
    }

    /// The fold of the sub-terms' values, from left to right.
    pub fn evaluate<F: super::FunctionTable>(&self, t: i64, functions: &F) -> (r: Result<
        i64,
        super::EvalError,
    >)
        ensures
            super::evaluates(Term::Sequence(*self), t, functions, r),
        decreases self,
    {
        let ghost terms = self.terms@;
        let ghost op = self.operation;
        let mut computed = self.unit();
        let mut i: usize = 0;
        while i < self.terms.len()
            invariant
                terms == self.terms@,
                op == self.operation,
                0 <= i <= terms.len(),
                super::folds(terms, op, t, functions, i as int).contains(Ok(computed)),
            decreases terms.len() - i,
        {
            proof {
                assert(decreases_to!(*self => self.terms));
                assert(decreases_to!(self.terms => self.terms@));
                assert(decreases_to!(self.terms@ => self.terms@[i as int]));
            }
            let v = self.terms[i].evaluate(t, functions);
            proof {
                assert(super::outcomes(terms[i as int], t, functions).contains(v));
            }
            let next = match v {
                Err(e) => Err(e),
                Ok(x) => self.compound(computed, x),
            };
            proof {
                assert(super::folds(terms, op, t, functions, i + 1).contains(next));
            }
            match next {
                Err(e) => {
                    proof {
                        super::lemma_fold_failure_persists(terms, op, t, functions, i + 1, terms.len() as int, e);
                    }
                    return Err(e);
                },
                Ok(a) => {
                    computed = a;
                },
            }
            i += 1;
        }
        Ok(computed)
    }
}

} // verus!
