use vstd::prelude::*;

pub mod constantterm;
pub mod variableterm;
pub mod sequenceterm;
pub mod scalarterm;
pub mod fractionterm;
pub mod functionterm;
pub mod randomterm;
pub mod piecewiseterm;
pub mod split;
pub mod literal;
pub mod grammar;
pub mod parser;
pub mod normalize;

pub use parser::{parametrize_string, quick_parametrization};
pub use normalize::{create_parametrization, parametrize_lowercase};

pub use split::respectful_symbol_split;

use constantterm::ConstantTerm;
use variableterm::VariableTerm;
use sequenceterm::{SequenceTerm, SequenceOperations};
use scalarterm::ScalarTerm;
use fractionterm::FractionTerm;
use functionterm::FunctionTerm;
use randomterm::RandomTerm;
use piecewiseterm::PiecewiseTerm;

verus! {

/// Why evaluating a term at some input failed.
#[derive(Debug, Clone, Copy, PartialEq, Eq, Structural)]
pub enum EvalError {
    /// A denominator (or a cycle length) evaluated to zero.
    DivisionByZero,
    /// The lower bound of a dynamic random term was not below its upper bound.
    InvalidRandomBounds,
    /// A registered function could not carry its argument or its result over.
    Conversion,
    /// A result does not fit the numeric kind.
    Overflow,
}

/// The functions that a parsed text may apply, by their index in the list of
/// shorthands that the text was parsed against. An implementation applies the
/// same function to the same value with the same result each time.
pub trait FunctionTable {
    /// What the function registered at `index` gives for `x`; `None` where the
    /// value cannot be carried to the function or back.
    spec fn applied(&self, index: usize, x: i64) -> Option<i64>;

    /// Applies the function registered at `index` to `x`.
    fn apply(&self, index: usize, x: i64) -> (r: Option<i64>)
        ensures
            r == self.applied(index, x),
    ;
}

/// The table of a text that registers no function: every application fails.
pub struct NoFunctions {}

impl FunctionTable for NoFunctions {
    open spec fn applied(&self, index: usize, x: i64) -> Option<i64> {
        None
    }

    fn apply(&self, index: usize, x: i64) -> (r: Option<i64>) {
        None
    }
}

/// A node of an evaluation tree. Each node owns its children.
pub enum Term {
    Constant(ConstantTerm),
    Variable(VariableTerm),
    Sequence(SequenceTerm),
    Scalar(ScalarTerm),
    Fraction(FractionTerm),
    Function(FunctionTerm),
    Random(RandomTerm),
    Piecewise(PiecewiseTerm),
}

/// `v` as a result, or an overflow where it does not fit an `i64`.
pub open spec fn fit(v: int) -> Result<i64, EvalError> {
    if i64::MIN <= v <= i64::MAX {
        Ok(v as i64)
    } else {
        Err(EvalError::Overflow)
    }
}

/// The value that a sequence starts its fold from.
pub open spec fn unit_of(op: SequenceOperations) -> i64 {
    match op {
        SequenceOperations::Addition => 0,
        SequenceOperations::Multiplication => 1,
    }
}

/// One step of a sequence's fold.
pub open spec fn combine(op: SequenceOperations, l: i64, r: i64) -> Result<i64, EvalError> {
    match op {
        SequenceOperations::Addition => fit(l + r),
        SequenceOperations::Multiplication => fit(l * r),
    }
}

/// The input after a piecewise term's cycle has been applied: reduced by the
/// remainder of truncating division where it exceeds the cycle.
pub open spec fn reduce(cycle: Option<i64>, t: i64) -> Result<i64, EvalError> {
    match cycle {
        Some(c) => if t > c {
            if c == 0 {
                Err(EvalError::DivisionByZero)
            } else {
                Ok(t.checked_rem(c).unwrap())
            }
        } else {
            Ok(t)
        },
        None => Ok(t),
    }
}

/// The part that a piecewise term selects at `u`, walking from part `i` with
/// part `current` selected so far: a part is selected while `u` reaches its
/// threshold, and the walk stops at the first part whose threshold `u` is below.
pub open spec fn select_from(afters: Seq<i64>, u: i64, i: int, current: int) -> int
    decreases afters.len() - i,
{
    if i < 0 || i >= afters.len() {
        current
    } else if u >= afters[i] {
        select_from(afters, u, i + 1, i)
    } else {
        current
    }
}

/// An error passed on unchanged.
pub open spec fn failed(e: EvalError) -> Result<i64, EvalError> {
    Err(e)
}

/// The results that evaluating `term` at `t` may give, registered functions
/// being applied through `functions`. Every term but a dynamic random one has
/// exactly one.
pub open spec fn outcomes<F: FunctionTable>(term: Term, t: i64, functions: &F) -> Set<
    Result<i64, EvalError>,
>
    decreases term, 0int,
{
    match term {
        Term::Constant(c) => set![Ok(c.c)],
        Term::Variable(_) => set![Ok(t)],
        Term::Sequence(s) => folds(s.terms@, s.operation, t, functions, s.terms@.len() as int),
        Term::Scalar(s) => {
            let inner = outcomes(*s.term, t, functions);
            Set::new(
                |r: Result<i64, EvalError>|
                    exists|v: Result<i64, EvalError>|
                        #![trigger inner.contains(v)]
                        inner.contains(v) && r == match v {
                            Ok(x) => fit(s.scale * x),
                            Err(e) => failed(e),
                        },
            )
        },
        Term::Fraction(f) => {
            let ds = outcomes(*f.denominator, t, functions);
            let ns = outcomes(*f.numerator, t, functions);
            Set::new(
                |r: Result<i64, EvalError>|
                    exists|d: Result<i64, EvalError>|
                        #![trigger ds.contains(d)]
                        ds.contains(d) && match d {
                            Err(e) => r == failed(e),
                            Ok(dv) => if dv == 0 {
                                r == failed(EvalError::DivisionByZero)
                            } else {
                                exists|n: Result<i64, EvalError>|
                                    #![trigger ns.contains(n)]
                                    ns.contains(n) && r == match n {
                                        Err(e) => failed(e),
                                        Ok(nv) => match nv.checked_div(dv) {
                                            Some(q) => Ok(q),
                                            None => failed(EvalError::Overflow),
                                        },
                                    }
                            },
                        },
            )
        },
        Term::Function(f) => {
            let inner = outcomes(*f.term, t, functions);
            Set::new(
                |r: Result<i64, EvalError>|
                    exists|v: Result<i64, EvalError>|
                        #![trigger inner.contains(v)]
                        inner.contains(v) && r == match v {
                            Ok(x) => match functions.applied(f.index, x) {
                                Some(y) => Ok(y),
                                None => failed(EvalError::Conversion),
                            },
                            Err(e) => failed(e),
                        },
            )
        },
        Term::Random(rt) => {
            let los = outcomes(*rt.min, t, functions);
            let his = outcomes(*rt.max, t, functions);
            Set::new(
                |r: Result<i64, EvalError>|
                    exists|lo: Result<i64, EvalError>|
                        #![trigger los.contains(lo)]
                        los.contains(lo) && match lo {
                            Err(e) => r == failed(e),
                            Ok(a) => exists|hi: Result<i64, EvalError>|
                                #![trigger his.contains(hi)]
                                his.contains(hi) && match hi {
                                    Err(e) => r == failed(e),
                                    Ok(b) => if a < b {
                                        r is Ok && a <= r->Ok_0 < b
                                    } else {
                                        r == failed(EvalError::InvalidRandomBounds)
                                    },
                                },
                        },
            )
        },
        Term::Piecewise(p) => if p.parts@.len() == 0 {
            set![Ok(0)]
        } else {
            match reduce(p.cycle, t) {
                Err(e) => set![failed(e)],
                Ok(u) => {
                    let k = select_from(p.afters(), u, 1, 0);
                    if 0 <= k < p.parts@.len() {
                        outcomes(p.parts@[k].term, u, functions)
                    } else {
                        Set::empty()
                    }
                },
            }
        },
    }
}

/// The results that folding the first `n` of `terms` at `t` may give: the terms
/// are evaluated from left to right and the first failure ends the fold.
pub open spec fn folds<F: FunctionTable>(
    terms: Seq<Term>,
    op: SequenceOperations,
    t: i64,
    functions: &F,
    n: int,
) -> Set<
    Result<i64, EvalError>,
>
    decreases terms, n,
{
    if n <= 0 || n > terms.len() {
        set![Ok(unit_of(op))]
    } else {
        let before = folds(terms, op, t, functions, n - 1);
        let last = outcomes(terms[n - 1], t, functions);
        Set::new(
            |r: Result<i64, EvalError>|
                exists|p: Result<i64, EvalError>|
                    #![trigger before.contains(p)]
                    before.contains(p) && match p {
                        Err(e) => r == failed(e),
                        Ok(acc) => exists|v: Result<i64, EvalError>|
                            #![trigger last.contains(v)]
                            last.contains(v) && r == match v {
                                Err(e) => failed(e),
                                Ok(x) => combine(op, acc, x),
                            },
                    },
        )
    }
}

/// A failure in a fold's prefix is a result of every longer prefix.
pub proof fn lemma_fold_failure_persists<F: FunctionTable>(
    terms: Seq<Term>,
    op: SequenceOperations,
    t: i64,
    functions: &F,
    k: int,
    n: int,
    e: EvalError,
)
    requires
        0 <= k <= n <= terms.len(),
        folds(terms, op, t, functions, k).contains(failed(e)),
    ensures
        folds(terms, op, t, functions, n).contains(failed(e)),
    decreases n - k,
{
    if k < n {
        assert(folds(terms, op, t, functions, k + 1).contains(failed(e)));
        lemma_fold_failure_persists(terms, op, t, functions, k + 1, n, e);
    }
}

/// Whether evaluating `term` at `t` may give `r`.
pub open spec fn evaluates<F: FunctionTable>(
    term: Term,
    t: i64,
    functions: &F,
    r: Result<i64, EvalError>,
) -> bool {
    outcomes(term, t, functions).contains(r)
}

} // verus!

verus! {

impl Term {
    /// Evaluates the term at `t`, applying registered functions through
    /// `functions`.
    pub fn evaluate<F: FunctionTable>(&self, t: i64, functions: &F) -> (r: Result<i64, EvalError>)
        ensures
            evaluates(*self, t, functions, r),
        decreases self,
    {
        match self {
            Term::Constant(c) => Ok(c.c),
            Term::Variable(_) => Ok(t),
            Term::Sequence(s) => s.evaluate(t, functions),
            Term::Scalar(s) => s.evaluate(t, functions),
            Term::Fraction(f) => f.evaluate(t, functions),
            Term::Function(f) => f.evaluate(t, functions),
            Term::Random(rt) => rt.evaluate(t, functions),
            Term::Piecewise(p) => p.evaluate(t, functions),
        }
    }
}

} // verus!
