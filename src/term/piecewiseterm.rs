use vstd::prelude::*;
use super::Term;

verus! {

/// A part of a piecewise term: its term applies from `after` on.
pub struct PiecewisePair {
    pub term: Term,
    pub after: i64,
}

/// A term that selects one of its parts by where the input falls among their
/// thresholds, optionally after reducing the input by a cycle.
pub struct PiecewiseTerm {
    pub parts: Vec<PiecewisePair>,
    pub cycle: Option<i64>,
}

impl PiecewiseTerm {
    /// The thresholds of the parts, in order.
    pub open spec fn afters(&self) -> Seq<i64> {
        self.parts@.map_values(|p: PiecewisePair| p.after)
    }

    /// A piecewise term without parts and without a cycle.
    pub fn new() -> (r: PiecewiseTerm)
        ensures
            r.parts@.len() == 0,
            r.cycle is None,
    {
        PiecewiseTerm { parts: Vec::new(), cycle: None }
    }

    /// A piecewise term without parts that reduces inputs above `c` by `c`.
    pub fn looping(c: i64) -> (r: PiecewiseTerm)
        ensures
            r.parts@.len() == 0,
            r.cycle == Some(c),
    {
        PiecewiseTerm { parts: Vec::new(), cycle: Some(c) }
    }

    /// Appends a part that applies `term` from `after` on.
    pub fn add_part(&mut self, term: Term, after: i64)
        ensures
            final(self).cycle == old(self).cycle,
            final(self).parts@ == old(self).parts@.push(PiecewisePair { term, after }),
    {
        self.parts.push(PiecewisePair { term, after });
    }
}

} // verus!

verus! {

impl PiecewiseTerm {
    /// The selected part's value at the (possibly reduced) input; zero where
    /// there are no parts.
    pub fn evaluate<F: super::FunctionTable>(&self, time: i64, functions: &F) -> (r: Result<
        i64,
        super::EvalError,
    >)
        ensures
            super::evaluates(Term::Piecewise(*self), time, functions, r),
        decreases self,
    {
        let n = self.parts.len();
        if n == 0 {
            return Ok(0);
        }
        let mut t = time;
        match self.cycle {
            Some(c) => {
                if t > c {
                    match t.checked_rem(c) {
                        Some(m) => {
                            t = m;
                        },
                        None => {
                            return Err(super::EvalError::DivisionByZero);
                        },
                    }
                }
            },
            None => {},
        }
        assert(super::reduce(self.cycle, time) == Ok::<i64, super::EvalError>(t));
        let ghost afters = self.afters();
        let mut current: usize = 0;
        let mut i: usize = 1;
        while i < n
            invariant
                n == self.parts@.len(),
                afters == self.afters(),
                1 <= i <= n,
                0 <= current < i,
                super::select_from(afters, t, i as int, current as int) == super::select_from(
                    afters,
                    t,
                    1,
                    0,
                ),
            ensures
                super::select_from(afters, t, i as int, current as int) == current,
            decreases n - i,
        {
            if t >= self.parts[i].after {
                current = i;
                i += 1;
            } else {
                break;
            }
        }
        proof {
            assert(decreases_to!(*self => self.parts));
            assert(decreases_to!(self.parts => self.parts@));
            assert(decreases_to!(self.parts@ => self.parts@[current as int]));
        }
        self.parts[current].term.evaluate(t, functions)
    }
}

} // verus!
