//! Parses a compact notation for functions of one variable `t` into a tree of
//! terms once, and evaluates that tree at any number of inputs.
use vstd::prelude::*;
use vstd::string::*;
use term::{EvalError, FunctionTable, Term};
use term::grammar::{Expr, Failure, refines, quick, shorthands};
use term::normalize::normalized;
use trusted::{lower_of, lowercase_fixed};

pub mod term;
pub mod trusted;
pub mod laws;

verus! {

/// The numeric kind that terms are parsed into and evaluated in.
pub type Number = i64;

} // verus!

verus! {

/// Why a text could not be parsed.
#[derive(Debug, Clone, Copy, PartialEq, Eq, Structural)]
pub enum ErrorKind {
    /// A closing delimiter came before its opening one.
    RightExceedsLeft,
    /// An opening delimiter was never closed.
    LeftExceedsRight,
    /// Two or more divisions at one level of nesting.
    AmbiguousDivision,
    /// A random clause without exactly one `<`.
    RandomSplit,
    /// The lower bound of a computed random clause is not a number.
    RandomMinimum,
    /// The upper bound of a computed random clause is not a number.
    RandomMaximum,
    /// The bounds of a computed random clause leave nothing to draw from.
    RandomBounds,
    /// A piecewise part without exactly one `>`.
    PiecewisePart,
    /// The threshold of a piecewise part is not a number.
    PiecewiseThreshold,
    /// The cycle of a looping piecewise term is not a number or is not closed.
    PiecewiseLoop,
    /// No rule of the grammar matched.
    Unresolved,
}

/// A failed parse: the text that failed and why.
#[derive(Debug)]
pub struct ParametrizerError {
    pub param: String,
    pub kind: ErrorKind,
}

/// The reason for a failure of `kind`, in words.
pub open spec fn reason_of(kind: ErrorKind) -> &'static str {
    match kind {
        ErrorKind::RightExceedsLeft => "Malformed split, right exceeded left.",
        ErrorKind::LeftExceedsRight => "Malformed split, left exceeded right.",
        ErrorKind::AmbiguousDivision => "More than one division symbol in a term.",
        ErrorKind::RandomSplit => "Random parametrization did not split into exactly two terms.",
        ErrorKind::RandomMinimum =>
            "Could not parse the minimum value as a number for computed random generation.",
        ErrorKind::RandomMaximum =>
            "Could not parse the maximum value as a number for computed random generation.",
        ErrorKind::RandomBounds =>
            "Minimum is not smaller than maximum for computed random generation.",
        ErrorKind::PiecewisePart =>
            "Piecewise part did not split into exactly one term and one threshold.",
        ErrorKind::PiecewiseThreshold =>
            "Could not parse the threshold of a piecewise part as a number.",
        ErrorKind::PiecewiseLoop => "Could not parse the loop value of a piecewise term.",
        ErrorKind::Unresolved =>
            "Did not match any cases. Do not forget to write multiplication explicitly, i.e. 'n*t' as opposed to 'nt'.",
    }
}

impl ParametrizerError {
    /// The reason for the failure, in words.
    pub fn reason(&self) -> (r: &'static str)
        ensures
            r == reason_of(self.kind),
    {
        match self.kind {
            ErrorKind::RightExceedsLeft => "Malformed split, right exceeded left.",
            ErrorKind::LeftExceedsRight => "Malformed split, left exceeded right.",
            ErrorKind::AmbiguousDivision => "More than one division symbol in a term.",
            ErrorKind::RandomSplit => "Random parametrization did not split into exactly two terms.",
            ErrorKind::RandomMinimum =>
                "Could not parse the minimum value as a number for computed random generation.",
            ErrorKind::RandomMaximum =>
                "Could not parse the maximum value as a number for computed random generation.",
            ErrorKind::RandomBounds =>
                "Minimum is not smaller than maximum for computed random generation.",
            ErrorKind::PiecewisePart =>
                "Piecewise part did not split into exactly one term and one threshold.",
            ErrorKind::PiecewiseThreshold =>
                "Could not parse the threshold of a piecewise part as a number.",
            ErrorKind::PiecewiseLoop => "Could not parse the loop value of a piecewise term.",
            ErrorKind::Unresolved =>
                "Did not match any cases. Do not forget to write multiplication explicitly, i.e. 'n*t' as opposed to 'nt'.",
        }
    }
}

} // verus!

verus! {

/// The shorthand that registers `identifier`: lower case, then `(`.
pub open spec fn shorthand_of(identifier: Seq<char>) -> Seq<char> {
    lower_of(identifier).push('(')
}

/// The shorthands of a list of identifiers.
pub open spec fn shorthands_of(identifiers: Seq<String>) -> Seq<Seq<char>> {
    identifiers.map_values(|x: String| shorthand_of(x@))
}

/// The shorthands that `Parametrizer::new` registers: `sin(` then `cos(`.
pub open spec fn builtin_shorthands() -> Seq<Seq<char>> {
    seq![seq!['s', 'i', 'n', '('], seq!['c', 'o', 's', '(']]
}

/// The shorthand that registers `identifier`.
pub fn shorthand(identifier: &str) -> (r: String)
    ensures
        r@ == shorthand_of(identifier@),
{
    let mut s = trusted::lowercase(identifier);
    s.append("(");
    proof {
        reveal_strlit("(");
    }
    assert(s@ =~= shorthand_of(identifier@));
    s
}

/// The shorthands of `identifiers`, in order.
pub fn shorthand_list(identifiers: &Vec<String>) -> (r: Vec<String>)
    ensures
        shorthands(r@) == shorthands_of(identifiers@),
{
    let mut list: Vec<String> = Vec::new();
    let mut i: usize = 0;
    while i < identifiers.len()
        invariant
            0 <= i <= identifiers@.len(),
            list@.len() == i,
            shorthands(list@) =~= shorthands_of(identifiers@.take(i as int)),
        decreases identifiers@.len() - i,
    {
        let s = shorthand(identifiers[i].as_str());
        let ghost before = list@;
        list.push(s);
        proof {
            assert forall|k: int| 0 <= k < i + 1 implies #[trigger] shorthands(list@)[k] == shorthands_of(
                identifiers@.take(i + 1),
            )[k] by {
                if k < i {
                    assert(shorthands(before)[k] == shorthands_of(identifiers@.take(i as int))[k]);
                }
            }
            assert(shorthands(list@) =~= shorthands_of(identifiers@.take(i + 1)));
        }
        i = i + 1;
    }
    assert(identifiers@.take(identifiers@.len() as int) =~= identifiers@);
    list
}

/// A parsed function of `t`, ready to be evaluated at any input.
pub struct Parametrizer {
    pub term: Term,
}

/// Whether a constructor's result is the one that `p` describes.
pub open spec fn compiled_as(r: Result<Parametrizer, ParametrizerError>, p: Result<Expr, Failure>) -> bool {
    match p {
        Ok(e) => r is Ok && refines(r->Ok_0.term, e),
        Err(f) => r is Err && r->Err_0.kind == f.kind && r->Err_0.param@ == f.text,
    }
}

impl Parametrizer {
    fn wrap(r: Result<Term, ParametrizerError>) -> (p: Result<Parametrizer, ParametrizerError>)
        ensures
            r is Ok ==> p is Ok && p->Ok_0.term == r->Ok_0,
            r is Err ==> p is Err && p->Err_0 == r->Err_0,
    {
        match r {
            Ok(term) => Ok(Parametrizer { term }),
            Err(e) => Err(e),
        }
    }

    /// Parses `param` after lower-casing and normalising it, with `sin` and
    /// `cos` registered as functions 0 and 1.
    pub fn new(param: &str) -> (r: Result<Parametrizer, ParametrizerError>)
        ensures
            compiled_as(r, quick(normalized(lower_of(param@)), builtin_shorthands())),
            lowercase_fixed(param@) ==> compiled_as(r, quick(normalized(param@), builtin_shorthands())),
    {
        let mut functions: Vec<String> = Vec::new();
        functions.push("sin(".to_owned());
        functions.push("cos(".to_owned());
        proof {
            reveal_strlit("sin(");
            reveal_strlit("cos(");
            assert(shorthands(functions@) =~~= builtin_shorthands());
        }
        Self::wrap(term::create_parametrization(param, &functions))
    }

    /// Parses `param` after lower-casing and normalising it, with the functions
    /// named by `functions` registered in their order.
    pub fn new_functions(param: &str, functions: Vec<String>) -> (r: Result<
        Parametrizer,
        ParametrizerError,
    >)
        ensures
            compiled_as(r, quick(normalized(lower_of(param@)), shorthands_of(functions@))),
            lowercase_fixed(param@) ==> compiled_as(
                r,
                quick(normalized(param@), shorthands_of(functions@)),
            ),
    {
        let shorthands = shorthand_list(&functions);
        Self::wrap(term::create_parametrization(param, &shorthands))
    }

    /// Parses `param` as it stands, with the functions named by `functions`
    /// registered in their order.
    pub fn quick_new(param: &str, functions: Vec<String>) -> (r: Result<
        Parametrizer,
        ParametrizerError,
    >)
        ensures
            compiled_as(r, quick(param@, shorthands_of(functions@))),
    {
        let shorthands = shorthand_list(&functions);
        Self::wrap(term::quick_parametrization(param, &shorthands))
    }

    /// The function's value at `t`, applying registered functions through
    /// `functions` by their index.
    pub fn evaluate<F: FunctionTable>(&self, t: Number, functions: &F) -> (r: Result<
        Number,
        EvalError,
    >)
        ensures
            term::evaluates(self.term, t, functions, r),
    {
        self.term.evaluate(t, functions)
    }
}

} // verus!
