use vstd::prelude::*;
use crate::ErrorKind;
use super::Term;
use super::sequenceterm::SequenceOperations;
use super::piecewiseterm::PiecewisePair;
use super::split::{balanced_split, plain_split};
use super::literal::literal_value;

verus! {

/// What a text parses into. It has the shape of a `Term`, except that a
/// computed random clause is still the range its value is drawn from.
pub enum Expr {
    Constant(i64),
    Drawn(i64, i64),
    Variable,
    Sequence(Seq<Expr>, SequenceOperations),
    Scalar(Box<Expr>, i64),
    Fraction(Box<Expr>, Box<Expr>),
    Function(Box<Expr>, int),
    Random(Box<Expr>, Box<Expr>),
    Piecewise(Seq<(Expr, i64)>, Option<i64>),
}

/// A failed parse: why, and the text that failed.
pub struct Failure {
    pub kind: ErrorKind,
    pub text: Seq<char>,
}

/// A failure of `kind` on `text`.
pub open spec fn fail<T>(kind: ErrorKind, text: Seq<char>) -> Result<T, Failure> {
    Err(Failure { kind, text })
}

/// The texts of a list of shorthands.
pub open spec fn shorthands(names: Seq<String>) -> Seq<Seq<char>> {
    names.map_values(|x: String| x@)
}

/// Whether `s` begins with `p`.
pub open spec fn starts_with(s: Seq<char>, p: Seq<char>) -> bool {
    p.len() <= s.len() && s.subrange(0, p.len() as int) == p
}

/// Whether `s` is wrapped as `(…)`.
pub open spec fn wrapped(s: Seq<char>) -> bool {
    s.len() >= 2 && s[0] == '(' && s.last() == ')'
}

/// Whether `s` is a random clause `r<which>(…)`.
pub open spec fn random_clause(s: Seq<char>, which: char) -> bool {
    s.len() >= 4 && s[0] == 'r' && s[1] == which && s[2] == '(' && s.last() == ')'
}

/// The inside of a random clause.
pub open spec fn clause_bounds(s: Seq<char>) -> Seq<Seq<char>> {
    plain_split(s.subrange(3, s.len() - 1), '<')
}

/// Whether a split at some operator takes effect: it failed, or it cut.
pub open spec fn cuts_text(r: Result<Seq<Seq<char>>, ErrorKind>) -> bool {
    r is Err || r->Ok_0.len() > 1
}

/// Whether `s` splits at `op` outside parentheses.
pub open spec fn splits_at(s: Seq<char>, op: char) -> bool {
    s.contains(op) && cuts_text(balanced_split(s, op, '(', ')'))
}

/// A shorthand that `first_call` finds is one that `s` applies.
pub proof fn lemma_first_call(s: Seq<char>, names: Seq<Seq<char>>, k: int)
    requires
        0 <= k,
    ensures
        first_call(s, names, k) matches Some(j) ==> k <= j < names.len() && starts_with(s, names[j])
            && names[j].len() < s.len(),
    decreases names.len() - k,
{
    if k < names.len() {
        lemma_first_call(s, names, k + 1);
    }
}

/// A successful `parse_all` gives one parse per segment.
pub proof fn lemma_parse_all_len(segs: Seq<Seq<char>>, names: Seq<Seq<char>>, bound: int)
    ensures
        parse_all(segs, names, bound) matches Ok(es) ==> es.len() == segs.len(),
    decreases segs.len(),
{
    if segs.len() > 0 {
        lemma_parse_all_len(segs.drop_last(), names, bound);
    }
}

/// The first shorthand, from index `k` on, that `s` applies: `s` starts with
/// it and holds more after it.
pub open spec fn first_call(s: Seq<char>, names: Seq<Seq<char>>, k: int) -> Option<int>
    decreases names.len() - k,
{
    if k < 0 || k >= names.len() {
        None
    } else if starts_with(s, names[k]) && names[k].len() < s.len() {
        Some(k)
    } else {
        first_call(s, names, k + 1)
    }
}

/// Whether `s` starts with one of the shorthands.
pub open spec fn names_a_function(s: Seq<char>, names: Seq<Seq<char>>) -> bool {
    exists|k: int| 0 <= k < names.len() && starts_with(s, #[trigger] names[k])
}

/// The parse of a computed random clause `rc(a<b)`: its bounds must be numbers,
/// the lower one below the upper one.
pub open spec fn computed_random(s: Seq<char>) -> Result<Expr, Failure> {
    let bounds = clause_bounds(s);
    if bounds.len() != 2 {
        fail(ErrorKind::RandomSplit, s)
    } else if literal_value(bounds[0]) is None {
        fail(ErrorKind::RandomMinimum, s)
    } else if literal_value(bounds[1]) is None {
        fail(ErrorKind::RandomMaximum, s)
    } else if literal_value(bounds[0])->0 < literal_value(bounds[1])->0 {
        Ok(Expr::Drawn(literal_value(bounds[0])->0, literal_value(bounds[1])->0))
    } else {
        fail(ErrorKind::RandomBounds, s)
    }
}

/// Whether no rule before the operators matches `s`.
pub open spec fn no_atom(s: Seq<char>) -> bool {
    &&& s != seq!['t']
    &&& literal_value(s) is None
    &&& !wrapped(s)
    &&& !(s.len() > 0 && s[0] == '+')
}

/// Whether no rule before the prefixed forms matches `s`.
pub open spec fn no_operator(s: Seq<char>) -> bool {
    &&& no_atom(s)
    &&& !splits_at(s, '+')
    &&& !splits_at(s, '*')
    &&& !splits_at(s, '/')
}

/// The parse of `s` below the outermost level, against the shorthands `names`:
/// the first rule that matches decides.
pub open spec fn parse(s: Seq<char>, names: Seq<Seq<char>>) -> Result<Expr, Failure>
    decreases s.len(), 1int, 0int,
{
    if s == seq!['t'] {
        Ok(Expr::Variable)
    } else if literal_value(s) is Some {
        Ok(Expr::Constant(literal_value(s)->0))
    } else if wrapped(s) {
        parse(s.subrange(1, s.len() - 1), names)
    } else if s.len() > 0 && s[0] == '+' {
        parse(s.drop_first(), names)
    } else if splits_at(s, '+') || splits_at(s, '*') {
        let (op, kind) = if splits_at(s, '+') {
            ('+', SequenceOperations::Addition)
        } else {
            ('*', SequenceOperations::Multiplication)
        };
        match balanced_split(s, op, '(', ')') {
            Err(k) => fail(k, s),
            Ok(segs) => match parse_all(segs, names, s.len() as int) {
                Err(f) => Err(f),
                Ok(es) => Ok(Expr::Sequence(es, kind)),
            },
        }
    } else if splits_at(s, '/') {
        match balanced_split(s, '/', '(', ')') {
            Err(k) => fail(k, s),
            Ok(segs) => if segs.len() > 2 {
                fail(ErrorKind::AmbiguousDivision, s)
            } else {
                match parse_all(segs, names, s.len() as int) {
                    Err(f) => Err(f),
                    Ok(es) => Ok(Expr::Fraction(Box::new(es[0]), Box::new(es[1]))),
                }
            },
        }
    } else if s.len() > 0 && s[0] == '-' {
        match parse(s.drop_first(), names) {
            Err(f) => Err(f),
            Ok(e) => Ok(Expr::Scalar(Box::new(e), -1i64)),
        }
    } else if random_clause(s, 'd') {
        let bounds = clause_bounds(s);
        if bounds.len() != 2 {
            fail(ErrorKind::RandomSplit, s)
        } else {
            match parse_all(bounds, names, s.len() as int) {
                Err(f) => Err(f),
                Ok(es) => Ok(Expr::Random(Box::new(es[0]), Box::new(es[1]))),
            }
        }
    } else if s.len() > 0 && s.last() == ')' && first_call(s, names, 0) is Some {
        let k = first_call(s, names, 0)->0;
        if 0 <= k < names.len() && names[k].len() < s.len() {
            match parse(s.subrange(names[k].len() as int, s.len() - 1), names) {
                Err(f) => Err(f),
                Ok(e) => Ok(Expr::Function(Box::new(e), k)),
            }
        } else {
            fail(ErrorKind::Unresolved, s)
        }
    } else if random_clause(s, 'c') {
        computed_random(s)
    } else {
        fail(ErrorKind::Unresolved, s)
    }
}

/// The parses of `segs` in order, stopping at the first failure. Every segment
/// handed here is shorter than `bound`, the length of the text it was cut from.
pub open spec fn parse_all(segs: Seq<Seq<char>>, names: Seq<Seq<char>>, bound: int) -> Result<
    Seq<Expr>,
    Failure,
>
    decreases bound, 0int, segs.len(),
{
    if segs.len() == 0 {
        Ok(Seq::empty())
    } else {
        match parse_all(segs.drop_last(), names, bound) {
            Err(f) => Err(f),
            Ok(es) => {
                let seg = segs.last();
                if seg.len() < bound {
                    match parse(seg, names) {
                        Err(f) => Err(f),
                        Ok(e) => Ok(es.push(e)),
                    }
                } else {
                    fail(ErrorKind::Unresolved, seg)
                }
            },
        }
    }
}

/// The index of the first `c` in `s` from `i` on.
pub open spec fn find_from(s: Seq<char>, c: char, i: int) -> Option<int>
    decreases s.len() - i,
{
    if i < 0 || i >= s.len() {
        None
    } else if s[i] == c {
        Some(i)
    } else {
        find_from(s, c, i + 1)
    }
}

/// The parts of a piecewise body, each `term>threshold`, in order.
pub open spec fn parse_parts(parts: Seq<Seq<char>>, names: Seq<Seq<char>>) -> Result<
    Seq<(Expr, i64)>,
    Failure,
>
    decreases parts.len(),
{
    if parts.len() == 0 {
        Ok(Seq::empty())
    } else {
        match parse_parts(parts.drop_last(), names) {
            Err(f) => Err(f),
            Ok(ps) => {
                let part = parts.last();
                let pair = plain_split(part, '>');
                if pair.len() != 2 {
                    fail(ErrorKind::PiecewisePart, part)
                } else {
                    match parse(pair[0], names) {
                        Err(f) => Err(f),
                        Ok(e) => match literal_value(pair[1]) {
                            None => fail(ErrorKind::PiecewiseThreshold, part),
                            Some(a) => Ok(ps.push((e, a))),
                        },
                    }
                }
            },
        }
    }
}

/// A piecewise term from its body `|`-separated parts and its cycle.
pub open spec fn piecewise_body(body: Seq<char>, names: Seq<Seq<char>>, cycle: Option<i64>) -> Result<
    Expr,
    Failure,
> {
    match parse_parts(plain_split(body, '|'), names) {
        Err(f) => Err(f),
        Ok(ps) => Ok(Expr::Piecewise(ps, cycle)),
    }
}

/// The parse of a piecewise text `p[cycle]…` or `p…`.
pub open spec fn piecewise(s: Seq<char>, names: Seq<Seq<char>>) -> Result<Expr, Failure> {
    let rest = s.drop_first();
    if rest.len() > 0 && rest[0] == '[' {
        match find_from(rest, ']', 0) {
            None => fail(ErrorKind::PiecewiseLoop, s),
            Some(j) => match literal_value(rest.subrange(1, j)) {
                None => fail(ErrorKind::PiecewiseLoop, s),
                Some(c) => piecewise_body(rest.subrange(j + 1, rest.len() as int), names, Some(c)),
            },
        }
    } else {
        piecewise_body(rest, names, None)
    }
}

/// The parse of `s` at the outermost level: a text that starts with `p` and
/// with no shorthand is piecewise.
pub open spec fn quick(s: Seq<char>, names: Seq<Seq<char>>) -> Result<Expr, Failure> {
    if s.len() > 0 && s[0] == 'p' && !names_a_function(s, names) {
        piecewise(s, names)
    } else {
        parse(s, names)
    }
}

/// Whether `term` is what `e` describes: the same shape, with the value of a
/// computed random clause drawn from its range.
pub open spec fn refines(term: Term, e: Expr) -> bool
    decreases e, 1int,
{
    match e {
        Expr::Constant(c) => term matches Term::Constant(k) && k.c == c,
        Expr::Drawn(lo, hi) => term matches Term::Constant(k) && lo <= k.c < hi,
        Expr::Variable => term is Variable,
        Expr::Sequence(es, op) => term matches Term::Sequence(st) && st.operation == op
            && refines_all(st.terms@, es),
        Expr::Scalar(b, f) => term matches Term::Scalar(st) && st.scale == f && refines(
            *st.term,
            *b,
        ),
        Expr::Fraction(n, d) => term matches Term::Fraction(ft) && refines(*ft.numerator, *n)
            && refines(*ft.denominator, *d),
        Expr::Function(b, k) => term matches Term::Function(ft) && ft.index == k && refines(
            *ft.term,
            *b,
        ),
        Expr::Random(lo, hi) => term matches Term::Random(rt) && refines(*rt.min, *lo) && refines(
            *rt.max,
            *hi,
        ),
        Expr::Piecewise(ps, cycle) => term matches Term::Piecewise(pt) && pt.cycle == cycle
            && refines_parts(pt.parts@, ps),
    }
}

/// `refines` for each term of a list.
pub open spec fn refines_all(terms: Seq<Term>, es: Seq<Expr>) -> bool
    decreases es, 0int,
{
    if es.len() == 0 {
        terms.len() == 0
    } else {
        &&& terms.len() == es.len()
        &&& refines_all(terms.drop_last(), es.drop_last())
        &&& refines(terms.last(), es.last())
    }
}

/// `refines` for each part of a piecewise term, with equal thresholds.
pub open spec fn refines_parts(parts: Seq<PiecewisePair>, ps: Seq<(Expr, i64)>) -> bool
    decreases ps, 0int,
{
    if ps.len() == 0 {
        parts.len() == 0
    } else {
        &&& parts.len() == ps.len()
        &&& refines_parts(parts.drop_last(), ps.drop_last())
        &&& parts.last().after == ps.last().1
        &&& refines(parts.last().term, ps.last().0)
    }
}

/// Whether an executable parse result is the one that `p` describes.
pub open spec fn parsed_as(r: Result<Term, crate::ParametrizerError>, p: Result<Expr, Failure>) -> bool {
    match p {
        Ok(e) => r is Ok && refines(r->Ok_0, e),
        Err(f) => r is Err && r->Err_0.kind == f.kind && r->Err_0.param@ == f.text,
    }
}

} // verus!
