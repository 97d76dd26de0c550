use vstd::prelude::*;
use vstd::string::*;
use crate::{ErrorKind, ParametrizerError};
use super::Term;
use super::constantterm::ConstantTerm;
use super::variableterm::VariableTerm;
use super::sequenceterm::{SequenceOperations, SequenceTerm};
use super::scalarterm::ScalarTerm;
use super::fractionterm::FractionTerm;
use super::functionterm::FunctionTerm;
use super::randomterm::RandomTerm;
use super::split::{
    respectful_symbol_split,
    split_on,
    views,
    balanced_split,
    plain_split,
    lemma_split_shorter,
    lemma_pieces_bounded,
};
use super::literal::parse_literal;
use super::piecewiseterm::PiecewiseTerm;
use super::grammar::{
    find_from,
    names_a_function,
    parse_parts,
    piecewise,
    piecewise_body,
    quick,
    refines_parts,
    Expr,
    computed_random,
    lemma_first_call,
    lemma_parse_all_len,
    no_atom,
    no_operator,
    refines,
    first_call,
    parse,
    parse_all,
    parsed_as,
    random_clause,
    refines_all,
    shorthands,
    splits_at,
    starts_with,
};

verus! {

/// Whether `param` holds `c`.
pub fn has_char(param: &str, c: char) -> (r: bool)
    ensures
        r == param@.contains(c),
{
    let n = param.unicode_len();
    let mut i: usize = 0;
    while i < n
        invariant
            n == param@.len(),
            0 <= i <= n,
            forall|j: int| 0 <= j < i ==> param@[j] != c,
        decreases n - i,
    {
        if param.get_char(i) == c {
            return true;
        }
        i = i + 1;
    }
    false
}

/// Whether `param` starts with `prefix`.
pub fn has_prefix(param: &str, prefix: &str) -> (r: bool)
    ensures
        r == starts_with(param@, prefix@),
{
    let n = param.unicode_len();
    let m = prefix.unicode_len();
    if m > n {
        return false;
    }
    let mut i: usize = 0;
    while i < m
        invariant
            n == param@.len(),
            m == prefix@.len(),
            m <= n,
            0 <= i <= m,
            forall|j: int| 0 <= j < i ==> param@[j] == prefix@[j],
        decreases m - i,
    {
        if param.get_char(i) != prefix.get_char(i) {
            assert(param@.subrange(0, m as int)[i as int] != prefix@[i as int]);
            return false;
        }
        i = i + 1;
    }
    assert(param@.subrange(0, m as int) =~= prefix@);
    true
}

/// The index of the first shorthand that `param` applies.
pub fn find_call(param: &str, functions: &Vec<String>) -> (r: Option<usize>)
    ensures
        r is Some <==> first_call(param@, shorthands(functions@), 0) is Some,
        r is Some ==> first_call(param@, shorthands(functions@), 0) == Some(r->0 as int)
            && r->0 < functions@.len(),
{
    let ghost names = shorthands(functions@);
    let n = param.unicode_len();
    let mut k: usize = 0;
    while k < functions.len()
        invariant
            n == param@.len(),
            names == shorthands(functions@),
            0 <= k <= functions@.len(),
            first_call(param@, names, k as int) == first_call(param@, names, 0),
        decreases functions@.len() - k,
    {
        let name = functions[k].as_str();
        if has_prefix(param, name) && name.unicode_len() < n {
            return Some(k);
        }
        k = k + 1;
    }
    None
}

proof fn lemma_parse_all_failure_persists(
    segs: Seq<Seq<char>>,
    names: Seq<Seq<char>>,
    bound: int,
    i: int,
    n: int,
)
    requires
        0 <= i <= n <= segs.len(),
        parse_all(segs.take(i), names, bound) is Err,
    ensures
        parse_all(segs.take(n), names, bound) == parse_all(segs.take(i), names, bound),
    decreases n - i,
{
    if i < n {
        lemma_parse_all_failure_persists(segs, names, bound, i, n - 1);
        assert(segs.take(n).drop_last() =~= segs.take(n - 1));
    }
}

/// Parses each of `segs` in order, stopping at the first failure.
fn parse_segments(segs: &Vec<&str>, functions: &Vec<String>, bound: usize) -> (r: Result<
    Vec<Term>,
    ParametrizerError,
>)
    requires
        forall|k: int| 0 <= k < segs@.len() ==> #[trigger] segs@[k]@.len() < bound,
    ensures
        match parse_all(views(segs@), shorthands(functions@), bound as int) {
            Ok(es) => r is Ok && refines_all(r->Ok_0@, es),
            Err(f) => r is Err && r->Err_0.kind == f.kind && r->Err_0.param@ == f.text,
        },
    decreases bound, 0int,
{
    let ghost names = shorthands(functions@);
    let ghost all = views(segs@);
    let mut terms: Vec<Term> = Vec::new();
    let mut i: usize = 0;
    assert(all.take(0) =~= Seq::<Seq<char>>::empty());
    while i < segs.len()
        invariant
            names == shorthands(functions@),
            all == views(segs@),
            forall|k: int| 0 <= k < segs@.len() ==> #[trigger] segs@[k]@.len() < bound,
            0 <= i <= segs@.len(),
            parse_all(all.take(i as int), names, bound as int) is Ok,
            refines_all(terms@, parse_all(all.take(i as int), names, bound as int)->Ok_0),
        decreases segs@.len() - i,
    {
        let seg = segs[i];
        assert(all.take(i + 1).drop_last() =~= all.take(i as int));
        assert(all.take(i + 1).last() == seg@);
        let parsed = parametrize_string(seg, functions);
        match parsed {
            Err(e) => {
                proof {
                    lemma_parse_all_failure_persists(all, names, bound as int, i + 1, all.len() as int);
                    assert(all.take(all.len() as int) =~= all);
                }
                return Err(e);
            },
            Ok(t) => {
                let ghost before = terms@;
                let ghost es = parse_all(all.take(i as int), names, bound as int)->Ok_0;
                assert(parse_all(all.take(i + 1), names, bound as int) == Ok::<Seq<Expr>, super::grammar::Failure>(es.push(parse(seg@, names)->Ok_0)));
                terms.push(t);
                proof {
                    assert(terms@.drop_last() =~= before);
                    assert(es.push(parse(seg@, names)->Ok_0).drop_last() =~= es);
                }
            },
        }
        i = i + 1;
    }
    assert(all.take(all.len() as int) =~= all);
    Ok(terms)
}

/// The error for `param` failing for `kind`.
fn failure(param: &str, kind: ErrorKind) -> (r: ParametrizerError)
    ensures
        r.kind == kind,
        r.param@ == param@,
{
    ParametrizerError { param: param.to_owned(), kind }
}

/// Parses `param` (already normalised) into a term below the outermost level,
/// against the shorthands `functions`: the variable `t`, a number, `(…)`, a
/// leading `+`, sums, products, a single division, a leading `-`, `rd(a<b)`, a
/// registered function, `rc(a<b)`, in that order.
pub fn parametrize_string(param: &str, functions: &Vec<String>) -> (r: Result<
    Term,
    ParametrizerError,
>)
    ensures
        parsed_as(r, parse(param@, shorthands(functions@))),
    decreases param@.len(), 4int,
{
    let ghost s = param@;
    let n = param.unicode_len();
    if n == 1 && param.get_char(0) == 't' {
        assert(s =~= seq!['t']);
        return Ok(Term::Variable(VariableTerm::new()));
    }
    assert(s != seq!['t']);
    match parse_literal(param) {
        Some(c) => {
            return Ok(Term::Constant(ConstantTerm::new(c)));
        },
        None => {},
    }
    if n >= 2 && param.get_char(0) == '(' && param.get_char(n - 1) == ')' {
        let inner = param.substring_char(1, n - 1);
        return parametrize_string(inner, functions);
    }
    if n >= 1 && param.get_char(0) == '+' {
        let inner = param.substring_char(1, n);
        assert(inner@ =~= s.drop_first());
        return parametrize_string(inner, functions);
    }
    parse_operators(param, functions)
}

/// The split of `param` at `op` where it cuts, as a sequence of `kind`.
fn parse_sequence(
    param: &str,
    functions: &Vec<String>,
    segs: Vec<&str>,
    op: char,
    kind: SequenceOperations,
) -> (r: Result<Term, ParametrizerError>)
    requires
        balanced_split(param@, op, '(', ')') == Ok::<Seq<Seq<char>>, ErrorKind>(views(segs@)),
        segs@.len() > 1,
    ensures
        match parse_all(views(segs@), shorthands(functions@), param@.len() as int) {
            Err(f) => r is Err && r->Err_0.kind == f.kind && r->Err_0.param@ == f.text,
            Ok(es) => r is Ok && refines(r->Ok_0, Expr::Sequence(es, kind)),
        },
    decreases param@.len(), 1int,
{
    let n = param.unicode_len();
    proof {
        lemma_split_shorter(param@, op, '(', ')');
        assert forall|k: int| 0 <= k < segs@.len() implies #[trigger] segs@[k]@.len() < n by {
            assert(views(segs@)[k] == segs@[k]@);
            assert(balanced_split(param@, op, '(', ')')->Ok_0[k] == segs@[k]@);
        }
    }
    match parse_segments(&segs, functions, n) {
        Err(e) => Err(e),
        Ok(terms) => Ok(Term::Sequence(SequenceTerm::new(terms, kind))),
    }
}

/// Two parses of `segs`, which must be two.
fn parse_pair(segs: &Vec<&str>, functions: &Vec<String>, bound: usize) -> (r: Result<
    (Term, Term),
    ParametrizerError,
>)
    requires
        segs@.len() == 2,
        forall|k: int| 0 <= k < segs@.len() ==> #[trigger] segs@[k]@.len() < bound,
    ensures
        match parse_all(views(segs@), shorthands(functions@), bound as int) {
            Err(f) => r is Err && r->Err_0.kind == f.kind && r->Err_0.param@ == f.text,
            Ok(es) => r is Ok && es.len() == 2 && refines(r->Ok_0.0, es[0]) && refines(
                r->Ok_0.1,
                es[1],
            ),
        },
    decreases bound, 1int,
{
    match parse_segments(segs, functions, bound) {
        Err(e) => Err(e),
        Ok(terms) => {
            let mut terms = terms;
            let ghost es = parse_all(views(segs@), shorthands(functions@), bound as int)->Ok_0;
            proof {
                lemma_parse_all_len(views(segs@), shorthands(functions@), bound as int);
                assert(refines_all(terms@.drop_last(), es.drop_last()));
                assert(refines(terms@[1], es[1]));
                assert(refines(terms@[0], es[0]));
            }
            let second = terms.pop().unwrap();
            let first = terms.pop().unwrap();
            Ok((first, second))
        },
    }
}

/// Sums, products and a single division, or else the prefixed forms.
fn parse_operators(param: &str, functions: &Vec<String>) -> (r: Result<Term, ParametrizerError>)
    requires
        no_atom(param@),
    ensures
        parsed_as(r, parse(param@, shorthands(functions@))),
    decreases param@.len(), 3int,
{
    let ghost s = param@;
    let n = param.unicode_len();
    if has_char(param, '+') {
        match respectful_symbol_split(param, '+', '(', ')') {
            Err(e) => {
                return Err(e);
            },
            Ok(segs) => {
                if segs.len() > 1 {
                    return parse_sequence(param, functions, segs, '+', SequenceOperations::Addition);
                }
            },
        }
    }
    assert(!splits_at(s, '+'));
    if has_char(param, '*') {
        match respectful_symbol_split(param, '*', '(', ')') {
            Err(e) => {
                return Err(e);
            },
            Ok(segs) => {
                if segs.len() > 1 {
                    return parse_sequence(
                        param,
                        functions,
                        segs,
                        '*',
                        SequenceOperations::Multiplication,
                    );
                }
            },
        }
    }
    assert(!splits_at(s, '*'));
    if has_char(param, '/') {
        match respectful_symbol_split(param, '/', '(', ')') {
            Err(e) => {
                return Err(e);
            },
            Ok(segs) => {
                if segs.len() > 1 {
                    if segs.len() > 2 {
                        return Err(failure(param, ErrorKind::AmbiguousDivision));
                    }
                    proof {
                        lemma_split_shorter(s, '/', '(', ')');
                        assert forall|k: int| 0 <= k < segs@.len() implies #[trigger] segs@[k]@.len() < n by {
                            assert(views(segs@)[k] == segs@[k]@);
                        }
                    }
                    match parse_pair(&segs, functions, n) {
                        Err(e) => {
                            return Err(e);
                        },
                        Ok((numerator, denominator)) => {
                            return Ok(Term::Fraction(FractionTerm::new(Box::new(numerator), Box::new(denominator))));
                        },
                    }
                }
            },
        }
    }
    assert(!splits_at(s, '/'));
    parse_prefixed(param, functions)
}

/// A computed random clause `rc(a<b)`: one value drawn now from `[a, b)`.
fn parse_computed_random(param: &str) -> (r: Result<Term, ParametrizerError>)
    requires
        random_clause(param@, 'c'),
    ensures
        parsed_as(r, computed_random(param@)),
{
    let n = param.unicode_len();
    let inner = param.substring_char(3, n - 1);
    let bounds = split_on(inner, '<');
    if bounds.len() != 2 {
        return Err(failure(param, ErrorKind::RandomSplit));
    }
    assert(views(bounds@)[0] == bounds@[0]@ && views(bounds@)[1] == bounds@[1]@);
    let lo = match parse_literal(bounds[0]) {
        Some(v) => v,
        None => {
            return Err(failure(param, ErrorKind::RandomMinimum));
        },
    };
    let hi = match parse_literal(bounds[1]) {
        Some(v) => v,
        None => {
            return Err(failure(param, ErrorKind::RandomMaximum));
        },
    };
    if lo < hi {
        let drawn = crate::trusted::random_in(lo, hi);
        Ok(Term::Constant(ConstantTerm::new(drawn)))
    } else {
        Err(failure(param, ErrorKind::RandomBounds))
    }
}

/// A leading `-`, `rd(a<b)`, a registered function, `rc(a<b)`, or no rule.
fn parse_prefixed(param: &str, functions: &Vec<String>) -> (r: Result<Term, ParametrizerError>)
    requires
        no_operator(param@),
    ensures
        parsed_as(r, parse(param@, shorthands(functions@))),
    decreases param@.len(), 2int,
{
    let ghost s = param@;
    let ghost names = shorthands(functions@);
    let n = param.unicode_len();
    if n >= 1 && param.get_char(0) == '-' {
        let inner = param.substring_char(1, n);
        assert(inner@ =~= s.drop_first());
        match parametrize_string(inner, functions) {
            Err(e) => {
                return Err(e);
            },
            Ok(t) => {
                return Ok(Term::Scalar(ScalarTerm::new(Box::new(t), -1)));
            },
        }
    }
    let last_closes = n >= 1 && param.get_char(n - 1) == ')';
    let clause = n >= 4 && param.get_char(0) == 'r' && param.get_char(2) == '(' && last_closes;
    if clause && param.get_char(1) == 'd' {
        let inner = param.substring_char(3, n - 1);
        let bounds = split_on(inner, '<');
        if bounds.len() != 2 {
            return Err(failure(param, ErrorKind::RandomSplit));
        }
        proof {
            lemma_pieces_bounded(inner@, '<');
            assert forall|k: int| 0 <= k < bounds@.len() implies #[trigger] bounds@[k]@.len() < n by {
                assert(views(bounds@)[k] == bounds@[k]@);
            }
        }
        match parse_pair(&bounds, functions, n) {
            Err(e) => {
                return Err(e);
            },
            Ok((min, max)) => {
                return Ok(Term::Random(RandomTerm::new(Box::new(min), Box::new(max))));
            },
        }
    }
    assert(!random_clause(s, 'd'));
    if last_closes {
        match find_call(param, functions) {
            Some(k) => {
                proof {
                    lemma_first_call(s, names, 0);
                }
                let m = functions[k].as_str().unicode_len();
                assert(m == names[k as int].len());
                let inner = param.substring_char(m, n - 1);
                match parametrize_string(inner, functions) {
                    Err(e) => {
                        return Err(e);
                    },
                    Ok(t) => {
                        return Ok(Term::Function(FunctionTerm::new(Box::new(t), k)));
                    },
                }
            },
            None => {},
        }
    }
    if clause && param.get_char(1) == 'c' {
        return parse_computed_random(param);
    }
    Err(failure(param, ErrorKind::Unresolved))
}

} // verus!

verus! {

/// Whether `param` starts with one of the shorthands.
pub fn names_function(param: &str, functions: &Vec<String>) -> (r: bool)
    ensures
        r == names_a_function(param@, shorthands(functions@)),
{
    let ghost names = shorthands(functions@);
    let mut k: usize = 0;
    while k < functions.len()
        invariant
            names == shorthands(functions@),
            0 <= k <= functions@.len(),
            forall|j: int| 0 <= j < k ==> !starts_with(param@, #[trigger] names[j]),
        decreases functions@.len() - k,
    {
        if has_prefix(param, functions[k].as_str()) {
            assert(starts_with(param@, names[k as int]));
            return true;
        }
        k = k + 1;
    }
    false
}

/// The index of the first `c` in `param`.
fn find_char(param: &str, c: char) -> (r: Option<usize>)
    ensures
        r is Some <==> find_from(param@, c, 0) is Some,
        r is Some ==> find_from(param@, c, 0) == Some(r->0 as int) && r->0 < param@.len()
            && param@[r->0 as int] == c,
{
    let n = param.unicode_len();
    let mut i: usize = 0;
    while i < n
        invariant
            n == param@.len(),
            0 <= i <= n,
            find_from(param@, c, i as int) == find_from(param@, c, 0),
        decreases n - i,
    {
        if param.get_char(i) == c {
            return Some(i);
        }
        i = i + 1;
    }
    None
}

proof fn lemma_parse_parts_failure_persists(
    parts: Seq<Seq<char>>,
    names: Seq<Seq<char>>,
    i: int,
    n: int,
)
    requires
        0 <= i <= n <= parts.len(),
        parse_parts(parts.take(i), names) is Err,
    ensures
        parse_parts(parts.take(n), names) == parse_parts(parts.take(i), names),
    decreases n - i,
{
    if i < n {
        lemma_parse_parts_failure_persists(parts, names, i, n - 1);
        assert(parts.take(n).drop_last() =~= parts.take(n - 1));
    }
}

/// The parts of a piecewise body, added in order to `piecewise`.
fn parse_piecewise_body(body: &str, functions: &Vec<String>, piecewise: PiecewiseTerm) -> (r:
    Result<Term, ParametrizerError>)
    requires
        piecewise.parts@.len() == 0,
    ensures
        parsed_as(r, piecewise_body(body@, shorthands(functions@), piecewise.cycle)),
{
    let ghost names = shorthands(functions@);
    let parts = split_on(body, '|');
    let ghost all = views(parts@);
    let mut piecewise = piecewise;
    let ghost cycle = piecewise.cycle;
    let mut i: usize = 0;
    assert(all.take(0) =~= Seq::<Seq<char>>::empty());
    while i < parts.len()
        invariant
            names == shorthands(functions@),
            all == views(parts@),
            all == plain_split(body@, '|'),
            0 <= i <= parts@.len(),
            piecewise.cycle == cycle,
            parse_parts(all.take(i as int), names) is Ok,
            refines_parts(piecewise.parts@, parse_parts(all.take(i as int), names)->Ok_0),
        decreases parts@.len() - i,
    {
        let part = parts[i];
        assert(all.take(i + 1).drop_last() =~= all.take(i as int));
        assert(all.take(i + 1).last() == part@);
        let pair = split_on(part, '>');
        if pair.len() != 2 {
            proof {
                lemma_parse_parts_failure_persists(all, names, i + 1, all.len() as int);
                assert(all.take(all.len() as int) =~= all);
            }
            return Err(failure(part, ErrorKind::PiecewisePart));
        }
        assert(views(pair@)[0] == pair@[0]@ && views(pair@)[1] == pair@[1]@);
        let term = match parametrize_string(pair[0], functions) {
            Err(e) => {
                proof {
                    lemma_parse_parts_failure_persists(all, names, i + 1, all.len() as int);
                    assert(all.take(all.len() as int) =~= all);
                }
                return Err(e);
            },
            Ok(t) => t,
        };
        let after = match parse_literal(pair[1]) {
            None => {
                proof {
                    lemma_parse_parts_failure_persists(all, names, i + 1, all.len() as int);
                    assert(all.take(all.len() as int) =~= all);
                }
                return Err(failure(part, ErrorKind::PiecewiseThreshold));
            },
            Some(a) => a,
        };
        let ghost ps = parse_parts(all.take(i as int), names)->Ok_0;
        let ghost e = parse(pair@[0]@, names)->Ok_0;
        let ghost before = piecewise.parts@;
        assert(parse_parts(all.take(i + 1), names) == Ok::<Seq<(Expr, i64)>, super::grammar::Failure>(ps.push((e, after))));
        piecewise.add_part(term, after);
        proof {
            assert(piecewise.parts@.drop_last() =~= before);
            assert(ps.push((e, after)).drop_last() =~= ps);
        }
        i = i + 1;
    }
    assert(all.take(all.len() as int) =~= all);
    Ok(Term::Piecewise(piecewise))
}

/// A piecewise text `p[cycle]…` or `p…`.
fn parse_piecewise(param: &str, functions: &Vec<String>) -> (r: Result<Term, ParametrizerError>)
    requires
        param@.len() > 0,
    ensures
        parsed_as(r, piecewise(param@, shorthands(functions@))),
{
    let n = param.unicode_len();
    let rest = param.substring_char(1, n);
    assert(rest@ =~= param@.drop_first());
    let m = n - 1;
    if m > 0 && rest.get_char(0) == '[' {
        match find_char(rest, ']') {
            None => Err(failure(param, ErrorKind::PiecewiseLoop)),
            Some(j) => {
                let cycle = rest.substring_char(1, j);
                match parse_literal(cycle) {
                    None => Err(failure(param, ErrorKind::PiecewiseLoop)),
                    Some(c) => {
                        let body = rest.substring_char(j + 1, m);
                        parse_piecewise_body(body, functions, PiecewiseTerm::looping(c))
                    },
                }
            },
        }
    } else {
        parse_piecewise_body(rest, functions, PiecewiseTerm::new())
    }
}

/// Parses `param` (already normalised) into a term at the outermost level: a
/// text that starts with `p` and with no registered shorthand is piecewise,
/// anything else goes to `parametrize_string`.
pub fn quick_parametrization(param: &str, functions: &Vec<String>) -> (r: Result<
    Term,
    ParametrizerError,
>)
    ensures
        parsed_as(r, quick(param@, shorthands(functions@))),
{
    let n = param.unicode_len();
    if n > 0 && param.get_char(0) == 'p' && !names_function(param, functions) {
        return parse_piecewise(param, functions);
    }
    parametrize_string(param, functions)
}

} // verus!
