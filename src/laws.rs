//! Laws that relate parsing and evaluation.
use vstd::prelude::*;
use crate::term::{EvalError, FunctionTable, Term, outcomes, evaluates, folds, failed, select_from, reduce};
use crate::term::sequenceterm::SequenceOperations;
use crate::term::piecewiseterm::PiecewisePair;
use crate::term::fractionterm::FractionTerm;
use crate::term::randomterm::RandomTerm;
use crate::term::grammar::{
    refines_all,
    Expr,
    quick,
    parse,
    refines,
    wrapped,
    computed_random,
    no_operator,
    random_clause,
    first_call,
    names_a_function,
    starts_with,
    parse_all,
    no_atom,
    splits_at,
    clause_bounds,
};
use crate::term::split::{cuts, plain_split, scan, balanced_split, lemma_scan_bounds};
use crate::ErrorKind;
use crate::term::literal::{literal_value, unsigned_part, all_digits, is_digit, digits_value};
use crate::term::normalize::normalized;
use crate::trusted::{lowercase_fixed, white_space};
use crate::{Parametrizer, ParametrizerError, compiled_as};

verus! {

/// Whether `term` holds no dynamic random term, the one kind of term that may
/// give more than one result.
pub open spec fn deterministic(term: Term) -> bool
    decreases term, 1int,
{
    match term {
        Term::Constant(_) => true,
        Term::Variable(_) => true,
        Term::Sequence(s) => all_deterministic(s.terms@, s.terms@.len() as int),
        Term::Scalar(s) => deterministic(*s.term),
        Term::Fraction(f) => deterministic(*f.numerator) && deterministic(*f.denominator),
        Term::Function(f) => deterministic(*f.term),
        Term::Random(_) => false,
        Term::Piecewise(p) => parts_deterministic(p.parts@, p.parts@.len() as int),
    }
}

/// Whether the first `n` of `terms` are deterministic.
pub open spec fn all_deterministic(terms: Seq<Term>, n: int) -> bool
    decreases terms, n,
{
    if n <= 0 || n > terms.len() {
        true
    } else {
        all_deterministic(terms, n - 1) && deterministic(terms[n - 1])
    }
}

/// Whether the terms of the first `n` of `parts` are deterministic.
pub open spec fn parts_deterministic(parts: Seq<PiecewisePair>, n: int) -> bool
    decreases parts, n,
{
    if n <= 0 || n > parts.len() {
        true
    } else {
        parts_deterministic(parts, n - 1) && deterministic(parts[n - 1].term)
    }
}

proof fn lemma_parts_deterministic(parts: Seq<PiecewisePair>, n: int, k: int)
    requires
        0 <= k < n <= parts.len(),
        parts_deterministic(parts, n),
    ensures
        deterministic(parts[k].term),
    decreases n,
{
    if k < n - 1 {
        lemma_parts_deterministic(parts, n - 1, k);
    }
}

/// A deterministic term gives at most one result at each input.
pub proof fn lemma_deterministic<F: FunctionTable>(
    functions: &F,
    term: Term,
    t: i64,
    r1: Result<i64, EvalError>,
    r2: Result<i64, EvalError>,
)
    requires
        deterministic(term),
        evaluates(term, t, functions, r1),
        evaluates(term, t, functions, r2),
    ensures
        r1 == r2,
    decreases term, 1int,
{
    match term {
        Term::Sequence(s) => {
            lemma_fold_deterministic(functions, s.terms@, s.operation, t, s.terms@.len() as int, r1, r2);
        },
        Term::Scalar(s) => {
            let inner = outcomes(*s.term, t, functions);
            let v1 = choose|v: Result<i64, EvalError>| inner.contains(v) && r1 == match v {
                Ok(x) => crate::term::fit(s.scale * x),
                Err(e) => failed(e),
            };
            let v2 = choose|v: Result<i64, EvalError>| inner.contains(v) && r2 == match v {
                Ok(x) => crate::term::fit(s.scale * x),
                Err(e) => failed(e),
            };
            lemma_deterministic(functions, *s.term, t, v1, v2);
        },
        Term::Function(f) => {
            let inner = outcomes(*f.term, t, functions);
            let v1 = choose|v: Result<i64, EvalError>| #[trigger] inner.contains(v) && applied_step(functions, f.index, v, r1);
            let v2 = choose|v: Result<i64, EvalError>| #[trigger] inner.contains(v) && applied_step(functions, f.index, v, r2);
            lemma_deterministic(functions, *f.term, t, v1, v2);
        },
        Term::Fraction(f) => {
            let ds = outcomes(*f.denominator, t, functions);
            let ns = outcomes(*f.numerator, t, functions);
            let d1 = choose|d: Result<i64, EvalError>| #[trigger] ds.contains(d) && fraction_step(d, ns, r1);
            let d2 = choose|d: Result<i64, EvalError>| #[trigger] ds.contains(d) && fraction_step(d, ns, r2);
            lemma_deterministic(functions, *f.denominator, t, d1, d2);
            if d1 is Ok && d1->Ok_0 != 0 {
                let n1 = choose|n: Result<i64, EvalError>| #[trigger] ns.contains(n) && quotient_step(n, d1->Ok_0, r1);
                let n2 = choose|n: Result<i64, EvalError>| #[trigger] ns.contains(n) && quotient_step(n, d1->Ok_0, r2);
                lemma_deterministic(functions, *f.numerator, t, n1, n2);
            }
        },
        Term::Piecewise(p) => {
            if p.parts@.len() > 0 {
                if let Ok(u) = reduce(p.cycle, t) {
                    let k = select_from(p.afters(), u, 1, 0);
                    if 0 <= k < p.parts@.len() {
                        lemma_parts_deterministic(p.parts@, p.parts@.len() as int, k);
                        lemma_deterministic(functions, p.parts@[k].term, u, r1, r2);
                    }
                }
            }
        },
        _ => {},
    }
}

/// The last step of a function application, once its argument gave `v`.
pub open spec fn applied_step<F: FunctionTable>(
    functions: &F,
    index: usize,
    v: Result<i64, EvalError>,
    r: Result<i64, EvalError>,
) -> bool {
    r == match v {
        Ok(x) => match functions.applied(index, x) {
            Some(y) => Ok(y),
            None => failed(EvalError::Conversion),
        },
        Err(e) => failed(e),
    }
}

/// One step of a fraction's evaluation, once the denominator gave `d`.
pub open spec fn fraction_step(d: Result<i64, EvalError>, ns: Set<Result<i64, EvalError>>, r: Result<i64, EvalError>) -> bool {
    match d {
        Err(e) => r == failed(e),
        Ok(dv) => if dv == 0 {
            r == failed(EvalError::DivisionByZero)
        } else {
            exists|n: Result<i64, EvalError>| #![trigger ns.contains(n)] ns.contains(n) && quotient_step(n, dv, r)
        },
    }
}

/// The last step of a fraction's evaluation, once the numerator gave `n`.
pub open spec fn quotient_step(n: Result<i64, EvalError>, dv: i64, r: Result<i64, EvalError>) -> bool {
    r == match n {
        Err(e) => failed(e),
        Ok(nv) => match nv.checked_div(dv) {
            Some(q) => Ok(q),
            None => failed(EvalError::Overflow),
        },
    }
}

proof fn lemma_fold_deterministic<F: FunctionTable>(
    functions: &F,
    terms: Seq<Term>,
    op: SequenceOperations,
    t: i64,
    n: int,
    r1: Result<i64, EvalError>,
    r2: Result<i64, EvalError>,
)
    requires
        0 <= n <= terms.len(),
        all_deterministic(terms, n),
        folds(terms, op, t, functions, n).contains(r1),
        folds(terms, op, t, functions, n).contains(r2),
    ensures
        r1 == r2,
    decreases terms, n,
{
    if n > 0 {
        let before = folds(terms, op, t, functions, n - 1);
        let last = outcomes(terms[n - 1], t, functions);
        let p1 = choose|p: Result<i64, EvalError>| #[trigger] before.contains(p) && fold_step(p, last, op, r1);
        let p2 = choose|p: Result<i64, EvalError>| #[trigger] before.contains(p) && fold_step(p, last, op, r2);
        lemma_fold_deterministic(functions, terms, op, t, n - 1, p1, p2);
        if p1 is Ok {
            let acc = p1->Ok_0;
            let v1 = choose|v: Result<i64, EvalError>| #[trigger] last.contains(v) && r1 == match v {
                Err(e) => failed(e),
                Ok(x) => crate::term::combine(op, acc, x),
            };
            let v2 = choose|v: Result<i64, EvalError>| #[trigger] last.contains(v) && r2 == match v {
                Err(e) => failed(e),
                Ok(x) => crate::term::combine(op, acc, x),
            };
            lemma_deterministic(functions, terms[n - 1], t, v1, v2);
        }
    }
}

/// One step of a fold, once the prefix gave `p`.
pub open spec fn fold_step(
    p: Result<i64, EvalError>,
    last: Set<Result<i64, EvalError>>,
    op: SequenceOperations,
    r: Result<i64, EvalError>,
) -> bool {
    match p {
        Err(e) => r == failed(e),
        Ok(acc) => exists|v: Result<i64, EvalError>|
            #![trigger last.contains(v)]
            last.contains(v) && r == match v {
                Err(e) => failed(e),
                Ok(x) => crate::term::combine(op, acc, x),
            },
    }
}

/// A fraction whose denominator gives zero at `t` fails there with a division
/// by zero, and gives no value.
pub proof fn law_zero_denominator<F: FunctionTable>(
    functions: &F,
    f: FractionTerm,
    t: i64,
    r: Result<i64, EvalError>,
)
    requires
        deterministic(*f.denominator),
        evaluates(*f.denominator, t, functions, Ok(0)),
        evaluates(Term::Fraction(f), t, functions, r),
    ensures
        r == Err::<i64, EvalError>(EvalError::DivisionByZero),
{
    let ds = outcomes(*f.denominator, t, functions);
    let ns = outcomes(*f.numerator, t, functions);
    let d = choose|d: Result<i64, EvalError>| #[trigger] ds.contains(d) && fraction_step(d, ns, r);
    lemma_deterministic(functions, *f.denominator, t, d, Ok(0));
}

/// A dynamic random term whose bounds give `a` and `b` at `t` gives a value in
/// `[a, b)` there, or fails where `a` is not below `b`.
pub proof fn law_random_within_bounds<F: FunctionTable>(
    functions: &F,
    rt: RandomTerm,
    t: i64,
    a: i64,
    b: i64,
    r: Result<i64, EvalError>,
)
    requires
        deterministic(*rt.min),
        deterministic(*rt.max),
        evaluates(*rt.min, t, functions, Ok(a)),
        evaluates(*rt.max, t, functions, Ok(b)),
        evaluates(Term::Random(rt), t, functions, r),
    ensures
        a < b ==> r is Ok && a <= r->Ok_0 < b,
        a >= b ==> r == Err::<i64, EvalError>(EvalError::InvalidRandomBounds),
{
    let los = outcomes(*rt.min, t, functions);
    let his = outcomes(*rt.max, t, functions);
    let lo = choose|lo: Result<i64, EvalError>|
        #[trigger] los.contains(lo) && match lo {
            Err(e) => r == failed(e),
            Ok(a) => exists|hi: Result<i64, EvalError>|
                #![trigger his.contains(hi)]
                his.contains(hi) && match hi {
                    Err(e) => r == failed(e),
                    Ok(b) => if a < b {
                        r is Ok && a <= r->Ok_0 < b
                    } else {
                        r == failed(EvalError::InvalidRandomBounds)
                    },
                },
        };
    lemma_deterministic(functions, *rt.min, t, lo, Ok(a));
    let hi = choose|hi: Result<i64, EvalError>|
        #[trigger] his.contains(hi) && match hi {
            Err(e) => r == failed(e),
            Ok(b) => if a < b {
                r is Ok && a <= r->Ok_0 < b
            } else {
                r == failed(EvalError::InvalidRandomBounds)
            },
        };
    lemma_deterministic(functions, *rt.max, t, hi, Ok(b));
}

/// A term that a computed random clause became gives the same value at every
/// input, and that value lies in the clause's range.
pub proof fn law_drawn_is_stable<F: FunctionTable>(
    functions: &F,
    term: Term,
    lo: i64,
    hi: i64,
    x1: i64,
    x2: i64,
    r1: Result<i64, EvalError>,
    r2: Result<i64, EvalError>,
)
    requires
        refines(term, Expr::Drawn(lo, hi)),
        evaluates(term, x1, functions, r1),
        evaluates(term, x2, functions, r2),
    ensures
        r1 == r2,
        r1 is Ok && lo <= r1->Ok_0 < hi,
{
}

proof fn lemma_normalized_concat(p: Seq<char>, q: Seq<char>)
    ensures
        normalized(p + q) == normalized(p) + normalized(q),
    decreases q.len(),
{
    if q.len() == 0 {
        assert(p + q =~= p);
        assert(normalized(p) + normalized(q) =~= normalized(p));
    } else {
        lemma_normalized_concat(p, q.drop_last());
        assert((p + q).drop_last() =~= p + q.drop_last());
        let c = q.last();
        if white_space(c) {
        } else if c == '\\' {
            assert(normalized(p + q) =~= normalized(p) + normalized(q));
        } else if c == '-' {
            assert(normalized(p + q) =~= normalized(p) + normalized(q));
        } else {
            assert(normalized(p + q) =~= normalized(p) + normalized(q));
        }
    }
}

/// Whether `s` holds none of the characters that normalising changes.
pub open spec fn untouched(s: Seq<char>) -> bool {
    forall|k: int| 0 <= k < s.len() ==> !white_space(#[trigger] s[k]) && s[k] != '\\' && s[k] != '-'
}

proof fn lemma_normalized_untouched(s: Seq<char>)
    requires
        untouched(s),
    ensures
        normalized(s) == s,
    decreases s.len(),
{
    if s.len() > 0 {
        lemma_normalized_untouched(s.drop_last());
        assert(s.drop_last().push(s.last()) =~= s);
    }
}

proof fn lemma_normalized_digits(s: Seq<char>)
    requires
        all_digits(s),
    ensures
        normalized(s) == s,
{
    assert forall|k: int| 0 <= k < s.len() implies !white_space(#[trigger] s[k]) && s[k] != '\\'
        && s[k] != '-' by {
        assert(is_digit(s[k]));
    }
    lemma_normalized_untouched(s);
}

proof fn lemma_parse_number(s: Seq<char>, names: Seq<Seq<char>>)
    requires
        literal_value(s) is Some,
        s != seq!['t'],
    ensures
        parse(s, names) == Ok::<Expr, crate::term::grammar::Failure>(
            Expr::Constant(literal_value(s)->0),
        ),
{
}

proof fn lemma_parse_leading_plus(u: Seq<char>, names: Seq<Seq<char>>)
    requires
        u.len() > 0,
        u[0] == '+',
        literal_value(u) is None,
        u != seq!['t'],
    ensures
        parse(u, names) == parse(u.drop_first(), names),
{
    assert(!wrapped(u));
}

/// A number, normalised and parsed at the outermost level, is a constant: every
/// term it yields gives that number at every input.
#[verifier::rlimit(40)]
pub proof fn law_literal_is_constant<F: FunctionTable>(
    functions: &F,
    s: Seq<char>,
    names: Seq<Seq<char>>,
    term: Term,
    x: i64,
    r: Result<i64, EvalError>,
)
    requires
        literal_value(s) is Some,
    ensures
        quick(normalized(s), names) == Ok::<Expr, crate::term::grammar::Failure>(
            Expr::Constant(literal_value(s)->0),
        ),
        refines(term, Expr::Constant(literal_value(s)->0)) && evaluates(term, x, functions, r) ==> r == Ok::<
            i64,
            EvalError,
        >(literal_value(s)->0),
{
    let ds = unsigned_part(s);
    lemma_normalized_digits(ds);
    assert(is_digit(ds[0]));
    if s[0] == '-' {
        assert(s =~= seq!['-'] + ds);
        lemma_normalized_concat(seq!['-'], ds);
        assert(normalized(seq!['-']) =~= seq!['+', '-']) by {
            assert(seq!['-'].drop_last() =~= Seq::<char>::empty());
            assert(normalized(Seq::<char>::empty()) =~= Seq::<char>::empty());
        }
        let u = normalized(s);
        assert(u =~= seq!['+', '-'] + ds);
        assert(u.drop_first() =~= s);
        assert(!is_digit(unsigned_part(u)[0]));
        assert(literal_value(u) is None);
        assert(u != seq!['t']);
        assert(s != seq!['t']);
        lemma_parse_leading_plus(u, names);
        lemma_parse_number(s, names);
    } else if s[0] == '+' {
        assert(s =~= seq!['+'] + ds);
        lemma_normalized_concat(seq!['+'], ds);
        assert(normalized(seq!['+']) =~= seq!['+']) by {
            assert(seq!['+'].drop_last() =~= Seq::<char>::empty());
            assert(normalized(Seq::<char>::empty()) =~= Seq::<char>::empty());
        }
        assert(normalized(s) =~= s);
        assert(s != seq!['t']);
        lemma_parse_number(s, names);
    } else {
        assert(ds == s);
        assert(s != seq!['t']);
        lemma_parse_number(s, names);
    }
}

/// The text `t`, parsed at the outermost level, is the variable: every term it
/// yields gives its input back.
pub proof fn law_variable_is_identity<F: FunctionTable>(
    functions: &F,
    names: Seq<Seq<char>>,
    term: Term,
    x: i64,
    r: Result<i64, EvalError>,
)
    ensures
        quick(normalized(seq!['t']), names) == Ok::<Expr, crate::term::grammar::Failure>(
            Expr::Variable,
        ),
        refines(term, Expr::Variable) && evaluates(term, x, functions, r) ==> r == Ok::<i64, EvalError>(x),
{
    assert(normalized(seq!['t']) =~= seq!['t']) by {
        assert(seq!['t'].drop_last() =~= Seq::<char>::empty());
        assert(normalized(Seq::<char>::empty()) =~= Seq::<char>::empty());
    }
}

proof fn lemma_cuts_before(x: Seq<char>, sep: char, i: int)
    requires
        0 <= i <= x.len(),
        forall|k: int| 0 <= k < i ==> x[k] != sep,
    ensures
        cuts(x, sep, i) == (0int, Seq::<Seq<char>>::empty()),
    decreases i,
{
    if i > 0 {
        lemma_cuts_before(x, sep, i - 1);
    }
}

proof fn lemma_cuts_after(x: Seq<char>, sep: char, m: int, i: int)
    requires
        0 <= m < i <= x.len(),
        forall|k: int| 0 <= k < m ==> x[k] != sep,
        x[m] == sep,
        forall|k: int| m < k < x.len() ==> x[k] != sep,
    ensures
        cuts(x, sep, i) == (m + 1, seq![x.subrange(0, m)]),
    decreases i,
{
    if i == m + 1 {
        lemma_cuts_before(x, sep, m);
        assert(Seq::<Seq<char>>::empty().push(x.subrange(0, m)) =~= seq![x.subrange(0, m)]);
    } else {
        lemma_cuts_after(x, sep, m, i - 1);
    }
}

proof fn lemma_split_once(a: Seq<char>, b: Seq<char>, sep: char)
    requires
        forall|k: int| 0 <= k < a.len() ==> a[k] != sep,
        forall|k: int| 0 <= k < b.len() ==> b[k] != sep,
    ensures
        plain_split(a + seq![sep] + b, sep) == seq![a, b],
{
    let x = a + seq![sep] + b;
    let m = a.len() as int;
    assert forall|k: int| m < k < x.len() implies x[k] != sep by {
        assert(x[k] == b[k - m - 1]);
    }
    lemma_cuts_after(x, sep, m, x.len() as int);
    assert(x.subrange(0, m) =~= a);
    assert(x.subrange(m + 1, x.len() as int) =~= b);
    assert(plain_split(x, sep) =~= seq![a, b]);
}

proof fn lemma_no_call(s: Seq<char>, names: Seq<Seq<char>>, k: int)
    requires
        0 <= k,
        !names_a_function(s, names),
    ensures
        first_call(s, names, k) is None,
    decreases names.len() - k,
{
    if k < names.len() {
        assert(!starts_with(s, names[k]));
        lemma_no_call(s, names, k + 1);
    }
}

proof fn lemma_parse_computed(s: Seq<char>, names: Seq<Seq<char>>)
    requires
        no_operator(s),
        s[0] != '-',
        !random_clause(s, 'd'),
        first_call(s, names, 0) is None,
        random_clause(s, 'c'),
    ensures
        parse(s, names) == computed_random(s),
{
}

/// A computed random clause `rc(a<b)` of two unsigned numbers with `a` below
/// `b`, in a text that applies no registered shorthand, parses to one value
/// drawn from `[a, b)`; every term it yields gives that same value at every
/// input (`law_drawn_is_stable`).
pub proof fn law_computed_random_clause(a: Seq<char>, b: Seq<char>, names: Seq<Seq<char>>)
    requires
        all_digits(a),
        all_digits(b),
        literal_value(a) is Some,
        literal_value(b) is Some,
        literal_value(a)->0 < literal_value(b)->0,
        !names_a_function(seq!['r', 'c', '('] + a + seq!['<'] + b + seq![')'], names),
    ensures
        quick(normalized(seq!['r', 'c', '('] + a + seq!['<'] + b + seq![')']), names) == Ok::<
            Expr,
            crate::term::grammar::Failure,
        >(Expr::Drawn(literal_value(a)->0, literal_value(b)->0)),
{
    let s = seq!['r', 'c', '('] + a + seq!['<'] + b + seq![')'];
    let n = s.len();
    let la = a.len() as int;
    assert(n == la + b.len() + 5);
    assert forall|k: int| 0 <= k < n implies {
        &&& #[trigger] s[k] != '+'
        &&& s[k] != '*'
        &&& s[k] != '/'
        &&& s[k] != '-'
        &&& s[k] != '\\'
        &&& !white_space(s[k])
    } by {
        if 3 <= k < 3 + la {
            assert(s[k] == a[k - 3]);
            assert(is_digit(a[k - 3]));
        } else if 3 + la + 1 <= k < n - 1 {
            assert(s[k] == b[k - 4 - la]);
            assert(is_digit(b[k - 4 - la]));
        }
    }
    lemma_normalized_untouched(s);
    assert(!s.contains('+'));
    assert(!s.contains('*'));
    assert(!s.contains('/'));
    assert(s != seq!['t']);
    assert(!all_digits(s));
    assert(unsigned_part(s) == s);
    lemma_no_call(s, names, 0);
    assert(s.subrange(3, n - 1) =~= a + seq!['<'] + b);
    assert forall|k: int| 0 <= k < a.len() implies a[k] != '<' by {
        assert(is_digit(a[k]));
    }
    assert forall|k: int| 0 <= k < b.len() implies b[k] != '<' by {
        assert(is_digit(b[k]));
    }
    lemma_split_once(a, b, '<');
    lemma_parse_computed(s, names);
}

} // verus!

verus! {

/// The segments written one after the other, each followed by `c`.
pub open spec fn terminated(segs: Seq<Seq<char>>, c: char) -> Seq<char>
    decreases segs.len(),
{
    if segs.len() == 0 {
        Seq::empty()
    } else {
        terminated(segs.drop_last(), c) + segs.last() + seq![c]
    }
}

/// The segments written one after the other, with `c` between each two.
pub open spec fn joined(segs: Seq<Seq<char>>, c: char) -> Seq<char> {
    if segs.len() == 0 {
        Seq::empty()
    } else {
        terminated(segs.drop_last(), c) + segs.last()
    }
}

proof fn lemma_scan_prefixes(s: Seq<char>, splitter: char, left: char, right: char, i: int)
    requires
        0 <= i <= s.len(),
    ensures
        scan(s, splitter, left, right, i) matches Ok((depth, last, segs)) ==> {
            &&& 0 <= last <= i
            &&& s.take(last) == terminated(segs, splitter)
            &&& scan(s.subrange(last, i), splitter, left, right, i - last) == Ok::<
                (int, int, Seq<Seq<char>>),
                ErrorKind,
            >((depth, 0, Seq::empty()))
            &&& forall|k: int|
                0 <= k < segs.len() ==> #[trigger] balanced_split(segs[k], splitter, left, right)
                    == Ok::<Seq<Seq<char>>, ErrorKind>(seq![segs[k]])
        },
    decreases i,
{
    if i > 0 {
        lemma_scan_prefixes(s, splitter, left, right, i - 1);
        if let Ok((depth, last, segs)) = scan(s, splitter, left, right, i - 1) {
            let open = s.subrange(last, i);
            let c = s[i - 1];
            assert(open.take(i - 1 - last) =~= s.subrange(last, i - 1).take(i - 1 - last));
            lemma_scan_same_prefix(open, s.subrange(last, i - 1), splitter, left, right, i - 1 - last);
            if c == splitter && depth == 0 && c != left && c != right {
                let seg = s.subrange(last, i - 1);
                assert(seg.subrange(0, seg.len() as int) =~= seg);
                assert(Seq::<Seq<char>>::empty().push(seg) =~= seq![seg]);
                assert(s.take(i) =~= s.take(last) + seg + seq![splitter]);
                assert(s.subrange(i, i) =~= Seq::<char>::empty());
                let segs2 = segs.push(seg);
                assert(segs2.drop_last() =~= segs);
                assert forall|k: int| 0 <= k < segs2.len() implies #[trigger] balanced_split(
                    segs2[k],
                    splitter,
                    left,
                    right,
                ) == Ok::<Seq<Seq<char>>, ErrorKind>(seq![segs2[k]]) by {
                    if k < segs.len() {
                        assert(segs2[k] == segs[k]);
                    }
                }
            }
        }
    }
}

proof fn lemma_scan_same_prefix(
    x: Seq<char>,
    y: Seq<char>,
    splitter: char,
    left: char,
    right: char,
    j: int,
)
    requires
        0 <= j <= y.len(),
        j <= x.len(),
        x.take(j) == y.take(j),
    ensures
        scan(x, splitter, left, right, j) == scan(y, splitter, left, right, j),
    decreases j,
{
    if j > 0 {
        assert(x.take(j - 1) =~= x.take(j).take(j - 1));
        assert(y.take(j - 1) =~= y.take(j).take(j - 1));
        assert(x[j - 1] == x.take(j)[j - 1]);
        assert(y[j - 1] == y.take(j)[j - 1]);
        lemma_scan_same_prefix(x, y, splitter, left, right, j - 1);
        lemma_scan_bounds(x, splitter, left, right, j - 1);
        if let Ok((depth, last, segs)) = scan(x, splitter, left, right, j - 1) {
            assert(x.subrange(last, j - 1) =~= y.subrange(last, j - 1)) by {
                assert forall|k: int| last <= k < j - 1 implies x[k] == y[k] by {
                    assert(x[k] == x.take(j)[k]);
                    assert(y[k] == y.take(j)[k]);
                }
            }
        }
    }
}

/// A balanced split loses nothing: its segments, with the splitter between each
/// two, give the text back.
pub proof fn law_split_rejoins(s: Seq<char>, splitter: char, left: char, right: char)
    requires
        balanced_split(s, splitter, left, right) is Ok,
    ensures
        joined(balanced_split(s, splitter, left, right)->Ok_0, splitter) == s,
{
    lemma_scan_prefixes(s, splitter, left, right, s.len() as int);
    let (depth, last, segs) = scan(s, splitter, left, right, s.len() as int)->Ok_0;
    let all = segs.push(s.subrange(last, s.len() as int));
    assert(all.drop_last() =~= segs);
    assert(s =~= s.take(last) + s.subrange(last, s.len() as int));
}

/// A balanced split is idempotent: each of its segments splits into itself
/// alone.
pub proof fn law_split_idempotent(
    s: Seq<char>,
    splitter: char,
    left: char,
    right: char,
    k: int,
)
    requires
        balanced_split(s, splitter, left, right) is Ok,
        0 <= k < balanced_split(s, splitter, left, right)->Ok_0.len(),
    ensures
        balanced_split(balanced_split(s, splitter, left, right)->Ok_0[k], splitter, left, right)
            == Ok::<Seq<Seq<char>>, ErrorKind>(
            seq![balanced_split(s, splitter, left, right)->Ok_0[k]],
        ),
{
    lemma_scan_prefixes(s, splitter, left, right, s.len() as int);
    let (depth, last, segs) = scan(s, splitter, left, right, s.len() as int)->Ok_0;
    let seg = s.subrange(last, s.len() as int);
    if k == segs.len() {
        assert(seg.subrange(0, seg.len() as int) =~= seg);
        assert(Seq::<Seq<char>>::empty().push(seg) =~= seq![seg]);
    }
}

/// A number needs no lower-casing, and a parametrizer built from it gives that
/// number at every input.
pub proof fn law_compiled_literal<F: FunctionTable>(
    functions: &F,
    s: Seq<char>,
    names: Seq<Seq<char>>,
    r: Result<Parametrizer, ParametrizerError>,
    x: i64,
    v: Result<i64, EvalError>,
)
    requires
        literal_value(s) is Some,
        compiled_as(r, quick(normalized(s), names)),
    ensures
        lowercase_fixed(s),
        r is Ok,
        evaluates(r->Ok_0.term, x, functions, v) ==> v == Ok::<i64, EvalError>(
            literal_value(s)->0,
        ),
{
    law_literal_is_constant(functions, s, names, r->Ok_0.term, x, v);
    let ds = unsigned_part(s);
    assert forall|k: int| 0 <= k < s.len() implies #[trigger] s[k] <= '\u{7f}' && !('A' <= s[k]
        <= 'Z') by {
        if s[0] == '-' || s[0] == '+' {
            if k > 0 {
                assert(s[k] == ds[k - 1]);
                assert(is_digit(ds[k - 1]));
            }
        } else {
            assert(is_digit(ds[k]));
        }
    }
}

/// The text `t` needs no lower-casing, and a parametrizer built from it gives
/// its input back.
pub proof fn law_compiled_variable<F: FunctionTable>(
    functions: &F,
    names: Seq<Seq<char>>,
    r: Result<Parametrizer, ParametrizerError>,
    x: i64,
    v: Result<i64, EvalError>,
)
    requires
        compiled_as(r, quick(normalized(seq!['t']), names)),
    ensures
        lowercase_fixed(seq!['t']),
        r is Ok,
        evaluates(r->Ok_0.term, x, functions, v) ==> v == Ok::<i64, EvalError>(x),
{
    law_variable_is_identity(functions, names, r->Ok_0.term, x, v);
}

/// A computed random clause `rc(a<b)` of two unsigned numbers, `a` below `b`,
/// that applies no registered shorthand needs no lower-casing, and a
/// parametrizer built from it gives one value in `[a, b)` at every input.
pub proof fn law_compiled_computed_random<F: FunctionTable>(
    functions: &F,
    a: Seq<char>,
    b: Seq<char>,
    names: Seq<Seq<char>>,
    r: Result<Parametrizer, ParametrizerError>,
    x1: i64,
    x2: i64,
    v1: Result<i64, EvalError>,
    v2: Result<i64, EvalError>,
)
    requires
        all_digits(a),
        all_digits(b),
        literal_value(a) is Some,
        literal_value(b) is Some,
        literal_value(a)->0 < literal_value(b)->0,
        !names_a_function(seq!['r', 'c', '('] + a + seq!['<'] + b + seq![')'], names),
        compiled_as(r, quick(normalized(seq!['r', 'c', '('] + a + seq!['<'] + b + seq![')']), names)),
    ensures
        lowercase_fixed(seq!['r', 'c', '('] + a + seq!['<'] + b + seq![')']),
        r is Ok,
        evaluates(r->Ok_0.term, x1, functions, v1) && evaluates(r->Ok_0.term, x2, functions, v2)
            ==> v1 == v2 && v1 is Ok && literal_value(a)->0 <= v1->Ok_0 < literal_value(b)->0,
{
    let s = seq!['r', 'c', '('] + a + seq!['<'] + b + seq![')'];
    let la = a.len() as int;
    law_computed_random_clause(a, b, names);
    if evaluates(r->Ok_0.term, x1, functions, v1) && evaluates(r->Ok_0.term, x2, functions, v2) {
        law_drawn_is_stable(
            functions,
            r->Ok_0.term,
            literal_value(a)->0,
            literal_value(b)->0,
            x1,
            x2,
            v1,
            v2,
        );
    }
    assert forall|k: int| 0 <= k < s.len() implies #[trigger] s[k] <= '\u{7f}' && !('A' <= s[k]
        <= 'Z') by {
        if 3 <= k < 3 + la {
            assert(s[k] == a[k - 3]);
            assert(is_digit(a[k - 3]));
        } else if 3 + la + 1 <= k < s.len() - 1 {
            assert(s[k] == b[k - 4 - la]);
            assert(is_digit(b[k - 4 - la]));
        }
    }
}

proof fn lemma_split_plain_sum()
    ensures
        balanced_split(seq!['2', '+', 't'], '+', '(', ')') == Ok::<Seq<Seq<char>>, ErrorKind>(
            seq![seq!['2'], seq!['t']],
        ),
{
    let x = seq!['2', '+', 't'];
    reveal_with_fuel(scan, 4);
    assert(x.subrange(0, 1) =~= seq!['2']);
    assert(x.subrange(2, 3) =~= seq!['t']);
    assert(Seq::<Seq<char>>::empty().push(seq!['2']).push(seq!['t']) =~= seq![seq!['2'], seq!['t']]);
}

proof fn lemma_clause_unsplit()
    ensures
        balanced_split(seq!['r', 'd', '(', '2', '+', 't', '<', '4', '*', 't', ')'], '+', '(', ')')
            == Ok::<Seq<Seq<char>>, ErrorKind>(
            seq![seq!['r', 'd', '(', '2', '+', 't', '<', '4', '*', 't', ')']],
        ),
{
    let x = seq!['r', 'd', '(', '2', '+', 't', '<', '4', '*', 't', ')'];
    reveal_with_fuel(scan, 12);
    assert(x.subrange(0, 11) =~= x);
    assert(Seq::<Seq<char>>::empty().push(x) =~= seq![x]);
}

proof fn lemma_clause_unsplit_product()
    ensures
        balanced_split(seq!['r', 'd', '(', '2', '+', 't', '<', '4', '*', 't', ')'], '*', '(', ')')
            == Ok::<Seq<Seq<char>>, ErrorKind>(
            seq![seq!['r', 'd', '(', '2', '+', 't', '<', '4', '*', 't', ')']],
        ),
{
    let x = seq!['r', 'd', '(', '2', '+', 't', '<', '4', '*', 't', ')'];
    reveal_with_fuel(scan, 12);
    assert(x.subrange(0, 11) =~= x);
    assert(Seq::<Seq<char>>::empty().push(x) =~= seq![x]);
}

proof fn lemma_split_plain_product()
    ensures
        balanced_split(seq!['4', '*', 't'], '*', '(', ')') == Ok::<Seq<Seq<char>>, ErrorKind>(
            seq![seq!['4'], seq!['t']],
        ),
{
    let x = seq!['4', '*', 't'];
    reveal_with_fuel(scan, 4);
    assert(x.subrange(0, 1) =~= seq!['4']);
    assert(x.subrange(2, 3) =~= seq!['t']);
    assert(Seq::<Seq<char>>::empty().push(seq!['4']).push(seq!['t']) =~= seq![seq!['4'], seq!['t']]);
}

proof fn lemma_parse_digit(c: char, names: Seq<Seq<char>>)
    requires
        is_digit(c),
    ensures
        parse(seq![c], names) == Ok::<Expr, crate::term::grammar::Failure>(
            Expr::Constant((c as u32 - '0' as u32) as i64),
        ),
{
    let s = seq![c];
    assert(unsigned_part(s) == s);
    assert(s.drop_last() =~= Seq::<char>::empty());
    assert(digits_value(Seq::<char>::empty()) == 0);
    assert(digits_value(s) == c as u32 - '0' as u32);
    assert(all_digits(s));
}

proof fn lemma_parse_variable(names: Seq<Seq<char>>)
    ensures
        parse(seq!['t'], names) == Ok::<Expr, crate::term::grammar::Failure>(Expr::Variable),
{
}

proof fn lemma_parse_pair(x: Seq<char>, y: Seq<char>, names: Seq<Seq<char>>, bound: int)
    requires
        x.len() < bound,
        y.len() < bound,
        parse(x, names) is Ok,
        parse(y, names) is Ok,
    ensures
        parse_all(seq![x, y], names, bound) == Ok::<Seq<Expr>, crate::term::grammar::Failure>(
            seq![parse(x, names)->Ok_0, parse(y, names)->Ok_0],
        ),
{
    let ex = parse(x, names)->Ok_0;
    assert(seq![x, y].drop_last() =~= seq![x]);
    assert(seq![x].drop_last() =~= Seq::<Seq<char>>::empty());
    assert(parse_all(Seq::<Seq<char>>::empty(), names, bound) == Ok::<
        Seq<Expr>,
        crate::term::grammar::Failure,
    >(Seq::empty()));
    assert(Seq::<Expr>::empty().push(ex) =~= seq![ex]);
    assert(parse_all(seq![x], names, bound) == Ok::<Seq<Expr>, crate::term::grammar::Failure>(
        seq![ex],
    ));
    assert(seq![ex].push(parse(y, names)->Ok_0) =~= seq![ex, parse(y, names)->Ok_0]);
    assert(Seq::<Expr>::empty().push(parse(x, names)->Ok_0).push(parse(y, names)->Ok_0)
        =~= seq![parse(x, names)->Ok_0, parse(y, names)->Ok_0]);
}

proof fn lemma_parse_operation(s: Seq<char>, op: char, names: Seq<Seq<char>>)
    requires
        no_atom(s),
        op == '+' || op == '*',
        op == '*' ==> !splits_at(s, '+'),
        splits_at(s, op),
    ensures
        parse(s, names) == match balanced_split(s, op, '(', ')') {
            Err(k) => crate::term::grammar::fail(k, s),
            Ok(segs) => match parse_all(segs, names, s.len() as int) {
                Err(f) => Err(f),
                Ok(es) => Ok(
                    Expr::Sequence(
                        es,
                        if op == '+' {
                            SequenceOperations::Addition
                        } else {
                            SequenceOperations::Multiplication
                        },
                    ),
                ),
            },
        },
{
}

proof fn lemma_parse_dynamic(s: Seq<char>, names: Seq<Seq<char>>)
    requires
        no_operator(s),
        s[0] != '-',
        random_clause(s, 'd'),
        clause_bounds(s).len() == 2,
    ensures
        parse(s, names) == match parse_all(clause_bounds(s), names, s.len() as int) {
            Err(f) => Err(f),
            Ok(es) => Ok(Expr::Random(Box::new(es[0]), Box::new(es[1]))),
        },
{
}

proof fn lemma_parse_sum(names: Seq<Seq<char>>)
    ensures
        parse(seq!['2', '+', 't'], names) == Ok::<Expr, crate::term::grammar::Failure>(
            Expr::Sequence(
                seq![Expr::Constant(2), Expr::Variable],
                SequenceOperations::Addition,
            ),
        ),
{
    let a = seq!['2', '+', 't'];
    assert(unsigned_part(a) == a);
    assert(!is_digit(a[1]));
    assert(a.contains('+')) by {
        assert(a[1] == '+');
    }
    lemma_split_plain_sum();
    lemma_parse_digit('2', names);
    lemma_parse_variable(names);
    lemma_parse_pair(seq!['2'], seq!['t'], names, 3);
    lemma_parse_operation(a, '+', names);
}

proof fn lemma_parse_product(names: Seq<Seq<char>>)
    ensures
        parse(seq!['4', '*', 't'], names) == Ok::<Expr, crate::term::grammar::Failure>(
            Expr::Sequence(
                seq![Expr::Constant(4), Expr::Variable],
                SequenceOperations::Multiplication,
            ),
        ),
{
    let b = seq!['4', '*', 't'];
    assert(unsigned_part(b) == b);
    assert(!is_digit(b[1]));
    assert(!b.contains('+'));
    assert(b.contains('*')) by {
        assert(b[1] == '*');
    }
    lemma_split_plain_product();
    lemma_parse_digit('4', names);
    lemma_parse_variable(names);
    lemma_parse_pair(seq!['4'], seq!['t'], names, 3);
    lemma_parse_operation(b, '*', names);
}

proof fn lemma_parse_bounded_clause(names: Seq<Seq<char>>)
    ensures
        quick(normalized(seq!['r', 'd', '(', '2', '+', 't', '<', '4', '*', 't', ')']), names)
            == Ok::<Expr, crate::term::grammar::Failure>(
            Expr::Random(
                Box::new(
                    Expr::Sequence(
                        seq![Expr::Constant(2), Expr::Variable],
                        SequenceOperations::Addition,
                    ),
                ),
                Box::new(
                    Expr::Sequence(
                        seq![Expr::Constant(4), Expr::Variable],
                        SequenceOperations::Multiplication,
                    ),
                ),
            ),
        ),
{
    let s = seq!['r', 'd', '(', '2', '+', 't', '<', '4', '*', 't', ')'];
    let a = seq!['2', '+', 't'];
    let b = seq!['4', '*', 't'];
    assert forall|k: int| 0 <= k < s.len() implies !white_space(#[trigger] s[k]) && s[k] != '\\'
        && s[k] != '-' by {}
    lemma_normalized_untouched(s);
    assert(unsigned_part(s) == s);
    assert(!is_digit(s[0]));
    assert(!s.contains('/'));
    lemma_clause_unsplit();
    lemma_clause_unsplit_product();
    assert(s.subrange(3, 10) =~= a + seq!['<'] + b);
    lemma_split_once(a, b, '<');
    lemma_parse_sum(names);
    lemma_parse_product(names);
    lemma_parse_pair(a, b, names, 11);
    lemma_parse_dynamic(s, names);
}

proof fn lemma_pair_value<F: FunctionTable>(
    functions: &F,
    term: Term,
    c: i64,
    op: SequenceOperations,
    t: i64,
)
    requires
        refines(term, Expr::Sequence(seq![Expr::Constant(c), Expr::Variable], op)),
        crate::term::combine(op, crate::term::unit_of(op), c) is Ok,
        crate::term::combine(op, crate::term::combine(op, crate::term::unit_of(op), c)->Ok_0, t) is Ok,
    ensures
        deterministic(term),
        evaluates(
            term,
            t,
            functions,
            crate::term::combine(op, crate::term::combine(op, crate::term::unit_of(op), c)->Ok_0, t),
        ),
{
    let es = seq![Expr::Constant(c), Expr::Variable];
    let st = term->Sequence_0;
    let terms = st.terms@;
    assert(es.drop_last() =~= seq![Expr::Constant(c)]);
    assert(seq![Expr::Constant(c)].drop_last() =~= Seq::<Expr>::empty());
    assert(st.operation == op && refines_all(terms, es));
    assert(terms.len() == 2);
    assert(es.last() == Expr::Variable);
    assert(refines(terms.last(), es.last()));
    assert(refines(terms[1], Expr::Variable));
    assert(refines_all(terms.drop_last(), es.drop_last()));
    assert(refines(terms.drop_last().last(), Expr::Constant(c)));
    assert(terms.drop_last().last() == terms[0]);
    let a = crate::term::combine(op, crate::term::unit_of(op), c)->Ok_0;
    assert(folds(terms, op, t, functions, 0).contains(Ok(crate::term::unit_of(op))));
    assert(outcomes(terms[0], t, functions).contains(Ok(c)));
    assert(folds(terms, op, t, functions, 1).contains(Ok(a)));
    assert(outcomes(terms[1], t, functions).contains(Ok(t)));
    assert(folds(terms, op, t, functions, 2).contains(crate::term::combine(op, a, t)));
    assert(terms[0] is Constant && terms[1] is Variable);
    assert(deterministic(terms[0]) && deterministic(terms[1]));
    assert(all_deterministic(terms, 0));
    assert(all_deterministic(terms, 1));
    assert(all_deterministic(terms, 2));
}

/// The clause `rd(2+t<4*t)` needs no lower-casing, and a parametrizer built
/// from it gives at 4 a value in `[6, 16)` each time it is evaluated.
pub proof fn law_compiled_dynamic_random_example<F: FunctionTable>(
    functions: &F,
    names: Seq<Seq<char>>,
    r: Result<Parametrizer, ParametrizerError>,
    v: Result<i64, EvalError>,
)
    requires
        compiled_as(
            r,
            quick(normalized(seq!['r', 'd', '(', '2', '+', 't', '<', '4', '*', 't', ')']), names),
        ),
    ensures
        lowercase_fixed(seq!['r', 'd', '(', '2', '+', 't', '<', '4', '*', 't', ')']),
        r is Ok,
        evaluates(r->Ok_0.term, 4, functions, v) ==> v is Ok && 6 <= v->Ok_0 < 16,
{
    let s = seq!['r', 'd', '(', '2', '+', 't', '<', '4', '*', 't', ')'];
    assert forall|k: int| 0 <= k < s.len() implies #[trigger] s[k] <= '\u{7f}' && !('A' <= s[k]
        <= 'Z') by {}
    lemma_parse_bounded_clause(names);
    let rt = r->Ok_0.term->Random_0;
    lemma_pair_value(functions, *rt.min, 2, SequenceOperations::Addition, 4);
    lemma_pair_value(functions, *rt.max, 4, SequenceOperations::Multiplication, 4);
    if evaluates(r->Ok_0.term, 4, functions, v) {
        law_random_within_bounds(functions, rt, 4, 6, 16, v);
    }
}

} // verus!
