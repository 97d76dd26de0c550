use vstd::prelude::*;
use vstd::string::*;
use crate::trusted::{is_whitespace, white_space};

verus! {

/// `s` as the parser reads it: without white space, with `\` written `/`, and
/// with every `-` written `+-`, so that a subtraction is the sum of a negation.
pub open spec fn normalized(s: Seq<char>) -> Seq<char>
    decreases s.len(),
{
    if s.len() == 0 {
        Seq::empty()
    } else {
        let before = normalized(s.drop_last());
        let c = s.last();
        if white_space(c) {
            before
        } else if c == '\\' {
            before.push('/')
        } else if c == '-' {
            before + seq!['+', '-']
        } else {
            before.push(c)
        }
    }
}

/// `text` with white space dropped, `\` written `/`, and `-` written `+-`.
pub fn normalize(text: &str) -> (r: String)
    ensures
        r@ == normalized(text@),
{
    let n = text.unicode_len();
    let mut out = String::new();
    let mut i: usize = 0;
    while i < n
        invariant
            n == text@.len(),
            0 <= i <= n,
            out@ == normalized(text@.take(i as int)),
        decreases n - i,
    {
        let c = text.get_char(i);
        assert(text@.take(i + 1).drop_last() =~= text@.take(i as int));
        if is_whitespace(c) {
        } else if c == '\\' {
            out.append("/");
            proof {
                reveal_strlit("/");
            }
            assert(out@ =~= normalized(text@.take(i + 1)));
        } else if c == '-' {
            out.append("+-");
            proof {
                reveal_strlit("+-");
            }
            assert(out@ =~= normalized(text@.take(i + 1)));
        } else {
            out.append(text.substring_char(i, i + 1));
            assert(out@ =~= normalized(text@.take(i + 1)));
        }
        i = i + 1;
    }
    assert(text@.take(n as int) =~= text@);
    out
}

} // verus!

verus! {

/// Parses `text`, already in lower case, at the outermost level after
/// normalising it.
pub fn parametrize_lowercase(text: &str, functions: &Vec<String>) -> (r: Result<
    super::Term,
    crate::ParametrizerError,
>)
    ensures
        super::grammar::parsed_as(
            r,
            super::grammar::quick(normalized(text@), super::grammar::shorthands(functions@)),
        ),
{
    let normal = normalize(text);
    super::parser::quick_parametrization(normal.as_str(), functions)
}

/// Parses `text` at the outermost level after lower-casing and normalising it.
pub fn create_parametrization(text: &str, functions: &Vec<String>) -> (r: Result<
    super::Term,
    crate::ParametrizerError,
>)
    ensures
        super::grammar::parsed_as(
            r,
            super::grammar::quick(
                normalized(crate::trusted::lower_of(text@)),
                super::grammar::shorthands(functions@),
            ),
        ),
        crate::trusted::lowercase_fixed(text@) ==> super::grammar::parsed_as(
            r,
            super::grammar::quick(normalized(text@), super::grammar::shorthands(functions@)),
        ),
{
    let lowered = crate::trusted::lowercase(text);
    parametrize_lowercase(lowered.as_str(), functions)
}

} // verus!
