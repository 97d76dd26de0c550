use vstd::prelude::*;

verus! {

/// Relies on rand's `Rng::gen_range` over `rand::thread_rng()`: for a half-open
/// integer range `lo..hi` it returns a value in that range; it panics on an empty
/// range, which `requires` leaves out.
#[verifier::external_body]
pub(crate) fn random_in(lo: i64, hi: i64) -> (r: i64)
    requires
        lo < hi,
    ensures
        lo <= r < hi,
{
    rand::Rng::gen_range(&mut rand::thread_rng(), lo..hi)
}

} // verus!

verus! {

/// What `str::to_lowercase` makes of a text.
pub uninterp spec fn lower_of(s: Seq<char>) -> Seq<char>;

/// Whether every character of `s` is ASCII and not an upper-case letter: the
/// characters that have no lower-case mapping of their own.
pub open spec fn lowercase_fixed(s: Seq<char>) -> bool {
    forall|k: int| 0 <= k < s.len() ==> #[trigger] s[k] <= '\u{7f}' && !('A' <= s[k] <= 'Z')
}

/// Relies on `str::to_lowercase`: its result depends on the characters alone,
/// and a character without a lower-case mapping (as `char::to_lowercase`
/// documents, it then yields the same character), which every ASCII character
/// but `A` to `Z` is, stays as it is.
#[verifier::external_body]
pub(crate) fn lowercase(s: &str) -> (r: String)
    ensures
        r@ == lower_of(s@),
        lowercase_fixed(s@) ==> r@ == s@,
{
    s.to_lowercase()
}

/// The characters with Unicode's `White_Space` property.
pub open spec fn white_space(c: char) -> bool {
    ||| '\u{9}' <= c <= '\u{d}'
    ||| c == ' '
    ||| c == '\u{85}'
    ||| c == '\u{a0}'
    ||| c == '\u{1680}'
    ||| '\u{2000}' <= c <= '\u{200a}'
    ||| c == '\u{2028}'
    ||| c == '\u{2029}'
    ||| c == '\u{202f}'
    ||| c == '\u{205f}'
    ||| c == '\u{3000}'
}

/// Relies on `char::is_whitespace`: true exactly of the characters with the
/// `White_Space` property.
#[verifier::external_body]
pub(crate) fn is_whitespace(c: char) -> (r: bool)
    ensures
        r == white_space(c),
{
    c.is_whitespace()
}

} // verus!
