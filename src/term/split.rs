use vstd::prelude::*;
use vstd::string::*;
use crate::{ErrorKind, ParametrizerError};

verus! {

/// The views of a list of string slices.
pub open spec fn views(v: Seq<&str>) -> Seq<Seq<char>> {
    v.map_values(|x: &str| x@)
}

/// The state of a balanced split of `s` after its first `i` characters: the
/// nesting depth, where the current segment starts, and the segments so far.
pub open spec fn scan(s: Seq<char>, splitter: char, left: char, right: char, i: int) -> Result<
    (int, int, Seq<Seq<char>>),
    ErrorKind,
>
    decreases i,
{
    if i <= 0 || i > s.len() {
        Ok((0, 0, Seq::empty()))
    } else {
        match scan(s, splitter, left, right, i - 1) {
            Err(k) => Err(k),
            Ok((depth, last, segs)) => {
                let c = s[i - 1];
                if c == left {
                    Ok((depth + 1, last, segs))
                } else if c == right {
                    if depth == 0 {
                        Err(ErrorKind::RightExceedsLeft)
                    } else {
                        Ok((depth - 1, last, segs))
                    }
                } else if c == splitter && depth == 0 {
                    Ok((depth, i, segs.push(s.subrange(last, i - 1))))
                } else {
                    Ok((depth, last, segs))
                }
            },
        }
    }
}

/// `s` cut at each `splitter` that stands outside every `left`/`right` pair;
/// the last segment is kept even where empty.
pub open spec fn balanced_split(s: Seq<char>, splitter: char, left: char, right: char) -> Result<
    Seq<Seq<char>>,
    ErrorKind,
> {
    match scan(s, splitter, left, right, s.len() as int) {
        Err(k) => Err(k),
        Ok((depth, last, segs)) => if depth > 0 {
            Err(ErrorKind::LeftExceedsRight)
        } else {
            Ok(segs.push(s.subrange(last, s.len() as int)))
        },
    }
}

/// Bounds on the state of a scan: the depth is never negative, and each
/// segment so far fits before the current one.
pub proof fn lemma_scan_bounds(s: Seq<char>, splitter: char, left: char, right: char, i: int)
    requires
        0 <= i <= s.len(),
    ensures
        scan(s, splitter, left, right, i) matches Ok((depth, last, segs)) ==> {
            &&& 0 <= depth
            &&& segs.len() <= last <= i
            &&& forall|j: int| 0 <= j < segs.len() ==> #[trigger] segs[j].len() + segs.len() <= last
        },
    decreases i,
{
    if i > 0 {
        lemma_scan_bounds(s, splitter, left, right, i - 1);
    }
}

/// A failed scan stays failed, with the same failure, as it goes on.
pub proof fn lemma_scan_failure_persists(
    s: Seq<char>,
    splitter: char,
    left: char,
    right: char,
    i: int,
    j: int,
)
    requires
        0 < i <= j <= s.len(),
        scan(s, splitter, left, right, i) is Err,
    ensures
        scan(s, splitter, left, right, j) == scan(s, splitter, left, right, i),
    decreases j - i,
{
    if i < j {
        lemma_scan_failure_persists(s, splitter, left, right, i, j - 1);
    }
}

/// Each segment of a split into two or more is shorter than the text.
pub proof fn lemma_split_shorter(s: Seq<char>, splitter: char, left: char, right: char)
    requires
        balanced_split(s, splitter, left, right) is Ok,
        balanced_split(s, splitter, left, right)->Ok_0.len() > 1,
    ensures
        forall|j: int|
            0 <= j < balanced_split(s, splitter, left, right)->Ok_0.len() ==> #[trigger] balanced_split(
                s,
                splitter,
                left,
                right,
            )->Ok_0[j].len() < s.len(),
{
    lemma_scan_bounds(s, splitter, left, right, s.len() as int);
}

/// Splits `param` at each `splitter` outside every `left`/`right` pair. Fails
/// where a `right` comes before its `left`, or a `left` is never closed.
pub fn respectful_symbol_split<'a>(param: &'a str, splitter: char, left: char, right: char) -> (r:
    Result<Vec<&'a str>, ParametrizerError>)
    ensures
        match balanced_split(param@, splitter, left, right) {
            Ok(segs) => r is Ok && views(r->Ok_0@) == segs,
            Err(k) => r is Err && r->Err_0.kind == k && r->Err_0.param@ == param@,
        },
{
    let n = param.unicode_len();
    let mut balance: usize = 0;
    let mut last_split: usize = 0;
    let mut splits: Vec<&'a str> = Vec::new();
    let mut i: usize = 0;
    assert(views(splits@) =~= Seq::<Seq<char>>::empty());
    while i < n
        invariant
            n == param@.len(),
            0 <= i <= n,
            balance <= i,
            last_split <= i,
            scan(param@, splitter, left, right, i as int) == Ok::<
                (int, int, Seq<Seq<char>>),
                ErrorKind,
            >((balance as int, last_split as int, views(splits@))),
        decreases n - i,
    {
        let c = param.get_char(i);
        if c == left {
            balance = balance + 1;
        } else if c == right {
            if balance == 0 {
                proof {
                    lemma_scan_failure_persists(param@, splitter, left, right, i + 1, n as int);
                }
                return Err(ParametrizerError { param: param.to_owned(), kind: ErrorKind::RightExceedsLeft });
            }
            balance = balance - 1;
        } else if c == splitter && balance == 0 {
            let seg = param.substring_char(last_split, i);
            let ghost before = views(splits@);
            splits.push(seg);
            proof {
                assert(views(splits@) =~= before.push(seg@));
            }
            last_split = i + 1;
        }
        i = i + 1;
    }
    if balance > 0 {
        Err(ParametrizerError { param: param.to_owned(), kind: ErrorKind::LeftExceedsRight })
    } else {
        let seg = param.substring_char(last_split, n);
        let ghost before = views(splits@);
        splits.push(seg);
        proof {
            assert(views(splits@) =~= before.push(seg@));
        }
        Ok(splits)
    }
}

} // verus!

verus! {

/// Where the current piece of a plain split of `s` starts after its first `i`
/// characters, and the pieces so far.
pub open spec fn cuts(s: Seq<char>, sep: char, i: int) -> (int, Seq<Seq<char>>)
    decreases i,
{
    if i <= 0 || i > s.len() {
        (0, Seq::empty())
    } else {
        let (last, pieces) = cuts(s, sep, i - 1);
        if s[i - 1] == sep {
            (i, pieces.push(s.subrange(last, i - 1)))
        } else {
            (last, pieces)
        }
    }
}

/// `s` cut at every `sep`; the last piece is kept even where empty.
pub open spec fn plain_split(s: Seq<char>, sep: char) -> Seq<Seq<char>> {
    let (last, pieces) = cuts(s, sep, s.len() as int);
    pieces.push(s.subrange(last, s.len() as int))
}

proof fn lemma_cuts_bounds(s: Seq<char>, sep: char, i: int)
    requires
        0 <= i <= s.len(),
    ensures
        0 <= cuts(s, sep, i).0 <= i,
        forall|j: int|
            0 <= j < cuts(s, sep, i).1.len() ==> #[trigger] cuts(s, sep, i).1[j].len() <= i,
    decreases i,
{
    if i > 0 {
        lemma_cuts_bounds(s, sep, i - 1);
    }
}

/// No piece of a plain split is longer than the text.
pub proof fn lemma_pieces_bounded(s: Seq<char>, sep: char)
    ensures
        forall|j: int|
            0 <= j < plain_split(s, sep).len() ==> #[trigger] plain_split(s, sep)[j].len()
                <= s.len(),
{
    lemma_cuts_bounds(s, sep, s.len() as int);
}

/// Splits `param` at every `sep`.
pub fn split_on<'a>(param: &'a str, sep: char) -> (r: Vec<&'a str>)
    ensures
        views(r@) == plain_split(param@, sep),
{
    let n = param.unicode_len();
    let mut last: usize = 0;
    let mut pieces: Vec<&'a str> = Vec::new();
    let mut i: usize = 0;
    assert(views(pieces@) =~= Seq::<Seq<char>>::empty());
    while i < n
        invariant
            n == param@.len(),
            0 <= last <= i <= n,
            cuts(param@, sep, i as int) == (last as int, views(pieces@)),
        decreases n - i,
    {
        if param.get_char(i) == sep {
            let piece = param.substring_char(last, i);
            let ghost before = views(pieces@);
            pieces.push(piece);
            proof {
                assert(views(pieces@) =~= before.push(piece@));
            }
            last = i + 1;
        }
        i = i + 1;
    }
    let piece = param.substring_char(last, n);
    let ghost before = views(pieces@);
    pieces.push(piece);
    proof {
        assert(views(pieces@) =~= before.push(piece@));
    }
    pieces
}

} // verus!
