//! Searching bytes with the `memchr` crate.

use vstd::prelude::*;

verus! {

/// `i` is the first index of `hay` at which one of the three bytes stands;
/// `None` says that none of them stands in `hay`.
pub open spec fn is_first_of(hay: Seq<u8>, a: u8, b: u8, c: u8, r: Option<usize>) -> bool {
    match r {
        Some(i) => {
            &&& i < hay.len()
            &&& (hay[i as int] == a || hay[i as int] == b || hay[i as int] == c)
            &&& forall|k: int| 0 <= k < i ==> #[trigger] hay[k] != a && hay[k] != b && hay[k] != c
        },
        None => forall|k: int|
            0 <= k < hay.len() ==> #[trigger] hay[k] != a && hay[k] != b && hay[k] != c,
    }
}

/// The number of times that `needle` stands in `hay`.
pub open spec fn occurrences(hay: Seq<u8>, needle: u8) -> nat
    decreases hay.len(),
{
    if hay.len() == 0 {
        0
    } else {
        occurrences(hay.drop_last(), needle) + if hay.last() == needle {
            1nat
        } else {
            0nat
        }
    }
}

/// `memchr::memchr` returns the index of the first occurrence of `needle`
/// in `haystack`, or `None` if there is none.
pub assume_specification[ memchr::memchr ](needle: u8, haystack: &[u8]) -> (r: Option<usize>)
    ensures
        is_first_of(haystack@, needle, needle, needle, r),
;

/// `memchr::memchr2` returns the index of the first occurrence of one of
/// the two needles in `haystack`, or `None` if there is none.
pub assume_specification[ memchr::memchr2 ](needle1: u8, needle2: u8, haystack: &[u8]) -> (r:
    Option<usize>)
    ensures
        is_first_of(haystack@, needle1, needle2, needle2, r),
;

/// `memchr::memchr3` returns the index of the first occurrence of one of
/// the three needles in `haystack`, or `None` if there is none.
pub assume_specification[ memchr::memchr3 ](
    needle1: u8,
    needle2: u8,
    needle3: u8,
    haystack: &[u8],
) -> (r: Option<usize>)
    ensures
        is_first_of(haystack@, needle1, needle2, needle3, r),
;

/// `memchr::memchr_iter` yields every occurrence of `needle` in `haystack`,
/// and the `count` of the iterator is their number.
#[verifier::external_body]
pub(crate) fn count_byte(needle: u8, haystack: &[u8]) -> (r: usize)
    ensures
        r == occurrences(haystack@, needle),
{
    memchr::memchr_iter(needle, haystack).count()
}

} // verus!
