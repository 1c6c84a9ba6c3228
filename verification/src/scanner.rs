//! The frame scanner: it finds the next delimiter in the accumulator, from a
//! remembered cursor on. The search itself is done by the `memmem` crate.

use crate::accumulator::Accumulator;
use crate::framing::DELIMITER;
use memmem::Searcher;
use memmem::TwoWaySearcher;
use vstd::prelude::*;
use vstd::slice::slice_subrange;

verus! {

/// The needle of the delimiter search: the delimiter alone.
const NEEDLE: [u8; 1] = [DELIMITER];

/// `memmem::TwoWaySearcher`: a searcher prepared for one needle. Nothing
/// inside it is visible to the verifier.
#[verifier::external_type_specification]
#[verifier::external_body]
pub struct ExTwoWaySearcher<'a>(TwoWaySearcher<'a>);

/// The byte string that a searcher was made to look for.
pub uninterp spec fn searcher_needle(searcher: TwoWaySearcher<'static>) -> Seq<u8>;

/// `memmem::TwoWaySearcher::new`: the searcher that comes back looks for the
/// needle it was given. Asked for needles of one byte only.
#[verifier::external_body]
fn new_searcher(needle: &'static [u8]) -> (searcher: TwoWaySearcher<'static>)
    requires
        needle@.len() == 1,
    ensures
        searcher_needle(searcher) == needle@,
{
    TwoWaySearcher::new(needle)
}

/// `memmem::Searcher::search_in` on a `TwoWaySearcher` made for one byte: the
/// index of the first occurrence of that byte in `haystack`, or `None` when
/// `haystack` does not hold it.
#[verifier::external_body]
fn search_in(searcher: &TwoWaySearcher<'static>, haystack: &[u8]) -> (found: Option<usize>)
    requires
        searcher_needle(*searcher).len() == 1,
    ensures
        match found {
            Some(i) => i < haystack@.len() && haystack@[i as int] == searcher_needle(*searcher)[0]
                && forall|j: int| 0 <= j < i ==> haystack@[j] != searcher_needle(*searcher)[0],
            None => forall|j: int|
                0 <= j < haystack@.len() ==> haystack@[j] != searcher_needle(*searcher)[0],
        },
{
    searcher.search_in(haystack)
}

/// Where the cursor rests after a scan of `len` bytes that found no
/// delimiter: on the last byte, so that the next scan looks at that byte
/// again and at what has come since.
pub open spec fn lookback(len: nat) -> nat {
    if len == 0 {
        0
    } else {
        (len - 1) as nat
    }
}

/// `p` is the first position at or after `cursor` where `s` holds a
/// delimiter.
pub open spec fn next_delimiter(s: Seq<u8>, cursor: int, p: int) -> bool {
    &&& cursor <= p < s.len()
    &&& s[p] == DELIMITER
    &&& forall|j: int| cursor <= j < p ==> s[j] != DELIMITER
}

/// `s` holds no delimiter at or after `cursor`.
pub open spec fn no_delimiter_from(s: Seq<u8>, cursor: int) -> bool {
    forall|j: int| cursor <= j < s.len() ==> s[j] != DELIMITER
}

/// Finds delimiters in accumulated bytes.
pub struct Scanner {
    ice_breaker: TwoWaySearcher<'static>,
}

impl Scanner {
    /// The searcher looks for the delimiter.
    #[verifier::type_invariant]
    spec fn well_formed(self) -> bool {
        searcher_needle(self.ice_breaker) == seq![DELIMITER]
    }

    /// The byte string that the scanner looks for.
    pub closed spec fn needle(&self) -> Seq<u8> {
        searcher_needle(self.ice_breaker)
    }

    /// A scanner for the delimiter.
    pub fn new() -> (scanner: Scanner)
        ensures
            scanner.needle() == seq![DELIMITER],
    {
        let needle: &'static [u8] = &NEEDLE;
        assert(needle@ =~= seq![DELIMITER]);
        Scanner { ice_breaker: new_searcher(needle) }
    }

    /// Looks for the next delimiter in `accumulator`, from `cursor` on.
    /// Returns its position, counted from the start of `accumulator`, and
    /// leaves the cursor as it is. When there is none, returns `None` and
    /// moves the cursor to the last byte of `accumulator`.
    pub fn find_next(&self, accumulator: &Accumulator, cursor: &mut usize) -> (found: Option<
        usize,
    >)
        requires
            *old(cursor) <= accumulator@.len(),
        ensures
            match found {
                Some(p) => next_delimiter(accumulator@, *old(cursor) as int, p as int)
                    && *final(cursor) == *old(cursor),
                None => no_delimiter_from(accumulator@, *old(cursor) as int) && *final(cursor)
                    == lookback(accumulator@.len()),
            },
    {
        proof {
            use_type_invariant(self);
        }
        let bytes = accumulator.as_slice();
        let start = *cursor;
        let unscanned = slice_subrange(bytes, start, bytes.len());
        match search_in(&self.ice_breaker, unscanned) {
            Some(e) => {
                assert forall|j: int| start <= j < start + e implies accumulator@[j]
                    != DELIMITER by {
                    assert(unscanned@[j - start] == accumulator@[j]);
                }
                Some(start + e)
            },
            None => {
                assert forall|j: int| start <= j < accumulator@.len() implies accumulator@[j]
                    != DELIMITER by {
                    assert(unscanned@[j - start] == accumulator@[j]);
                }
                *cursor = if bytes.len() == 0 {
                    0
                } else {
                    bytes.len() - 1
                };
                None
            },
        }
    }
}

} // verus!
