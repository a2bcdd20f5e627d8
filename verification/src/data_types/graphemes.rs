//! Grapheme cluster boundaries, as the `unicode-segmentation` crate finds them.
//!
//! Where clusters begin is decided by the Unicode text segmentation rules
//! and their tables. The library does not restate them: it names what the
//! crate returns and relies only on the shape of the answer.

use unicode_segmentation::GraphemeCursor;
use unicode_segmentation::GraphemeIndices;
use unicode_segmentation::UnicodeSegmentation;
use vstd::prelude::*;
use vstd::string::StringSliceAdditionalSpecFns;
use vstd::utf8::is_char_boundary;

verus! {

/// The iterator over the grapheme clusters of a string and their byte offsets.
#[verifier::external_type_specification]
#[verifier::external_body]
pub struct ExGraphemeIndices<'a>(GraphemeIndices<'a>);

/// The byte offsets at which the extended grapheme clusters of `text` begin,
/// in the order in which `grapheme_indices(true)` yields them.
pub uninterp spec fn grapheme_starts(text: Seq<char>) -> Seq<usize>;

/// The byte offsets of the clusters that `iter` has yet to yield, in order.
pub uninterp spec fn starts_left(iter: &GraphemeIndices) -> Seq<usize>;

/// The byte offset at which the last extended grapheme cluster before `end`
/// begins in `text`, as a cursor placed at `end` finds it going backwards.
pub uninterp spec fn grapheme_prev_boundary(text: Seq<char>, end: usize) -> Option<usize>;

/// Whether the offsets grow strictly.
pub open spec fn ascending(starts: Seq<usize>) -> bool {
    forall|i: int, j: int| 0 <= i < j < starts.len() ==> starts[i] < starts[j]
}

/// `UnicodeSegmentation::grapheme_indices` with extended clusters.
///
/// The iterator yields each cluster where the one before it ended, so the
/// offsets that it yields grow strictly. Which offsets they are is left to
/// the crate.
#[verifier::external_body]
pub(crate) fn clusters(input: &str) -> (iter: GraphemeIndices<'_>)
    ensures
        starts_left(&iter) == grapheme_starts(input@),
        ascending(starts_left(&iter)),
{
    input.grapheme_indices(true)
}

/// `Iterator::next` of `GraphemeIndices`, keeping the byte offset of the
/// cluster: the first of the offsets that were left, or nothing when none
/// was left.
#[verifier::external_body]
pub(crate) fn next_cluster(iter: &mut GraphemeIndices<'_>) -> (start: Option<usize>)
    ensures
        match start {
            Some(s) => starts_left(old(iter)).len() > 0 && s == starts_left(old(iter))[0]
                && starts_left(final(iter)) == starts_left(old(iter)).drop_first(),
            None => starts_left(old(iter)).len() == 0,
        },
{
    iter.next().map(|(start, _)| start)
}

/// `GraphemeCursor::prev_boundary` of a cursor for extended clusters placed
/// at `end`, the end of `text`, with `text` as the only chunk.
///
/// The cursor steps back over whole characters until it stands on a
/// boundary, so an offset that it returns lies before `end` on a character
/// boundary. It returns nothing for an empty text; a request for more
/// context, which a chunk that starts the text never causes, is handed on as
/// nothing found.
#[verifier::external_body]
pub(crate) fn prev_boundary(text: &str, end: usize) -> (found: Option<usize>)
    requires
        end == text.spec_bytes().len(),
    ensures
        found == grapheme_prev_boundary(text@, end),
        found matches Some(b) ==> b < end && is_char_boundary(text.spec_bytes(), b as int),
{
    match GraphemeCursor::new(end, end, true).prev_boundary(text, 0) {
        Ok(found) => found,
        Err(_) => None,
    }
}

/// A supply of the byte offsets at which grapheme clusters begin, handed
/// out one by one.
pub trait ClusterStarts {
    /// The offsets that are left, in the order in which they are handed out.
    spec fn left(&self) -> Seq<usize>;

    /// Takes the first of the offsets that are left.
    fn next_start(&mut self) -> (start: Option<usize>)
        ensures
            match start {
                Some(s) => old(self).left().len() > 0 && s == old(self).left()[0]
                    && final(self).left() == old(self).left().drop_first(),
                None => old(self).left().len() == 0,
            },
    ;
}

/// The cluster starts that a caller lists in a slice.
pub struct SliceStarts<'a> {
    starts: &'a [usize],
    at: usize,
}

impl<'a> SliceStarts<'a> {
    #[verifier::type_invariant]
    spec fn in_bounds(self) -> bool {
        self.at <= self.starts@.len()
    }

    /// A supply that hands out the offsets of `starts` from the first one on.
    pub fn new(starts: &'a [usize]) -> (supply: Self)
        ensures
            supply.left() == starts@,
    {
        SliceStarts { starts, at: 0 }
    }
}

impl<'a> ClusterStarts for SliceStarts<'a> {
    closed spec fn left(&self) -> Seq<usize> {
        self.starts@.skip(self.at as int)
    }

    fn next_start(&mut self) -> (start: Option<usize>) {
        proof {
            use_type_invariant(&*self);
        }
        if self.at < self.starts.len() {
            let start = self.starts[self.at];
            self.at = self.at + 1;
            assert(self.starts@.skip(self.at as int) == old(self).starts@.skip(
                old(self).at as int,
            ).drop_first());
            Some(start)
        } else {
            None
        }
    }
}

/// The cluster starts of a string, as the `unicode-segmentation` crate finds
/// them while the string is read.
pub struct GraphemeStarts<'a> {
    iter: GraphemeIndices<'a>,
}

impl<'a> GraphemeStarts<'a> {
    /// A supply of the offsets at which the extended grapheme clusters of
    /// `input` begin.
    pub fn new(input: &'a str) -> (supply: Self)
        ensures
            supply.left() == grapheme_starts(input@),
            ascending(supply.left()),
    {
        GraphemeStarts { iter: clusters(input) }
    }
}

impl<'a> ClusterStarts for GraphemeStarts<'a> {
    closed spec fn left(&self) -> Seq<usize> {
        starts_left(&self.iter)
    }

    fn next_start(&mut self) -> (start: Option<usize>) {
        next_cluster(&mut self.iter)
    }
}

} // verus!
