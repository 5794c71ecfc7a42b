//! Text with attributes applied to ranges given by their bounds.

use crate::attributed_text::ApplyAttributeError;
use crate::text_storage::TextStorage;
use crate::selection::{lemma_filter_map_picks, lemma_filter_map_push, mapped_at};
use std::ops::Bound;
use vstd::prelude::*;

verus! {

/// `std::ops::Bound`: one end of a range, with the index it names
/// counted in, left out, or with no index at all.
#[verifier::external_type_specification]
#[verifier::reject_recursive_types(T)]
pub struct ExBound<T>(Bound<T>);

/// The first index of a range that starts at `start`.
pub open spec fn resolved_start(start: Bound<usize>) -> int {
    match start {
        Bound::Included(start) => start as int,
        Bound::Excluded(start) => start + 1,
        Bound::Unbounded => 0,
    }
}

/// The index after the last one of a range that ends at `end`, in a text
/// of length `len`.
pub open spec fn resolved_end(end: Bound<usize>, len: int) -> int {
    match end {
        Bound::Included(end) => end + 1,
        Bound::Excluded(end) => end as int,
        Bound::Unbounded => len,
    }
}

/// Resolve the bounds of a range in a text of length `container_length`
/// to the half-open range `[start, end)` of the indices that it holds.
pub fn bounds_to_indices(
    start_bound: Bound<usize>,
    end_bound: Bound<usize>,
    container_length: usize,
) -> (indices: (u128, u128))
    ensures
        indices.0 == resolved_start(start_bound),
        indices.1 == resolved_end(end_bound, container_length as int),
{
    let start: u128 = match start_bound {
        Bound::Included(start) => start as u128,
        Bound::Excluded(start) => start as u128 + 1,
        Bound::Unbounded => 0,
    };
    let end: u128 = match end_bound {
        Bound::Included(end) => end as u128 + 1,
        Bound::Excluded(end) => end as u128,
        Bound::Unbounded => container_length as u128,
    };
    (start, end)
}

/// An attribute and the bounds of the range to which it has been applied.
#[derive(Debug, PartialEq, Eq)]
pub struct RangedAttribute<Attr> {
    pub start: Bound<usize>,
    pub end: Bound<usize>,
    pub attribute: Attr,
}

impl<Attr> RangedAttribute<Attr> {
    /// Whether `index` lies in the range, in a text of length `len`.
    pub open spec fn contains(&self, index: int, len: int) -> bool {
        resolved_start(self.start) <= index < resolved_end(self.end, len)
    }

    /// Whether the range, in a text of length `len`, begins before `end`
    /// and ends after `start`.
    pub open spec fn overlaps(&self, start: int, end: int, len: int) -> bool {
        resolved_start(self.start) < end && resolved_end(self.end, len) > start
    }
}

/// The attribute of a ranged attribute if its range contains `index` in a
/// text of length `len`.
pub open spec fn if_containing<Attr>(index: int, len: int) -> spec_fn(RangedAttribute<Attr>) -> Option<
    Attr,
> {
    |ra: RangedAttribute<Attr>|
        if ra.contains(index, len) {
            Some(ra.attribute)
        } else {
            None
        }
}

/// The attribute of a ranged attribute if its range overlaps `[start, end)`
/// in a text of length `len`.
pub open spec fn if_overlapping<Attr>(start: int, end: int, len: int) -> spec_fn(
    RangedAttribute<Attr>,
) -> Option<Attr> {
    |ra: RangedAttribute<Attr>|
        if ra.overlaps(start, end, len) {
            Some(ra.attribute)
        } else {
            None
        }
}

/// The attributes whose ranges contain `index` in a text of length `len`,
/// in the order of `attributes`.
pub open spec fn attributes_containing<Attr>(
    attributes: Seq<RangedAttribute<Attr>>,
    index: int,
    len: int,
) -> Seq<Attr> {
    attributes.filter_map(if_containing(index, len))
}

/// The attributes whose ranges overlap `[start, end)` in a text of length
/// `len`, in the order of `attributes`.
pub open spec fn attributes_overlapping<Attr>(
    attributes: Seq<RangedAttribute<Attr>>,
    start: int,
    end: int,
    len: int,
) -> Seq<Attr> {
    attributes.filter_map(if_overlapping(start, end, len))
}

/// The attributes found at an index are those whose ranges contain it,
/// each as often as it was applied, in the order of `attributes`: there are
/// indices `picked` of exactly those, in increasing order, whose
/// attributes are what is found, one after the other.
pub proof fn lemma_attributes_at_in_order<Attr>(
    attributes: Seq<RangedAttribute<Attr>>,
    index: int,
    len: int,
) -> (picked: Seq<int>)
    ensures
        forall|k: int| 0 <= k < picked.len() ==> 0 <= #[trigger] picked[k] < attributes.len(),
        forall|j: int, k: int| 0 <= j < k < picked.len() ==> picked[j] < picked[k],
        forall|i: int|
            0 <= i < attributes.len() ==> ((#[trigger] attributes[i]).contains(index, len)
                <==> picked.contains(i)),
        attributes_containing(attributes, index, len) == Seq::new(
            picked.len(),
            |k: int| attributes[picked[k]].attribute,
        ),
{
    let picked = lemma_filter_map_picks(attributes, if_containing(index, len));
    assert forall|i: int| 0 <= i < attributes.len() && picked.contains(i) implies (
    #[trigger] attributes[i]).contains(index, len) by {
        let k = choose|k: int| 0 <= k < picked.len() && picked[k] == i;
        assert(if_containing(index, len)(attributes[picked[k]]) is Some);
    }
    assert(mapped_at(picked, attributes, if_containing(index, len)) =~= Seq::new(
        picked.len(),
        |k: int| attributes[picked[k]].attribute,
    ));
    picked
}

/// The attributes found for a range are those whose ranges overlap it,
/// each as often as it was applied, in the order of `attributes`: there are
/// indices `picked` of exactly those, in increasing order, whose
/// attributes are what is found, one after the other.
pub proof fn lemma_attributes_for_range_in_order<Attr>(
    attributes: Seq<RangedAttribute<Attr>>,
    start: int,
    end: int,
    len: int,
) -> (picked: Seq<int>)
    ensures
        forall|k: int| 0 <= k < picked.len() ==> 0 <= #[trigger] picked[k] < attributes.len(),
        forall|j: int, k: int| 0 <= j < k < picked.len() ==> picked[j] < picked[k],
        forall|i: int|
            0 <= i < attributes.len() ==> ((#[trigger] attributes[i]).overlaps(start, end, len)
                <==> picked.contains(i)),
        attributes_overlapping(attributes, start, end, len) == Seq::new(
            picked.len(),
            |k: int| attributes[picked[k]].attribute,
        ),
{
    let picked = lemma_filter_map_picks(attributes, if_overlapping(start, end, len));
    assert forall|i: int| 0 <= i < attributes.len() && picked.contains(i) implies (
    #[trigger] attributes[i]).overlaps(start, end, len) by {
        let k = choose|k: int| 0 <= k < picked.len() && picked[k] == i;
        assert(if_overlapping(start, end, len)(attributes[picked[k]]) is Some);
    }
    assert(mapped_at(picked, attributes, if_overlapping(start, end, len)) =~= Seq::new(
        picked.len(),
        |k: int| attributes[picked[k]].attribute,
    ));
    picked
}

/// An attribute that is applied later is found after those applied
/// before it: with one more ranged attribute at the end, a query finds
/// what it found without it, and then its attribute if it matches.
pub proof fn lemma_later_attribute_found_last<Attr>(
    attributes: Seq<RangedAttribute<Attr>>,
    ra: RangedAttribute<Attr>,
    index: int,
    start: int,
    end: int,
    len: int,
)
    ensures
        attributes_containing(attributes.push(ra), index, len) == (if ra.contains(index, len) {
            attributes_containing(attributes, index, len).push(ra.attribute)
        } else {
            attributes_containing(attributes, index, len)
        }),
        attributes_overlapping(attributes.push(ra), start, end, len) == (if ra.overlaps(
            start,
            end,
            len,
        ) {
            attributes_overlapping(attributes, start, end, len).push(ra.attribute)
        } else {
            attributes_overlapping(attributes, start, end, len)
        }),
{
    lemma_filter_map_push(attributes, ra, if_containing(index, len));
    lemma_filter_map_push(attributes, ra, if_overlapping(start, end, len));
}

/// A query for the empty range at `at` finds nothing, unless a range
/// begins before `at` and ends after it.
pub proof fn lemma_empty_range_finds_nothing<Attr>(
    attributes: Seq<RangedAttribute<Attr>>,
    at: int,
    len: int,
)
    requires
        forall|i: int|
            0 <= i < attributes.len() ==> !(resolved_start((#[trigger] attributes[i]).start) < at
                < resolved_end(attributes[i].end, len)),
    ensures
        attributes_overlapping(attributes, at, at, len) == Seq::<Attr>::empty(),
{
    let picked = lemma_attributes_for_range_in_order(attributes, at, at, len);
    if picked.len() > 0 {
        let i = picked[0];
        assert(picked.contains(i));
        assert(attributes[i].overlaps(at, at, len));
    }
}

/// The mathematical value of an [`AttributedText`].
pub ghost struct AttributedTextView<T, Attr> {
    /// The wrapped text.
    pub text: T,
    /// The attributes with their ranges, in the order in which they were
    /// applied.
    pub attributes: Seq<RangedAttribute<Attr>>,
}

/// A block of text with attributes applied to ranges within the text.
#[derive(Debug)]
pub struct AttributedText<T: TextStorage, Attr> {
    text: T,
    attributes: Vec<RangedAttribute<Attr>>,
}

impl<T: TextStorage, Attr> View for AttributedText<T, Attr> {
    type V = AttributedTextView<T, Attr>;

    closed spec fn view(&self) -> AttributedTextView<T, Attr> {
        AttributedTextView { text: self.text, attributes: self.attributes@ }
    }
}

impl<T: TextStorage, Attr> AttributedText<T, Attr> {
    /// The length of the text.
    pub open spec fn len(&self) -> int {
        self@.text.content().len() as int
    }

    /// Whether every range ends within the text.
    pub open spec fn well_formed(&self) -> bool {
        forall|i: int|
            0 <= i < self@.attributes.len() ==> resolved_end(
                (#[trigger] self@.attributes[i]).end,
                self.len(),
            ) <= self.len()
    }

    /// Create an `AttributedText` with no attributes applied.
    pub fn new(text: T) -> (at: Self)
        ensures
            at@.text == text,
            at@.attributes == Seq::<RangedAttribute<Attr>>::empty(),
            at.well_formed(),
    {
        Self { text, attributes: Vec::new() }
    }

    /// The wrapped text.
    pub fn text(&self) -> (text: &T)
        ensures
            *text == self@.text,
    {
        &self.text
    }

    /// The attributes with their ranges, in the order in which they were
    /// applied.
    pub fn attributes(&self) -> (attributes: &Vec<RangedAttribute<Attr>>)
        ensures
            attributes@ == self@.attributes,
    {
        &self.attributes
    }

    /// Apply an `attribute` to a `range` within the text, given by its
    /// start and end bounds.
    ///
    /// The range is accepted when it does not reach beyond the end of the
    /// text; the attribute is then appended with the bounds as given. Where
    /// the range starts is not looked at. A range that is not accepted
    /// leaves everything as it was.
    pub fn apply_attribute(&mut self, range: (Bound<usize>, Bound<usize>), attribute: Attr) -> (result:
        Result<(), ApplyAttributeError>)
        ensures
            (match result {
                Ok(()) => {
                    &&& resolved_end(range.1, old(self).len()) <= old(self).len()
                    &&& final(self)@.text == old(self)@.text
                    &&& final(self)@.attributes == old(self)@.attributes.push(
                        (RangedAttribute { start: range.0, end: range.1, attribute }),
                    )
                },
                Err(ApplyAttributeError::InvalidBounds) => {
                    &&& resolved_end(range.1, old(self).len()) > old(self).len()
                    &&& *final(self) == *old(self)
                },
            }),
            old(self).well_formed() ==> final(self).well_formed(),
    {
        let text_len: usize = self.text.len();
        let fits: bool = match range.1 {
            Bound::Included(end) => end < text_len,
            Bound::Excluded(end) => end <= text_len,
            Bound::Unbounded => true,
        };
        if !fits {
            return Err(ApplyAttributeError::InvalidBounds);
        }
        self.attributes.push(RangedAttribute { start: range.0, end: range.1, attribute });
        Ok(())
    }

    /// The attributes that apply at the given `index`, in the order in
    /// which they were applied.
    ///
    /// This doesn't handle conflicting attributes, it just reports everything.
    pub fn attributes_at(&self, index: usize) -> (found: Vec<&Attr>)
        ensures
            found@.unref() == attributes_containing(self@.attributes, index as int, self.len()),
    {
        let text_len: usize = self.text.len();
        let mut found: Vec<&Attr> = Vec::new();
        let mut i: usize = 0;
        while i < self.attributes.len()
            invariant
                i <= self.attributes.len(),
                text_len == self.len(),
                found@.unref() == attributes_containing(
                    self.attributes@.take(i as int),
                    index as int,
                    text_len as int,
                ),
            decreases self.attributes.len() - i,
        {
            broadcast use Seq::lemma_filter_map_take_succ;

            let ghost before = found@;
            let ra = &self.attributes[i];
            let (start, end) = bounds_to_indices(ra.start, ra.end, text_len);
            if start <= index as u128 && (index as u128) < end {
                found.push(&ra.attribute);
                assert(found@.unref() == before.unref().push(ra.attribute));
            }
            i += 1;
        }
        assert(self.attributes@.take(i as int) == self.attributes@);
        found
    }

    /// The attributes that apply to the given `range`, in the order in
    /// which they were applied.
    ///
    /// An attribute applies when its range begins before the given one ends
    /// and ends after the given one begins. A range that only touches the
    /// given one does not apply.
    ///
    /// This doesn't handle conflicting attributes, it just reports everything.
    pub fn attributes_for_range(&self, range: (Bound<usize>, Bound<usize>)) -> (found: Vec<&Attr>)
        ensures
            found@.unref() == attributes_overlapping(
                self@.attributes,
                resolved_start(range.0),
                resolved_end(range.1, self.len()),
                self.len(),
            ),
    {
        let text_len: usize = self.text.len();
        let (range_start, range_end) = bounds_to_indices(range.0, range.1, text_len);
        let mut found: Vec<&Attr> = Vec::new();
        let mut i: usize = 0;
        while i < self.attributes.len()
            invariant
                i <= self.attributes.len(),
                text_len == self.len(),
                found@.unref() == attributes_overlapping(
                    self.attributes@.take(i as int),
                    range_start as int,
                    range_end as int,
                    text_len as int,
                ),
            decreases self.attributes.len() - i,
        {
            broadcast use Seq::lemma_filter_map_take_succ;

            let ghost before = found@;
            let ra = &self.attributes[i];
            let (attribute_start, attribute_end) = bounds_to_indices(ra.start, ra.end, text_len);
            if attribute_start < range_end && attribute_end > range_start {
                found.push(&ra.attribute);
                assert(found@.unref() == before.unref().push(ra.attribute));
            }
            i += 1;
        }
        assert(self.attributes@.take(i as int) == self.attributes@);
        found
    }
}

} // verus!
