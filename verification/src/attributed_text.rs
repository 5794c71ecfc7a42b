//! Text with attributes applied to half-open ranges, and deletion that
//! rebases the ranges.

use crate::edit_behavior::{EditBehavior, SpanEditAction};
use crate::selection::{lemma_filter_map_picks, lemma_filter_map_push, mapped_at};
use crate::text_storage::{splice, EditableTextStorage, TextStorage};
use std::ops::Range;
use vstd::math::min;
use vstd::prelude::*;

verus! {

/// The errors that might happen as a result of applying an attribute.
#[derive(Copy, Clone, Debug, PartialEq, Eq, Structural)]
pub enum ApplyAttributeError {
    /// The bounds given were invalid.
    InvalidBounds,
}

/// The errors that might happen as a result of deleting from an
/// [`AttributedText`].
#[derive(Copy, Clone, Debug, PartialEq, Eq, Structural)]
pub enum DeleteError {
    /// The bounds given were invalid.
    InvalidRange,
}

/// An attribute and the half-open range `[start, end)` it has been applied to.
#[derive(Debug, PartialEq, Eq)]
pub struct Span<Attr> {
    pub start: usize,
    pub end: usize,
    pub attribute: Attr,
}

impl<Attr> Span<Attr> {
    /// Whether `index` lies in the span.
    pub open spec fn contains(&self, index: int) -> bool {
        self.start <= index < self.end
    }

    /// Whether the span and `[start, end)` have an index in common, or
    /// rather: whether each begins before the other ends.
    pub open spec fn overlaps(&self, start: int, end: int) -> bool {
        self.start < end && self.end > start
    }

    /// Whether the span is not inverted and lies within a text of length `len`.
    pub open spec fn within(&self, len: int) -> bool {
        self.start <= self.end <= len
    }
}

/// The attribute of a span if the span contains `index`.
pub open spec fn if_containing<Attr>(index: int) -> spec_fn(Span<Attr>) -> Option<Attr> {
    |span: Span<Attr>|
        if span.contains(index) {
            Some(span.attribute)
        } else {
            None
        }
}

/// The attribute of a span if the span overlaps `[start, end)`.
pub open spec fn if_overlapping<Attr>(start: int, end: int) -> spec_fn(Span<Attr>) -> Option<Attr> {
    |span: Span<Attr>|
        if span.overlaps(start, end) {
            Some(span.attribute)
        } else {
            None
        }
}

/// The attributes of the spans that contain `index`, in the order of the spans.
pub open spec fn attributes_containing<Attr>(spans: Seq<Span<Attr>>, index: int) -> Seq<Attr> {
    spans.filter_map(if_containing(index))
}

/// The attributes of the spans that overlap `[start, end)`, in the order of
/// the spans.
pub open spec fn attributes_overlapping<Attr>(spans: Seq<Span<Attr>>, start: int, end: int) -> Seq<
    Attr,
> {
    spans.filter_map(if_overlapping(start, end))
}

/// The attributes found at an index are those of the spans that contain
/// it, each as often as it was applied, in the order of the spans: there
/// are indices `picked` of exactly those spans, in increasing order, whose
/// attributes are what is found, one after the other.
pub proof fn lemma_attributes_at_in_order<Attr>(spans: Seq<Span<Attr>>, index: int) -> (picked: Seq<
    int,
>)
    ensures
        forall|k: int| 0 <= k < picked.len() ==> 0 <= #[trigger] picked[k] < spans.len(),
        forall|j: int, k: int| 0 <= j < k < picked.len() ==> picked[j] < picked[k],
        forall|i: int|
            0 <= i < spans.len() ==> ((#[trigger] spans[i]).contains(index) <==> picked.contains(i)),
        attributes_containing(spans, index) == Seq::new(
            picked.len(),
            |k: int| spans[picked[k]].attribute,
        ),
{
    let picked = lemma_filter_map_picks(spans, if_containing(index));
    assert forall|i: int| 0 <= i < spans.len() && picked.contains(i) implies (#[trigger] spans[i]).contains(
        index,
    ) by {
        let k = choose|k: int| 0 <= k < picked.len() && picked[k] == i;
        assert(if_containing(index)(spans[picked[k]]) is Some);
    }
    assert(mapped_at(picked, spans, if_containing(index)) =~= Seq::new(
        picked.len(),
        |k: int| spans[picked[k]].attribute,
    ));
    picked
}

/// The attributes found for a range are those of the spans that overlap
/// it, each as often as it was applied, in the order of the spans: there
/// are indices `picked` of exactly those spans, in increasing order, whose
/// attributes are what is found, one after the other.
pub proof fn lemma_attributes_for_range_in_order<Attr>(
    spans: Seq<Span<Attr>>,
    start: int,
    end: int,
) -> (picked: Seq<int>)
    ensures
        forall|k: int| 0 <= k < picked.len() ==> 0 <= #[trigger] picked[k] < spans.len(),
        forall|j: int, k: int| 0 <= j < k < picked.len() ==> picked[j] < picked[k],
        forall|i: int|
            0 <= i < spans.len() ==> ((#[trigger] spans[i]).overlaps(start, end)
                <==> picked.contains(i)),
        attributes_overlapping(spans, start, end) == Seq::new(
            picked.len(),
            |k: int| spans[picked[k]].attribute,
        ),
{
    let picked = lemma_filter_map_picks(spans, if_overlapping(start, end));
    assert forall|i: int| 0 <= i < spans.len() && picked.contains(i) implies (#[trigger] spans[i]).overlaps(
        start,
        end,
    ) by {
        let k = choose|k: int| 0 <= k < picked.len() && picked[k] == i;
        assert(if_overlapping(start, end)(spans[picked[k]]) is Some);
    }
    assert(mapped_at(picked, spans, if_overlapping(start, end)) =~= Seq::new(
        picked.len(),
        |k: int| spans[picked[k]].attribute,
    ));
    picked
}

/// An attribute that is applied later is found after those applied
/// before it: with one more span at the end, a query finds what it found
/// without that span, and then the attribute of that span if it matches.
pub proof fn lemma_later_span_found_last<Attr>(
    spans: Seq<Span<Attr>>,
    span: Span<Attr>,
    index: int,
    start: int,
    end: int,
)
    ensures
        attributes_containing(spans.push(span), index) == (if span.contains(index) {
            attributes_containing(spans, index).push(span.attribute)
        } else {
            attributes_containing(spans, index)
        }),
        attributes_overlapping(spans.push(span), start, end) == (if span.overlaps(start, end) {
            attributes_overlapping(spans, start, end).push(span.attribute)
        } else {
            attributes_overlapping(spans, start, end)
        }),
{
    lemma_filter_map_push(spans, span, if_containing(index));
    lemma_filter_map_push(spans, span, if_overlapping(start, end));
}

/// A query for the empty range at `at` finds nothing, unless a span begins
/// before `at` and ends after it.
pub proof fn lemma_empty_range_finds_nothing<Attr>(spans: Seq<Span<Attr>>, at: int)
    requires
        forall|i: int| 0 <= i < spans.len() ==> !((#[trigger] spans[i]).start < at < spans[i].end),
    ensures
        attributes_overlapping(spans, at, at) == Seq::<Attr>::empty(),
{
    let picked = lemma_attributes_for_range_in_order(spans, at, at);
    if picked.len() > 0 {
        let i = picked[0];
        assert(picked.contains(i));
        assert(spans[i].overlaps(at, at));
    }
}

/// The bounds that `[start, end)` has after `[cut_start, cut_end)` has been
/// deleted from the text, or `None` when the span does not survive.
///
/// A span that ends where the cut begins, or earlier, stays as it is. A span
/// that begins where the cut ends, or later, moves left by the deleted
/// length. Any other span is touched by the cut, and is gone unless `keep`
/// holds. If it is kept and the cut lies strictly inside it, its end moves
/// left by the deleted length; else both of its ends are clamped to the
/// start of the cut. What is empty after that is gone too.
pub open spec fn rebased_bounds(start: int, end: int, keep: bool, cut_start: int, cut_end: int)
    -> Option<(int, int)> {
    let deleted = cut_end - cut_start;
    if end <= cut_start {
        Some((start, end))
    } else if start >= cut_end {
        Some((start - deleted, end - deleted))
    } else if !keep {
        None
    } else {
        let (new_start, new_end) = if start < cut_start && end > cut_end {
            (start, end - deleted)
        } else {
            (min(start, cut_start), min(end, cut_start))
        };
        if new_start < new_end {
            Some((new_start, new_end))
        } else {
            None
        }
    }
}

/// Whether neither end of the rebased span would lie before the start of
/// the text.
///
/// This fails only for an inverted span that begins after the cut and ends
/// within the deleted length of the start of the text.
pub open spec fn rebase_fits(start: int, end: int, cut_start: int, cut_end: int) -> bool {
    start >= cut_end && end > cut_start ==> end >= cut_end - cut_start
}

/// What deleting `[cut_start, cut_end)` from the text makes of `span`.
pub open spec fn rebased<Attr: EditBehavior>(span: Span<Attr>, cut_start: int, cut_end: int)
    -> Option<Span<Attr>> {
    match rebased_bounds(
        span.start as int,
        span.end as int,
        span.attribute.edit_action() == SpanEditAction::Keep,
        cut_start,
        cut_end,
    ) {
        Some((start, end)) => Some(
            Span { start: start as usize, end: end as usize, attribute: span.attribute },
        ),
        None => None,
    }
}

/// What deleting `[cut_start, cut_end)` from the text makes of a span.
pub open spec fn rebasing<Attr: EditBehavior>(cut_start: int, cut_end: int) -> spec_fn(
    Span<Attr>,
) -> Option<Span<Attr>> {
    |span: Span<Attr>| rebased(span, cut_start, cut_end)
}

/// The spans that are left of `spans` after `[cut_start, cut_end)` has been
/// deleted from the text, each rebased, in their order.
pub open spec fn rebased_spans<Attr: EditBehavior>(
    spans: Seq<Span<Attr>>,
    cut_start: int,
    cut_end: int,
) -> Seq<Span<Attr>> {
    spans.filter_map(rebasing(cut_start, cut_end))
}

/// A span that lies before the cut stays exactly as it is.
pub proof fn lemma_rebase_before_cut<Attr: EditBehavior>(span: Span<Attr>, cut: Range<usize>)
    requires
        span.end <= cut.start,
    ensures
        rebased(span, cut.start as int, cut.end as int) == Some(span),
{
}

/// A span that lies after the cut moves left by the deleted length, with
/// both of its ends, whatever its attribute's policy is.
pub proof fn lemma_rebase_after_cut<Attr: EditBehavior>(span: Span<Attr>, cut: Range<usize>)
    requires
        cut.start <= cut.end,
        span.start <= span.end,
        span.start >= cut.end,
    ensures
        rebased(span, cut.start as int, cut.end as int) matches Some(moved) && moved.start
            == span.start - (cut.end - cut.start) && moved.end == span.end - (cut.end - cut.start)
            && moved.attribute == span.attribute,
{
}

/// A span that lies inside the cut is dropped, whatever its attribute's
/// policy is. An empty span at either end of the cut is not touched by
/// the cut, and is left out here.
pub proof fn lemma_rebase_inside_cut<Attr: EditBehavior>(span: Span<Attr>, cut: Range<usize>)
    requires
        cut.start <= span.start <= span.end <= cut.end,
        span.start < span.end || cut.start < span.start < cut.end,
    ensures
        rebased(span, cut.start as int, cut.end as int) is None,
{
}

/// What is left of a span that the cut touches is never empty.
pub proof fn lemma_rebase_leaves_no_empty_span<Attr: EditBehavior>(
    span: Span<Attr>,
    cut: Range<usize>,
)
    requires
        cut.start <= cut.end,
        span.end > cut.start,
        span.start < cut.end,
    ensures
        rebased(span, cut.start as int, cut.end as int) matches Some(left) ==> left.start
            < left.end,
{
}

/// Spans that lie within a text of length `len`, none of them inverted,
/// lie within what is left of the text once they are rebased.
pub proof fn lemma_rebased_spans_within<Attr: EditBehavior>(
    spans: Seq<Span<Attr>>,
    cut: Range<usize>,
    len: int,
)
    requires
        cut.start <= cut.end <= len,
        forall|i: int| 0 <= i < spans.len() ==> (#[trigger] spans[i]).within(len),
    ensures
        forall|k: int|
            0 <= k < rebased_spans(spans, cut.start as int, cut.end as int).len() ==> (
            #[trigger] rebased_spans(spans, cut.start as int, cut.end as int)[k]).within(
                len - (cut.end - cut.start),
            ),
{
    let picked = lemma_filter_map_picks(spans, rebasing(cut.start as int, cut.end as int));
    let left = rebased_spans(spans, cut.start as int, cut.end as int);
    assert forall|k: int| 0 <= k < left.len() implies (#[trigger] left[k]).within(
        len - (cut.end - cut.start),
    ) by {
        assert(spans[picked[k]].within(len));
        assert(left[k] == rebased(spans[picked[k]], cut.start as int, cut.end as int).unwrap());
    }
}

impl<Attr: EditBehavior> Span<Attr> {
    /// Rebase the span after `cut` has been deleted from the text.
    pub fn rebase(self, cut: &Range<usize>) -> (span: Option<Span<Attr>>)
        requires
            cut.start <= cut.end,
            rebase_fits(self.start as int, self.end as int, cut.start as int, cut.end as int),
        ensures
            span == rebased(self, cut.start as int, cut.end as int),
    {
        let deleted_len: usize = cut.end - cut.start;
        if self.end <= cut.start {
            // Before the cut: no change.
            Some(self)
        } else if self.start >= cut.end {
            // After the cut: move left.
            Some(
                Span {
                    start: self.start - deleted_len,
                    end: self.end - deleted_len,
                    attribute: self.attribute,
                },
            )
        } else {
            match self.attribute.on_edit() {
                SpanEditAction::Keep => {
                    let (start, end) = if self.start < cut.start && self.end > cut.end {
                        // The span surrounds the cut: close the gap.
                        (self.start, self.end - deleted_len)
                    } else {
                        // The cut reaches one end of the span, or beyond both.
                        (
                            if self.start < cut.start {
                                self.start
                            } else {
                                cut.start
                            },
                            if self.end < cut.start {
                                self.end
                            } else {
                                cut.start
                            },
                        )
                    };
                    // Only keep the span if it is not empty.
                    if start < end {
                        Some(Span { start, end, attribute: self.attribute })
                    } else {
                        None
                    }
                },
                SpanEditAction::Remove => None,
            }
        }
    }
}

/// The mathematical value of an [`AttributedText`].
pub ghost struct AttributedTextView<T, Attr> {
    /// The wrapped text.
    pub text: T,
    /// The spans, in the order in which they were applied.
    pub spans: Seq<Span<Attr>>,
}

/// A block of text with attributes applied to ranges within the text.
#[derive(Debug)]
pub struct AttributedText<T: TextStorage, Attr> {
    text: T,
    attributes: Vec<Span<Attr>>,
}

impl<T: TextStorage, Attr> View for AttributedText<T, Attr> {
    type V = AttributedTextView<T, Attr>;

    closed spec fn view(&self) -> AttributedTextView<T, Attr> {
        AttributedTextView { text: self.text, spans: self.attributes@ }
    }
}

impl<T: TextStorage, Attr> AttributedText<T, Attr> {
    /// Whether every span is not inverted and lies within the text.
    pub open spec fn well_formed(&self) -> bool {
        forall|i: int|
            0 <= i < self@.spans.len() ==> (#[trigger] self@.spans[i]).within(
                self@.text.content().len() as int,
            )
    }

    /// Create an `AttributedText` with no attributes applied.
    pub fn new(text: T) -> (at: Self)
        ensures
            at@.text == text,
            at@.spans == Seq::<Span<Attr>>::empty(),
            at.well_formed(),
    {
        Self { text, attributes: Vec::new() }
    }

    /// The wrapped text.
    pub fn text(&self) -> (text: &T)
        ensures
            *text == self@.text,
    {
        &self.text
    }

    /// The spans, in the order in which they were applied.
    pub fn spans(&self) -> (spans: &Vec<Span<Attr>>)
        ensures
            spans@ == self@.spans,
    {
        &self.attributes
    }

    /// Apply an `attribute` to a `range` within the text.
    ///
    /// The range is accepted when neither of its ends lies beyond the end
    /// of the text; the span is then appended to the spans. An empty range
    /// is accepted, and so is an inverted one. A range that is not accepted
    /// leaves everything as it was.
    pub fn apply_attribute(&mut self, range: Range<usize>, attribute: Attr) -> (result: Result<
        (),
        ApplyAttributeError,
    >)
        ensures
            (match result {
                Ok(()) => {
                    &&& range.start <= old(self)@.text.content().len()
                    &&& range.end <= old(self)@.text.content().len()
                    &&& final(self)@.text == old(self)@.text
                    &&& final(self)@.spans == old(self)@.spans.push(
                        (Span { start: range.start, end: range.end, attribute }),
                    )
                },
                Err(ApplyAttributeError::InvalidBounds) => {
                    &&& range.start > old(self)@.text.content().len() || range.end > old(
                        self,
                    )@.text.content().len()
                    &&& *final(self) == *old(self)
                },
            }),
            old(self).well_formed() && range.start <= range.end ==> final(self).well_formed(),
    {
        let text_len: usize = self.text.len();
        if range.start > text_len || range.end > text_len {
            return Err(ApplyAttributeError::InvalidBounds);
        }
        self.attributes.push(Span { start: range.start, end: range.end, attribute });
        Ok(())
    }

    /// The attributes that apply at the given `index`, in the order in
    /// which they were applied.
    ///
    /// This doesn't handle conflicting attributes, it just reports everything.
    pub fn attributes_at(&self, index: usize) -> (found: Vec<&Attr>)
        ensures
            found@.unref() == attributes_containing(self@.spans, index as int),
    {
        let mut found: Vec<&Attr> = Vec::new();
        let mut i: usize = 0;
        while i < self.attributes.len()
            invariant
                i <= self.attributes.len(),
                found@.unref() == attributes_containing(self.attributes@.take(i as int), index as int),
            decreases self.attributes.len() - i,
        {
            broadcast use Seq::lemma_filter_map_take_succ;

            let ghost before = found@;
            let span = &self.attributes[i];
            if span.start <= index && index < span.end {
                found.push(&span.attribute);
                assert(found@.unref() == before.unref().push(span.attribute));
            }
            i += 1;
        }
        assert(self.attributes@.take(i as int) == self.attributes@);
        found
    }

    /// The attributes that apply to the given `range`, in the order in
    /// which they were applied.
    ///
    /// A span applies when it begins before the range ends and ends after
    /// the range begins. A span that only touches the range does not apply.
    ///
    /// This doesn't handle conflicting attributes, it just reports everything.
    pub fn attributes_for_range(&self, range: Range<usize>) -> (found: Vec<&Attr>)
        ensures
            found@.unref() == attributes_overlapping(
                self@.spans,
                range.start as int,
                range.end as int,
            ),
    {
        let mut found: Vec<&Attr> = Vec::new();
        let mut i: usize = 0;
        while i < self.attributes.len()
            invariant
                i <= self.attributes.len(),
                found@.unref() == attributes_overlapping(
                    self.attributes@.take(i as int),
                    range.start as int,
                    range.end as int,
                ),
            decreases self.attributes.len() - i,
        {
            broadcast use Seq::lemma_filter_map_take_succ;

            let ghost before = found@;
            let span = &self.attributes[i];
            if span.start < range.end && span.end > range.start {
                found.push(&span.attribute);
                assert(found@.unref() == before.unref().push(span.attribute));
            }
            i += 1;
        }
        assert(self.attributes@.take(i as int) == self.attributes@);
        found
    }
}

impl<T: EditableTextStorage, Attr: EditBehavior> AttributedText<T, Attr> {
    /// Whether `[start, end)` can be deleted from the text: the text may be
    /// cut at both ends, and every span can be rebased.
    pub open spec fn can_delete(&self, start: int, end: int) -> bool {
        &&& self@.text.is_boundary(start)
        &&& self@.text.is_boundary(end)
        &&& forall|i: int|
            0 <= i < self@.spans.len() ==> rebase_fits(
                (#[trigger] self@.spans[i]).start as int,
                self@.spans[i].end as int,
                start,
                end,
            )
    }

    /// What deleting `range` does: a range that is inverted or reaches
    /// beyond the end of the text is refused, and everything is left as it
    /// was; any other range is taken out of the text, and the spans are
    /// rebased.
    pub open spec fn deleted(
        &self,
        range: Range<usize>,
        result: Result<(), DeleteError>,
        after: Self,
    ) -> bool {
        match result {
            Ok(()) => {
                &&& range.start <= range.end <= self@.text.content().len()
                &&& after@.text.content() == splice(
                    self@.text.content(),
                    range.start as int,
                    range.end as int,
                    Seq::empty(),
                )
                &&& after@.spans == rebased_spans(
                    self@.spans,
                    range.start as int,
                    range.end as int,
                )
            },
            Err(DeleteError::InvalidRange) => {
                &&& range.start > range.end || range.end > self@.text.content().len()
                &&& after == *self
            },
        }
    }

    /// Delete `deletion_range` from the text and rebase the spans.
    ///
    /// A range that is inverted or reaches beyond the end of the text is
    /// refused, and everything is left as it was. For any other range the
    /// text must allow a cut at both of its ends, and no span may be moved
    /// to before the start of the text, which could only happen to an
    /// inverted one.
    pub fn delete(&mut self, deletion_range: Range<usize>) -> (result: Result<(), DeleteError>)
        requires
            deletion_range.start <= deletion_range.end <= old(self)@.text.content().len()
                ==> old(self).can_delete(deletion_range.start as int, deletion_range.end as int),
        ensures
            old(self).deleted(deletion_range, result, *final(self)),
            old(self).well_formed() ==> final(self).well_formed(),
    {
        let text_len: usize = self.text.len();
        if deletion_range.start > deletion_range.end || deletion_range.end > text_len {
            return Err(DeleteError::InvalidRange);
        }
        proof {
            if old(self).well_formed() {
                lemma_rebased_spans_within(old(self)@.spans, deletion_range, text_len as int);
            }
        }
        let cut = deletion_range.start..deletion_range.end;
        self.text.replace_range(deletion_range, "");
        proof {
            reveal_strlit("");
        }

        let mut spans: Vec<Span<Attr>> = Vec::new();
        std::mem::swap(&mut self.attributes, &mut spans);
        let ghost before = spans@;
        let ghost text = self.text;
        for span in iter: spans
            invariant
                cut.start <= cut.end,
                self.text == text,
                iter.seq() == before,
                forall|i: int|
                    0 <= i < before.len() ==> rebase_fits(
                        (#[trigger] before[i]).start as int,
                        before[i].end as int,
                        cut.start as int,
                        cut.end as int,
                    ),
                self.attributes@ == rebased_spans(
                    before.take(iter.index() as int),
                    cut.start as int,
                    cut.end as int,
                ),
        {
            broadcast use Seq::lemma_filter_map_take_succ;

            if let Some(kept) = span.rebase(&cut) {
                self.attributes.push(kept);
            }
        }
        assert(before.take(before.len() as int) == before);
        Ok(())
    }
}

impl<Attr: EditBehavior> AttributedText<String, Attr> {
    /// Delete `deletion_range` from the text and rebase the spans, if that
    /// can be done.
    ///
    /// This is [`delete`](Self::delete) for callers that do not know
    /// whether the range can be deleted: where an end of the range is not
    /// on a `char` boundary, or a span cannot be rebased, nothing is
    /// changed and `None` is returned.
    pub fn try_delete(&mut self, deletion_range: Range<usize>) -> (result: Option<
        Result<(), DeleteError>,
    >)
        ensures
            result is Some <==> (deletion_range.start <= deletion_range.end <= old(
                self,
            )@.text.content().len() ==> old(self).can_delete(
                deletion_range.start as int,
                deletion_range.end as int,
            )),
            result matches Some(done) ==> old(self).deleted(deletion_range, done, *final(self)),
            result is None ==> *final(self) == *old(self),
            old(self).well_formed() ==> final(self).well_formed(),
    {
        let text_len: usize = TextStorage::len(&self.text);
        if deletion_range.start <= deletion_range.end && deletion_range.end <= text_len {
            if !self.text.as_str().is_char_boundary(deletion_range.start)
                || !self.text.as_str().is_char_boundary(deletion_range.end) {
                return None;
            }
            let deleted_len: usize = deletion_range.end - deletion_range.start;
            let mut i: usize = 0;
            while i < self.attributes.len()
                invariant
                    i <= self.attributes.len(),
                    *self == *old(self),
                    deletion_range.start <= deletion_range.end <= self@.text.content().len(),
                    deleted_len == deletion_range.end - deletion_range.start,
                    forall|j: int|
                        0 <= j < i ==> rebase_fits(
                            (#[trigger] self.attributes@[j]).start as int,
                            self.attributes@[j].end as int,
                            deletion_range.start as int,
                            deletion_range.end as int,
                        ),
                decreases self.attributes.len() - i,
            {
                let span = &self.attributes[i];
                if span.start >= deletion_range.end && span.end > deletion_range.start && span.end
                    < deleted_len {
                    assert(!rebase_fits(
                        old(self)@.spans[i as int].start as int,
                        old(self)@.spans[i as int].end as int,
                        deletion_range.start as int,
                        deletion_range.end as int,
                    ));
                    return None;
                }
                i += 1;
            }
        }
        Some(self.delete(deletion_range))
    }
}

} // verus!
