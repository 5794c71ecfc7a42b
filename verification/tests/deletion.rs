use std::ops::Range;

use styled_text::attributed_text::{AttributedText, DeleteError, Span};
use styled_text::edit_behavior::{EditBehavior, SpanEditAction};

#[derive(Debug, PartialEq)]
enum TestAttribute {
    Keep,
    Remove,
}

impl EditBehavior for TestAttribute {
    // The policy as the library's contracts speak of it: what `on_edit` returns.
    fn edit_action(&self) -> SpanEditAction {
        self.on_edit()
    }

    fn on_edit(&self) -> SpanEditAction {
        match self {
            Self::Keep => SpanEditAction::Keep,
            Self::Remove => SpanEditAction::Remove,
        }
    }
}

fn span(range: Range<usize>, attribute: TestAttribute) -> Span<TestAttribute> {
    Span { start: range.start, end: range.end, attribute }
}

/// "Hello World" with one span, after `cut` has been deleted: the spans left.
fn spans_after(range: Range<usize>, attribute: TestAttribute, cut: Range<usize>) -> Vec<Span<TestAttribute>> {
    let mut text = AttributedText::new(String::from("Hello World"));
    text.apply_attribute(range, attribute).unwrap();
    text.delete(cut).unwrap();
    let mut left = Vec::new();
    for s in text.spans() {
        left.push(Span {
            start: s.start,
            end: s.end,
            attribute: match s.attribute {
                TestAttribute::Keep => TestAttribute::Keep,
                TestAttribute::Remove => TestAttribute::Remove,
            },
        });
    }
    left
}

#[test]
fn test_delete_basic() {
    let mut text = AttributedText::new(String::from("Hello World"));
    text.apply_attribute(0..11, TestAttribute::Keep).unwrap();

    text.delete(5..11).unwrap(); // Delete " World"

    assert_eq!(text.text(), "Hello");
    assert_eq!(text.spans(), &vec![span(0..5, TestAttribute::Keep)]);
}

#[test]
fn test_delete_overlapping_remove() {
    let mut text = AttributedText::new(String::from("Hello World"));
    text.apply_attribute(0..11, TestAttribute::Remove).unwrap();

    text.delete(5..6).unwrap(); // Delete " "

    assert_eq!(text.text(), "HelloWorld");
    assert!(text.spans().is_empty());
}

#[test]
fn delete_refuses_an_inverted_range() {
    let mut text = AttributedText::new(String::from("Hello World"));
    text.apply_attribute(0..11, TestAttribute::Keep).unwrap();
    assert_eq!(text.delete(6..5), Err(DeleteError::InvalidRange));
    assert_eq!(text.text(), "Hello World");
    assert_eq!(text.spans(), &vec![span(0..11, TestAttribute::Keep)]);
}

#[test]
fn delete_refuses_a_range_beyond_the_text() {
    let mut text = AttributedText::new(String::from("Hello World"));
    text.apply_attribute(0..11, TestAttribute::Remove).unwrap();
    assert_eq!(text.delete(5..12), Err(DeleteError::InvalidRange));
    assert_eq!(text.delete(12..12), Err(DeleteError::InvalidRange));
    assert_eq!(text.delete(usize::MAX..0), Err(DeleteError::InvalidRange));
    assert_eq!(text.text(), "Hello World");
    assert_eq!(text.spans(), &vec![span(0..11, TestAttribute::Remove)]);
}

#[test]
fn delete_of_nothing_keeps_the_text() {
    let mut text = AttributedText::new(String::from("Hello World"));
    text.apply_attribute(0..5, TestAttribute::Keep).unwrap();
    text.apply_attribute(6..11, TestAttribute::Remove).unwrap();
    assert_eq!(text.delete(5..5), Ok(()));
    assert_eq!(text.text(), "Hello World");
    assert_eq!(
        text.spans(),
        &vec![span(0..5, TestAttribute::Keep), span(6..11, TestAttribute::Remove)]
    );
}

#[test]
fn delete_of_everything() {
    let mut text = AttributedText::new(String::from("Hello World"));
    text.apply_attribute(0..11, TestAttribute::Keep).unwrap();
    text.apply_attribute(2..4, TestAttribute::Keep).unwrap();
    assert_eq!(text.delete(0..11), Ok(()));
    assert_eq!(text.text(), "");
    assert!(text.spans().is_empty());
}

#[test]
fn a_span_after_the_cut_moves_left() {
    assert_eq!(
        spans_after(6..11, TestAttribute::Keep, 1..4),
        vec![span(3..8, TestAttribute::Keep)]
    );
    assert_eq!(
        spans_after(6..11, TestAttribute::Remove, 1..4),
        vec![span(3..8, TestAttribute::Remove)]
    );
    // A span that begins right where the cut ends moves too.
    assert_eq!(
        spans_after(4..9, TestAttribute::Remove, 1..4),
        vec![span(1..6, TestAttribute::Remove)]
    );
}

#[test]
fn a_span_before_the_cut_stays() {
    assert_eq!(
        spans_after(0..5, TestAttribute::Keep, 6..11),
        vec![span(0..5, TestAttribute::Keep)]
    );
    assert_eq!(
        spans_after(0..5, TestAttribute::Remove, 6..11),
        vec![span(0..5, TestAttribute::Remove)]
    );
    // A span that ends right where the cut begins stays too.
    assert_eq!(
        spans_after(0..5, TestAttribute::Remove, 5..11),
        vec![span(0..5, TestAttribute::Remove)]
    );
}

#[test]
fn a_kept_span_inside_the_cut_is_dropped() {
    assert!(spans_after(5..8, TestAttribute::Keep, 5..8).is_empty());
    assert!(spans_after(6..7, TestAttribute::Keep, 5..8).is_empty());
    assert!(spans_after(5..7, TestAttribute::Keep, 5..8).is_empty());
    assert!(spans_after(6..8, TestAttribute::Keep, 5..8).is_empty());
    assert!(spans_after(6..7, TestAttribute::Remove, 5..8).is_empty());
    // An empty span strictly inside the cut goes with it.
    assert!(spans_after(6..6, TestAttribute::Keep, 5..8).is_empty());
}

#[test]
fn an_empty_span_at_an_end_of_the_cut_is_not_touched() {
    assert_eq!(
        spans_after(5..5, TestAttribute::Remove, 5..8),
        vec![span(5..5, TestAttribute::Remove)]
    );
    assert_eq!(
        spans_after(8..8, TestAttribute::Remove, 5..8),
        vec![span(5..5, TestAttribute::Remove)]
    );
}

#[test]
fn a_kept_span_around_the_cut_closes_the_gap() {
    assert_eq!(
        spans_after(0..11, TestAttribute::Keep, 5..6),
        vec![span(0..10, TestAttribute::Keep)]
    );
    assert_eq!(
        spans_after(2..9, TestAttribute::Keep, 3..8),
        vec![span(2..4, TestAttribute::Keep)]
    );
}

#[test]
fn a_kept_span_cut_at_its_end_keeps_what_lies_before_the_cut() {
    assert_eq!(
        spans_after(3..8, TestAttribute::Keep, 5..10),
        vec![span(3..5, TestAttribute::Keep)]
    );
    // The cut ends where the span ends: not strictly inside it.
    assert_eq!(
        spans_after(3..8, TestAttribute::Keep, 5..8),
        vec![span(3..5, TestAttribute::Keep)]
    );
}

#[test]
fn a_kept_span_cut_at_its_start_is_dropped_with_its_tail() {
    // The span reaches well beyond the cut, and still nothing of it is left.
    assert!(spans_after(5..11, TestAttribute::Keep, 2..7).is_empty());
    // The cut begins where the span begins: not strictly inside it.
    assert!(spans_after(2..11, TestAttribute::Keep, 2..7).is_empty());
}

#[test]
fn a_touched_span_with_the_remove_policy_is_dropped() {
    assert!(spans_after(3..8, TestAttribute::Remove, 5..10).is_empty());
    assert!(spans_after(5..11, TestAttribute::Remove, 2..7).is_empty());
    assert!(spans_after(2..9, TestAttribute::Remove, 3..8).is_empty());
}

#[test]
fn delete_rebases_every_span_in_order() {
    let mut text = AttributedText::new(String::from("Hello World"));
    text.apply_attribute(6..11, TestAttribute::Remove).unwrap(); // after
    text.apply_attribute(0..11, TestAttribute::Keep).unwrap(); // around
    text.apply_attribute(3..5, TestAttribute::Remove).unwrap(); // touched
    text.apply_attribute(0..2, TestAttribute::Remove).unwrap(); // before
    text.apply_attribute(2..6, TestAttribute::Keep).unwrap(); // inside
    text.apply_attribute(1..4, TestAttribute::Keep).unwrap(); // cut at its end

    assert_eq!(text.delete(2..6), Ok(()));

    assert_eq!(text.text(), "HeWorld");
    assert_eq!(
        text.spans(),
        &vec![
            span(2..7, TestAttribute::Remove),
            span(0..7, TestAttribute::Keep),
            span(0..2, TestAttribute::Remove),
            span(1..2, TestAttribute::Keep),
        ]
    );
    assert_eq!(text.attributes_at(1), vec![&TestAttribute::Keep, &TestAttribute::Remove, &TestAttribute::Keep]);
}

#[test]
fn delete_cuts_whole_characters() {
    // "héllo wörld": 'é' is bytes 1..3 and 'ö' is bytes 8..10.
    let mut text = AttributedText::new(String::from("héllo wörld"));
    text.apply_attribute(0..13, TestAttribute::Keep).unwrap();
    assert_eq!(text.delete(1..3), Ok(()));
    assert_eq!(text.text(), "hllo wörld");
    assert_eq!(text.spans(), &vec![span(0..11, TestAttribute::Keep)]);
}

#[test]
fn rebase_of_one_span() {
    assert_eq!(span(0..5, TestAttribute::Remove).rebase(&(5..8)), Some(span(0..5, TestAttribute::Remove)));
    assert_eq!(span(8..11, TestAttribute::Remove).rebase(&(5..8)), Some(span(5..8, TestAttribute::Remove)));
    assert_eq!(span(0..11, TestAttribute::Keep).rebase(&(5..8)), Some(span(0..8, TestAttribute::Keep)));
    assert_eq!(span(0..11, TestAttribute::Remove).rebase(&(5..8)), None);
    assert_eq!(span(3..7, TestAttribute::Keep).rebase(&(5..8)), Some(span(3..5, TestAttribute::Keep)));
    assert_eq!(span(6..11, TestAttribute::Keep).rebase(&(5..8)), None);
    assert_eq!(span(5..8, TestAttribute::Keep).rebase(&(5..8)), None);
}

#[test]
fn the_default_action_is_keep() {
    assert_eq!(SpanEditAction::default(), SpanEditAction::Keep);
}

#[test]
fn try_delete_deletes_what_can_be_deleted() {
    let mut text = AttributedText::new(String::from("Hello World"));
    text.apply_attribute(0..11, TestAttribute::Keep).unwrap();
    assert_eq!(text.try_delete(5..11), Some(Ok(())));
    assert_eq!(text.text(), "Hello");
    assert_eq!(text.spans(), &vec![span(0..5, TestAttribute::Keep)]);
}

#[test]
fn try_delete_refuses_as_delete_does() {
    let mut text = AttributedText::new(String::from("Hello World"));
    text.apply_attribute(0..11, TestAttribute::Keep).unwrap();
    assert_eq!(text.try_delete(6..5), Some(Err(DeleteError::InvalidRange)));
    assert_eq!(text.try_delete(5..12), Some(Err(DeleteError::InvalidRange)));
    assert_eq!(text.text(), "Hello World");
    assert_eq!(text.spans(), &vec![span(0..11, TestAttribute::Keep)]);
}

#[test]
fn try_delete_does_not_split_a_character() {
    // 'é' is bytes 1..3.
    let mut text = AttributedText::new(String::from("héllo"));
    text.apply_attribute(0..6, TestAttribute::Keep).unwrap();
    assert_eq!(text.try_delete(0..2), None);
    assert_eq!(text.try_delete(2..4), None);
    assert_eq!(text.text(), "héllo");
    assert_eq!(text.spans(), &vec![span(0..6, TestAttribute::Keep)]);
    assert_eq!(text.try_delete(1..3), Some(Ok(())));
    assert_eq!(text.text(), "hllo");
    assert_eq!(text.spans(), &vec![span(0..4, TestAttribute::Keep)]);
}

#[test]
fn try_delete_does_not_move_a_span_before_the_start() {
    let mut text = AttributedText::new(String::from("Hello World"));
    text.apply_attribute(3..5, TestAttribute::Keep).unwrap();
    text.apply_attribute(9..2, TestAttribute::Keep).unwrap(); // inverted
    assert_eq!(text.try_delete(1..9), None);
    assert_eq!(text.text(), "Hello World");
    assert_eq!(
        text.spans(),
        &vec![span(3..5, TestAttribute::Keep), span(9..2, TestAttribute::Keep)]
    );
    // Where the inverted span can be moved, it is.
    assert_eq!(text.try_delete(0..1), Some(Ok(())));
    assert_eq!(text.text(), "ello World");
    assert_eq!(
        text.spans(),
        &vec![span(2..4, TestAttribute::Keep), span(8..1, TestAttribute::Keep)]
    );
}
