use styled_text::attributed_text::AttributedText;

#[derive(Debug, PartialEq)]
enum Style {
    Bold,
    Italic,
    Underline,
}

fn sample() -> AttributedText<&'static str, Style> {
    // Hello World
    // 01234567890
    let mut at = AttributedText::new("Hello World");
    at.apply_attribute(6..11, Style::Underline).unwrap();
    at.apply_attribute(0..5, Style::Bold).unwrap();
    at.apply_attribute(3..8, Style::Italic).unwrap();
    at.apply_attribute(0..5, Style::Bold).unwrap();
    at
}

#[test]
fn attributes_at_finds_the_spans_that_contain_the_index() {
    let at = sample();
    assert_eq!(at.attributes_at(0), vec![&Style::Bold, &Style::Bold]);
    assert_eq!(at.attributes_at(3), vec![&Style::Bold, &Style::Italic, &Style::Bold]);
    assert_eq!(at.attributes_at(5), vec![&Style::Italic]);
    assert_eq!(at.attributes_at(7), vec![&Style::Underline, &Style::Italic]);
    assert_eq!(at.attributes_at(10), vec![&Style::Underline]);
}

#[test]
fn attributes_at_counts_the_start_in_and_the_end_out() {
    let mut at = AttributedText::new("Hello World");
    at.apply_attribute(3..8, Style::Italic).unwrap();
    assert!(at.attributes_at(2).is_empty());
    assert_eq!(at.attributes_at(3), vec![&Style::Italic]);
    assert_eq!(at.attributes_at(7), vec![&Style::Italic]);
    assert!(at.attributes_at(8).is_empty());
    assert!(at.attributes_at(11).is_empty());
    assert!(at.attributes_at(usize::MAX).is_empty());
}

#[test]
fn attributes_at_never_finds_an_empty_or_inverted_span() {
    let mut at = AttributedText::new("Hello World");
    at.apply_attribute(4..4, Style::Bold).unwrap();
    at.apply_attribute(6..2, Style::Italic).unwrap();
    for index in 0..12 {
        assert!(at.attributes_at(index).is_empty());
    }
}

#[test]
fn attributes_at_without_spans() {
    let at: AttributedText<&str, Style> = AttributedText::new("Hello World");
    assert!(at.attributes_at(0).is_empty());
}

#[test]
fn attributes_for_range_finds_the_spans_that_overlap() {
    let at = sample();
    assert_eq!(
        at.attributes_for_range(0..11),
        vec![&Style::Underline, &Style::Bold, &Style::Italic, &Style::Bold]
    );
    assert_eq!(at.attributes_for_range(0..3), vec![&Style::Bold, &Style::Bold]);
    assert_eq!(at.attributes_for_range(4..7), vec![&Style::Underline, &Style::Bold, &Style::Italic, &Style::Bold]);
    assert_eq!(at.attributes_for_range(8..11), vec![&Style::Underline]);
    assert_eq!(at.attributes_for_range(5..6), vec![&Style::Italic]);
}

#[test]
fn attributes_for_range_leaves_out_spans_that_only_touch() {
    let mut at = AttributedText::new("Hello World");
    at.apply_attribute(3..8, Style::Italic).unwrap();
    assert!(at.attributes_for_range(0..3).is_empty());
    assert!(at.attributes_for_range(8..11).is_empty());
    assert_eq!(at.attributes_for_range(0..4), vec![&Style::Italic]);
    assert_eq!(at.attributes_for_range(7..11), vec![&Style::Italic]);
}

#[test]
fn attributes_for_an_empty_range() {
    let mut at = AttributedText::new("Hello World");
    at.apply_attribute(3..8, Style::Italic).unwrap();
    // At either end of the span, and away from it, nothing is found.
    assert!(at.attributes_for_range(3..3).is_empty());
    assert!(at.attributes_for_range(8..8).is_empty());
    assert!(at.attributes_for_range(0..0).is_empty());
    assert!(at.attributes_for_range(11..11).is_empty());
    // A span that begins before the point and ends after it is found.
    assert_eq!(at.attributes_for_range(5..5), vec![&Style::Italic]);
}

#[test]
fn attributes_for_an_inverted_range() {
    let mut at = AttributedText::new("Hello World");
    at.apply_attribute(3..8, Style::Italic).unwrap();
    assert!(at.attributes_for_range(8..3).is_empty());
    assert_eq!(at.attributes_for_range(7..4), vec![&Style::Italic]);
}

#[test]
fn queries_are_repeatable() {
    let at = sample();
    assert_eq!(at.attributes_at(3), at.attributes_at(3));
    assert_eq!(at.attributes_for_range(2..9), at.attributes_for_range(2..9));
    assert_eq!(at.spans().len(), 4);
}

#[test]
fn a_later_attribute_is_found_after_the_earlier_ones() {
    let mut at = sample();
    let before: Vec<Style> = at
        .attributes_at(4)
        .into_iter()
        .map(|style| match style {
            Style::Bold => Style::Bold,
            Style::Italic => Style::Italic,
            Style::Underline => Style::Underline,
        })
        .collect();
    at.apply_attribute(4..5, Style::Underline).unwrap();
    let after = at.attributes_at(4);
    assert_eq!(after.len(), before.len() + 1);
    for (found, expected) in after.iter().zip(before.iter()) {
        assert_eq!(*found, expected);
    }
    assert_eq!(after[after.len() - 1], &Style::Underline);
}
