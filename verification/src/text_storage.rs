//! The text that an attributed text wraps, seen as a sequence of bytes.

use std::ops::Range;
use std::sync::Arc;
use vstd::prelude::*;
use vstd::string::StringSliceAdditionalSpecFns;
use vstd::utf8::{encode_utf8, is_char_boundary};

verus! {

/// A block of text that an attributed text can wrap.
///
/// Indices into the text count bytes of its content.
pub trait TextStorage {
    /// The bytes of the text.
    spec fn content(&self) -> Seq<u8>;

    /// The length of the text.
    fn len(&self) -> (n: usize)
        ensures
            n == self.content().len(),
    ;

    /// Whether the text is empty.
    fn is_empty(&self) -> (empty: bool)
        ensures
            empty == (self.content().len() == 0),
    {
        self.len() == 0
    }
}

/// A text whose content can be edited in place.
pub trait EditableTextStorage: TextStorage {
    /// Whether the text may be cut at `index`.
    spec fn is_boundary(&self, index: int) -> bool;

    /// Removes `range` from the text and puts `replacement_text` in its place.
    ///
    /// The replacement need not be as long as the range. Both ends of the
    /// range must be within the text and on a boundary.
    fn replace_range(&mut self, range: Range<usize>, replacement_text: &str)
        requires
            range.start <= range.end <= old(self).content().len(),
            old(self).is_boundary(range.start as int),
            old(self).is_boundary(range.end as int),
        ensures
            final(self).content() == splice(
                old(self).content(),
                range.start as int,
                range.end as int,
                replacement_text.spec_bytes(),
            ),
    ;
}

/// `content` with the bytes in `[start, end)` replaced by `replacement`.
pub open spec fn splice(content: Seq<u8>, start: int, end: int, replacement: Seq<u8>) -> Seq<u8>
    recommends
        0 <= start <= end <= content.len(),
{
    content.subrange(0, start) + replacement + content.subrange(end, content.len() as int)
}

impl TextStorage for String {
    open spec fn content(&self) -> Seq<u8> {
        encode_utf8(self@)
    }

    fn len(&self) -> (n: usize) {
        self.as_str().as_bytes().len()
    }
}

impl EditableTextStorage for String {
    open spec fn is_boundary(&self, index: int) -> bool {
        is_char_boundary(encode_utf8(self@), index)
    }

    fn replace_range(&mut self, range: Range<usize>, replacement_text: &str) {
        string_replace_range(self, range, replacement_text);
    }
}

/// `String::replace_range` of the standard library, on a half-open range.
///
/// The standard library documents that the call removes the range and puts
/// the replacement in its place, and that it panics when the range is out
/// of bounds or one of its ends is not on a `char` boundary. The contract
/// leaves those inputs out and states the new content byte by byte.
#[verifier::external_body]
fn string_replace_range(text: &mut String, range: Range<usize>, replacement_text: &str)
    requires
        range.start <= range.end <= encode_utf8(old(text)@).len(),
        is_char_boundary(encode_utf8(old(text)@), range.start as int),
        is_char_boundary(encode_utf8(old(text)@), range.end as int),
    ensures
        encode_utf8(final(text)@) == splice(
            encode_utf8(old(text)@),
            range.start as int,
            range.end as int,
            replacement_text.spec_bytes(),
        ),
{
    text.replace_range(range, replacement_text);
}

impl<'a> TextStorage for &'a str {
    open spec fn content(&self) -> Seq<u8> {
        encode_utf8(self@)
    }

    fn len(&self) -> (n: usize) {
        self.as_bytes().len()
    }
}

impl TextStorage for Arc<str> {
    open spec fn content(&self) -> Seq<u8> {
        encode_utf8(self@)
    }

    fn len(&self) -> (n: usize) {
        self.as_bytes().len()
    }
}

} // verus!
