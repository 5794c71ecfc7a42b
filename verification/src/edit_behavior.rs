//! How an attribute reacts when the text under its span is edited.

use vstd::prelude::*;

verus! {

/// What becomes of a span whose covered text has been edited.
#[derive(Clone, Copy, Debug, PartialEq, Eq, Structural)]
pub enum SpanEditAction {
    /// The span survives the edit; its end points are rebased.
    ///
    /// Typical of presentation attributes. This is the default.
    Keep,
    /// The span is discarded by the edit.
    ///
    /// Typical of attributes whose meaning depends on the exact text
    /// they cover, such as spelling or diagnostic markers.
    Remove,
}

impl Default for SpanEditAction {
    fn default() -> (action: Self)
        ensures
            action == SpanEditAction::Keep,
    {
        SpanEditAction::Keep
    }
}

/// The edit policy of an attribute value.
pub trait EditBehavior {
    /// The policy of this attribute, as a mathematical value.
    ///
    /// It is [`SpanEditAction::Keep`] unless an implementation says otherwise.
    open spec fn edit_action(&self) -> SpanEditAction {
        SpanEditAction::Keep
    }

    /// Decide whether the attribute is kept or removed when the text
    /// under its span has been edited.
    fn on_edit(&self) -> (action: SpanEditAction)
        ensures
            action == self.edit_action(),
    ;
}

} // verus!
