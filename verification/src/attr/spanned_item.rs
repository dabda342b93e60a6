//! An item paired with the source token it came from.
//!
//! Directive values keep the token that introduced them so the caller can
//! point a diagnostic at it. The token is optional: values synthesized by the
//! engine (such as the default strategy) carry none. Identity lives in the
//! item alone; the token never takes part in any comparison the engine makes.

use vstd::prelude::*;

verus! {

/// An `Item` together with the optional source token (`Span`) it was written
/// as. Field `0` is the token, field `1` the item.
#[derive(Debug, Clone, PartialEq, Eq)]
pub struct SpannedItem<Span, Item>(pub Option<Span>, pub Item);

impl<Span: DeepView, Item: DeepView> DeepView for SpannedItem<Span, Item> {
    type V = (Option<Span::V>, Item::V);

    open spec fn deep_view(&self) -> Self::V {
        (self.0.deep_view(), self.1.deep_view())
    }
}

impl<Span, Item> SpannedItem<Span, Item> {
    /// Pairs an item with no source token.
    pub fn new_empty(item: Item) -> (r: Self)
        ensures
            r.0 is None,
            r.1 == item,
    {
        Self(None, item)
    }

    /// Pairs an item with the token it was written as.
    pub fn new(span: Span, item: Item) -> (r: Self)
        ensures
            r.0 == Some(span),
            r.1 == item,
    {
        Self(Some(span), item)
    }
}

} // verus!
