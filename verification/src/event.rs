//! The event type the library caches and returns, modelled as plain values:
//! identifiers, keys and signatures are byte strings, timestamps and kinds
//! are integers, and tags are lists of byte strings. The HTTP layer converts
//! between this shape and the relay client's own event type.

use vstd::prelude::*;

verus! {

/// One tag of an event: an ordered list of byte strings.
#[derive(Debug, Clone, PartialEq, Eq)]
pub struct Tag {
    pub items: Vec<Vec<u8>>,
}

/// Mathematical model of a `Tag`.
#[verifier::ext_equal]
pub struct TagView {
    pub items: Seq<Seq<u8>>,
}

impl DeepView for Tag {
    type V = TagView;

    open spec fn deep_view(&self) -> TagView {
        TagView { items: self.items.deep_view() }
    }
}

/// A signed event as the cache sees it. The library never interprets the
/// fields; it only keys, stores and returns them byte-faithfully.
#[derive(Debug, Clone, PartialEq, Eq)]
pub struct Event {
    pub id: Vec<u8>,
    pub pubkey: Vec<u8>,
    pub created_at: u64,
    pub kind: u64,
    pub tags: Vec<Tag>,
    pub content: Vec<u8>,
    pub sig: Vec<u8>,
}

/// Mathematical model of an `Event`.
#[verifier::ext_equal]
pub struct EventView {
    pub id: Seq<u8>,
    pub pubkey: Seq<u8>,
    pub created_at: u64,
    pub kind: u64,
    pub tags: Seq<TagView>,
    pub content: Seq<u8>,
    pub sig: Seq<u8>,
}

impl DeepView for Event {
    type V = EventView;

    open spec fn deep_view(&self) -> EventView {
        EventView {
            id: self.id.deep_view(),
            pubkey: self.pubkey.deep_view(),
            created_at: self.created_at,
            kind: self.kind,
            tags: self.tags.deep_view(),
            content: self.content.deep_view(),
            sig: self.sig.deep_view(),
        }
    }
}

} // verus!
