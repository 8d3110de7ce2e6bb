//! Query filters, modelled as plain values. A filter constrains events by
//! identifier, author, kind, time range, tags and result count; a query is
//! an ordered list of filters. Absent constraints are kept distinct from
//! empty ones, so the canonical encoding of a filter is unambiguous.

use vstd::prelude::*;

verus! {

/// One tag constraint: a tag letter together with the accepted values.
#[derive(Debug, Clone, PartialEq, Eq)]
pub struct TagQuery {
    pub letter: u8,
    pub values: Vec<Vec<u8>>,
}

/// Mathematical model of a `TagQuery`.
#[verifier::ext_equal]
pub struct TagQueryView {
    pub letter: u8,
    pub values: Seq<Seq<u8>>,
}

impl DeepView for TagQuery {
    type V = TagQueryView;

    open spec fn deep_view(&self) -> TagQueryView {
        TagQueryView { letter: self.letter, values: self.values.deep_view() }
    }
}

/// A predicate over events. `None` means the dimension is unconstrained;
/// `Some` of an empty list constrains it to match nothing.
#[derive(Debug, Clone, PartialEq, Eq)]
pub struct Filter {
    pub ids: Option<Vec<Vec<u8>>>,
    pub authors: Option<Vec<Vec<u8>>>,
    pub kinds: Option<Vec<u64>>,
    pub since: Option<u64>,
    pub until: Option<u64>,
    pub limit: Option<u64>,
    pub search: Option<Vec<u8>>,
    pub tags: Vec<TagQuery>,
}

/// Mathematical model of a `Filter`.
#[verifier::ext_equal]
pub struct FilterView {
    pub ids: Option<Seq<Seq<u8>>>,
    pub authors: Option<Seq<Seq<u8>>>,
    pub kinds: Option<Seq<u64>>,
    pub since: Option<u64>,
    pub until: Option<u64>,
    pub limit: Option<u64>,
    pub search: Option<Seq<u8>>,
    pub tags: Seq<TagQueryView>,
}

impl DeepView for Filter {
    type V = FilterView;

    open spec fn deep_view(&self) -> FilterView {
        FilterView {
            ids: self.ids.deep_view(),
            authors: self.authors.deep_view(),
            kinds: self.kinds.deep_view(),
            since: self.since,
            until: self.until,
            limit: self.limit,
            search: self.search.deep_view(),
            tags: self.tags.deep_view(),
        }
    }
}

/// The model of a filter with no constraints at all.
pub open spec fn empty_filter() -> FilterView {
    FilterView {
        ids: None,
        authors: None,
        kinds: None,
        since: None,
        until: None,
        limit: None,
        search: None,
        tags: Seq::empty(),
    }
}

impl Filter {
    /// A filter with no constraints.
    pub fn new() -> (r: Filter)
        ensures
            r.deep_view() == empty_filter(),
    {
        let r = Filter {
            ids: None,
            authors: None,
            kinds: None,
            since: None,
            until: None,
            limit: None,
            search: None,
            tags: Vec::new(),
        };
        proof {
            assert(r.deep_view().tags =~= empty_filter().tags);
        }
        r
    }

    /// Constrains the filter to the single event identifier given.
    pub fn id(self, event_id: Vec<u8>) -> (r: Filter)
        ensures
            r.deep_view() == (FilterView {
                ids: Some(seq![event_id.deep_view()]),
                ..self.deep_view()
            }),
    {
        let mut only: Vec<Vec<u8>> = Vec::new();
        only.push(event_id);
        let r = Filter { ids: Some(only), ..self };
        proof {
            assert(r.deep_view().ids.unwrap() =~= seq![event_id.deep_view()]);
        }
        r
    }
}

} // verus!
