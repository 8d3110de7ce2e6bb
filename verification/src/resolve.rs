//! The cache-aside coordinator. Serving a query alternates between this
//! library's decisions and outside work — a backend read, an upstream
//! fetch, a backend write — so the coordinator is a state machine: each
//! function takes what the outside work returned and decides the next
//! step. The driver that owns the connections performs each step and feeds
//! the outcome back; every decision in between is verified. The mandatory
//! order — validate, then read, then fetch, then write — is the order in
//! which the machine emits the steps.

use vstd::prelude::*;

use crate::codec;
use crate::codec::{dec_events, enc_events, CodecError};
use crate::config::{Limit, Redis};
use crate::event::{Event, EventView};
use crate::filter::{Filter, FilterView};
use crate::fingerprint::{make_hash, spec_fingerprint};

verus! {

/// Errors a `resolve` run can surface to the caller. Cache trouble is
/// never among them: a corrupt or unreachable cache only costs the
/// short-cut, not the request.
#[derive(Debug, Clone, PartialEq, Eq)]
pub enum QueryError {
    /// The query holds more filters than the configured bound allows;
    /// carries that bound.
    TooManyFilters(usize),
    /// The relay network call failed; carries the upstream message.
    UpstreamFetchFailed(String),
    /// The relay network call exceeded the configured timeout.
    UpstreamTimeout,
    /// A get-by-id lookup matched no event.
    EventNotFound,
}

/// Mathematical model of a `QueryError`.
#[verifier::ext_equal]
pub enum QueryErrorView {
    TooManyFilters(usize),
    UpstreamFetchFailed(Seq<char>),
    UpstreamTimeout,
    EventNotFound,
}

impl DeepView for QueryError {
    type V = QueryErrorView;

    open spec fn deep_view(&self) -> QueryErrorView {
        match self {
            QueryError::TooManyFilters(max) => QueryErrorView::TooManyFilters(*max),
            QueryError::UpstreamFetchFailed(m) => QueryErrorView::UpstreamFetchFailed(m@),
            QueryError::UpstreamTimeout => QueryErrorView::UpstreamTimeout,
            QueryError::EventNotFound => QueryErrorView::EventNotFound,
        }
    }
}

/// What the upstream fetch gateway reported when it could not deliver.
#[derive(Debug, Clone, PartialEq, Eq)]
pub enum FetchError {
    /// The fetch did not finish within the configured timeout.
    Timeout,
    /// The fetch failed; carries the gateway's message.
    Failed(String),
}

/// Mathematical model of a `FetchError`.
#[verifier::ext_equal]
pub enum FetchErrorView {
    Timeout,
    Failed(Seq<char>),
}

impl DeepView for FetchError {
    type V = FetchErrorView;

    open spec fn deep_view(&self) -> FetchErrorView {
        match self {
            FetchError::Timeout => FetchErrorView::Timeout,
            FetchError::Failed(m) => FetchErrorView::Failed(m@),
        }
    }
}

/// What the cache backend returned for a key.
#[derive(Debug, Clone, PartialEq, Eq)]
pub enum CacheRead {
    /// The key was present; carries the stored bytes.
    Hit(Vec<u8>),
    /// The key was absent.
    Miss,
    /// The backend could not be asked at all.
    Unavailable,
}

/// Mathematical model of a `CacheRead`.
#[verifier::ext_equal]
pub enum CacheReadView {
    Hit(Seq<u8>),
    Miss,
    Unavailable,
}

impl DeepView for CacheRead {
    type V = CacheReadView;

    open spec fn deep_view(&self) -> CacheReadView {
        match self {
            CacheRead::Hit(bytes) => CacheReadView::Hit(bytes@),
            CacheRead::Miss => CacheReadView::Miss,
            CacheRead::Unavailable => CacheReadView::Unavailable,
        }
    }
}

/// The next step of a `resolve` run: what the driver must do before the
/// coordinator can decide further, or the finished result.
#[derive(Debug, PartialEq, Eq)]
pub enum Step {
    /// Ask the cache backend for this key and report what came back.
    ReadCache { key: u64 },
    /// Ask the upstream gateway for the query's events, bounded by this
    /// timeout in seconds where one is set.
    FetchUpstream { timeout: Option<u64> },
    /// Store the encoded events under the key with this time-to-live in
    /// seconds, then report whether the store succeeded.
    StoreAndReturn { key: u64, encoded: Vec<u8>, ttl: u64, events: Vec<Event> },
    /// The run is over with this outcome.
    Done(Result<Vec<Event>, QueryError>),
}

/// Mathematical model of a `Step`.
#[verifier::ext_equal]
pub enum StepView {
    ReadCache { key: u64 },
    FetchUpstream { timeout: Option<u64> },
    StoreAndReturn { key: u64, encoded: Seq<u8>, ttl: u64, events: Seq<EventView> },
    Done(Result<Seq<EventView>, QueryErrorView>),
}

impl DeepView for Step {
    type V = StepView;

    open spec fn deep_view(&self) -> StepView {
        match self {
            Step::ReadCache { key } => StepView::ReadCache { key: *key },
            Step::FetchUpstream { timeout } => StepView::FetchUpstream { timeout: *timeout },
            Step::StoreAndReturn { key, encoded, ttl, events } => StepView::StoreAndReturn {
                key: *key,
                encoded: encoded@,
                ttl: *ttl,
                events: events.deep_view(),
            },
            Step::Done(r) => StepView::Done(
                match r {
                    Ok(events) => Ok(events.deep_view()),
                    Err(e) => Err(e.deep_view()),
                },
            ),
        }
    }
}

// ---------------------------------------------------------------------------
// The decisions, as spec functions: the model the executable coordinator
// is proved to follow and the laws below are stated over.
// ---------------------------------------------------------------------------

/// First decision of a run: reject an oversized query before any cache or
/// upstream work, skip the cache where it is disabled, else read the cache
/// under the query's fingerprint.
pub open spec fn spec_start(
    q: Seq<FilterView>,
    max_filters: usize,
    enabled: bool,
    timeout: Option<u64>,
) -> StepView {
    if q.len() > max_filters {
        StepView::Done(Err(QueryErrorView::TooManyFilters(max_filters)))
    } else if !enabled {
        StepView::FetchUpstream { timeout }
    } else {
        StepView::ReadCache { key: spec_fingerprint(q) }
    }
}

/// Decision after the backend read: a present, decodable entry is the
/// answer; absence, a corrupt entry and an unreachable backend all fall
/// back to an upstream fetch.
pub open spec fn spec_on_cache_read(read: CacheReadView, timeout: Option<u64>) -> StepView {
    match read {
        CacheReadView::Hit(bytes) => match dec_events(bytes) {
            Some(es) => StepView::Done(Ok(es)),
            None => StepView::FetchUpstream { timeout },
        },
        CacheReadView::Miss => StepView::FetchUpstream { timeout },
        CacheReadView::Unavailable => StepView::FetchUpstream { timeout },
    }
}

/// Decision after the upstream fetch: a failure becomes the run's error; a
/// result is stored under the query's fingerprint where the cache is
/// enabled, else returned at once.
pub open spec fn spec_on_fetch(
    q: Seq<FilterView>,
    fetched: Result<Seq<EventView>, FetchErrorView>,
    enabled: bool,
    expiration: u64,
) -> StepView {
    match fetched {
        Ok(es) => if enabled {
            StepView::StoreAndReturn {
                key: spec_fingerprint(q),
                encoded: enc_events(es),
                ttl: expiration,
                events: es,
            }
        } else {
            StepView::Done(Ok(es))
        },
        Err(FetchErrorView::Timeout) => StepView::Done(Err(QueryErrorView::UpstreamTimeout)),
        Err(FetchErrorView::Failed(m)) => StepView::Done(
            Err(QueryErrorView::UpstreamFetchFailed(m)),
        ),
    }
}

/// Decision after the store attempt: the fetched events are the answer
/// whether or not the store went through.
pub open spec fn spec_on_store(events: Seq<EventView>, stored: bool) -> StepView {
    StepView::Done(Ok(events))
}

// ---------------------------------------------------------------------------
// The executable coordinator.
// ---------------------------------------------------------------------------

/// The cache-aside coordinator: the configuration a `resolve` run reads,
/// shared by every request.
#[derive(Debug, Clone)]
pub struct Coordinator {
    pub limit: Limit,
    pub redis: Redis,
    pub fetch_timeout: Option<u64>,
}

impl Coordinator {
    /// Begins a `resolve` run for a query.
    pub fn start(&self, query: &Vec<Filter>) -> (s: Step)
        ensures
            s.deep_view() == spec_start(
                query.deep_view(),
                self.limit.max_filters,
                self.redis.enabled,
                self.fetch_timeout,
            ),
    {
        if query.len() > self.limit.max_filters {
            Step::Done(Err(QueryError::TooManyFilters(self.limit.max_filters)))
        } else if !self.redis.enabled {
            Step::FetchUpstream { timeout: self.fetch_timeout }
        } else {
            Step::ReadCache { key: make_hash(query) }
        }
    }

    /// Continues a run with what the backend read returned.
    pub fn on_cache_read(&self, read: CacheRead) -> (s: Step)
        ensures
            s.deep_view() == spec_on_cache_read(read.deep_view(), self.fetch_timeout),
    {
        match read {
            CacheRead::Hit(bytes) => match codec::decode(&bytes) {
                Ok(events) => Step::Done(Ok(events)),
                Err(CodecError::CorruptCacheEntry) => Step::FetchUpstream {
                    timeout: self.fetch_timeout,
                },
            },
            CacheRead::Miss => Step::FetchUpstream { timeout: self.fetch_timeout },
            CacheRead::Unavailable => Step::FetchUpstream { timeout: self.fetch_timeout },
        }
    }

    /// Continues a run with what the upstream fetch returned.
    pub fn on_fetch(&self, query: &Vec<Filter>, fetched: Result<Vec<Event>, FetchError>) -> (s:
        Step)
        ensures
            s.deep_view() == spec_on_fetch(
                query.deep_view(),
                match fetched {
                    Ok(events) => Ok(events.deep_view()),
                    Err(e) => Err(e.deep_view()),
                },
                self.redis.enabled,
                self.redis.expiration,
            ),
    {
        match fetched {
            Ok(events) => {
                if self.redis.enabled {
                    let encoded = codec::encode(&events);
                    let key = make_hash(query);
                    Step::StoreAndReturn { key, encoded, ttl: self.redis.expiration, events }
                } else {
                    Step::Done(Ok(events))
                }
            },
            Err(FetchError::Timeout) => Step::Done(Err(QueryError::UpstreamTimeout)),
            Err(FetchError::Failed(m)) => Step::Done(Err(QueryError::UpstreamFetchFailed(m))),
        }
    }

    /// Ends a run after the store attempt; a store failure is reported by
    /// the driver but never fails the request.
    pub fn on_store(&self, events: Vec<Event>, stored: bool) -> (s: Step)
        ensures
            s.deep_view() == spec_on_store(events.deep_view(), stored),
    {
        Step::Done(Ok(events))
    }
}

// ---------------------------------------------------------------------------
// Get-by-id.
// ---------------------------------------------------------------------------

/// The query the get-by-id operation resolves: one filter, constrained to
/// the one identifier.
pub open spec fn id_query(event_id: Seq<u8>) -> Seq<FilterView> {
    seq![
        FilterView {
            ids: Some(seq![event_id]),
            authors: None,
            kinds: None,
            since: None,
            until: None,
            limit: None,
            search: None,
            tags: Seq::empty(),
        },
    ]
}

/// Builds the query of the get-by-id operation.
pub fn event_by_id_query(event_id: Vec<u8>) -> (q: Vec<Filter>)
    ensures
        q.deep_view() == id_query(event_id@),
{
    let ghost idv = event_id@;
    let f = Filter::new().id(event_id);
    let mut q: Vec<Filter> = Vec::new();
    q.push(f);
    proof {
        assert(q.deep_view() =~~= id_query(idv));
    }
    q
}

/// The get-by-id rule on a resolved result set: no event is "not found";
/// otherwise the first event is the answer.
pub fn single_event(events: Vec<Event>) -> (r: Result<Event, QueryError>)
    ensures
        match r {
            Ok(e) => events@.len() > 0 && e.deep_view() == events.deep_view()[0],
            Err(err) => events@.len() == 0 && err == QueryError::EventNotFound,
        },
{
    let mut events = events;
    if events.len() == 0 {
        Err(QueryError::EventNotFound)
    } else {
        Ok(events.remove(0))
    }
}

// ---------------------------------------------------------------------------
// Laws of the coordinator.
// ---------------------------------------------------------------------------

/// A cache hit short-circuits the upstream: for a query within the bound
/// and a stored entry that decodes, the run goes from the read straight to
/// its answer — the decoded events — and never asks for a fetch.
pub proof fn lemma_cache_hit_short_circuits(
    q: Seq<FilterView>,
    max_filters: usize,
    timeout: Option<u64>,
    bytes: Seq<u8>,
    es: Seq<EventView>,
)
    requires
        q.len() <= max_filters,
        dec_events(bytes) == Some(es),
    ensures
        spec_start(q, max_filters, true, timeout) == (StepView::ReadCache {
            key: spec_fingerprint(q),
        }),
        spec_on_cache_read(CacheReadView::Hit(bytes), timeout) == StepView::Done(Ok(es)),
{
}

/// A cache miss populates the backend: for a query within the bound on an
/// empty cache, the run reads once, fetches once, and stores the encoded
/// result under the very key it read — so the key exists afterwards — and
/// returns the fetched events.
pub proof fn lemma_cache_miss_populates(
    q: Seq<FilterView>,
    max_filters: usize,
    timeout: Option<u64>,
    expiration: u64,
    es: Seq<EventView>,
)
    requires
        q.len() <= max_filters,
    ensures
        spec_start(q, max_filters, true, timeout) == (StepView::ReadCache {
            key: spec_fingerprint(q),
        }),
        spec_on_cache_read(CacheReadView::Miss, timeout) == (StepView::FetchUpstream { timeout }),
        spec_on_fetch(q, Ok(es), true, expiration) == (StepView::StoreAndReturn {
            key: spec_fingerprint(q),
            encoded: enc_events(es),
            ttl: expiration,
            events: es,
        }),
        spec_on_store(es, true) == StepView::Done(Ok(es)),
{
}

/// With the cache disabled the coordinator is a pass-through: every run of
/// a query within the bound goes straight to a fetch and returns what the
/// fetch returned, with no read and no store — so two identical queries
/// each reach the gateway.
pub proof fn lemma_disabled_cache_passthrough(
    q: Seq<FilterView>,
    max_filters: usize,
    timeout: Option<u64>,
    expiration: u64,
    es: Seq<EventView>,
)
    requires
        q.len() <= max_filters,
    ensures
        spec_start(q, max_filters, false, timeout) == (StepView::FetchUpstream { timeout }),
        spec_on_fetch(q, Ok(es), false, expiration) == StepView::Done(Ok(es)),
{
}

/// A corrupt cache entry degrades gracefully: bytes that do not decode send
/// the run to a fresh fetch, and a successful fetch then finishes the run
/// with the fetched events, after re-storing them.
pub proof fn lemma_corrupt_entry_degrades(
    q: Seq<FilterView>,
    max_filters: usize,
    timeout: Option<u64>,
    expiration: u64,
    bytes: Seq<u8>,
    es: Seq<EventView>,
)
    requires
        q.len() <= max_filters,
        dec_events(bytes) is None,
    ensures
        spec_on_cache_read(CacheReadView::Hit(bytes), timeout) == (StepView::FetchUpstream {
            timeout,
        }),
        spec_on_fetch(q, Ok(es), true, expiration) == (StepView::StoreAndReturn {
            key: spec_fingerprint(q),
            encoded: enc_events(es),
            ttl: expiration,
            events: es,
        }),
        spec_on_store(es, true) == StepView::Done(Ok(es)),
{
}

} // verus!
