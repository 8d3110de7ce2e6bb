use std::collections::HashMap;

use nostr_rest::codec::encode;
use nostr_rest::config::{Limit, Redis};
use nostr_rest::event::Event;
use nostr_rest::filter::Filter;
use nostr_rest::fingerprint::make_hash;
use nostr_rest::resolve::{
    event_by_id_query, single_event, CacheRead, Coordinator, FetchError, QueryError, Step,
};

struct Gateway {
    result: Result<Vec<Event>, FetchError>,
    calls: usize,
}

impl Gateway {
    fn returning(events: Vec<Event>) -> Gateway {
        Gateway { result: Ok(events), calls: 0 }
    }

    fn failing(error: FetchError) -> Gateway {
        Gateway { result: Err(error), calls: 0 }
    }
}

#[derive(Default)]
struct Stats {
    reads: usize,
    stores: usize,
}

/// Runs one `resolve` to completion against an in-memory backend and a
/// scripted gateway, the way the service's driver runs it against its real
/// collaborators.
fn drive(
    c: &Coordinator,
    query: &Vec<Filter>,
    backend: &mut HashMap<u64, Vec<u8>>,
    gateway: &mut Gateway,
    stats: &mut Stats,
) -> Result<Vec<Event>, QueryError> {
    let mut step = c.start(query);
    loop {
        step = match step {
            Step::ReadCache { key } => {
                stats.reads += 1;
                let read = match backend.get(&key) {
                    Some(bytes) => CacheRead::Hit(bytes.clone()),
                    None => CacheRead::Miss,
                };
                c.on_cache_read(read)
            }
            Step::FetchUpstream { timeout: _ } => {
                gateway.calls += 1;
                c.on_fetch(query, gateway.result.clone())
            }
            Step::StoreAndReturn { key, encoded, ttl: _, events } => {
                stats.stores += 1;
                backend.insert(key, encoded);
                c.on_store(events, true)
            }
            Step::Done(result) => return result,
        };
    }
}

fn coordinator(enabled: bool, max_filters: usize) -> Coordinator {
    Coordinator {
        limit: Limit { max_filters },
        redis: Redis { enabled, endpoint: String::from("redis://127.0.0.1"), expiration: 60 },
        fetch_timeout: Some(10),
    }
}

fn sample_events() -> Vec<Event> {
    vec![Event {
        id: vec![9; 32],
        pubkey: vec![1; 32],
        created_at: 77,
        kind: 1,
        tags: vec![],
        content: b"note".to_vec(),
        sig: vec![2; 64],
    }]
}

fn other_events() -> Vec<Event> {
    vec![Event {
        id: vec![8; 32],
        pubkey: vec![4; 32],
        created_at: 99,
        kind: 7,
        tags: vec![],
        content: b"other".to_vec(),
        sig: vec![5; 64],
    }]
}

fn sample_query() -> Vec<Filter> {
    vec![Filter::new().id(vec![9; 32])]
}

#[test]
fn cache_hit_short_circuits_upstream() {
    let c = coordinator(true, 10);
    let query = sample_query();
    let cached = sample_events();
    let mut backend = HashMap::new();
    backend.insert(make_hash(&query), encode(&cached));
    // The gateway would answer differently; a hit must never reach it.
    let mut gateway = Gateway::returning(other_events());
    let mut stats = Stats::default();
    let result = drive(&c, &query, &mut backend, &mut gateway, &mut stats);
    assert_eq!(result, Ok(cached));
    assert_eq!(gateway.calls, 0);
    assert_eq!(stats.reads, 1);
    assert_eq!(stats.stores, 0);
}

#[test]
fn cache_miss_populates_backend() {
    let c = coordinator(true, 10);
    let query = sample_query();
    let mut backend = HashMap::new();
    let mut gateway = Gateway::returning(sample_events());
    let mut stats = Stats::default();
    let result = drive(&c, &query, &mut backend, &mut gateway, &mut stats);
    assert_eq!(result, Ok(sample_events()));
    assert_eq!(gateway.calls, 1);
    assert_eq!(stats.stores, 1);
    assert!(backend.contains_key(&make_hash(&query)));
}

#[test]
fn second_identical_query_is_served_from_cache() {
    let c = coordinator(true, 10);
    let query = sample_query();
    let mut backend = HashMap::new();
    let mut gateway = Gateway::returning(sample_events());
    let mut stats = Stats::default();
    let first = drive(&c, &query, &mut backend, &mut gateway, &mut stats);
    let second = drive(&c, &query, &mut backend, &mut gateway, &mut stats);
    assert_eq!(first, second);
    assert_eq!(gateway.calls, 1);
}

#[test]
fn bound_enforcement_rejects_before_any_call() {
    let c = coordinator(true, 2);
    let query = vec![Filter::new(), Filter::new(), Filter::new()];
    let mut backend = HashMap::new();
    let mut gateway = Gateway::returning(sample_events());
    let mut stats = Stats::default();
    let result = drive(&c, &query, &mut backend, &mut gateway, &mut stats);
    assert_eq!(result, Err(QueryError::TooManyFilters(2)));
    assert_eq!(gateway.calls, 0);
    assert_eq!(stats.reads, 0);
    assert_eq!(stats.stores, 0);
    assert!(backend.is_empty());
}

#[test]
fn bound_allows_query_exactly_at_limit() {
    let c = coordinator(true, 2);
    let query = vec![Filter::new(), Filter::new()];
    let mut backend = HashMap::new();
    let mut gateway = Gateway::returning(sample_events());
    let mut stats = Stats::default();
    let result = drive(&c, &query, &mut backend, &mut gateway, &mut stats);
    assert_eq!(result, Ok(sample_events()));
    assert_eq!(stats.reads, 1);
}

#[test]
fn store_step_carries_configured_expiration() {
    let c = coordinator(true, 10);
    let query = sample_query();
    let step = c.on_fetch(&query, Ok(sample_events()));
    match step {
        Step::StoreAndReturn { key, ttl, events, .. } => {
            assert_eq!(key, make_hash(&query));
            assert_eq!(ttl, 60);
            assert_eq!(events, sample_events());
        }
        other => panic!("expected a store step, got {:?}", other),
    }
}

#[test]
fn disabled_cache_passes_every_query_through() {
    let c = coordinator(false, 10);
    let query = sample_query();
    let mut backend = HashMap::new();
    let mut gateway = Gateway::returning(sample_events());
    let mut stats = Stats::default();
    let first = drive(&c, &query, &mut backend, &mut gateway, &mut stats);
    let second = drive(&c, &query, &mut backend, &mut gateway, &mut stats);
    assert_eq!(first, Ok(sample_events()));
    assert_eq!(second, Ok(sample_events()));
    assert_eq!(gateway.calls, 2);
    assert_eq!(stats.reads, 0);
    assert_eq!(stats.stores, 0);
    assert!(backend.is_empty());
}

#[test]
fn corrupt_entry_degrades_to_fresh_fetch() {
    let c = coordinator(true, 10);
    let query = sample_query();
    let key = make_hash(&query);
    let mut backend = HashMap::new();
    backend.insert(key, vec![0xde, 0xad, 0xbe, 0xef]);
    let mut gateway = Gateway::returning(sample_events());
    let mut stats = Stats::default();
    let result = drive(&c, &query, &mut backend, &mut gateway, &mut stats);
    assert_eq!(result, Ok(sample_events()));
    assert_eq!(gateway.calls, 1);
    // The fresh result replaced the corrupt entry: the next run hits.
    let result2 = drive(&c, &query, &mut backend, &mut gateway, &mut stats);
    assert_eq!(result2, Ok(sample_events()));
    assert_eq!(gateway.calls, 1);
}

#[test]
fn backend_unavailable_degrades_to_fresh_fetch() {
    let c = coordinator(true, 10);
    let query = sample_query();
    let step = c.start(&query);
    assert!(matches!(step, Step::ReadCache { .. }));
    let next = c.on_cache_read(CacheRead::Unavailable);
    assert!(matches!(next, Step::FetchUpstream { .. }));
}

#[test]
fn upstream_timeout_is_surfaced_and_nothing_is_stored() {
    let c = coordinator(true, 10);
    let query = sample_query();
    let mut backend = HashMap::new();
    let mut gateway = Gateway::failing(FetchError::Timeout);
    let mut stats = Stats::default();
    let result = drive(&c, &query, &mut backend, &mut gateway, &mut stats);
    assert_eq!(result, Err(QueryError::UpstreamTimeout));
    assert_eq!(stats.stores, 0);
    assert!(backend.is_empty());
}

#[test]
fn upstream_failure_carries_the_message() {
    let c = coordinator(true, 10);
    let query = sample_query();
    let mut backend = HashMap::new();
    let mut gateway = Gateway::failing(FetchError::Failed(String::from("relay refused")));
    let mut stats = Stats::default();
    let result = drive(&c, &query, &mut backend, &mut gateway, &mut stats);
    assert_eq!(result, Err(QueryError::UpstreamFetchFailed(String::from("relay refused"))));
}

#[test]
fn get_by_id_zero_events_is_not_found() {
    let c = coordinator(false, 10);
    let query = event_by_id_query(vec![3; 32]);
    let mut backend = HashMap::new();
    let mut gateway = Gateway::returning(vec![]);
    let mut stats = Stats::default();
    let result = drive(&c, &query, &mut backend, &mut gateway, &mut stats).unwrap();
    assert_eq!(single_event(result), Err(QueryError::EventNotFound));
}

#[test]
fn get_by_id_one_event_is_returned() {
    let c = coordinator(false, 10);
    let query = event_by_id_query(vec![9; 32]);
    let mut backend = HashMap::new();
    let mut gateway = Gateway::returning(sample_events());
    let mut stats = Stats::default();
    let result = drive(&c, &query, &mut backend, &mut gateway, &mut stats).unwrap();
    assert_eq!(single_event(result), Ok(sample_events().remove(0)));
}

#[test]
fn get_by_id_query_holds_exactly_the_id() {
    let query = event_by_id_query(vec![1, 2]);
    assert_eq!(query.len(), 1);
    assert_eq!(query[0].ids, Some(vec![vec![1, 2]]));
    assert_eq!(query[0].tags, vec![]);
}
