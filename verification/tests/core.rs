use nostr_rest::codec::{decode, encode, CodecError};
use nostr_rest::config::{
    default_config_file, Config, ConfigFile, ConfigFileChoice, ConfigFileLimit, ConfigFileNetwork,
    ConfigFileNostr, ConfigFileRedis, LogLevel,
};
use nostr_rest::event::{Event, Tag};
use nostr_rest::filter::Filter;
use nostr_rest::fingerprint::make_hash;

fn empty_file() -> ConfigFile {
    ConfigFile {
        log_level: None,
        network: ConfigFileNetwork { listen_addr: None, permissive_cors: None },
        limit: ConfigFileLimit { max_filters: None },
        nostr: ConfigFileNostr {
            relays: vec![String::from("wss://relay.example")],
            discovery: vec![],
            gossip: false,
            fetch_timeout: None,
        },
        redis: ConfigFileRedis { enabled: None, endpoint: None, expiration: None },
    }
}

fn sample_event() -> Event {
    Event {
        id: vec![7],
        pubkey: vec![],
        created_at: 11,
        kind: 1,
        tags: vec![],
        content: vec![],
        sig: vec![],
    }
}

fn richer_event() -> Event {
    Event {
        id: vec![0xab; 32],
        pubkey: vec![0xcd; 32],
        created_at: 1_700_000_000,
        kind: 30023,
        tags: vec![
            Tag { items: vec![b"e".to_vec(), vec![0x01, 0x02]] },
            Tag { items: vec![b"p".to_vec(), vec![0x03], b"extra".to_vec()] },
            Tag { items: vec![] },
        ],
        content: b"hello world".to_vec(),
        sig: vec![0xee; 64],
    }
}

fn kind_filter(kind: u64) -> Filter {
    let mut f = Filter::new();
    f.kinds = Some(vec![kind]);
    f
}

#[test]
fn fingerprint_deterministic_repeated_calls() {
    let q1 = vec![Filter::new().id(vec![1, 2, 3]), kind_filter(1)];
    let q2 = vec![Filter::new().id(vec![1, 2, 3]), kind_filter(1)];
    assert_eq!(make_hash(&q1), make_hash(&q1));
    assert_eq!(make_hash(&q1), make_hash(&q2));
}

#[test]
fn fingerprint_of_empty_query_exact() {
    assert_eq!(make_hash(&vec![]), 0xa8c7f832281a39c5);
}

#[test]
fn fingerprint_of_one_empty_filter_exact() {
    assert_eq!(make_hash(&vec![Filter::new()]), 0x023b24f3ff90aacc);
}

#[test]
fn fingerprint_order_sensitive() {
    let f1 = Filter::new().id(vec![1]);
    let f2 = kind_filter(4);
    let forward = make_hash(&vec![f1.clone(), f2.clone()]);
    let backward = make_hash(&vec![f2, f1]);
    assert_ne!(forward, backward);
}

#[test]
fn fingerprint_absent_differs_from_empty() {
    let absent = Filter::new();
    let mut empty = Filter::new();
    empty.ids = Some(vec![]);
    assert_ne!(make_hash(&vec![absent]), make_hash(&vec![empty]));
}

#[test]
fn fingerprint_depends_on_each_field() {
    let base = make_hash(&vec![Filter::new()]);
    let mut since = Filter::new();
    since.since = Some(5);
    let mut until = Filter::new();
    until.until = Some(5);
    let mut limit = Filter::new();
    limit.limit = Some(5);
    let h_since = make_hash(&vec![since]);
    let h_until = make_hash(&vec![until]);
    let h_limit = make_hash(&vec![limit]);
    assert_ne!(base, h_since);
    assert_ne!(base, h_until);
    assert_ne!(base, h_limit);
    assert_ne!(h_since, h_until);
    assert_ne!(h_until, h_limit);
}

#[test]
fn fingerprint_distinguishes_search() {
    let mut with_search = Filter::new();
    with_search.search = Some(b"best apps".to_vec());
    assert_ne!(make_hash(&vec![Filter::new()]), make_hash(&vec![with_search]));
}

#[test]
fn encode_empty_result_set_exact() {
    assert_eq!(encode(&vec![]), vec![0u8; 8]);
}

#[test]
fn encode_one_event_exact() {
    let bytes = encode(&vec![sample_event()]);
    let expected: Vec<u8> = vec![
        1, 0, 0, 0, 0, 0, 0, 0, // one event
        1, 0, 0, 0, 0, 0, 0, 0, 7, // id: one byte, 7
        0, 0, 0, 0, 0, 0, 0, 0, // pubkey: empty
        11, 0, 0, 0, 0, 0, 0, 0, // created_at
        1, 0, 0, 0, 0, 0, 0, 0, // kind
        0, 0, 0, 0, 0, 0, 0, 0, // no tags
        0, 0, 0, 0, 0, 0, 0, 0, // content: empty
        0, 0, 0, 0, 0, 0, 0, 0, // sig: empty
    ];
    assert_eq!(bytes, expected);
}

#[test]
fn roundtrip_empty() {
    assert_eq!(decode(&encode(&vec![])), Ok(vec![]));
}

#[test]
fn roundtrip_one_event() {
    let es = vec![sample_event()];
    assert_eq!(decode(&encode(&es)), Ok(es));
}

#[test]
fn roundtrip_preserves_order_and_tags() {
    let es = vec![richer_event(), sample_event(), richer_event()];
    assert_eq!(decode(&encode(&es)), Ok(es));
}

#[test]
fn decode_garbage_is_corrupt() {
    assert_eq!(decode(&vec![1, 2, 3]), Err(CodecError::CorruptCacheEntry));
}

#[test]
fn decode_truncated_is_corrupt() {
    let mut bytes = encode(&vec![sample_event()]);
    bytes.pop();
    assert_eq!(decode(&bytes), Err(CodecError::CorruptCacheEntry));
}

#[test]
fn decode_trailing_byte_is_corrupt() {
    let mut bytes = encode(&vec![sample_event()]);
    bytes.push(0);
    assert_eq!(decode(&bytes), Err(CodecError::CorruptCacheEntry));
}

#[test]
fn filter_builder_sets_single_id() {
    let f = Filter::new().id(vec![5, 6]);
    assert_eq!(f.ids, Some(vec![vec![5, 6]]));
    assert_eq!(f.authors, None);
    assert_eq!(f.kinds, None);
}

#[test]
fn config_defaults_fill_absent_values() {
    let c = Config::get(empty_file());
    assert_eq!(c.log_level, LogLevel::Info);
    assert_eq!(c.network.listen_addr, "127.0.0.1:7773");
    assert!(!c.network.permissive_cors);
    assert_eq!(c.limit.max_filters, 10);
    assert_eq!(c.nostr.relays, vec![String::from("wss://relay.example")]);
    assert!(!c.redis.enabled);
    assert_eq!(c.redis.endpoint, "redis://127.0.0.1");
    assert_eq!(c.redis.expiration, 60);
}

#[test]
fn config_keeps_explicit_values() {
    let mut file = empty_file();
    file.log_level = Some(String::from("warn"));
    file.network.listen_addr = Some(String::from("0.0.0.0:8080"));
    file.network.permissive_cors = Some(true);
    file.limit.max_filters = Some(3);
    file.nostr.fetch_timeout = Some(15);
    file.redis.enabled = Some(true);
    file.redis.endpoint = Some(String::from("redis://cache:6379"));
    file.redis.expiration = Some(120);
    let c = Config::get(file);
    assert_eq!(c.log_level, LogLevel::Warn);
    assert_eq!(c.network.listen_addr, "0.0.0.0:8080");
    assert!(c.network.permissive_cors);
    assert_eq!(c.limit.max_filters, 3);
    assert_eq!(c.nostr.fetch_timeout, Some(15));
    assert!(c.redis.enabled);
    assert_eq!(c.redis.endpoint, "redis://cache:6379");
    assert_eq!(c.redis.expiration, 120);
}

#[test]
fn log_level_parse_is_case_insensitive() {
    assert_eq!(LogLevel::parse(&String::from("trace")), LogLevel::Trace);
    assert_eq!(LogLevel::parse(&String::from("TRACE")), LogLevel::Trace);
    assert_eq!(LogLevel::parse(&String::from("Debug")), LogLevel::Debug);
    assert_eq!(LogLevel::parse(&String::from("warn")), LogLevel::Warn);
    assert_eq!(LogLevel::parse(&String::from("ERROR")), LogLevel::Error);
    assert_eq!(LogLevel::parse(&String::from("info")), LogLevel::Info);
}

#[test]
fn log_level_parse_accepts_numeric_forms() {
    assert_eq!(LogLevel::parse(&String::from("1")), LogLevel::Error);
    assert_eq!(LogLevel::parse(&String::from("2")), LogLevel::Warn);
    assert_eq!(LogLevel::parse(&String::from("3")), LogLevel::Info);
    assert_eq!(LogLevel::parse(&String::from("4")), LogLevel::Debug);
    assert_eq!(LogLevel::parse(&String::from("5")), LogLevel::Trace);
    assert_eq!(LogLevel::parse(&String::from("6")), LogLevel::Info);
}

#[test]
fn log_level_parse_falls_back_to_info() {
    assert_eq!(LogLevel::parse(&String::from("verbose")), LogLevel::Info);
    assert_eq!(LogLevel::parse(&String::from("")), LogLevel::Info);
    assert_eq!(LogLevel::parse(&String::from("warning")), LogLevel::Info);
}

#[test]
fn default_config_file_prefers_user_dir() {
    assert_eq!(default_config_file(true, true), Some(ConfigFileChoice::UserDir));
    assert_eq!(default_config_file(true, false), Some(ConfigFileChoice::UserDir));
    assert_eq!(default_config_file(false, true), Some(ConfigFileChoice::WorkingDir));
    assert_eq!(default_config_file(false, false), None);
}
