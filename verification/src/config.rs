//! Service configuration: the values the rest of the library reads, the
//! optional fields a configuration file may leave out, and the defaulting
//! rules that turn the latter into the former.

use vstd::prelude::*;
use vstd::string::StrSliceExecFns;

verus! {

/// Network settings of the HTTP front end. The listen address is carried as
/// text; binding a socket to it happens outside the library.
#[derive(Debug, Clone)]
pub struct Network {
    pub listen_addr: String,
    pub permissive_cors: bool,
}

/// Network section of a configuration file: every field may be absent.
pub struct ConfigFileNetwork {
    pub listen_addr: Option<String>,
    pub permissive_cors: Option<bool>,
}

/// Request limits.
#[derive(Debug, Clone)]
pub struct Limit {
    pub max_filters: usize,
}

/// Limit section of a configuration file.
pub struct ConfigFileLimit {
    pub max_filters: Option<usize>,
}

/// Relay-network settings. The fetch timeout is in seconds; `None` leaves
/// the upstream client's own default in force.
#[derive(Debug, Clone)]
pub struct Nostr {
    pub relays: Vec<String>,
    pub discovery: Vec<String>,
    pub gossip: bool,
    pub fetch_timeout: Option<u64>,
}

/// Relay section of a configuration file.
pub struct ConfigFileNostr {
    pub relays: Vec<String>,
    pub discovery: Vec<String>,
    pub gossip: bool,
    pub fetch_timeout: Option<u64>,
}

/// Cache-backend settings: whether caching is on, where the backend lives,
/// and how many seconds a stored entry outlives its write.
#[derive(Debug, Clone)]
pub struct Redis {
    pub enabled: bool,
    pub endpoint: String,
    pub expiration: u64,
}

/// Cache section of a configuration file.
pub struct ConfigFileRedis {
    pub enabled: Option<bool>,
    pub endpoint: Option<String>,
    pub expiration: Option<u64>,
}

/// Verbosity of the log output.
#[derive(Debug, Clone, Copy, PartialEq, Eq, Structural)]
pub enum LogLevel {
    Trace,
    Debug,
    Info,
    Warn,
    Error,
}

/// The complete, defaulted configuration.
#[derive(Debug, Clone)]
pub struct Config {
    pub log_level: LogLevel,
    pub network: Network,
    pub limit: Limit,
    pub nostr: Nostr,
    pub redis: Redis,
}

/// A configuration file as parsed: sections present, individual values
/// possibly absent. The log level is carried as the file's text.
pub struct ConfigFile {
    pub log_level: Option<String>,
    pub network: ConfigFileNetwork,
    pub limit: ConfigFileLimit,
    pub nostr: ConfigFileNostr,
    pub redis: ConfigFileRedis,
}

/// Upper-cases one ASCII letter; every other byte is unchanged.
pub open spec fn ascii_upper(b: u8) -> u8 {
    if 97 <= b && b <= 122 {
        (b - 32) as u8
    } else {
        b
    }
}

/// The byte string with every ASCII letter upper-cased.
pub open spec fn upper_bytes(s: Seq<u8>) -> Seq<u8> {
    Seq::new(s.len(), |i: int| ascii_upper(s[i]))
}

/// The log level a byte string names, compared without regard to ASCII
/// case; anything unrecognised falls back to `Info`. The comparisons are
/// over ASCII codes: the words spelt are TRACE, DEBUG, WARN and ERROR, and
/// the digits 1 to 5 name the levels from `Error` up to `Trace`.
pub open spec fn level_of_bytes(s: Seq<u8>) -> LogLevel {
    let u = upper_bytes(s);
    if u == seq![84u8, 82u8, 65u8, 67u8, 69u8] {
        LogLevel::Trace
    } else if u == seq![68u8, 69u8, 66u8, 85u8, 71u8] {
        LogLevel::Debug
    } else if u == seq![87u8, 65u8, 82u8, 78u8] {
        LogLevel::Warn
    } else if u == seq![69u8, 82u8, 82u8, 79u8, 82u8] {
        LogLevel::Error
    } else if u == seq![49u8] {
        LogLevel::Error
    } else if u == seq![50u8] {
        LogLevel::Warn
    } else if u == seq![51u8] {
        LogLevel::Info
    } else if u == seq![52u8] {
        LogLevel::Debug
    } else if u == seq![53u8] {
        LogLevel::Trace
    } else {
        LogLevel::Info
    }
}

/// The log level a configuration string names: its text read by
/// `level_of_bytes`.
pub open spec fn spec_parse_log_level(s: Seq<char>) -> LogLevel {
    level_of_bytes(vstd::utf8::encode_utf8(s))
}

fn upper_byte(b: u8) -> (r: u8)
    ensures
        r == ascii_upper(b),
{
    if b >= 97 && b <= 122 {
        b - 32
    } else {
        b
    }
}

impl LogLevel {
    /// Reads a log level from its configuration-file spelling, without
    /// regard to ASCII case; anything unrecognised is `Info`.
    pub fn parse(s: &String) -> (r: LogLevel)
        ensures
            r == spec_parse_log_level(s@),
    {
        let bytes = s.as_str().as_bytes_vec();
        let ghost u = upper_bytes(bytes@);
        let n = bytes.len();
        if n == 5 && upper_byte(bytes[0]) == 84u8 && upper_byte(bytes[1]) == 82u8 && upper_byte(
            bytes[2],
        ) == 65u8 && upper_byte(bytes[3]) == 67u8 && upper_byte(bytes[4]) == 69u8 {
            proof {
                assert(u =~= seq![84u8, 82u8, 65u8, 67u8, 69u8]);
            }
            LogLevel::Trace
        } else if n == 5 && upper_byte(bytes[0]) == 68u8 && upper_byte(bytes[1]) == 69u8
            && upper_byte(bytes[2]) == 66u8 && upper_byte(bytes[3]) == 85u8 && upper_byte(bytes[4])
            == 71u8 {
            proof {
                lemma_not_level(bytes@, seq![84u8, 82u8, 65u8, 67u8, 69u8]);
                assert(u =~= seq![68u8, 69u8, 66u8, 85u8, 71u8]);
            }
            LogLevel::Debug
        } else if n == 4 && upper_byte(bytes[0]) == 87u8 && upper_byte(bytes[1]) == 65u8
            && upper_byte(bytes[2]) == 82u8 && upper_byte(bytes[3]) == 78u8 {
            proof {
                lemma_not_level(bytes@, seq![84u8, 82u8, 65u8, 67u8, 69u8]);
                lemma_not_level(bytes@, seq![68u8, 69u8, 66u8, 85u8, 71u8]);
                assert(u =~= seq![87u8, 65u8, 82u8, 78u8]);
            }
            LogLevel::Warn
        } else if n == 5 && upper_byte(bytes[0]) == 69u8 && upper_byte(bytes[1]) == 82u8
            && upper_byte(bytes[2]) == 82u8 && upper_byte(bytes[3]) == 79u8 && upper_byte(bytes[4])
            == 82u8 {
            proof {
                lemma_not_level(bytes@, seq![84u8, 82u8, 65u8, 67u8, 69u8]);
                lemma_not_level(bytes@, seq![68u8, 69u8, 66u8, 85u8, 71u8]);
                lemma_not_level(bytes@, seq![87u8, 65u8, 82u8, 78u8]);
                assert(u =~= seq![69u8, 82u8, 82u8, 79u8, 82u8]);
            }
            LogLevel::Error
        } else if n == 1 && upper_byte(bytes[0]) == 49u8 {
            proof {
                lemma_not_words(bytes@);
                assert(u =~= seq![49u8]);
            }
            LogLevel::Error
        } else if n == 1 && upper_byte(bytes[0]) == 50u8 {
            proof {
                lemma_not_words(bytes@);
                lemma_not_level(bytes@, seq![49u8]);
                assert(u =~= seq![50u8]);
            }
            LogLevel::Warn
        } else if n == 1 && upper_byte(bytes[0]) == 51u8 {
            proof {
                lemma_not_words(bytes@);
                lemma_not_level(bytes@, seq![49u8]);
                lemma_not_level(bytes@, seq![50u8]);
                assert(u =~= seq![51u8]);
            }
            LogLevel::Info
        } else if n == 1 && upper_byte(bytes[0]) == 52u8 {
            proof {
                lemma_not_words(bytes@);
                lemma_not_level(bytes@, seq![49u8]);
                lemma_not_level(bytes@, seq![50u8]);
                lemma_not_level(bytes@, seq![51u8]);
                assert(u =~= seq![52u8]);
            }
            LogLevel::Debug
        } else if n == 1 && upper_byte(bytes[0]) == 53u8 {
            proof {
                lemma_not_words(bytes@);
                lemma_not_level(bytes@, seq![49u8]);
                lemma_not_level(bytes@, seq![50u8]);
                lemma_not_level(bytes@, seq![51u8]);
                lemma_not_level(bytes@, seq![52u8]);
                assert(u =~= seq![53u8]);
            }
            LogLevel::Trace
        } else {
            proof {
                lemma_not_words(bytes@);
                lemma_not_level(bytes@, seq![49u8]);
                lemma_not_level(bytes@, seq![50u8]);
                lemma_not_level(bytes@, seq![51u8]);
                lemma_not_level(bytes@, seq![52u8]);
                lemma_not_level(bytes@, seq![53u8]);
            }
            LogLevel::Info
        }
    }
}

/// A byte string that fails all four word comparisons names none of the
/// level words.
proof fn lemma_not_words(s: Seq<u8>)
    requires
        s.len() != 5 || ascii_upper(s[0]) != 84 || ascii_upper(s[1]) != 82 || ascii_upper(s[2])
            != 65 || ascii_upper(s[3]) != 67 || ascii_upper(s[4]) != 69,
        s.len() != 5 || ascii_upper(s[0]) != 68 || ascii_upper(s[1]) != 69 || ascii_upper(s[2])
            != 66 || ascii_upper(s[3]) != 85 || ascii_upper(s[4]) != 71,
        s.len() != 4 || ascii_upper(s[0]) != 87 || ascii_upper(s[1]) != 65 || ascii_upper(s[2])
            != 82 || ascii_upper(s[3]) != 78,
        s.len() != 5 || ascii_upper(s[0]) != 69 || ascii_upper(s[1]) != 82 || ascii_upper(s[2])
            != 82 || ascii_upper(s[3]) != 79 || ascii_upper(s[4]) != 82,
    ensures
        upper_bytes(s) != seq![84u8, 82u8, 65u8, 67u8, 69u8],
        upper_bytes(s) != seq![68u8, 69u8, 66u8, 85u8, 71u8],
        upper_bytes(s) != seq![87u8, 65u8, 82u8, 78u8],
        upper_bytes(s) != seq![69u8, 82u8, 82u8, 79u8, 82u8],
{
    lemma_not_level(s, seq![84u8, 82u8, 65u8, 67u8, 69u8]);
    lemma_not_level(s, seq![68u8, 69u8, 66u8, 85u8, 71u8]);
    lemma_not_level(s, seq![87u8, 65u8, 82u8, 78u8]);
    lemma_not_level(s, seq![69u8, 82u8, 82u8, 79u8, 82u8]);
}

/// A byte string whose upper-cased form differs from `pat` at the length
/// or at some position is not `pat`.
proof fn lemma_not_level(s: Seq<u8>, pat: Seq<u8>)
    requires
        s.len() != pat.len() || exists|i: int|
            0 <= i < s.len() && ascii_upper(#[trigger] s[i]) != pat[i],
    ensures
        upper_bytes(s) != pat,
{
    if upper_bytes(s) == pat {
        assert(s.len() == pat.len());
        let i = choose|i: int| 0 <= i < s.len() && ascii_upper(#[trigger] s[i]) != pat[i];
        assert(upper_bytes(s)[i] == ascii_upper(s[i]));
    }
}

impl Config {
    /// Completes a parsed configuration file into the running
    /// configuration: every absent value is filled with its default — log
    /// level `Info`, listening on the local address, strict CORS, at most
    /// ten filters, cache off, the local cache endpoint, entries kept for
    /// sixty seconds.
    pub fn get(file: ConfigFile) -> (r: Config)
        ensures
            r.log_level == (match file.log_level {
                Some(s) => spec_parse_log_level(s@),
                None => LogLevel::Info,
            }),
            r.network.listen_addr@ == (match file.network.listen_addr {
                Some(a) => a@,
                None => "127.0.0.1:7773"@,
            }),
            r.network.permissive_cors == (match file.network.permissive_cors {
                Some(c) => c,
                None => false,
            }),
            r.limit.max_filters == (match file.limit.max_filters {
                Some(m) => m,
                None => 10usize,
            }),
            r.nostr.relays.deep_view() == file.nostr.relays.deep_view(),
            r.nostr.discovery.deep_view() == file.nostr.discovery.deep_view(),
            r.nostr.gossip == file.nostr.gossip,
            r.nostr.fetch_timeout == file.nostr.fetch_timeout,
            r.redis.enabled == (match file.redis.enabled {
                Some(e) => e,
                None => false,
            }),
            r.redis.endpoint@ == (match file.redis.endpoint {
                Some(u) => u@,
                None => "redis://127.0.0.1"@,
            }),
            r.redis.expiration == (match file.redis.expiration {
                Some(x) => x,
                None => 60u64,
            }),
    {
        let log_level = match &file.log_level {
            Some(s) => LogLevel::parse(s),
            None => LogLevel::Info,
        };
        Config {
            log_level,
            network: Network {
                listen_addr: match file.network.listen_addr {
                    Some(a) => a,
                    None => "127.0.0.1:7773".to_owned(),
                },
                permissive_cors: match file.network.permissive_cors {
                    Some(c) => c,
                    None => false,
                },
            },
            limit: Limit {
                max_filters: match file.limit.max_filters {
                    Some(m) => m,
                    None => 10,
                },
            },
            nostr: Nostr {
                relays: file.nostr.relays,
                discovery: file.nostr.discovery,
                gossip: file.nostr.gossip,
                fetch_timeout: file.nostr.fetch_timeout,
            },
            redis: Redis {
                enabled: match file.redis.enabled {
                    Some(e) => e,
                    None => false,
                },
                endpoint: match file.redis.endpoint {
                    Some(u) => u,
                    None => "redis://127.0.0.1".to_owned(),
                },
                expiration: match file.redis.expiration {
                    Some(x) => x,
                    None => 60,
                },
            },
        }
    }
}

/// Which configuration file a run without an explicit `--config` argument
/// should read: the one in the user's configuration directory if it exists,
/// else one in the working directory.
#[derive(Debug, Clone, Copy, PartialEq, Eq, Structural)]
pub enum ConfigFileChoice {
    UserDir,
    WorkingDir,
}

/// Picks the default configuration file from what exists on disk: the file
/// in the user's configuration directory wins, the working directory is the
/// fallback, and `None` reports that neither exists.
pub fn default_config_file(user_dir_has_file: bool, working_dir_has_file: bool) -> (r: Option<
    ConfigFileChoice,
>)
    ensures
        r == (if user_dir_has_file {
            Some(ConfigFileChoice::UserDir)
        } else if working_dir_has_file {
            Some(ConfigFileChoice::WorkingDir)
        } else {
            None::<ConfigFileChoice>
        }),
{
    if user_dir_has_file {
        Some(ConfigFileChoice::UserDir)
    } else if working_dir_has_file {
        Some(ConfigFileChoice::WorkingDir)
    } else {
        None
    }
}

} // verus!
