//! Settings: from the environment, else from the command line, else their defaults.
use crate::text::{parse_decimal, parse_number, str_eq};
use vstd::prelude::*;

verus! {

pub const DEFAULT_PORT: u16 = 4567;

pub const DEFAULT_PERSIST_INTERVAL_SECS: u64 = 5;

/// One day.
pub const DEFAULT_RETENTION_SECS: u64 = 86_400;

/// 64 MiB.
pub const DEFAULT_SEGMENT_BYTES: u64 = 67_108_864;

/// The values of the environment variables, where they are set.
pub struct Environment {
    /// `FAKESTREAM_PORT`
    pub port: Option<String>,
    /// `FAKESTREAM_PERSIST_INTERVAL`
    pub persist_interval: Option<String>,
    /// `FAKESTREAM_TTL_SECONDS`
    pub ttl_seconds: Option<String>,
    /// `FAKESTREAM_RETENTION_HOURS`
    pub retention_hours: Option<String>,
    /// `FAKESTREAM_PERSIST_PATH`
    pub persist_path: Option<String>,
    /// `FAKESTREAM_SEGMENT_BYTES`
    pub segment_bytes: Option<String>,
}

pub struct Config {
    pub port: u16,
    pub persist_interval_secs: u64,
    pub default_retention_secs: u64,
    pub persist_dir: Option<String>,
    pub segment_bytes: u64,
}

/// What follows a flag on the command line, where the flag is there and something follows it.
pub open spec fn flag_value(args: Seq<String>, flag: Seq<char>) -> Option<Seq<char>>
    decreases args.len(),
{
    if args.len() == 0 {
        None
    } else if args[0]@ == flag {
        if args.len() > 1 {
            Some(args[1]@)
        } else {
            None
        }
    } else {
        flag_value(args.drop_first(), flag)
    }
}

/// What follows a flag on the command line.
pub fn arg_value(args: &Vec<String>, flag: &str) -> (r: Option<String>)
    ensures
        shows_setting(r, flag_value(args@, flag@)),
{
    let mut i: usize = 0;
    assert(args@.skip(0) =~= args@);
    while i < args.len()
        invariant
            i <= args@.len(),
            flag_value(args@, flag@) == flag_value(args@.skip(i as int), flag@),
        decreases args@.len() - i,
    {
        assert(args@.skip(i as int)[0] == args@[i as int]);
        assert(args@.skip(i as int).drop_first() =~= args@.skip(i + 1));
        if str_eq(args[i].as_str(), flag) {
            if args.len() - i > 1 {
                assert(args@.skip(i as int)[1] == args@[i + 1]);
                return Some(args[i + 1].clone());
            }
            return None;
        }
        i = i + 1;
    }
    None
}

pub open spec fn shows_setting(r: Option<String>, expected: Option<Seq<char>>) -> bool {
    match r {
        Some(text) => expected == Some(text@),
        None => expected is None,
    }
}

/// A setting: the environment comes before the command line.
pub open spec fn setting(env: Option<String>, args: Seq<String>, flag: Seq<char>) -> Option<
    Seq<char>,
> {
    match env {
        Some(text) => Some(text@),
        None => flag_value(args, flag),
    }
}

/// A setting: the environment comes before the command line.
pub fn opt(env: &Option<String>, args: &Vec<String>, flag: &str) -> (r: Option<String>)
    ensures
        shows_setting(r, setting(*env, args@, flag@)),
{
    match env {
        Some(text) => Some(text.clone()),
        None => arg_value(args, flag),
    }
}

/// The number in a setting, where it is one of at most `max`.
pub open spec fn setting_number(text: Option<Seq<char>>, max: nat) -> Option<nat> {
    match text {
        Some(text) => parse_decimal(text, max),
        None => None,
    }
}

fn number(text: Option<String>, max: u64) -> (r: Option<u64>)
    ensures
        forall|expected: Option<Seq<char>>|
            shows_setting(text, expected) ==> match #[trigger] setting_number(
                expected,
                max as nat,
            ) {
                Some(n) => r is Some && r->0 as nat == n,
                None => r is None,
            },
{
    match text {
        Some(text) => match parse_number(text.as_str(), max as u128) {
            Some(n) => Some(n as u64),
            None => None,
        },
        None => None,
    }
}

/// The default retention: in seconds where that is given, else in hours.
pub open spec fn retention_setting(env: Environment, args: Seq<String>) -> nat {
    match setting_number(setting(env.ttl_seconds, args, "--ttl-seconds"@), u64::MAX as nat) {
        Some(secs) => secs,
        None => match setting_number(
            setting(env.retention_hours, args, "--retention-hours"@),
            u64::MAX as nat,
        ) {
            Some(hours) => if hours * 3600 <= u64::MAX {
                hours * 3600
            } else {
                DEFAULT_RETENTION_SECS as nat
            },
            None => DEFAULT_RETENTION_SECS as nat,
        },
    }
}

/// A number from a setting, or its default.
pub open spec fn setting_or(text: Option<Seq<char>>, max: nat, default: nat) -> nat {
    match setting_number(text, max) {
        Some(n) => n,
        None => default,
    }
}

impl Config {
    /// The settings. What is not a number, or too large for its setting, counts as not given.
    /// The state is written at least every second apart, and an empty directory name turns
    /// persistence off.
    pub fn load(env: &Environment, args: &Vec<String>) -> (r: Self)
        ensures
            r.port == setting_or(
                setting(env.port, args@, "--port"@),
                u16::MAX as nat,
                DEFAULT_PORT as nat,
            ),
            ({
                let secs = setting_or(
                    setting(env.persist_interval, args@, "--persist-interval"@),
                    u64::MAX as nat,
                    DEFAULT_PERSIST_INTERVAL_SECS as nat,
                );
                r.persist_interval_secs == if secs == 0 {
                    1
                } else {
                    secs
                }
            }),
            r.default_retention_secs == retention_setting(*env, args@),
            match setting(env.persist_path, args@, "--persist"@) {
                Some(dir) => if dir.len() == 0 {
                    r.persist_dir is None
                } else {
                    r.persist_dir is Some && r.persist_dir->0@ == dir
                },
                None => r.persist_dir is None,
            },
            r.segment_bytes == setting_or(
                setting(env.segment_bytes, args@, "--segment-bytes"@),
                u64::MAX as nat,
                DEFAULT_SEGMENT_BYTES as nat,
            ),
    {
        let port: u16 = match number(opt(&env.port, args, "--port"), u16::MAX as u64) {
            Some(n) => n as u16,
            None => DEFAULT_PORT,
        };
        let interval: u64 = match number(
            opt(&env.persist_interval, args, "--persist-interval"),
            u64::MAX,
        ) {
            Some(n) => n,
            None => DEFAULT_PERSIST_INTERVAL_SECS,
        };
        let default_retention_secs: u64 = match number(
            opt(&env.ttl_seconds, args, "--ttl-seconds"),
            u64::MAX,
        ) {
            Some(secs) => secs,
            None => match number(
                opt(&env.retention_hours, args, "--retention-hours"),
                u64::MAX,
            ) {
                Some(hours) => match hours.checked_mul(3600) {
                    Some(secs) => secs,
                    None => DEFAULT_RETENTION_SECS,
                },
                None => DEFAULT_RETENTION_SECS,
            },
        };
        let persist_dir = match opt(&env.persist_path, args, "--persist") {
            Some(dir) => if crate::params::is_blank(dir.as_str()) {
                None
            } else {
                Some(dir)
            },
            None => None,
        };
        let segment_bytes: u64 = match number(
            opt(&env.segment_bytes, args, "--segment-bytes"),
            u64::MAX,
        ) {
            Some(n) => n,
            None => DEFAULT_SEGMENT_BYTES,
        };
        Config {
            port,
            persist_interval_secs: if interval == 0 {
                1
            } else {
                interval
            },
            default_retention_secs,
            persist_dir,
            segment_bytes,
        }
    }
}

} // verus!
