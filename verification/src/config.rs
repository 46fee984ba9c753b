//! Process configuration: log verbosity and database endpoint, with the
//! defaults used when a value is absent, and the tolerant log-level parser
//! that falls back to the default on unrecognized input.

use vstd::prelude::*;
use vstd::string::{StrSliceExecFns, StringExecFns, StringSliceAdditionalSpecFns};

verus! {

/// Log verbosity, mirroring the six standard filter levels.
#[derive(Clone, Copy, PartialEq, Eq, Structural, Debug)]
pub enum LogLevel {
    Off,
    Error,
    Warn,
    Info,
    Debug,
    Trace,
}

/// ASCII lower-casing of one byte.
pub open spec fn lower_byte(b: u8) -> u8 {
    if 0x41 <= b && b <= 0x5a {
        (b + 0x20) as u8
    } else {
        b
    }
}

/// Whether `s`, lower-cased byte for byte, equals `name`.
pub open spec fn matches_name(s: Seq<u8>, name: Seq<u8>) -> bool {
    s.len() == name.len() && (forall|i: int| 0 <= i < s.len() ==> lower_byte(s[i]) == name[i])
}

pub open spec fn off_name() -> Seq<u8> {
    seq![0x6fu8, 0x66, 0x66]
}

pub open spec fn error_name() -> Seq<u8> {
    seq![0x65u8, 0x72, 0x72, 0x6f, 0x72]
}

pub open spec fn warn_name() -> Seq<u8> {
    seq![0x77u8, 0x61, 0x72, 0x6e]
}

pub open spec fn info_name() -> Seq<u8> {
    seq![0x69u8, 0x6e, 0x66, 0x6f]
}

pub open spec fn debug_name() -> Seq<u8> {
    seq![0x64u8, 0x65, 0x62, 0x75, 0x67]
}

pub open spec fn trace_name() -> Seq<u8> {
    seq![0x74u8, 0x72, 0x61, 0x63, 0x65]
}

/// Level denoted by the bytes `s`, compared case-insensitively; anything
/// unrecognized falls back to the default level.
pub open spec fn spec_parse_log_level(s: Seq<u8>) -> LogLevel {
    if matches_name(s, off_name()) {
        LogLevel::Off
    } else if matches_name(s, error_name()) {
        LogLevel::Error
    } else if matches_name(s, warn_name()) {
        LogLevel::Warn
    } else if matches_name(s, info_name()) {
        LogLevel::Info
    } else if matches_name(s, debug_name()) {
        LogLevel::Debug
    } else if matches_name(s, trace_name()) {
        LogLevel::Trace
    } else {
        LogLevel::Debug
    }
}

/// Log level used when none is supplied or the supplied one does not parse.
pub fn default_log_level() -> (l: LogLevel)
    ensures
        l == LogLevel::Debug,
{
    LogLevel::Debug
}

/// Database host used when none is supplied.
pub fn default_cassandra_host() -> (h: String)
    ensures
        h@ == "127.0.0.1"@,
{
    String::from_str("127.0.0.1")
}

/// Database port used when none is supplied.
pub fn default_cassandra_port() -> (p: i32)
    ensures
        p == 9042,
{
    9042
}

fn lower_byte_x(b: u8) -> (r: u8)
    ensures
        r == lower_byte(b),
{
    if 0x41 <= b && b <= 0x5a {
        b + 0x20
    } else {
        b
    }
}

/// Whether the bytes of `s`, lower-cased, equal `name`.
fn matches_name_x(s: &Vec<u8>, name: &Vec<u8>) -> (r: bool)
    ensures
        r == matches_name(s@, name@),
{
    if s.len() != name.len() {
        return false;
    }
    let mut i: usize = 0;
    while i < s.len()
        invariant
            0 <= i <= s@.len(),
            s@.len() == name@.len(),
            forall|k: int| 0 <= k < i ==> lower_byte(s@[k]) == name@[k],
        decreases s@.len() - i,
    {
        if lower_byte_x(s[i]) != name[i] {
            return false;
        }
        i = i + 1;
    }
    true
}

/// Parses a log-level name, case-insensitively; unrecognized input yields
/// the default level rather than an error, as the configuration loader does.
pub fn parse_log_level(s: &str) -> (l: LogLevel)
    ensures
        l == spec_parse_log_level(s.spec_bytes()),
{
    let bytes = s.as_bytes_vec();
    let off = make_name_off();
    let error = make_name_error();
    let warn = make_name_warn();
    let info = make_name_info();
    let debug = make_name_debug();
    let trace = make_name_trace();
    if matches_name_x(&bytes, &off) {
        LogLevel::Off
    } else if matches_name_x(&bytes, &error) {
        LogLevel::Error
    } else if matches_name_x(&bytes, &warn) {
        LogLevel::Warn
    } else if matches_name_x(&bytes, &info) {
        LogLevel::Info
    } else if matches_name_x(&bytes, &debug) {
        LogLevel::Debug
    } else if matches_name_x(&bytes, &trace) {
        LogLevel::Trace
    } else {
        LogLevel::Debug
    }
}

fn make_name_off() -> (r: Vec<u8>)
    ensures
        r@ == off_name(),
{
    let mut v: Vec<u8> = Vec::new();
    v.push(0x6f);
    v.push(0x66);
    v.push(0x66);
    proof {
        assert(v@ =~= off_name());
    }
    v
}

fn make_name_error() -> (r: Vec<u8>)
    ensures
        r@ == error_name(),
{
    let mut v: Vec<u8> = Vec::new();
    v.push(0x65);
    v.push(0x72);
    v.push(0x72);
    v.push(0x6f);
    v.push(0x72);
    proof {
        assert(v@ =~= error_name());
    }
    v
}

fn make_name_warn() -> (r: Vec<u8>)
    ensures
        r@ == warn_name(),
{
    let mut v: Vec<u8> = Vec::new();
    v.push(0x77);
    v.push(0x61);
    v.push(0x72);
    v.push(0x6e);
    proof {
        assert(v@ =~= warn_name());
    }
    v
}

fn make_name_info() -> (r: Vec<u8>)
    ensures
        r@ == info_name(),
{
    let mut v: Vec<u8> = Vec::new();
    v.push(0x69);
    v.push(0x6e);
    v.push(0x66);
    v.push(0x6f);
    proof {
        assert(v@ =~= info_name());
    }
    v
}

fn make_name_debug() -> (r: Vec<u8>)
    ensures
        r@ == debug_name(),
{
    let mut v: Vec<u8> = Vec::new();
    v.push(0x64);
    v.push(0x65);
    v.push(0x62);
    v.push(0x75);
    v.push(0x67);
    proof {
        assert(v@ =~= debug_name());
    }
    v
}

fn make_name_trace() -> (r: Vec<u8>)
    ensures
        r@ == trace_name(),
{
    let mut v: Vec<u8> = Vec::new();
    v.push(0x74);
    v.push(0x72);
    v.push(0x61);
    v.push(0x63);
    v.push(0x65);
    proof {
        assert(v@ =~= trace_name());
    }
    v
}

/// Process configuration, read once at start and immutable thereafter.
pub struct Config {
    pub log_level: LogLevel,
    pub cassandra_host: String,
    pub cassandra_port: i32,
}

impl Config {
    /// Configuration with every field at its default.
    pub fn new_default() -> (c: Config)
        ensures
            c.log_level == LogLevel::Debug,
            c.cassandra_host@ == "127.0.0.1"@,
            c.cassandra_port == 9042,
    {
        Config {
            log_level: default_log_level(),
            cassandra_host: default_cassandra_host(),
            cassandra_port: default_cassandra_port(),
        }
    }
}

} // verus!
