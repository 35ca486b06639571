//! The server's settings: defaults, overridden by a settings file, overridden by the
//! command line.
use vstd::prelude::*;

verus! {

/// The server's settings.
#[derive(Debug)]
pub struct Config {
    pub port: u16,
    pub host: String,
    pub snapshot_path: Option<String>,
    pub flush_interval: u64,
    pub password: Option<String>,
}

/// Settings of which each may be left out, as the command line or a settings file
/// gives them.
#[derive(Debug)]
pub struct PartialConfig {
    pub port: Option<u16>,
    pub host: Option<String>,
    pub snapshot_path: Option<String>,
    pub flush_interval: Option<u64>,
    pub password: Option<String>,
    pub config_file: Option<String>,
}

pub open spec fn opt_str(o: Option<String>) -> Option<Seq<char>> {
    match o {
        Some(s) => Some(s@),
        None => None,
    }
}

/// The first of the settings that is given.
pub open spec fn first_of<T>(a: Option<T>, b: Option<T>) -> Option<T> {
    match a {
        Some(x) => Some(x),
        None => b,
    }
}

pub open spec fn or_default<T>(a: Option<T>, d: T) -> T {
    match a {
        Some(x) => x,
        None => d,
    }
}

/// The default settings: port 9736 on every interface, snapshots in `dump.json` every
/// 300 seconds, no password.
impl Default for Config {
    fn default() -> (c: Config)
        ensures
            c.port == 9736,
            c.host@ == "0.0.0.0"@,
            opt_str(c.snapshot_path) == Some("dump.json"@),
            c.flush_interval == 300,
            c.password is None,
    {
        Config {
            port: 9736,
            host: "0.0.0.0".to_string(),
            snapshot_path: Some("dump.json".to_string()),
            flush_interval: 300,
            password: None,
        }
    }
}

impl PartialConfig {
    /// No setting given.
    pub fn empty() -> (p: PartialConfig)
        ensures
            p.port is None,
            p.host is None,
            p.snapshot_path is None,
            p.flush_interval is None,
            p.password is None,
            p.config_file is None,
    {
        PartialConfig {
            port: None,
            host: None,
            snapshot_path: None,
            flush_interval: None,
            password: None,
            config_file: None,
        }
    }
}

fn pick<T>(a: Option<T>, b: Option<T>) -> (r: Option<T>)
    ensures
        r == first_of(a, b),
{
    match a {
        Some(x) => Some(x),
        None => b,
    }
}

/// The settings in force: each taken from the command line if given there, else from
/// the settings file if given there, else the default.
pub fn build_config(cli: PartialConfig, file: PartialConfig) -> (c: Config)
    ensures
        c.port == or_default(first_of(cli.port, file.port), 9736u16),
        c.host@ == or_default(first_of(opt_str(cli.host), opt_str(file.host)), "0.0.0.0"@),
        opt_str(c.snapshot_path) == first_of(
            first_of(opt_str(cli.snapshot_path), opt_str(file.snapshot_path)),
            Some("dump.json"@),
        ),
        c.flush_interval == or_default(first_of(cli.flush_interval, file.flush_interval), 300u64),
        opt_str(c.password) == first_of(opt_str(cli.password), opt_str(file.password)),
{
    let d = Config::default();
    let port = match pick(cli.port, file.port) {
        Some(p) => p,
        None => d.port,
    };
    let host = match pick(cli.host, file.host) {
        Some(h) => h,
        None => d.host,
    };
    let snapshot_path = match pick(cli.snapshot_path, file.snapshot_path) {
        Some(p) => Some(p),
        None => d.snapshot_path,
    };
    let flush_interval = match pick(cli.flush_interval, file.flush_interval) {
        Some(f) => f,
        None => d.flush_interval,
    };
    let password = pick(cli.password, file.password);
    Config { port, host, snapshot_path, flush_interval, password }
}

} // verus!
