//! Settings of the server: where it stores data, where it listens and how much
//! it logs, taken from the command line, then the configuration file, then the
//! built-in defaults.
use vstd::prelude::*;

verus! {

broadcast use vstd::string::group_string_axioms;

/// The data directory used when neither the command line nor the file names one.
pub open spec fn default_data_dir() -> Seq<char> {
    "./data/rgrab"@
}

/// The listen address used when neither the command line nor the file names one.
pub open spec fn default_listen() -> Seq<char> {
    "0.0.0.0:3000"@
}

/// The log filter used when neither the command line nor the file names one.
pub open spec fn default_log_level() -> Seq<char> {
    "info"@
}

/// The settings one source gives, each possibly absent.
pub struct ConfigLayer {
    pub data_dir: Option<String>,
    pub listen: Option<String>,
    pub log_level: Option<String>,
}

/// The settings the server runs with.
pub struct Config {
    pub data_dir: String,
    pub listen: String,
    pub log_level: String,
}

/// The first of two optional values that is present, else the default.
pub open spec fn pick(first: Option<String>, second: Option<String>, default: Seq<char>) -> Seq<char> {
    match first {
        Some(v) => v@,
        None => match second {
            Some(v) => v@,
            None => default,
        },
    }
}

fn pick_value(first: Option<String>, second: Option<String>, default: &str) -> (r: String)
    ensures
        r@ == pick(first, second, default@),
{
    match first {
        Some(v) => v,
        None => match second {
            Some(v) => v,
            None => default.to_string(),
        },
    }
}

impl Config {
    /// The settings: each one from the command line if given there, else from
    /// the configuration file, else its default.
    pub fn load(cli: ConfigLayer, file: ConfigLayer) -> (r: Config)
        ensures
            r.data_dir@ == pick(cli.data_dir, file.data_dir, default_data_dir()),
            r.listen@ == pick(cli.listen, file.listen, default_listen()),
            r.log_level@ == pick(cli.log_level, file.log_level, default_log_level()),
    {
        let data_dir = pick_value(cli.data_dir, file.data_dir, "./data/rgrab");
        let listen = pick_value(cli.listen, file.listen, "0.0.0.0:3000");
        let log_level = pick_value(cli.log_level, file.log_level, "info");
        Config { data_dir, listen, log_level }
    }
}

} // verus!
