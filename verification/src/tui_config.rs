//! Settings of the terminal client: which server it talks to, taken from the
//! command line, then the configuration file under the home directory, then
//! the built-in default.
use vstd::prelude::*;
use vstd::string::StringExecFns;

use crate::text::chars_of;

verus! {

broadcast use vstd::string::group_string_axioms;

/// The server used when neither the command line nor the file names one.
pub open spec fn default_server() -> Seq<char> {
    "http://localhost:3000"@
}

/// What a fresh configuration file holds.
pub const DEFAULT_CONFIG_CONTENT: &'static str = "# rgrab TUI configuration\nserver = \"http://localhost:3000\"\n";

/// The settings the client runs with.
pub struct Config {
    pub server: String,
}

/// The server: from the command line if given there, else from the
/// configuration file, else the default.
pub fn load(cli_server: Option<String>, file_server: Option<String>) -> (r: Config)
    ensures
        r.server@ == (match cli_server {
            Some(s) => s@,
            None => match file_server {
                Some(s) => s@,
                None => default_server(),
            },
        }),
{
    let server = match cli_server {
        Some(s) => s,
        None => match file_server {
            Some(s) => s,
            None => "http://localhost:3000".to_string(),
        },
    };
    Config { server }
}

/// A relative path component appended to a path, as `Path::join` does on Unix:
/// a separator goes between them unless the path is empty or already ends in one.
pub open spec fn path_join(base: Seq<char>, component: Seq<char>) -> Seq<char> {
    if base.len() == 0 {
        component
    } else if base.last() == '/' {
        base + component
    } else {
        base + seq!['/'] + component
    }
}

/// `base` joined with the relative component `component`.
fn join_path(base: &str, component: &str) -> (r: String)
    ensures
        r@ == path_join(base@, component@),
{
    let chars = chars_of(base);
    if chars.len() == 0 {
        component.to_string()
    } else if chars[chars.len() - 1] == '/' {
        base.to_string().concat(component)
    } else {
        let with_sep = base.to_string().concat("/");
        proof {
            reveal_strlit("/");
        }
        assert(with_sep@ == base@ + seq!['/']);
        with_sep.concat(component)
    }
}

/// The directory of the configuration: `.rgrab` under the home directory, if
/// the home directory is known.
pub fn config_dir(home: Option<String>) -> (r: Option<String>)
    ensures
        match home {
            Some(h) => r matches Some(d) && d@ == path_join(h@, ".rgrab"@),
            None => r is None,
        },
{
    match home {
        Some(h) => Some(join_path(h.as_str(), ".rgrab")),
        None => None,
    }
}

/// The configuration file: `config.toml` in the configuration directory, if the
/// home directory is known.
pub fn config_path(home: Option<String>) -> (r: Option<String>)
    ensures
        match home {
            Some(h) => r matches Some(p) && p@ == path_join(
                path_join(h@, ".rgrab"@),
                "config.toml"@,
            ),
            None => r is None,
        },
{
    match config_dir(home) {
        Some(d) => Some(join_path(d.as_str(), "config.toml")),
        None => None,
    }
}

} // verus!
