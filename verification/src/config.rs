//! The suite's stored configuration and where it lives, and how commands
//! that operate on the music library find its root.

use vstd::prelude::*;

use crate::paths::{join, joined};
use crate::tags::opt_slice;
use crate::text::{chars_of, is_blank, trim_whitespace};
use crate::Error;

verus! {

/// The stored configuration.
pub struct Config {
    /// the music library root chosen in the web UI
    pub library_root: Option<String>,
}

impl Default for Config {
    fn default() -> (c: Config)
        ensures
            c.library_root is None,
    {
        Config { library_root: None }
    }
}

/// Where the suite keeps its data.
pub struct Paths {
    pub config_file: String,
    pub staging_root: String,
}

/// The data directory of the suite under the platform config directory.
pub open spec fn app_dir(config_dir: Seq<char>) -> Seq<char> {
    joined(config_dir, "dj-music-suite"@)
}

impl Paths {
    /// App data lives in `dj-music-suite` under the platform config dir:
    /// `config.toml` and the `staging` directory.
    pub fn under(config_dir: &str) -> (p: Paths)
        ensures
            p.config_file@ == joined(app_dir(config_dir@), "config.toml"@),
            p.staging_root@ == joined(app_dir(config_dir@), "staging"@),
    {
        let base = join(config_dir, "dj-music-suite");
        Paths {
            config_file: join(base.as_str(), "config.toml"),
            staging_root: join(base.as_str(), "staging"),
        }
    }
}

/// The refusal when no root is given and none can be configured.
pub open spec fn root_required_msg() -> Seq<char> {
    "--root is required"@
}

/// The refusal when no root is given and none is configured in `config_file`.
pub open spec fn root_not_configured_msg(config_file: Seq<char>) -> Seq<char> {
    "--root is required (or set the library root once in the web UI; it would be stored in "@
        + config_file + ")"@
}

/// The root a library command works on, before it is resolved on disk: an
/// explicit `--root` wins; otherwise the configured library root, when there
/// is a config file and its root is not blank; otherwise a usage error.
pub open spec fn library_root_choice(
    explicit: Option<Seq<char>>,
    config_file: Option<Seq<char>>,
    configured: Option<Seq<char>>,
) -> Result<Seq<char>, Seq<char>> {
    match explicit {
        Some(r) => Ok(r),
        None => match config_file {
            None => Err(root_required_msg()),
            Some(f) => match configured {
                Some(s) => if !is_blank(s) {
                    Ok(s)
                } else {
                    Err(root_not_configured_msg(f))
                },
                None => Err(root_not_configured_msg(f)),
            },
        },
    }
}

/// The model of a root choice.
pub open spec fn choice_view(r: Result<String, Error>) -> Result<Seq<char>, Seq<char>> {
    match r {
        Ok(s) => Ok(s@),
        Err(Error::Usage(m)) => Err(m@),
        Err(Error::Runtime(m)) => Err(m@),
    }
}

fn blank(s: &str) -> (r: bool)
    ensures
        r == is_blank(s@),
{
    let v = chars_of(s);
    let t = trim_whitespace(v.as_slice());
    t.len() == 0
}

/// Choose the library root of a command (the choice is then resolved on
/// disk by the caller): `explicit` is `--root`, `config_file` the config
/// file when the platform has a config directory, `configured` the root
/// stored in it.
pub fn choose_library_root(
    explicit: Option<&str>,
    config_file: Option<&str>,
    configured: Option<&str>,
) -> (r: Result<String, Error>)
    ensures
        choice_view(r) == library_root_choice(
            opt_slice(explicit),
            opt_slice(config_file),
            opt_slice(configured),
        ),
        r is Err ==> r matches Err(Error::Usage(_)),
{
    match explicit {
        Some(raw) => Ok(raw.to_owned()),
        None => match config_file {
            None => Err(Error::Usage("--root is required".to_owned())),
            Some(f) => {
                if let Some(s) = configured {
                    if !blank(s) {
                        return Ok(s.to_owned());
                    }
                }
                let mut msg = chars_of(
                    "--root is required (or set the library root once in the web UI; it would be stored in ",
                );
                crate::text::extend_str(&mut msg, f);
                crate::text::extend_str(&mut msg, ")");
                Err(Error::Usage(crate::text::string_of(msg.as_slice())))
            },
        },
    }
}

} // verus!
