//! The configuration: where it is read from, and what it must hold.

use crate::keys::opt_view;
use vstd::prelude::*;
use vstd::string::StrSliceExecFns;
use vstd::string::StringExecFns;

verus! {

/// Credentials and the bucket that every operation works on.
#[derive(Clone, Debug)]
pub struct Config {
    pub secrect_key: String,
    pub secrect_id: String,
    pub bucket_name: String,
    pub region: String,
    pub domain: Option<String>,
}

/// Why a configuration cannot be used.
#[derive(Clone, Copy, Debug, PartialEq, Eq, Structural)]
pub enum ConfigError {
    /// The bucket name is empty.
    EmptyBucket,
}

/// Refuses a configuration without a bucket name.
pub fn check_config(c: &Config) -> (r: Result<(), ConfigError>)
    ensures
        r is Ok <==> c.bucket_name@.len() > 0,
        r is Err ==> r == Err::<(), ConfigError>(ConfigError::EmptyBucket),
{
    if c.bucket_name.unicode_len() == 0 {
        Err(ConfigError::EmptyBucket)
    } else {
        Ok(())
    }
}

fn last_char(s: &str) -> (c: char)
    requires
        s@.len() > 0,
    ensures
        c == s@.last(),
{
    s.get_char(s.unicode_len() - 1)
}

/// The configuration file's location: the path given on the command line,
/// else the override directory from the environment, else
/// `.config/qcloud.toml` under the home directory; `None` when none of the
/// three is known.
pub open spec fn config_path_of(
    explicit: Option<Seq<char>>,
    env_override: Option<Seq<char>>,
    home: Option<Seq<char>>,
) -> Option<Seq<char>> {
    match explicit {
        Some(p) => Some(p),
        None => match env_override {
            Some(e) => Some(e),
            None => match home {
                Some(h) => Some(
                    if h.len() == 0 || h.last() == '/' {
                        h + ".config/qcloud.toml"@
                    } else {
                        h + "/.config/qcloud.toml"@
                    },
                ),
                None => None,
            },
        },
    }
}

/// Chooses where the configuration file is read from.
pub fn get_config_path(
    explicit: Option<String>,
    env_override: Option<String>,
    home: Option<String>,
) -> (r: Option<String>)
    ensures
        opt_view(r) == config_path_of(opt_view(explicit), opt_view(env_override), opt_view(home)),
{
    match explicit {
        Some(p) => Some(p),
        None => match env_override {
            Some(e) => Some(e),
            None => match home {
                Some(h) => {
                    let n = h.unicode_len();
                    let mut c = h;
                    if n == 0 || last_char(c.as_str()) == '/' {
                        c.append(".config/qcloud.toml");
                    } else {
                        c.append("/.config/qcloud.toml");
                    }
                    Some(c)
                },
                None => None,
            },
        },
    }
}

} // verus!
