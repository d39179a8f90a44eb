//! The command line, as plain values.

use crate::config::{config_path_of, get_config_path};
use crate::keys::opt_view;
use vstd::prelude::*;

verus! {

/// Arguments of `upload`.
#[derive(Clone, Debug)]
pub struct Upload {
    /// Local file or directory.
    pub file_path: String,
    /// Object key, or destination prefix for a directory.
    pub key_name: Option<String>,
    /// Most threads for one multipart upload.
    pub max_threads: Option<u64>,
    /// Size of one part of a multipart upload, in bytes.
    pub part_size: Option<u64>,
}

/// Arguments of `download`.
#[derive(Clone, Debug)]
pub struct Download {
    /// Object key.
    pub key_name: String,
    /// Local file name; the key's last segment where absent.
    pub file_name: Option<String>,
}

/// Arguments of `delete`.
#[derive(Clone, Debug)]
pub struct Delete {
    /// Object key.
    pub key_name: String,
}

/// A subcommand.
#[derive(Clone, Debug)]
pub enum Commands {
    Upload(Upload),
    Download(Download),
    Delete(Delete),
}

/// The whole command line.
#[derive(Clone, Debug)]
pub struct Cli {
    pub command: Option<Commands>,
    /// Path of the configuration file.
    pub config: Option<String>,
    /// Shell to print a completion script for.
    pub completion: Option<String>,
}

fn copy_opt(o: &Option<String>) -> (r: Option<String>)
    ensures
        opt_view(r) == opt_view(*o),
{
    match o {
        Some(s) => Some(s.clone()),
        None => None,
    }
}

impl Cli {
    /// Whether the command line asks for nothing: no subcommand and no
    /// completion script. Help is printed then.
    pub fn wants_help(&self) -> (r: bool)
        ensures
            r == (self.command is None && self.completion is None),
    {
        self.command.is_none() && self.completion.is_none()
    }

    /// Where the configuration is read from, given the environment's override
    /// and the home directory.
    pub fn config_path(&self, env_override: Option<String>, home: Option<String>) -> (r: Option<
        String,
    >)
        ensures
            opt_view(r) == config_path_of(opt_view(self.config), opt_view(env_override), opt_view(home)),
    {
        get_config_path(copy_opt(&self.config), env_override, home)
    }
}

} // verus!
