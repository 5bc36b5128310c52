//! Mount options and the paths they resolve to.

use vstd::prelude::*;
use crate::cache::{joined, path_join};
use crate::clock::{duration_from_secs, nanos_of, secs_duration};
use crate::text::{chars_vec, slice_from, string_from};
use std::path::PathBuf;
use std::time::Duration;

verus! {

/// The command line.
pub struct Cli {
    pub command: Command,
}

/// What to do.
pub enum Command {
    /// Mount the library at MOUNTPOINT
    Mount(MountArgs),
}

/// Options of `mount`.
pub struct MountArgs {
    /// Path to the mountpoint (must be an existing empty directory)
    pub mountpoint: PathBuf,
    /// Credentials file (KEY=VALUE lines: USERNAME, PASSWORD)
    pub credentials: String,
    /// Root folder ID in the library
    pub root: u64,
    /// Directory for the on-disk content cache
    pub cache_dir: Option<PathBuf>,
    /// Seconds to cache directory listings before refetching
    pub meta_ttl: u64,
    /// Stay in the foreground (do not daemonize); logs to stderr
    pub foreground: bool,
}

/// The path a string names.
pub uninterp spec fn path_of(s: Seq<char>) -> PathBuf;

/// `PathBuf::from(&str)`: the path the string names.
#[verifier::external_body]
fn path_from(s: &str) -> (r: PathBuf)
    ensures
        r == path_of(s@),
{
    PathBuf::from(s)
}

/// `PathBuf::clone`: the same path.
#[verifier::external_body]
fn clone_path(p: &PathBuf) -> (r: PathBuf)
    ensures
        r == *p,
{
    p.clone()
}

/// `dirs::home_dir`: the user's home directory, if one can be found. Nothing
/// is stated of the result; it depends on the environment.
#[verifier::external_body]
fn home_dir() -> Option<PathBuf> {
    dirs::home_dir()
}

/// `dirs::cache_dir`: the user's cache directory, if one can be found.
/// Nothing is stated of the result; it depends on the environment.
#[verifier::external_body]
fn user_cache_dir() -> Option<PathBuf> {
    dirs::cache_dir()
}

/// The rest of `p` after a leading `~/`.
pub open spec fn tilde_rest(p: Seq<char>) -> Option<Seq<char>> {
    if p.len() >= 2 && p[0] == '~' && p[1] == '/' {
        Some(p.skip(2))
    } else {
        None
    }
}

/// `p` with a leading `~/` resolved against the home directory `home`; other
/// paths, and any path when there is no home directory, stay as written.
pub open spec fn expanded(p: Seq<char>, home: Option<PathBuf>) -> PathBuf {
    match (tilde_rest(p), home) {
        (Some(rest), Some(h)) => joined(h, rest),
        _ => path_of(p),
    }
}

/// Resolves a leading `~/` against `home`.
pub fn expand_tilde_in(p: &str, home: Option<PathBuf>) -> (r: PathBuf)
    ensures
        r == expanded(p@, home),
{
    let cs = chars_vec(p);
    if cs.len() >= 2 && cs[0] == '~' && cs[1] == '/' {
        match home {
            Some(h) => {
                let rest = string_from(slice_from(&cs, 2).as_slice());
                path_join(&h, rest.as_str())
            },
            None => path_from(p),
        }
    } else {
        path_from(p)
    }
}

/// Resolves a leading `~/` against the user's home directory.
pub fn expand_tilde(p: &str) -> (r: PathBuf)
    ensures
        exists|home: Option<PathBuf>| r == expanded(p@, home),
{
    let home = home_dir();
    expand_tilde_in(p, home)
}

/// The name of the cache directory inside the user's cache directory.
pub open spec fn cache_subdir() -> Seq<char> {
    seq!['c', 'o', 'n', 'd', 'o', '-', 'f', 'u', 's', 'e']
}

/// The cache directory: the one given, else `condo-fuse` inside the user's
/// cache directory `user_cache` (or inside `.` when there is none).
pub open spec fn cache_dir_choice(given: Option<PathBuf>, user_cache: Option<PathBuf>) -> PathBuf {
    match given {
        Some(d) => d,
        None => joined(
            match user_cache {
                Some(c) => c,
                None => path_of(seq!['.']),
            },
            cache_subdir(),
        ),
    }
}

impl MountArgs {
    /// Where the credentials file is.
    pub fn credentials_path(&self) -> (r: PathBuf)
        ensures
            exists|home: Option<PathBuf>| r == expanded(self.credentials@, home),
    {
        expand_tilde(self.credentials.as_str())
    }

    /// The cache directory, given the user's cache directory.
    pub fn cache_dir_path_in(&self, user_cache: Option<PathBuf>) -> (r: PathBuf)
        ensures
            r == cache_dir_choice(self.cache_dir, user_cache),
    {
        proof {
            reveal_strlit(".");
            reveal_strlit("condo-fuse");
            assert("."@ =~= seq!['.']);
            assert("condo-fuse"@ =~= cache_subdir());
        }
        match &self.cache_dir {
            Some(d) => clone_path(d),
            None => {
                let base = match user_cache {
                    Some(c) => c,
                    None => path_from("."),
                };
                path_join(&base, "condo-fuse")
            },
        }
    }

    /// The cache directory.
    pub fn cache_dir_path(&self) -> (r: PathBuf)
        ensures
            exists|user_cache: Option<PathBuf>| r == cache_dir_choice(self.cache_dir, user_cache),
    {
        let user_cache = user_cache_dir();
        self.cache_dir_path_in(user_cache)
    }

    /// How long directory listings are cached.
    pub fn meta_ttl_dur(&self) -> (r: Duration)
        ensures
            r == secs_duration(self.meta_ttl),
            nanos_of(r) == self.meta_ttl as int * 1_000_000_000,
    {
        duration_from_secs(self.meta_ttl)
    }
}

} // verus!
