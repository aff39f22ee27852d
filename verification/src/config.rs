//! Client configuration: the registry to talk to, the credentials, where
//! servers are installed, and the files under `~/.mcpreg`.

use vstd::prelude::*;
use vstd::string::StringExecFns;
use std::path::PathBuf;
use crate::error::McpRegError;

verus! {

/// `std::path::PathBuf`, carried through as an opaque value.
#[verifier::external_type_specification]
#[verifier::external_body]
pub struct ExPathBuf(std::path::PathBuf);

/// The registry used when none is configured.
pub open spec fn default_registry() -> Seq<char> {
    "https://registry.mcpreg.dev"@
}

/// The client's settings.
#[derive(Debug)]
pub struct Config {
    pub registry_url: String,
    pub api_key: Option<String>,
    pub install_dir: Option<String>,
}

impl Default for Config {
    fn default() -> (r: Self)
        ensures
            r.registry_url@ == default_registry(),
            r.api_key is None,
            r.install_dir is None,
    {
        Config { registry_url: String::from_str("https://registry.mcpreg.dev"), api_key: None, install_dir: None }
    }
}

/// Calls `dirs::home_dir`. The answer depends on the environment and the
/// platform, so nothing is claimed of it.
#[verifier::external_body]
fn home_dir() -> (r: Option<PathBuf>) {
    dirs::home_dir()
}

/// What `Path::join` makes of a path and a relative part: a function of the
/// two alone (no environment or file system is consulted).
pub uninterp spec fn path_join(base: PathBuf, part: Seq<char>) -> PathBuf;

/// Calls `Path::join`; the contract claims only that the result is the
/// named function of the base path and the part.
#[verifier::external_body]
fn join_path(base: &PathBuf, part: &str) -> (r: PathBuf)
    ensures
        r == path_join(*base, part@),
{
    base.join(part)
}

/// `.mcpreg` under a home directory.
pub open spec fn config_dir_of(home: PathBuf) -> PathBuf {
    path_join(home, ".mcpreg"@)
}

/// A file of the configuration directory under some home directory.
pub open spec fn config_file_of(p: PathBuf, file: Seq<char>) -> bool {
    exists|home: PathBuf| p == path_join(#[trigger] config_dir_of(home), file)
}

/// The error when no home directory can be found.
pub open spec fn no_home(e: McpRegError) -> bool {
    e matches McpRegError::Config(m) && m@ == "Cannot find home directory"@
}

impl Config {
    /// `.mcpreg` under the home directory `home` reported; the missing-home
    /// error when there is none.
    pub fn config_dir_from(home: Option<PathBuf>) -> (r: Result<PathBuf, McpRegError>)
        ensures
            home is None ==> (r matches Err(e) && no_home(e)),
            home matches Some(h) ==> r == Ok::<PathBuf, McpRegError>(config_dir_of(h)),
    {
        match home {
            Some(h) => Ok(join_path(&h, ".mcpreg")),
            None => Err(McpRegError::Config(String::from_str("Cannot find home directory"))),
        }
    }

    /// The file `file` of `.mcpreg` under the home directory `home`
    /// reported; the missing-home error when there is none.
    pub fn config_file_from(home: Option<PathBuf>, file: &str) -> (r: Result<PathBuf, McpRegError>)
        ensures
            home is None ==> (r matches Err(e) && no_home(e)),
            home matches Some(h) ==> r == Ok::<PathBuf, McpRegError>(path_join(config_dir_of(h), file@)),
    {
        let dir = Self::config_dir_from(home)?;
        Ok(join_path(&dir, file))
    }

    /// `~/.mcpreg`; fails when the home directory is unknown.
    pub fn config_dir() -> (r: Result<PathBuf, McpRegError>)
        ensures
            r matches Err(e) ==> no_home(e),
            r matches Ok(p) ==> exists|home: PathBuf| p == #[trigger] config_dir_of(home),
    {
        Self::config_dir_from(home_dir())
    }

    /// `~/.mcpreg/config.toml`.
    pub fn config_path() -> (r: Result<PathBuf, McpRegError>)
        ensures
            r matches Err(e) ==> no_home(e),
            r matches Ok(p) ==> config_file_of(p, "config.toml"@),
    {
        Self::config_file_from(home_dir(), "config.toml")
    }

    /// `~/.mcpreg/installed.json`, the record of installed servers.
    pub fn installed_servers_path() -> (r: Result<PathBuf, McpRegError>)
        ensures
            r matches Err(e) ==> no_home(e),
            r matches Ok(p) ==> config_file_of(p, "installed.json"@),
    {
        Self::config_file_from(home_dir(), "installed.json")
    }

    /// `~/.mcpreg/registry.db`, the local registry database.
    pub fn db_path() -> (r: Result<PathBuf, McpRegError>)
        ensures
            r matches Err(e) ==> no_home(e),
            r matches Ok(p) ==> config_file_of(p, "registry.db"@),
    {
        Self::config_file_from(home_dir(), "registry.db")
    }

    /// Overlays the environment on a loaded configuration:
    /// `MCPREG_REGISTRY_URL` replaces the registry, `MCPREG_API_KEY` the API
    /// key and `MCPREG_INSTALL_DIR` the install directory, each when set.
    pub fn with_overrides(self, url: Option<String>, api_key: Option<String>, install_dir: Option<String>) -> (r: Config)
        ensures
            r.registry_url == (match url { Some(u) => u, None => self.registry_url }),
            r.api_key == (match api_key { Some(k) => Some(k), None => self.api_key }),
            r.install_dir == (match install_dir { Some(d) => Some(d), None => self.install_dir }),
    {
        let mut c = self;
        if let Some(u) = url {
            c.registry_url = u;
        }
        if let Some(k) = api_key {
            c.api_key = Some(k);
        }
        if let Some(d) = install_dir {
            c.install_dir = Some(d);
        }
        c
    }
}

} // verus!
