//! Persisted application settings: where the shared configuration
//! repository lives and when it was last synchronised.  The surrounding
//! tooling loads and saves these; the library only defines the values and
//! their defaults.

use vstd::prelude::*;
use vstd::string::StringExecFns;

verus! {

/// The source repository for shared configurations, with the metadata of
/// the last synchronisation.
#[derive(Debug, Clone)]
pub struct Repository {
    /// The url of the source repository.
    pub url: String,
    /// Last time the local config was updated, as a unix timestamp.
    pub last_updated: Option<u32>,
    /// Commit used when last updating the local config.
    pub last_commit: Option<String>,
}

/// The application's persisted settings.
#[derive(Debug, Clone)]
pub struct Settings {
    /// The source repository.
    pub source: Repository,
}

impl Default for Repository {
    /// A fresh repository pointing at the example configuration source,
    /// never yet synchronised.
    fn default() -> (r: Self)
        ensures
            r.url@ == "https://github.com/Square-face/example_prusa_config.git"@,
            r.last_updated is None,
            r.last_commit is None,
    {
        Repository {
            url: String::from_str("https://github.com/Square-face/example_prusa_config.git"),
            last_updated: None,
            last_commit: None,
        }
    }
}

impl Default for Settings {
    /// Settings whose source is the default repository.
    fn default() -> (r: Self)
        ensures
            r.source.url@ == "https://github.com/Square-face/example_prusa_config.git"@,
            r.source.last_updated is None,
            r.source.last_commit is None,
    {
        Settings { source: Repository::default() }
    }
}

} // verus!
