//! Application configuration: which conversations export the viewer
//! works from. Reading and writing the configuration file is the
//! caller's business; the library only defines the value.

use vstd::prelude::*;

verus! {

/// The persisted application configuration.
#[derive(Debug, Clone)]
pub struct AppConfig {
    pub conversations_file_path: Option<String>,
}

impl Default for AppConfig {
    /// A fresh configuration has no conversations file chosen yet.
    fn default() -> (c: AppConfig)
        ensures
            c.conversations_file_path is None,
    {
        AppConfig { conversations_file_path: None }
    }
}

} // verus!
