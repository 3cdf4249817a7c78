//! Application configuration: the transcription endpoint and whether the
//! store is encrypted at rest. Loading and saving the on-disk file is the
//! surrounding application's concern; the library only defines the settings
//! and their defaults.

use vstd::prelude::*;

verus! {

/// The persisted settings.
#[derive(Debug, Clone)]
pub struct AppConfig {
    /// Base address of the transcription service, if configured.
    pub api_base: Option<String>,
    /// Whether field payloads are encrypted at rest; switched on once a
    /// passphrase is set.
    pub encryption_enabled: bool,
}

impl Default for AppConfig {
    /// A fresh configuration: no endpoint, no encryption.
    fn default() -> (r: AppConfig)
        ensures
            r.api_base is None,
            !r.encryption_enabled,
    {
        AppConfig { api_base: None, encryption_enabled: false }
    }
}

} // verus!
