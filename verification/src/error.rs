//! The ways in which syncing can fail.

use vstd::prelude::*;

verus! {

/// Why a sync failed; each variant carries a message.
#[derive(Debug)]
pub enum SyncError {
    /// A file could not be read or written.
    Io(String),
    /// The pre-commit configuration is not YAML.
    Yaml(String),
    /// A `pyproject.toml` is not TOML.
    Toml(String),
    /// A component manifest is not JSON.
    Json(String),
    /// The configuration is YAML but not a pre-commit configuration.
    Config(String),
}

impl SyncError {
    /// The message that the error carries.
    pub fn message(&self) -> (r: String)
        ensures
            r@ == (match self {
                SyncError::Io(m) => m@,
                SyncError::Yaml(m) => m@,
                SyncError::Toml(m) => m@,
                SyncError::Json(m) => m@,
                SyncError::Config(m) => m@,
            }),
    {
        match self {
            SyncError::Io(m) => m.clone(),
            SyncError::Yaml(m) => m.clone(),
            SyncError::Toml(m) => m.clone(),
            SyncError::Json(m) => m.clone(),
            SyncError::Config(m) => m.clone(),
        }
    }
}

} // verus!
