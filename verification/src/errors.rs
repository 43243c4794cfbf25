use vstd::prelude::*;

verus! {

#[verifier::external_type_specification]
#[verifier::external_body]
pub struct ExIoError(std::io::Error);

#[verifier::external_type_specification]
#[verifier::external_body]
pub struct ExJsonError(serde_json::Error);

/// Why a configuration could not be loaded or saved.
#[derive(Debug)]
pub enum ConfigError {
    /// Reading or writing a file failed.
    Io(std::io::Error),
    /// A file held no valid configuration, or one could not be written out.
    Deserialize(serde_json::Error),
    /// No configuration directory is known for this system.
    UndeterminableConfigLocation,
    /// Imports were nested deeper than allowed.
    MaxRecursionDepth,
    /// A configuration path has no parent directory.
    NotAFile,
    /// A configuration file did not hold a JSON object.
    Unknown,
}

} // verus!
