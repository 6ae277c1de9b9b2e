use vstd::prelude::*;

verus! {

/// `std::io::Error`, carried through unchanged.
#[verifier::external_type_specification]
#[verifier::external_body]
pub struct ExIoError(std::io::Error);

/// `serde_json::Error`, carried through unchanged.
#[verifier::external_type_specification]
#[verifier::external_body]
pub struct ExJsonError(serde_json::Error);

/// The errors of the pipeline utilities.
#[derive(Debug)]
pub enum PipelineError {
    /// A file system operation failed.
    Io(std::io::Error),
    /// A JSON document could not be read or written.
    Json(serde_json::Error),
    /// The dependency graph has a cycle.
    CycleDetected,
    /// A USD asset reference is malformed.
    InvalidUsdRef { file: String, detail: String },
    /// Any other failure, with its message.
    Other(String),
}

} // verus!
