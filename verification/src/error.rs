use vstd::prelude::*;

verus! {

/// Uniform failure kinds shared by the decoder and every analysis engine.
///
/// The five kinds are mutually exclusive: `Io` for byte-source failures
/// (raised by callers that do the reading), `Json` for syntactic decode
/// failures, `MetaMismatch` for schema violations, `InvalidData` for
/// semantic violations of the column invariants or unresolvable targets,
/// and `Cancelled` for a user-requested abort.
#[derive(Debug)]
pub enum SnapshotError {
    Io { details: String },
    Json { details: String },
    MetaMismatch { details: String },
    InvalidData { details: String },
    Cancelled,
}

impl SnapshotError {
    /// A single-line human-readable description of the failure.
    pub fn message(&self) -> (r: String)
        ensures
            match self {
                SnapshotError::Io { details } => r@ == "I/O error: "@ + details@,
                SnapshotError::Json { details } => r@ == "JSON parse error: "@ + details@,
                SnapshotError::MetaMismatch { details } => r@ == "meta mismatch: "@ + details@,
                SnapshotError::InvalidData { details } => r@ == "invalid data: "@ + details@,
                SnapshotError::Cancelled => r@ == "cancelled by user"@,
            },
    {
        match self {
            SnapshotError::Io { details } => String::from_str("I/O error: ").concat(details.as_str()),
            SnapshotError::Json { details } => String::from_str("JSON parse error: ").concat(details.as_str()),
            SnapshotError::MetaMismatch { details } => String::from_str("meta mismatch: ").concat(details.as_str()),
            SnapshotError::InvalidData { details } => String::from_str("invalid data: ").concat(details.as_str()),
            SnapshotError::Cancelled => String::from_str("cancelled by user"),
        }
    }
}

} // verus!
