use vstd::prelude::*;

verus! {

/// Typed failures returned by cache construction, inserts and queries.
/// Every failure is reported to the immediate caller; nothing is retried
/// or silently swallowed.
#[derive(Clone, Copy, Debug, PartialEq, Eq, Structural)]
pub enum InsertError {
    /// The cache, the target partition, or the target shard is full and
    /// eviction is disabled or exhausted.
    CapacityExceeded,
    /// The fingerprint and the quantized bytes match an existing live entry
    /// and overwriting was not requested.
    DuplicateEntry,
    /// The input vector's length differs from the configured dimension.
    DimensionMismatch,
    /// A zero partition or shard count, a degenerate quantization level
    /// count, or an unrecognized metric or eviction name at construction.
    InvalidConfiguration,
}

impl InsertError {
    /// A short stable label for diagnostics.
    pub fn label(&self) -> (r: &'static str)
        ensures
            (*self is CapacityExceeded) ==> r@ == "capacity exceeded"@,
            (*self is DuplicateEntry) ==> r@ == "duplicate entry"@,
            (*self is DimensionMismatch) ==> r@ == "dimension mismatch"@,
            (*self is InvalidConfiguration) ==> r@ == "invalid configuration"@,
    {
        match self {
            InsertError::CapacityExceeded => "capacity exceeded",
            InsertError::DuplicateEntry => "duplicate entry",
            InsertError::DimensionMismatch => "dimension mismatch",
            InsertError::InvalidConfiguration => "invalid configuration",
        }
    }
}

} // verus!
