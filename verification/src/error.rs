use vstd::prelude::*;

verus! {

/// Errors that can occur during storage operations.
///
/// "Not found" is expected and benign; a unique violation is a conflict the
/// caller must resolve; the remaining variants report infrastructure failures
/// that a higher layer may decide to retry. The engine itself never retries
/// and never swallows an error.
#[derive(Clone, Debug)]
pub enum StoreError {
    /// The record (or index entry) named by the payload does not exist.
    NotFound(String),
    /// No index with the given selector is declared for the model.
    IndexNotFound(String),
    /// A unique-only lookup was attempted on a non-unique index.
    IndexNotUnique(String),
    /// Inserting or updating would give two live records the same key under
    /// a unique index.
    UniqueViolation {
        /// The index whose uniqueness constraint was violated.
        index: String,
        /// The duplicate composite key, in canonical encoded form.
        value: String,
    },
    /// The document codec failed to encode or decode a record.
    Serialization(String),
    /// The underlying storage engine failed in a way not otherwise classified.
    Database(String),
    /// Any other failure.
    Other(String),
}

impl StoreError {
    /// True for the benign "record not found" case.
    pub fn is_not_found(&self) -> (r: bool)
        ensures
            r == (self is NotFound),
    {
        match self {
            StoreError::NotFound(_) => true,
            _ => false,
        }
    }

    /// True for a unique-index conflict.
    pub fn is_unique_violation(&self) -> (r: bool)
        ensures
            r == (self is UniqueViolation),
    {
        match self {
            StoreError::UniqueViolation { .. } => true,
            _ => false,
        }
    }
}

/// The specialized result type for storage operations.
pub type StoreResult<T> = Result<T, StoreError>;

} // verus!
