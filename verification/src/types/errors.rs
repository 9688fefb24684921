//! The two failure kinds of mapping-entry construction.

use vstd::prelude::*;

verus! {

/// Why building a mapping entry failed: one side did not parse as an
/// absolute URL with a non-empty host. Each variant carries a message
/// naming the offending input.
#[derive(Debug, Clone, PartialEq, Eq)]
pub enum DomainChangerError {
    /// The `old` side was not a valid absolute URL with a host.
    InvalidOldDomain(String),
    /// The `new` side was not a valid absolute URL with a host.
    InvalidNewDomain(String),
}

/// Result type of mapping-entry construction.
pub type DomainChangerResult<T> = Result<T, DomainChangerError>;

impl DomainChangerError {
    /// Whether this error reports an invalid `old` domain.
    pub fn is_invalid_old_domain(&self) -> (r: bool)
        ensures
            r == (self is InvalidOldDomain),
    {
        matches!(self, DomainChangerError::InvalidOldDomain(_))
    }

    /// Whether this error reports an invalid `new` domain.
    pub fn is_invalid_new_domain(&self) -> (r: bool)
        ensures
            r == (self is InvalidNewDomain),
    {
        matches!(self, DomainChangerError::InvalidNewDomain(_))
    }

    /// The error's message, naming the offending input.
    pub fn message(&self) -> (r: &String)
        ensures
            r@ == self.spec_message(),
    {
        match self {
            DomainChangerError::InvalidOldDomain(m) => m,
            DomainChangerError::InvalidNewDomain(m) => m,
        }
    }

    /// The message carried by the error.
    pub open spec fn spec_message(&self) -> Seq<char> {
        match self {
            DomainChangerError::InvalidOldDomain(m) => m@,
            DomainChangerError::InvalidNewDomain(m) => m@,
        }
    }
}

} // verus!
