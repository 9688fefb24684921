//! The data model: URL records, mapping entries, the mapping table, and errors.

pub mod config;
pub mod domain;
pub mod errors;
pub mod traits;
pub mod urls;

pub use config::Config;
pub use domain::Domain;
pub use errors::DomainChangerError;
pub use traits::ToFromJson;
