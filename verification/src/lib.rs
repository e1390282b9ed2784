//! Core lifecycle engine of a self-hosted paste-sharing service.
//!
//! The crate owns the paste data model, the two interchangeable slug codecs,
//! the exclusive-access paste store with its expiration and burn-after-read
//! policies, identifier allocation, the persistence format, the garbage
//! sweep, and file-attachment name validation. HTTP handling, configuration
//! loading and disk I/O live outside and call into these verified functions.

pub mod codec;
pub mod config;
pub mod error;
pub mod files;
pub mod idgen;
pub mod pasta;
pub mod persist;
pub mod store;
pub mod text;

pub use config::PublicUrl;
pub use error::CoreError;
pub use pasta::Pasta;
pub use pasta::PastaFile;
pub use pasta::PastaKind;
pub use store::PastaStore;
