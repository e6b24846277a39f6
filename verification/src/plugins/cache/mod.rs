pub mod entry;
pub mod error;
pub mod metadata;
pub mod policy;
