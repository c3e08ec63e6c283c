//! Willow paths and their components, with verified contracts.

pub mod digest;
pub mod laws;
pub mod path;

pub use digest::FakePayloadDigest;
pub use path::{ComponentTooLongError, InvalidPathError, Path, PathComponentLocal, PathLocal};
