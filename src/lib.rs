//! A file-backed cache with least-frequently-used eviction.
//!
//! The engine in [`cache`] decides; the caller performs the disk work that a
//! decision asks for and reports back.
pub mod cache;
pub mod error;
pub mod frequency;
pub mod laws;
pub mod traits;

pub use cache::{Access, LfuCache};
pub use error::Error;
pub use frequency::{Entry, Tier};
pub use traits::Key;
