//! A local library cache and search engine for a large media library.
//!
//! The crate owns the durable snapshot of a track library, reconciles it
//! against a slow external source without re-scanning everything, and
//! answers substring and field queries over the cached records.

pub mod albums;
pub mod cache;
pub mod codec;
pub mod dates;
pub mod playlist;
pub mod search;
pub mod settings;
pub mod source;
pub mod sync;
pub mod text;
pub mod timefmt;
pub mod track;
