//! Decoder and query engine for a compact word-to-page postings index.
//!
//! An index travels as base64 text wrapping a small envelope around a gzip
//! payload. The payload holds a table of page names followed by a stream of
//! clusters, each a batch of equally long words with their postings. Decoding
//! yields an immutable [`FTS`] index that answers free-text queries with a
//! frequency-sum relevance score.

pub mod buffer;
pub mod cluster_fsm;
pub mod codec;
pub mod envelope;
pub mod error;
pub mod index;
pub mod rank;
pub mod search;
pub mod terms;
pub mod wire;
pub mod word_map;

pub use crate::buffer::Buffer;
pub use crate::cluster_fsm::ClusterFSM;
pub use crate::error::IndexError;
pub use crate::index::FTS;
pub use crate::search::SearchResult;
pub use crate::word_map::{Posting, WordMap};
