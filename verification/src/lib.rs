//! A low-level information-retrieval core: a paged, block-compressed
//! inverted index over opaque integer terms and monotone document ids.
//!
//! Postings are delta-coded into fixed-size blocks, blocks are grouped into
//! fixed-size pages, and pages live in a write-through cache backed by an
//! append-only page store.  Every listing keeps a bias (delta base) per
//! block, so a decoder can seek without decompressing everything before the
//! target.

pub mod utils;
pub mod counter;
pub mod page;
pub mod posting;
pub mod ring_buffer;
pub mod compressor;
pub mod page_manager;
pub mod block_iter;
pub mod listing;
pub mod vocabulary;
pub mod index;
