//! Text chunking, hashed token counts, and the discrete side of a UMAP
//! reduction over cosine distance.
//!
//! Everything in this crate works on integers and text. Numbers in single
//! precision appear as their 32 bits: `single` turns them into integer keys
//! that order as the numbers do, and `codec` writes and reads them. What is
//! decided about a reduction is decided here: which rows are the nearest
//! neighbours (`knn`), which entries the symmetric fuzzy graph has (`fuzzy`),
//! how the search for a bandwidth proceeds (`bandwidth`), which update the
//! optimiser makes next (`schedule`), which stored chunks rank highest
//! (`search`), and whether a request is in order (`params`). The arithmetic
//! between these decisions is the caller's.

pub mod bandwidth;
pub mod chunk;
pub mod codec;
pub mod embedding;
pub mod error;
pub mod fuzzy;
pub mod knn;
pub mod order;
pub mod params;
pub mod schedule;
pub mod search;
pub mod single;
pub mod text;

pub use crate::chunk::{
    chunk_by_sentences, chunk_by_token_overlap, chunk_text, split_paragraphs, split_sentences,
};
pub use crate::embedding::{fxhash, tokenize, HasherEmbedder};
pub use crate::error::ReduceError;
pub use crate::params::UmapParams;
