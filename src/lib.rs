//! Streaming selection of the highest-cited open-access works from a
//! corpus of gzip-compressed JSON Lines files.
pub mod record;
pub mod topk;
mod heap;
pub mod retention;
pub mod parse;
pub mod decode;
pub mod pipeline;
mod vecs;
