//! Verified core of `wyrd`: the text, path, ordering and clustering rules
//! behind semantic reranking, clustering and duplicate refinement of `yore`
//! JSON output.
pub mod cluster;
pub mod embeddings;
pub mod fixture;
pub mod ops;
pub mod ranking;
pub mod scores;
pub mod text;
pub mod yore_json;
