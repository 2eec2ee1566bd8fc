pub mod chunker;
pub mod document;
pub mod embedder;
pub mod kv_cache;
pub mod pipeline;
pub mod ranking;
pub mod store;
pub mod text;
pub mod generator;
pub mod model;
pub mod sampler;
pub mod backward_pass;
pub mod float;
