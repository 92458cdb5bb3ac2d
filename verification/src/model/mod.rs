pub mod direct_read;
pub mod forward_laws;
pub mod laws;
pub mod llama_laws;
pub mod llama_transformer;
pub mod loader;
pub mod meaning;
pub mod name_laws;
pub mod program;
pub mod read_laws;
pub mod shards;
pub mod weights;
