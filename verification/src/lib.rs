pub mod batch;
pub mod bytes;
pub mod cache;
pub mod config;
pub mod cuda;
pub mod decoder;
pub mod kcmm;
pub mod kv_write;
pub mod model;
pub mod server;
pub mod text;
