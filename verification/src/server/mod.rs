pub mod http;
pub mod pipeline;
