pub mod admission;
pub mod backend;
pub mod completion;
pub mod continuous_scheduler;
pub mod laws;
pub mod life_laws;
pub mod memory_laws;
pub mod restoration;
pub mod round_laws;
pub mod static_batch;
pub mod step;
pub mod step_laws;
pub mod victim_laws;
