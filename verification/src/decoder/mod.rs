pub mod float_laws;
pub mod greedy;
