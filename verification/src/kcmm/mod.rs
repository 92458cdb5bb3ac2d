pub mod append;
pub mod append_laws;
pub mod cpu_slots;
pub mod data_laws;
pub mod edit_laws;
pub mod evict;
pub mod evict_laws;
pub mod ffi;
pub mod flight_laws;
pub mod free_laws;
pub mod laws;
pub mod lockstep;
pub mod metrics;
pub mod move_laws;
pub mod part_laws;
pub mod policy;
pub mod policy_laws;
pub mod pool;
pub mod pool_model;
pub mod restore;
pub mod restore_laws;
pub mod run_laws;
pub mod sharing;
pub mod slot_laws;
pub mod superblock;
pub mod teardown;
pub mod tiering;
pub mod transfer;
