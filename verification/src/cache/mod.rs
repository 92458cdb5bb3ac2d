pub mod count_laws;
pub mod cuda_vmm;
pub mod frag_laws;
pub mod fragmentation_tracker;
pub mod kv_cache;
pub mod paged_kv;
pub mod swap;
pub mod swap_laws;
pub mod table_laws;
pub mod unified_frag;
