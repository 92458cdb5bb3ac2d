use baseline_llm_os::config::{default_dtype, default_loader, KcmmConfig, ModelConfig};

#[test]
fn test_head_dim_llama_7b() {
    let cfg = ModelConfig::llama_7b_like();
    assert_eq!(cfg.head_dim(), 128); // 4096 / 32
}

#[test]
fn test_head_dim_tiny_llama() {
    let cfg = ModelConfig::tiny_llama();
    assert_eq!(cfg.head_dim(), 64); // 2048 / 32
}

#[test]
fn test_kv_heads_defaults_to_attention_heads() {
    let cfg = ModelConfig {
        hidden_size: 512,
        intermediate_size: 2048,
        num_hidden_layers: 4,
        num_attention_heads: 8,
        num_key_value_heads: None,
        vocab_size: 1000,
        max_position_embeddings: 256,
        torch_dtype: "float16".to_string(),
    };
    assert_eq!(cfg.kv_heads(), 8); // falls back to num_attention_heads
}

#[test]
fn test_kv_heads_explicit_gqa() {
    let cfg = ModelConfig::tiny_llama();
    assert_eq!(cfg.num_attention_heads, 32);
    assert_eq!(cfg.num_key_value_heads, Some(4));
    assert_eq!(cfg.kv_heads(), 4); // explicit GQA value
}

#[test]
fn test_llama_7b_constants() {
    let cfg = ModelConfig::llama_7b_like();
    assert_eq!(cfg.hidden_size, 4096);
    assert_eq!(cfg.intermediate_size, 11008);
    assert_eq!(cfg.num_hidden_layers, 32);
    assert_eq!(cfg.num_attention_heads, 32);
    assert_eq!(cfg.vocab_size, 32000);
    assert_eq!(cfg.max_position_embeddings, 4096);
}

#[test]
fn test_tiny_llama_constants() {
    let cfg = ModelConfig::tiny_llama();
    assert_eq!(cfg.hidden_size, 2048);
    assert_eq!(cfg.intermediate_size, 5632);
    assert_eq!(cfg.num_hidden_layers, 22);
    assert_eq!(cfg.num_attention_heads, 32);
    assert_eq!(cfg.num_key_value_heads, Some(4));
    assert_eq!(cfg.vocab_size, 32000);
    assert_eq!(cfg.max_position_embeddings, 2048);
}

#[test]
fn test_default_dtype() {
    assert_eq!(default_dtype(), "float16");
}

#[test]
fn the_default_loader_reads() {
    assert_eq!(default_loader(), "read");
}

#[test]
fn test_kcmm_config_defaults() {
    let cfg = KcmmConfig::default();
    assert_eq!(cfg.block_size, 16);
    assert_eq!(cfg.max_blocks, 16384);
    assert_eq!(cfg.cpu_cache_path, "/dev/shm/kcmm_swap");
    assert!(cfg.tiering);
    assert_eq!(cfg.eviction_policy, "lru");
    assert_eq!(cfg.prefetch_window, 4);
    assert_eq!(cfg.max_batch_blocks, 64);
    assert_eq!(cfg.background_evict_interval_ms, 100);
    assert_eq!(cfg.attention_sink_blocks, 1);
    assert_eq!(cfg.recent_window_blocks, 4);
}
