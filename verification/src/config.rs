use vstd::prelude::*;
use vstd::string::*;

verus! {

/// Shape of a transformer model.
#[derive(Debug, Clone)]
pub struct ModelConfig {
    pub hidden_size: usize,
    pub intermediate_size: usize,
    pub num_hidden_layers: usize,
    pub num_attention_heads: usize,
    pub num_key_value_heads: Option<usize>,
    pub vocab_size: usize,
    pub max_position_embeddings: usize,
    pub torch_dtype: String,
}

/// Element type assumed where a model does not name one.
pub fn default_dtype() -> (r: String)
    ensures
        r@ == "float16"@,
{
    "float16".to_owned()
}

impl ModelConfig {
    /// Elements per attention head.
    pub open spec fn spec_head_dim(&self) -> usize {
        self.hidden_size / self.num_attention_heads
    }

    /// Heads of the K and V caches: all attention heads unless the model
    /// groups its queries.
    pub open spec fn spec_kv_heads(&self) -> usize {
        match self.num_key_value_heads {
            Some(n) => n,
            None => self.num_attention_heads,
        }
    }

    /// Elements per attention head.
    #[verifier::when_used_as_spec(spec_head_dim)]
    pub fn head_dim(&self) -> (r: usize)
        requires
            self.num_attention_heads > 0,
        ensures
            r == self.spec_head_dim(),
    {
        self.hidden_size / self.num_attention_heads
    }

    /// Heads of the K and V caches.
    #[verifier::when_used_as_spec(spec_kv_heads)]
    pub fn kv_heads(&self) -> (r: usize)
        ensures
            r == self.spec_kv_heads(),
    {
        match self.num_key_value_heads {
            Some(n) => n,
            None => self.num_attention_heads,
        }
    }

    /// The shape of a Llama 7B model.
    pub fn llama_7b_like() -> (r: Self)
        ensures
            r.hidden_size == 4096,
            r.intermediate_size == 11008,
            r.num_hidden_layers == 32,
            r.num_attention_heads == 32,
            r.num_key_value_heads == Some(32usize),
            r.vocab_size == 32000,
            r.max_position_embeddings == 4096,
            r.torch_dtype@ == "float16"@,
    {
        ModelConfig {
            hidden_size: 4096,
            intermediate_size: 11008,
            num_hidden_layers: 32,
            num_attention_heads: 32,
            num_key_value_heads: Some(32),
            vocab_size: 32000,
            max_position_embeddings: 4096,
            torch_dtype: "float16".to_owned(),
        }
    }

    /// The shape of TinyLlama.
    pub fn tiny_llama() -> (r: Self)
        ensures
            r.hidden_size == 2048,
            r.intermediate_size == 5632,
            r.num_hidden_layers == 22,
            r.num_attention_heads == 32,
            r.num_key_value_heads == Some(4usize),
            r.vocab_size == 32000,
            r.max_position_embeddings == 2048,
            r.torch_dtype@ == "bfloat16"@,
    {
        ModelConfig {
            hidden_size: 2048,
            intermediate_size: 5632,
            num_hidden_layers: 22,
            num_attention_heads: 32,
            num_key_value_heads: Some(4),
            vocab_size: 32000,
            max_position_embeddings: 2048,
            torch_dtype: "bfloat16".to_owned(),
        }
    }
}

/// Configuration of the inference server.
#[derive(Debug, Clone)]
pub struct ServerConfig {
    pub listen: String,
    pub max_batch_size: usize,
    pub max_seq_len: usize,
    pub pipeline: Option<PipelineConfig>,
    pub model_path: String,
    pub loader: String,
}

/// Loader used where the configuration does not name one.
pub fn default_loader() -> (r: String)
    ensures
        r@ == "read"@,
{
    "read".to_owned()
}

/// Place of this process in a pipeline of servers.
#[derive(Debug, Clone)]
pub struct PipelineConfig {
    pub rank: usize,
    pub world_size: usize,
    pub next_addr: Option<String>,
    pub listen_addr: String,
}

/// Configuration of the KV cache memory pool.
#[derive(Debug, Clone)]
pub struct KcmmConfig {
    /// Tokens per block.
    pub block_size: usize,
    /// Maximum number of blocks in the pool.
    pub max_blocks: usize,
    /// Path to the CPU swap buffer.
    pub cpu_cache_path: String,
    /// Whether blocks may move to CPU memory.
    pub tiering: bool,
    /// Eviction policy: "lru", "lfu", or "fifo".
    pub eviction_policy: String,
    /// Number of look-ahead blocks to prefetch per active sequence.
    pub prefetch_window: usize,
    /// Maximum number of blocks to move in one batch.
    pub max_batch_blocks: usize,
    /// Milliseconds between background eviction checks.
    pub background_evict_interval_ms: u64,
    /// Number of initial blocks protected by the "sink_window" policy.
    pub attention_sink_blocks: usize,
    /// Number of final blocks protected by the "sink_window" policy.
    pub recent_window_blocks: usize,
}

pub fn default_block_size() -> (r: usize)
    ensures
        r == 16,
{
    16
}

pub fn default_max_blocks() -> (r: usize)
    ensures
        r == 16384,
{
    16384
}

pub fn default_cpu_cache_path() -> (r: String)
    ensures
        r@ == "/dev/shm/kcmm_swap"@,
{
    "/dev/shm/kcmm_swap".to_owned()
}

pub fn default_tiering() -> (r: bool)
    ensures
        r,
{
    true
}

pub fn default_eviction_policy() -> (r: String)
    ensures
        r@ == "lru"@,
{
    "lru".to_owned()
}

pub fn default_prefetch_window() -> (r: usize)
    ensures
        r == 4,
{
    4
}

pub fn default_max_batch_blocks() -> (r: usize)
    ensures
        r == 64,
{
    64
}

pub fn default_background_evict_interval_ms() -> (r: u64)
    ensures
        r == 100,
{
    100
}

pub fn default_attention_sink_blocks() -> (r: usize)
    ensures
        r == 1,
{
    1
}

pub fn default_recent_window_blocks() -> (r: usize)
    ensures
        r == 4,
{
    4
}

impl Default for KcmmConfig {
    fn default() -> (r: Self)
        ensures
            r.block_size == 16,
            r.max_blocks == 16384,
            r.cpu_cache_path@ == "/dev/shm/kcmm_swap"@,
            r.tiering,
            r.eviction_policy@ == "lru"@,
            r.prefetch_window == 4,
            r.max_batch_blocks == 64,
            r.background_evict_interval_ms == 100,
            r.attention_sink_blocks == 1,
            r.recent_window_blocks == 4,
    {
        KcmmConfig {
            block_size: default_block_size(),
            max_blocks: default_max_blocks(),
            cpu_cache_path: default_cpu_cache_path(),
            tiering: default_tiering(),
            eviction_policy: default_eviction_policy(),
            prefetch_window: default_prefetch_window(),
            max_batch_blocks: default_max_batch_blocks(),
            background_evict_interval_ms: default_background_evict_interval_ms(),
            attention_sink_blocks: default_attention_sink_blocks(),
            recent_window_blocks: default_recent_window_blocks(),
        }
    }
}

/// The heads share the hidden size, as much to each as goes evenly.
pub proof fn law_heads_share_hidden(c: ModelConfig)
    requires
        c.num_attention_heads > 0,
    ensures
        c.spec_head_dim() * c.num_attention_heads <= c.hidden_size,
        c.hidden_size < (c.spec_head_dim() + 1) * c.num_attention_heads,
{
    let h = c.hidden_size as int;
    let n = c.num_attention_heads as int;
    vstd::arithmetic::div_mod::lemma_fundamental_div_mod(h, n);
    assert((h / n + 1) * n == n * (h / n) + n) by (nonlinear_arith);
    assert((h / n) * n == n * (h / n)) by (nonlinear_arith);
}

/// There are as many key-value heads as the configuration says, and where it
/// says nothing as many as query heads.
pub proof fn law_kv_heads_as_configured(c: ModelConfig, n: usize)
    ensures
        c.num_key_value_heads == Some(n) ==> c.spec_kv_heads() == n,
        c.num_key_value_heads is None ==> c.spec_kv_heads() == c.num_attention_heads,
{
}

} // verus!
