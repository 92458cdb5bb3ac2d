use baseline_llm_os::cache::paged_kv::PagedKvCache;
use baseline_llm_os::config::ModelConfig;
use baseline_llm_os::cuda::kernels::{
    attn_decode, elementwise, packed_extents, rms_norm, rope, softmax,
};
use baseline_llm_os::model::direct_read::{DirectRead, ReadStep};
use baseline_llm_os::model::llama_transformer::{
    check_dtype, needs_conversion, LayerWeights, LlamaWeights, TensorRef, LAYER_TENSORS,
};
use baseline_llm_os::model::loader::{
    LoadError, LoaderKind, DIRECT_ALIGN, DIRECT_CHUNK, HEADER_READ_MAX,
};
use baseline_llm_os::model::program::{plan_embed, Buf, ContigCache, LlamaShape, Op};
use baseline_llm_os::model::shards::{
    add_shard, device_read, header_range, header_read, placed_tensor, read_shard, select_shards,
    tensor_metas, DeviceRead, DirEntry, HeaderEntry,
};
use baseline_llm_os::model::weights::{
    layer_tensor_name, ModelWeights, RawTensor, WeightError,
};

// Loaders

#[test]
fn loaders_have_names() {
    assert_eq!(LoaderKind::parse("read").unwrap(), LoaderKind::Read);
    assert_eq!(LoaderKind::parse("MMAP").unwrap(), LoaderKind::Mmap);
    assert_eq!(LoaderKind::parse("o_direct").unwrap(), LoaderKind::Direct);
    assert_eq!(LoaderKind::parse("Direct").unwrap(), LoaderKind::Direct);
    assert_eq!(LoaderKind::parse("cuFile").unwrap(), LoaderKind::Gds);
    for kind in [LoaderKind::Read, LoaderKind::Mmap, LoaderKind::Direct, LoaderKind::Gds] {
        assert_eq!(LoaderKind::parse(kind.as_str()).unwrap(), kind);
    }
}

#[test]
fn unknown_loaders_are_named_in_lower_case() {
    match LoaderKind::parse("Carrier-Pigeon") {
        Err(LoadError::UnknownLoader(name)) => assert_eq!(name, "carrier-pigeon"),
        _ => panic!("expected UnknownLoader"),
    }
}

fn read_file(file: &[u8], short: bool) -> Result<Vec<u8>, LoadError> {
    let mut run = DirectRead::new(file.len(), DIRECT_ALIGN);
    let mut buf = vec![0u8; run.buffer_len()];
    loop {
        match run.next() {
            ReadStep::Finished => break,
            ReadStep::Read { offset, len, direct } => {
                assert!(!direct || offset % DIRECT_ALIGN == 0);
                let n = if short { 0 } else { len };
                buf[offset..offset + n].copy_from_slice(&file[offset..offset + n]);
                run.advance(n);
            }
        }
    }
    run.finish()?;
    buf.truncate(file.len());
    Ok(buf)
}

#[test]
fn direct_reads_take_the_whole_file() {
    for len in [0, 1, 4095, 4096, 4097, DIRECT_CHUNK, DIRECT_CHUNK + 5000] {
        let file: Vec<u8> = (0..len).map(|i| (i % 251) as u8).collect();
        assert_eq!(read_file(&file, false).unwrap(), file);
    }
}

#[test]
fn direct_reads_start_with_chunks() {
    let run = DirectRead::new(2 * DIRECT_CHUNK + 4096 + 7, DIRECT_ALIGN);
    assert_eq!(
        run.next(),
        ReadStep::Read { offset: 0, len: DIRECT_CHUNK, direct: true }
    );
    assert_eq!(run.buffer_len(), 2 * DIRECT_CHUNK + 8192);
}

#[test]
fn an_incomplete_read_fails() {
    match read_file(&[1; 5000], true) {
        Err(LoadError::Incomplete { got: 0, expected: 5000 }) => {}
        _ => panic!("expected Incomplete"),
    }
}

#[test]
fn short_chunks_leave_no_gap() {
    let file: Vec<u8> = (0..2 * DIRECT_CHUNK + 5000).map(|i| (i % 249) as u8).collect();
    let mut run = DirectRead::new(file.len(), DIRECT_ALIGN);
    let mut buf = vec![0u8; run.buffer_len()];
    let mut first = true;
    while let ReadStep::Read { offset, len, .. } = run.next() {
        let n = if first { DIRECT_ALIGN } else { len };
        first = false;
        buf[offset..offset + n].copy_from_slice(&file[offset..offset + n]);
        run.advance(n);
        assert_eq!(buf[..run.written], file[..run.written]);
    }
    run.finish().unwrap();
    assert_eq!(run.written, file.len());
}

// Shards

fn entry(name: &str, extension: Option<&str>) -> DirEntry {
    DirEntry { name: name.as_bytes().to_vec(), extension: extension.map(|e| e.to_string()) }
}

#[test]
fn shards_come_in_the_order_of_their_names() {
    let entries = vec![
        entry("model-2.safetensors", Some("safetensors")),
        entry("config.json", Some("json")),
        entry("model-1.safetensors", Some("safetensors")),
        entry("README", None),
    ];
    assert_eq!(select_shards(&entries).unwrap(), vec![2, 0]);
}

#[test]
fn a_directory_needs_a_shard() {
    assert!(matches!(
        select_shards(&vec![entry("config.json", Some("json"))]),
        Err(LoadError::NoShards)
    ));
}

fn shard(header: &str, data: &[u8]) -> Vec<u8> {
    let mut out = (header.len() as u64).to_le_bytes().to_vec();
    out.extend_from_slice(header.as_bytes());
    out.extend_from_slice(data);
    out
}

const TWO_TENSORS: &str = r#"{"a":{"dtype":"F16","shape":[2,1],"data_offsets":[0,4]},"b":{"dtype":"BF16","shape":[1],"data_offsets":[4,6]}}"#;

#[test]
fn a_shard_gives_its_tensors() {
    let bytes = shard(TWO_TENSORS, &[1, 2, 3, 4, 5, 6]);
    let mut tensors = read_shard(&bytes).unwrap();
    tensors.sort_by(|x, y| x.name.cmp(&y.name));
    assert_eq!(tensors.len(), 2);
    assert_eq!(tensors[0].name, "a");
    assert_eq!(tensors[0].dtype, "F16");
    assert_eq!(tensors[0].shape, vec![2, 1]);
    assert_eq!(tensors[0].data, &[1, 2, 3, 4]);
    assert_eq!(tensors[1].name, "b");
    assert_eq!(tensors[1].dtype, "BF16");
    assert_eq!(tensors[1].shape, vec![1]);
    assert_eq!(tensors[1].data, &[5, 6]);

    let mut weights = ModelWeights::empty(ModelConfig::tiny_llama());
    add_shard(&mut weights, &tensors, &vec![0x100, 0x200]);
    let b = weights.get("b").unwrap();
    assert_eq!(b.device_ptr(), 0x200);
    assert_eq!(b.num_bytes(), 2);
    assert_eq!(b.num_elements(), 1);
    assert_eq!(weights.total_bytes(), 6);
}

#[test]
fn other_bytes_are_no_shard() {
    assert!(matches!(read_shard(&[1, 2, 3]), Err(LoadError::Malformed(_))));
    assert!(matches!(
        read_shard(&shard(TWO_TENSORS, &[1, 2])),
        Err(LoadError::Malformed(_))
    ));
    assert!(matches!(read_shard(&shard("nonsense", &[])), Err(LoadError::Malformed(_))));
}

#[test]
fn absurd_ends_are_refused() {
    let header =
        r#"{"a":{"dtype":"U8","shape":[18446744073709551615],"data_offsets":[0,18446744073709551615]}}"#;
    assert!(matches!(
        read_shard(&shard(header, &[1, 2, 3, 4])),
        Err(LoadError::EndTooFar)
    ));
    // too large for a part, but not to be counted
    let header = r#"{"a":{"dtype":"U8","shape":[9],"data_offsets":[0,9]}}"#;
    assert!(matches!(
        read_shard(&shard(header, &[1, 2, 3, 4])),
        Err(LoadError::Malformed(_))
    ));
}

#[test]
fn long_numbers_elsewhere_are_no_ends() {
    let header = r#"{"x18446744073709551615":{"dtype":"F16","shape":[2],"data_offsets":[0,4],"seed":18446744073709551615}}"#;
    let bytes = shard(header, &[1, 2, 3, 4]);
    let tensors = read_shard(&bytes).unwrap();
    assert_eq!(tensors[0].name, "x18446744073709551615");
    assert_eq!(tensors[0].data, &[1, 2, 3, 4]);
}

#[test]
fn a_header_stands_behind_its_length() {
    assert_eq!(header_range(&shard("{}", &[9])).unwrap(), (8, 10));
    assert!(matches!(
        header_range(&[0; 7]),
        Err(LoadError::HeaderTooShort { have: 7 })
    ));
    assert!(matches!(
        header_range(&[5, 0, 0, 0, 0, 0, 0, 0, 1]),
        Err(LoadError::HeaderTruncated { header_len: 5, have: 9 })
    ));
    assert!(matches!(
        header_range(&[255; 9]),
        Err(LoadError::HeaderTruncated { header_len: u64::MAX, have: 9 })
    ));
}

#[test]
fn tensors_are_read_in_the_order_of_their_data() {
    let full = |name: &str, from: usize, to: usize| HeaderEntry {
        name: name.to_string(),
        dtype: Some("F16".to_string()),
        shape: Some(vec![(to - from) / 2]),
        data_offsets: Some((from, to)),
    };
    let partial = HeaderEntry {
        name: "__metadata__".to_string(),
        dtype: None,
        shape: None,
        data_offsets: None,
    };
    let metas = tensor_metas(vec![full("late", 8, 12), partial, full("early", 0, 8)]);
    assert_eq!(metas.len(), 2);
    assert_eq!(metas[0].name, "early");
    assert_eq!(metas[0].data_offset, 0);
    assert_eq!(metas[0].data_len, 8);
    assert_eq!(metas[1].name, "late");
    let t = placed_tensor(&metas[1], 0xAB);
    assert_eq!(t.device_ptr, 0xAB);
    assert_eq!(t.num_bytes, 4);
    assert_eq!(t.shape, vec![2]);
    assert_eq!(t.dtype, "F16");
}

#[test]
fn device_reads_can_fail() {
    assert_eq!(device_read(-5, 10), DeviceRead::Failed);
    assert_eq!(device_read(4, 10), DeviceRead::Short(4));
    assert_eq!(device_read(10, 10), DeviceRead::Full);
    assert_eq!(header_read(-1), None);
    assert_eq!(header_read(100), Some(100));
    assert_eq!(header_read(1 << 40), Some(HEADER_READ_MAX));
}

// Weights

fn tensor(ptr: u64, dtype: &str, shape: Vec<usize>) -> RawTensor {
    let n: usize = shape.iter().product();
    RawTensor { shape, dtype: dtype.to_string(), device_ptr: ptr, num_bytes: 2 * n }
}

#[test]
fn layer_tensors_have_names() {
    assert_eq!(
        layer_tensor_name(12, "self_attn.q_proj.weight"),
        "model.layers.12.self_attn.q_proj.weight"
    );
    assert_eq!(layer_tensor_name(0, "x"), "model.layers.0.x");
}

#[test]
fn inserting_twice_replaces() {
    let mut w = ModelWeights::empty(ModelConfig::tiny_llama());
    w.insert("t".to_string(), tensor(1, "F16", vec![4]));
    w.insert("t".to_string(), tensor(2, "F16", vec![2]));
    assert_eq!(w.get("t").unwrap().device_ptr(), 2);
    assert_eq!(w.total_bytes(), 4);
    assert!(w.get("u").is_none());
    match w.try_get("u") {
        Err(WeightError::Missing(name)) => assert_eq!(name, "u"),
        _ => panic!("expected Missing"),
    }
    match w.try_layer(3, "u") {
        Err(WeightError::Missing(name)) => assert_eq!(name, "model.layers.3.u"),
        _ => panic!("expected Missing"),
    }
    w.insert("model.layers.3.u".to_string(), tensor(9, "F16", vec![1]));
    assert_eq!(w.layer_tensor(3, "u").unwrap().device_ptr(), 9);
}

fn tiny() -> ModelConfig {
    ModelConfig {
        hidden_size: 8,
        intermediate_size: 16,
        num_hidden_layers: 1,
        num_attention_heads: 2,
        num_key_value_heads: Some(1),
        vocab_size: 10,
        max_position_embeddings: 64,
        torch_dtype: "float16".to_string(),
    }
}

fn full_weights() -> ModelWeights {
    let mut w = ModelWeights::empty(tiny());
    w.insert("model.embed_tokens.weight".to_string(), tensor(1, "F16", vec![10, 8]));
    w.insert("model.norm.weight".to_string(), tensor(2, "BF16", vec![8]));
    w.insert("lm_head.weight".to_string(), tensor(3, "float16", vec![10, 8]));
    let suffixes = [
        ("input_layernorm.weight", vec![8]),
        ("self_attn.q_proj.weight", vec![8, 8]),
        ("self_attn.k_proj.weight", vec![4, 8]),
        ("self_attn.v_proj.weight", vec![4, 8]),
        ("self_attn.o_proj.weight", vec![8, 8]),
        ("post_attention_layernorm.weight", vec![8]),
        ("mlp.gate_proj.weight", vec![16, 8]),
        ("mlp.up_proj.weight", vec![16, 8]),
        ("mlp.down_proj.weight", vec![8, 16]),
    ];
    assert_eq!(suffixes.len(), LAYER_TENSORS);
    for (i, (s, shape)) in suffixes.into_iter().enumerate() {
        w.insert(layer_tensor_name(0, s), tensor(10 + i as u64, "F16", shape));
    }
    w
}

#[test]
fn weights_resolve_by_name() {
    let lw = LlamaWeights::resolve(&tiny(), &full_weights()).unwrap();
    assert_eq!(lw.embed_ptr, 1);
    assert_eq!(lw.norm, TensorRef { ptr: 2, len: 8 });
    assert_eq!(lw.lm_head, TensorRef { ptr: 3, len: 80 });
    assert_eq!(lw.layers.len(), 1);
    assert_eq!(lw.layers[0].k_proj, TensorRef { ptr: 12, len: 32 });
    assert_eq!(lw.layers[0].down_proj, TensorRef { ptr: 18, len: 128 });
}

#[test]
fn missing_weights_are_named() {
    let mut cfg = tiny();
    cfg.num_hidden_layers = 2;
    match LlamaWeights::resolve(&cfg, &full_weights()) {
        Err(WeightError::Missing(name)) => {
            assert_eq!(name, "model.layers.1.input_layernorm.weight")
        }
        _ => panic!("expected Missing"),
    }
}

#[test]
fn other_element_types_are_refused() {
    assert!(check_dtype("F16").is_ok());
    assert!(check_dtype("bf16").is_ok());
    assert!(check_dtype("Float16").is_ok());
    match check_dtype("I64") {
        Err(WeightError::UnsupportedDtype(d)) => assert_eq!(d, "I64"),
        _ => panic!("expected UnsupportedDtype"),
    }
    let mut w = full_weights();
    w.insert("model.norm.weight".to_string(), tensor(2, "F32", vec![8]));
    assert!(matches!(
        LlamaWeights::resolve(&tiny(), &w),
        Err(WeightError::UnsupportedDtype(_))
    ));
    assert!(needs_conversion(&tensor(1, "BF16", vec![1])));
    assert!(!needs_conversion(&tensor(1, "F16", vec![1])));
}

// Forward steps

fn layer(base: u64) -> LayerWeights {
    let r = |i: u64| TensorRef { ptr: base + i, len: 1 };
    LayerWeights {
        input_layernorm: r(0),
        q_proj: r(1),
        k_proj: r(2),
        v_proj: r(3),
        o_proj: r(4),
        post_attention_layernorm: r(5),
        gate_proj: r(6),
        up_proj: r(7),
        down_proj: r(8),
    }
}

fn llama() -> LlamaWeights {
    LlamaWeights {
        layers: vec![layer(10)],
        norm: TensorRef { ptr: 2, len: 8 },
        lm_head: TensorRef { ptr: 3, len: 80 },
        embed_ptr: 1,
    }
}

#[test]
fn a_contiguous_step_writes_before_it_attends() {
    let shape = LlamaShape::of(&tiny());
    assert_eq!(shape.head_dim, 4);
    assert_eq!(shape.kv_heads, 1);
    let cache = ContigCache { k_layers: vec![0x1000], v_layers: vec![0x2000], stride: 64 };
    let ops = cache.plan_forward(&shape, &llama(), &vec![2], &vec![5]);
    let write = ops
        .iter()
        .position(|op| matches!(op, Op::WriteKv { .. }))
        .expect("write");
    let attend = ops
        .iter()
        .position(|op| matches!(op, Op::Attend { .. }))
        .expect("attend");
    assert!(write < attend);
    match ops[attend] {
        Op::Attend { offset, len, seq_len, .. } => {
            assert_eq!(offset, 0);
            assert_eq!(len, 8);
            assert_eq!(seq_len, 6);
        }
        _ => unreachable!(),
    }
    match ops[ops.len() - 1] {
        Op::Project { src, weight, dst, m, n, k } => {
            assert_eq!(src, Buf::FinalNormed);
            assert_eq!(weight, TensorRef { ptr: 3, len: 80 });
            assert_eq!(dst, Buf::Logits);
            assert_eq!((m, n, k), (1, 10, 8));
        }
        _ => panic!("a step ends with the logits"),
    }
}

#[test]
fn a_paged_step_writes_into_the_block_of_its_position() {
    let cfg = tiny();
    let shape = LlamaShape::of(&cfg);
    let mut cache =
        PagedKvCache::new(cfg, 2, 64, 16, vec![0x7000_0000_0000], vec![0x7100_0000_0000]);
    let table = cache.alloc_sequence(2, &vec![vec![1, 2]]).unwrap();
    let second = cache.get_block_va_offset(table[1]).unwrap() as u64;
    let seq = cache.register_sequence(table.clone());
    cache.update_seq_len(seq, 18);
    let ops = cache.plan_forward(&shape, &llama(), &vec![seq], &vec![17]);
    // position 17 is the second of the second block; a row has four elements
    let dst = second + 4 * 2;
    assert!(ops.contains(&Op::WriteKv {
        src_offset: 0,
        elems: 4,
        dst_k: 0x7000_0000_0000 + dst,
        dst_v: 0x7100_0000_0000 + dst,
    }));
    assert!(ops.contains(&Op::PagedAttend { va_k: 0x7000_0000_0000, va_v: 0x7100_0000_0000 }));

    let (tables, lens) = cache.attention_tables(&vec![seq]);
    assert_eq!(tables.len(), 4);
    assert_eq!(tables[0], table[0] as i32);
    assert_eq!(tables[1], table[1] as i32);
    assert_eq!(lens, vec![18]);
}

#[test]
fn tokens_are_embedded_row_by_row() {
    let copies = plan_embed(0x100, 8, &vec![0, 3]);
    assert_eq!(copies.len(), 2);
    assert_eq!(copies[0].src, 0x100);
    assert_eq!(copies[1].src, 0x100 + 3 * 16);
    assert_eq!(copies[1].dst_offset, 8);
    assert_eq!(copies[1].nbytes, 16);
}

// Launches

#[test]
fn elementwise_launches_cover_all_elements() {
    let d = elementwise(1025);
    assert_eq!(d.grid_dim, (2, 1, 1));
    assert_eq!(d.block_dim, (1024, 1, 1));
    assert_eq!(d.shared_mem_bytes, 0);
    assert_eq!(elementwise(1024).grid_dim, (1, 1, 1));
    assert_eq!(elementwise(0).grid_dim, (0, 1, 1));
}

#[test]
fn row_launches_take_a_block_per_row() {
    assert_eq!(rms_norm(7).grid_dim, (7, 1, 1));
    assert_eq!(rms_norm(7).block_dim, (256, 1, 1));
    assert_eq!(softmax(3).grid_dim, (3, 1, 1));
    assert_eq!(attn_decode(2, 5).block_dim.0, 128);
}

#[test]
fn rope_launches_name_their_heads() {
    let d = rope(2, 8, 4, 32);
    let blocks = d.grid_dim.0 as usize * d.grid_dim.1 as usize * d.grid_dim.2 as usize;
    let threads = d.block_dim.0 as usize * d.block_dim.1 as usize * d.block_dim.2 as usize;
    assert!(blocks * threads >= 2 * 8 * 32);
}

#[test]
fn extents_are_packed_in_one_number() {
    let p = packed_extents(128, 16);
    assert_eq!(p & 0xFFFF, 16);
    assert_eq!(p >> 16, 128);
    assert_eq!(packed_extents(0xFFFF, 16), -65520);
}
