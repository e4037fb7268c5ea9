use microkimi::binfile::BinFile;
use microkimi::directory::read_directory;
use microkimi::directory::Directory;
use microkimi::directory::HeaderError;
use microkimi::qwen_bind::BindError;
use microkimi::qwen_bind::Fault;
use microkimi::qwen_bind::QwenConfig;
use microkimi::qwen_bind::QwenWeights;
use microkimi::safetensors::header_span;
use microkimi::safetensors::parse_header;
use microkimi::safetensors::SpanError;
use microkimi::safetensors::TensorMeta;
use microkimi::seam::seam_load;
use microkimi::seam::SeamError;
use microkimi::shadow::expert_matrix;
use microkimi::shadow::pair_at;
use microkimi::shadow::shadow_paths;
use microkimi::shadow::sidecar_path;
use microkimi::shadow::ShadowError;
use microkimi::shadow::Shadows;
use microkimi::spans::advise;
use microkimi::spans::expert_spans;
use microkimi::spans::skipped_bytes;
use microkimi::spans::spine_bytes;
use microkimi::spans::spine_gaps;
use microkimi::weights::blob_size;
use microkimi::weights::is_expert_tensor;
use microkimi::weights::BinWriter;
use microkimi::weights::Entry;
use microkimi::weights::DTYPE_F32;
use microkimi::weights::DTYPE_I32;
use microkimi::weights::DTYPE_MXFP4;
use microkimi::weights::DTYPE_MXFP4SQ;
use microkimi::weights::DTYPE_VQ1;

fn directory_of(list: &[(&str, u8, &[u32])]) -> Directory {
    let mut w = BinWriter::new();
    for (name, dtype, dims) in list {
        w.add(name, *dtype, dims.to_vec());
    }
    let (bytes, _) = w.write_header();
    match read_directory(&bytes) {
        Ok(h) => Directory::from_records(h.records),
        Err(_) => panic!("the header reads back"),
    }
}

#[test]
fn blobs_have_their_sizes() {
    assert_eq!(blob_size(DTYPE_F32, &[3, 5]), 60);
    assert_eq!(blob_size(DTYPE_MXFP4, &[2, 64]), 64 + 4);
    assert_eq!(blob_size(DTYPE_MXFP4SQ, &[2, 64]), 64 + 4 + 4);
    assert_eq!(blob_size(DTYPE_I32, &[7]), 28);
    assert_eq!(blob_size(DTYPE_VQ1, &[2, 64]), 8);
}

#[test]
fn expert_tensors_are_told_by_name() {
    assert!(is_expert_tensor("layers.3.block_sparse_moe.experts.17.w2"));
    assert!(!is_expert_tensor("layers.3.block_sparse_moe.experts.17.w4"));
    assert!(!is_expert_tensor("layers.3.block_sparse_moe.gate.w1"));
}

#[test]
fn headers_read_back() {
    let mut w = BinWriter::new();
    w.set_expert_align(4096);
    w.add("embed", DTYPE_F32, vec![2, 3]);
    w.add("layers.0.block_sparse_moe.experts.0.w1", DTYPE_MXFP4, vec![2, 32]);
    w.add("norm", DTYPE_F32, vec![3]);
    let (bytes, offsets) = w.write_header_v2("{\"a\":1}");
    assert_eq!(&bytes[..8], b"MKIM0002");
    assert_eq!(offsets[0] % 64, 0);
    assert_eq!(offsets[1] % 4096, 0);
    assert!(offsets[2] >= offsets[1] + 34);
    let h = match read_directory(&bytes) {
        Ok(h) => h,
        Err(_) => panic!("the header reads back"),
    };
    assert_eq!(h.config, Some(b"{\"a\":1}".to_vec()));
    assert_eq!(h.records.len(), 3);
    assert_eq!(h.records[1].0, "layers.0.block_sparse_moe.experts.0.w1");
    assert_eq!(h.records[1].1.offset, offsets[1]);
    assert_eq!(h.records[1].1.size, 34);
    assert_eq!(h.records[2].1.dims, vec![3]);
    let (v1, _) = w.write_header();
    assert_eq!(&v1[..8], b"MKIM0001");
    assert!(matches!(read_directory(&v1), Ok(h) if h.config.is_none()));
}

#[test]
fn bad_headers_are_refused() {
    assert!(matches!(read_directory(b"MKIM"), Err(HeaderError::Truncated)));
    assert!(matches!(read_directory(b"NOPE0001\0\0\0\0"), Err(HeaderError::BadMagic)));
    let mut w = BinWriter::new();
    w.add("ab", DTYPE_F32, vec![1]);
    let (mut bytes, _) = w.write_header();
    assert!(matches!(read_directory(&bytes[..14]), Err(HeaderError::Truncated)));
    let at = bytes.windows(2).position(|x| x == b"ab").unwrap();
    bytes[at] = 0xff;
    assert!(matches!(read_directory(&bytes), Err(HeaderError::BadName)));
}

#[test]
fn tensors_are_read_from_their_blobs() {
    let mut w = BinWriter::new();
    w.add("f", DTYPE_F32, vec![2]);
    w.add("i", DTYPE_I32, vec![2]);
    w.add("p", DTYPE_MXFP4, vec![1, 32]);
    let (mut bytes, offsets) = w.write_header();
    let h = match read_directory(&bytes) {
        Ok(h) => h,
        Err(_) => panic!("the header reads back"),
    };
    bytes.resize(offsets[2] as usize + 17, 0);
    bytes[offsets[0] as usize..][..8].copy_from_slice(&[0, 0, 128, 63, 0, 0, 0, 192]);
    bytes[offsets[1] as usize..][..8].copy_from_slice(&[5, 0, 0, 0, 255, 255, 255, 255]);
    for k in 0..17u8 {
        bytes[offsets[2] as usize + k as usize] = k + 1;
    }
    let bin = BinFile { data: &bytes, dir: Directory::from_records(h.records) };
    assert_eq!(bin.f32_words("f"), vec![1.0f32.to_bits(), (-2.0f32).to_bits()]);
    assert_eq!(bin.f32_bytes("f"), &[0, 0, 128, 63, 0, 0, 0, 192]);
    assert_eq!(bin.i32_vec("i"), vec![5, -1]);
    let (packed, scales, rows, cols) = bin.mxfp4_parts("p");
    assert_eq!((rows, cols), (1, 32));
    assert_eq!(packed, (1..=16u8).collect::<Vec<u8>>().as_slice());
    assert_eq!(scales, &[17]);
    assert_eq!(bin.dir.find("i"), Some(1));
    assert_eq!(bin.dir.find("nope"), None);
}

#[test]
fn spine_leaves_out_the_experts() {
    let e = |offset: u64, size: u64| Entry { dtype: DTYPE_F32, dims: vec![1], offset, size };
    let dir = Directory::from_records(vec![
        ("a".to_string(), e(100, 50)),
        ("layers.0.block_sparse_moe.experts.0.w1".to_string(), e(4096, 4096)),
        ("layers.0.block_sparse_moe.experts.0.w2".to_string(), e(8192, 4096)),
        ("b".to_string(), e(12288, 10)),
    ]);
    let spans = expert_spans(&dir, 12298);
    assert_eq!(spans, vec![(4096, 12288)]);
    assert_eq!(skipped_bytes(&spans, 100), 0);
    assert_eq!(skipped_bytes(&spans, 12288), 8192);
    assert_eq!(spine_gaps(&spans, 12298), vec![(0, 4096), (12288, 12298)]);
    let mut dir = dir;
    dir.remap_spine(&spans);
    assert_eq!(dir.list[0].1.offset, 100);
    assert_eq!(dir.list[3].1.offset, 4096);
    assert_eq!(dir.list[1].1.offset, 4096);
}

#[test]
fn spine_size_leaves_out_the_experts() {
    let d = directory_of(&[
        ("norm", DTYPE_F32, &[4]),
        ("layers.0.block_sparse_moe.experts.0.w1", DTYPE_MXFP4, &[2, 32]),
        ("layers.0.block_sparse_moe.experts.0.w2", DTYPE_MXFP4, &[32, 32]),
    ]);
    assert_eq!(spine_bytes(&d, 10_000), 10_000 - 34 - 544);
}

#[test]
fn advice_covers_whole_pages() {
    assert_eq!(advise(5000, 100, 100_000, true), Some((4096, 8192)));
    assert_eq!(advise(5000, 100, 100_000, false), None);
    assert_eq!(advise(4096, 8192, 100_000, false), Some((4096, 12288)));
    assert_eq!(advise(5000, 10_000, 6000, true), Some((4096, 6000)));
}

fn tiny(tied: bool) -> QwenConfig {
    QwenConfig {
        vocab: 64,
        d: 32,
        n_heads: 2,
        n_kv_heads: 1,
        head_dim: 16,
        lin_k_heads: 1,
        lin_v_heads: 1,
        lin_k_dim: 32,
        lin_v_dim: 32,
        conv_kernel: 4,
        n_experts: 0,
        top_k: 0,
        moe_inter: 0,
        shared_inter: 0,
        dense_inter: 64,
        mtp_layers: 0,
        tied_embeddings: tied,
        dense: true,
        full_attn: vec![false, true],
    }
}

fn tiny_tensors(tied: bool) -> Vec<(String, u8, Vec<u32>)> {
    let mut v: Vec<(String, u8, Vec<u32>)> = Vec::new();
    let mut f = |n: String, d: &[u32]| v.push((n, DTYPE_F32, d.to_vec()));
    f("model.language_model.embed_tokens.weight".to_string(), &[64, 32]);
    f("model.language_model.norm.weight".to_string(), &[32]);
    if !tied {
        f("lm_head.weight".to_string(), &[64, 32]);
    }
    for l in 0..2 {
        let p = format!("model.language_model.layers.{}", l);
        f(format!("{}.input_layernorm.weight", p), &[32]);
        f(format!("{}.post_attention_layernorm.weight", p), &[32]);
        if l == 0 {
            f(format!("{}.linear_attn.in_proj_qkv.weight", p), &[96, 32]);
            f(format!("{}.linear_attn.in_proj_z.weight", p), &[32, 32]);
            f(format!("{}.linear_attn.in_proj_b.weight", p), &[1, 32]);
            f(format!("{}.linear_attn.in_proj_a.weight", p), &[1, 32]);
            f(format!("{}.linear_attn.conv1d.weight", p), &[96, 1, 4]);
            f(format!("{}.linear_attn.A_log", p), &[1]);
            f(format!("{}.linear_attn.dt_bias", p), &[1]);
            f(format!("{}.linear_attn.norm.weight", p), &[32]);
            f(format!("{}.linear_attn.out_proj.weight", p), &[32, 32]);
        } else {
            f(format!("{}.self_attn.q_proj.weight", p), &[64, 32]);
            f(format!("{}.self_attn.k_proj.weight", p), &[16, 32]);
            f(format!("{}.self_attn.v_proj.weight", p), &[16, 32]);
            f(format!("{}.self_attn.o_proj.weight", p), &[32, 32]);
            f(format!("{}.self_attn.q_norm.weight", p), &[16]);
            f(format!("{}.self_attn.k_norm.weight", p), &[16]);
        }
    }
    for l in 0..2 {
        let p = format!("model.language_model.layers.{}", l);
        v.push((format!("{}.mlp.gate_proj.weight", p), DTYPE_MXFP4, vec![64, 32]));
        v.push((format!("{}.mlp.up_proj.weight", p), DTYPE_MXFP4, vec![64, 32]));
        v.push((format!("{}.mlp.down_proj.weight", p), DTYPE_MXFP4, vec![32, 64]));
    }
    v
}

fn bind(list: &[(String, u8, Vec<u32>)], c: &QwenConfig) -> Result<QwenWeights, BindError> {
    let refs: Vec<(&str, u8, &[u32])> = list.iter().map(|(n, t, d)| (n.as_str(), *t, d.as_slice())).collect();
    QwenWeights::from_bin(&directory_of(&refs), c)
}

#[test]
fn decoders_are_bound_to_their_tensors() {
    let list = tiny_tensors(false);
    let w = match bind(&list, &tiny(false)) {
        Ok(w) => w,
        Err(_) => panic!("the checkpoint binds"),
    };
    assert_eq!(w.head.len(), 3);
    assert_eq!(w.layers.len(), 2);
    assert_eq!(w.head[0].len, 64 * 32 * 4);
    assert!(w.mtp.is_none());
    // a tied checkpoint has no head of its own
    let w = match bind(&tiny_tensors(true), &tiny(true)) {
        Ok(w) => w,
        Err(_) => panic!("the checkpoint binds"),
    };
    assert!(w.head.len() >= 2);
}

#[test]
fn binding_names_the_tensor_at_fault() {
    let mut list = tiny_tensors(false);
    list.remove(0);
    assert!(matches!(
        bind(&list, &tiny(false)),
        Err(BindError::Tensor(name, Fault::Missing)) if name == "model.language_model.embed_tokens.weight"
    ));
    let mut list = tiny_tensors(false);
    list[1].1 = DTYPE_I32;
    assert!(matches!(bind(&list, &tiny(false)), Err(BindError::Tensor(_, Fault::WrongType))));
    let mut list = tiny_tensors(false);
    list[1].2 = vec![31];
    assert!(matches!(bind(&list, &tiny(false)), Err(BindError::Tensor(_, Fault::WrongShape))));
    let mut c = tiny(false);
    c.mtp_layers = 2;
    assert!(matches!(bind(&tiny_tensors(false), &c), Err(BindError::DraftLayers)));
}

#[test]
fn seam_adapters_are_checked() {
    let none: &[(&str, u8, &[u32])] = &[("x", DTYPE_F32, &[1])];
    assert!(matches!(seam_load(&directory_of(none), None, 4, 8), Ok(None)));
    assert!(matches!(seam_load(&directory_of(none), Some(1), 4, 8), Err(SeamError::NoTensors)));
    let a: (&str, u8, &[u32]) = ("seam.A", DTYPE_F32, &[2, 8]);
    let b: (&str, u8, &[u32]) = ("seam.B", DTYPE_F32, &[8, 2]);
    assert!(matches!(seam_load(&directory_of(&[b]), Some(1), 4, 8), Err(SeamError::MissingA)));
    assert!(matches!(seam_load(&directory_of(&[a]), Some(1), 4, 8), Err(SeamError::MissingB)));
    assert!(matches!(seam_load(&directory_of(&[a, b]), None, 4, 8), Err(SeamError::NoPlace)));
    assert!(matches!(seam_load(&directory_of(&[a, b]), Some(3), 4, 8), Err(SeamError::OutOfRange)));
    match seam_load(&directory_of(&[a, b]), Some(1), 4, 8) {
        Ok(Some(s)) => {
            assert_eq!(s.rank, 2);
            assert_eq!(s.after, 1);
        }
        _ => panic!("the adapter loads"),
    }
    let wide: (&str, u8, &[u32]) = ("seam.A", DTYPE_F32, &[2, 9]);
    assert!(seam_load(&directory_of(&[wide, b]), Some(1), 4, 8).is_err());
}

#[test]
fn tensor_headers_are_collected() {
    let mut bytes = 5u64.to_le_bytes().to_vec();
    bytes.extend_from_slice(b"{   }");
    assert_eq!(header_span(&bytes), Ok((5, 13)));
    assert_eq!(header_span(&bytes[..12]), Err(SpanError::Truncated));
    assert_eq!(header_span(&bytes[..7]), Err(SpanError::TooSmall));
    let meta = |offsets: &[u64]| TensorMeta {
        dtype: Some("BF16".to_string()),
        shape: vec![2, 3],
        offsets: offsets.to_vec(),
    };
    let table = match parse_header(&vec![
        ("__metadata__".to_string(), meta(&[])),
        ("w".to_string(), meta(&[0, 12])),
    ]) {
        Ok(t) => t,
        Err(_) => panic!("the header parses"),
    };
    let info = table.get("w").unwrap();
    assert_eq!(info.dtype, "BF16");
    assert_eq!(info.offsets, (0, 12));
    assert!(table.get("__metadata__").is_none());
    assert!(matches!(parse_header(&vec![("w".to_string(), meta(&[0]))]), Err(0)));
}

fn sidecar_bytes(layers: &[usize], n_experts: usize, vq_blob: usize, cb: &[f32], data: &[u8]) -> Vec<u8> {
    let mut raw: Vec<u8> = Vec::new();
    raw.extend_from_slice(b"MKSH0001");
    raw.extend_from_slice(&(layers.len() as u32).to_le_bytes());
    for &l in layers {
        raw.extend_from_slice(&(l as u32).to_le_bytes());
    }
    raw.extend_from_slice(&(n_experts as u32).to_le_bytes());
    raw.extend_from_slice(&(vq_blob as u32).to_le_bytes());
    for &c in cb {
        raw.extend_from_slice(&c.to_le_bytes());
    }
    raw.extend_from_slice(data);
    raw
}

#[test]
fn sidecar_roundtrip() {
    let layers = [1usize, 3, 5];
    let (n_experts, vq_blob) = (4, 8);
    let cb = vec![0.5f32; 256 * 16];
    let data: Vec<u8> = (0..layers.len() * n_experts * 3 * vq_blob).map(|i| (i % 251) as u8).collect();
    let raw = sidecar_bytes(&layers, n_experts, vq_blob, &cb, &data);
    let sh = Shadows::load(&raw, &[1, 3, 5], n_experts, vq_blob).unwrap();
    assert_eq!(sh.layers, layers.iter().map(|&l| l as u32).collect::<Vec<_>>());
    assert_eq!(sh.cb, cb.iter().map(|c| c.to_bits()).collect::<Vec<_>>());
    assert_eq!(sh.data, data);
    // offset of (layer, expert): (li * n_experts + e) * 3 * vq_blob
    assert_eq!(sh.offset(1, 0), Some(0));
    assert_eq!(sh.offset(1, 3), Some(3 * 3 * vq_blob));
    assert_eq!(sh.offset(3, 0), Some(n_experts * 3 * vq_blob));
    assert_eq!(sh.offset(2, 0), None); // not a MoE layer
    assert_eq!(sh.offset(1, 4), None); // out of expert range
    assert_eq!(sh.to_bytes(), raw);
}

#[test]
fn sidecars_of_other_models_are_refused() {
    let cb = vec![0.5f32; 256 * 16];
    let raw = sidecar_bytes(&[1], 1, 8, &cb, &[0; 24]);
    assert!(Shadows::load(&raw, &[1], 1, 8).is_ok());
    assert_eq!(Shadows::load(b"NOPE0000xxxx", &[1], 1, 8).err(), Some(ShadowError::BadMagic));
    assert_eq!(Shadows::load(&raw[..30], &[1], 1, 8).err(), Some(ShadowError::Truncated));
    assert_eq!(Shadows::load(&raw, &[2], 1, 8).err(), Some(ShadowError::Layers));
    assert_eq!(Shadows::load(&raw, &[1], 2, 8).err(), Some(ShadowError::Experts));
    assert_eq!(Shadows::load(&raw, &[1], 1, 9).err(), Some(ShadowError::Blob));
    assert_eq!(Shadows::load(&raw[..raw.len() - 1], &[1], 1, 8).err(), Some(ShadowError::DataSize));
}

#[test]
#[should_panic]
fn sidecar_rejects_bad_magic() {
    Shadows::load(b"NOPE0000xxxx", &[1], 1, 8).unwrap();
}

#[test]
fn sidecars_are_filled_matrix_by_matrix() {
    assert_eq!(expert_matrix(12, 7, 0), "layers.12.block_sparse_moe.experts.7.w1");
    assert_eq!(expert_matrix(0, 10, 2), "layers.0.block_sparse_moe.experts.10.w3");
    let mut s = Shadows::blank(vec![2, 5], 2, 4, vec![7; 4096]);
    assert_eq!(s.data, vec![0; 2 * 2 * 3 * 4]);
    for pair in 0..4usize {
        for matrix in 0..3usize {
            s.put(pair, matrix, &[(10 * pair + matrix) as u8; 4]);
        }
    }
    let at = s.offset(5, 1).unwrap();
    assert_eq!(at, 36);
    assert_eq!(s.data[at..at + 12], [30, 30, 30, 30, 31, 31, 31, 31, 32, 32, 32, 32]);
    assert_eq!(s.data[4..8], [1, 1, 1, 1]);
    let back = Shadows::load(&s.to_bytes(), &[2, 5], 2, 4).unwrap();
    assert_eq!(back.data, s.data);
    assert_eq!(back.cb, vec![7; 4096]);
}

#[test]
fn sidecars_stand_next_to_their_model() {
    assert_eq!(sidecar_path("m.bin"), "m.bin.shadows");
    let args = |v: &[&str]| -> Vec<String> { v.iter().map(|s| s.to_string()).collect() };
    assert_eq!(
        shadow_paths(&args(&["--model", "m.bin"])),
        Some(("m.bin".to_string(), "m.bin.shadows".to_string()))
    );
    assert_eq!(
        shadow_paths(&args(&["--out", "s", "--model", "m.bin"])),
        Some(("m.bin".to_string(), "s".to_string()))
    );
    assert_eq!(shadow_paths(&args(&[])), None);
    assert_eq!(pair_at(11, 4), (2, 3));
}
