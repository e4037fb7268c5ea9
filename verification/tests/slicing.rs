use microkimi::jsontext::push_list;
use microkimi::jsontext::push_pairs;
use microkimi::numtext::join_csv;
use microkimi::numtext::parse_csv;
use microkimi::numtext::parse_number;
use microkimi::score_cache::keep_step;
use microkimi::score_cache::moe_layers;
use microkimi::score_cache::record;
use microkimi::score_cache::write_header;
use microkimi::score_cache::KeepStep;
use microkimi::score_cache::ScoreCache;
use microkimi::slice_args::parse_layer_spec;
use microkimi::slice_args::parse_options;
use microkimi::slice_args::LayerSpecError;
use microkimi::slice_args::ModelFault;
use microkimi::slice_args::OptionError;
use microkimi::slice_args::SliceOptions;
use microkimi::slice_config::config_json;
use microkimi::slice_config::SourceConfig;
use microkimi::slice_config::Sliced;
use microkimi::slice_order::cold_experts;
use microkimi::slice_order::expert_plan_key;
use microkimi::slice_order::fold_order;
use microkimi::slice_order::plan_output;
use microkimi::slice_plan::PlanError;
use microkimi::slice_plan::Selection;
use microkimi::slice_resume::key_of;
use microkimi::slice_resume::mark_of;
use microkimi::slice_resume::record_channels;
use microkimi::slice_resume::record_config;
use microkimi::slice_resume::record_experts;
use microkimi::slice_resume::SliceCkpt;
use microkimi::slice_roles::role_of;
use microkimi::slice_roles::split_layer;
use microkimi::slice_roles::Arch;
use microkimi::slice_roles::Role;
use microkimi::slice_rows::row_chunks;
use microkimi::slice_rows::slice_f32;
use microkimi::slice_rows::slice_f32_rows;
use microkimi::slice_rows::slice_vocab_rows;
use microkimi::slice_vocab::base_vocab_map;
use microkimi::slice_vocab::build_vocab_plan;
use microkimi::slice_vocab::freq_of_pairs;
use microkimi::slice_vocab::holds_object;
use microkimi::slice_vocab::kimi_special_id;
use microkimi::slice_vocab::known_specials;
use microkimi::slice_vocab::parse_freqfile;
use microkimi::slice_vocab::BaseError;
use microkimi::slice_vocab::FreqError;
use microkimi::slice_vocab::SpecialIds;
use microkimi::weights::Entry;
use microkimi::weights::DTYPE_F32;
use microkimi::weights::DTYPE_MXFP4;
use microkimi::weights::DTYPE_VQ1;

fn args(v: &[&str]) -> Vec<String> {
    v.iter().map(|s| s.to_string()).collect()
}

fn chars(s: &str) -> Vec<char> {
    s.chars().collect()
}

fn options(v: &[&str]) -> SliceOptions {
    match parse_options(&args(v)) {
        Ok(o) => o,
        Err(_) => panic!("the options parse"),
    }
}

fn refused(v: &[&str]) -> Option<OptionError> {
    parse_options(&args(v)).err()
}

#[test]
fn layer_lists_are_parsed() {
    assert_eq!(parse_layer_spec("0-2,5", 8), Ok(vec![0, 1, 2, 5]));
    assert_eq!(parse_layer_spec("5, 1-2 ,2", 8), Ok(vec![1, 2, 5]));
    assert_eq!(parse_layer_spec("3-1", 8), Err(LayerSpecError::BadRange));
    assert_eq!(parse_layer_spec("1,,2", 8), Err(LayerSpecError::BadSpec));
    assert_eq!(parse_layer_spec("x", 8), Err(LayerSpecError::BadSpec));
    assert_eq!(parse_layer_spec("8", 8), Err(LayerSpecError::OutOfRange));
}

#[test]
fn options_are_parsed() {
    let o = options(&["--model", "m.bin", "--out", "o.bin", "--hidden", "16", "--experts", "4"]);
    assert_eq!(o.model, "m.bin");
    assert_eq!(o.hidden, Some(16));
    assert_eq!(o.experts, Some(4));
    assert_eq!(o.layers, None);
    assert_eq!(o.fault(32, true), None);
    assert_eq!(o.fault(8, true), Some(ModelFault::HiddenRange));
    let o = options(&["--model", "m.bin", "--out", "o.bin", "--experts", "0"]);
    assert_eq!(o.fault(8, true), Some(ModelFault::NoExperts));
    let o = options(&["--model", "m.bin", "--out", "o.bin", "--vocab-top", "0", "f"]);
    assert_eq!(o.vocab_top, Some((0, "f".to_string())));
    assert_eq!(o.fault(8, true), Some(ModelFault::NoVocabRows));
    let o = options(&["--model", "m.bin", "--out", "o.bin", "--cold-vq", "2"]);
    assert_eq!(o.fault(8, false), Some(ModelFault::ColdVqNeedsBin));
}

#[test]
fn bad_options_are_refused() {
    let m = ["--model", "m.bin", "--out", "o.bin"];
    let with = |more: &[&str]| {
        let mut v = m.to_vec();
        v.extend_from_slice(more);
        refused(&v)
    };
    assert_eq!(refused(&["--out", "o.bin"]), Some(OptionError::NoModel));
    assert_eq!(refused(&["--model", "m.bin"]), Some(OptionError::NoOut));
    assert_eq!(with(&[]), Some(OptionError::NothingToDo));
    assert_eq!(with(&["--hidden", "x"]), Some(OptionError::BadHidden));
    assert_eq!(with(&["--experts", "x"]), Some(OptionError::BadExperts));
    assert_eq!(with(&["--cold-vq", "x"]), Some(OptionError::BadColdVq));
    assert_eq!(with(&["--vocab-top", "x"]), Some(OptionError::BadVocabTop));
    assert_eq!(with(&["--vocab-top", "5"]), Some(OptionError::NoFreqfile));
    assert_eq!(with(&["--expert-order", "odd"]), Some(OptionError::UnknownExpertOrder));
    assert_eq!(with(&["--expert-order", "frequency"]), Some(OptionError::NoRouteCms));
    assert_eq!(with(&["--experts", "2", "--cold-vq", "3"]), Some(OptionError::HotAboveKept));
    assert_eq!(with(&["--hidden", "2", "--imatrix", "i"]), Some(OptionError::ImatrixWithoutColdVq));
    assert_eq!(
        refused(&["--model", "http://h/m", "--out", "o.bin", "--cold-vq", "3"]),
        Some(OptionError::ColdVqRemote)
    );
}

#[test]
fn roles_follow_the_names() {
    let role = |name: &str, mla: &[bool], arch: Arch| role_of(&chars(name), mla, arch);
    assert_eq!(role("embed_tokens.weight", &[], Arch::Micro), Some(Role::ColsD));
    assert_eq!(role("norm.weight", &[], Arch::Micro), Some(Role::VecD));
    assert_eq!(role("layers.2.block_sparse_moe.gate.weight", &[], Arch::Micro), Some(Role::RouterW));
    assert_eq!(role("layers.2.block_sparse_moe.experts.7.w1", &[], Arch::Micro), Some(Role::Expert));
    assert_eq!(role("layers.0.self_attn.g_proj.weight", &[true], Arch::Micro), Some(Role::BothD));
    assert_eq!(role("layers.0.self_attn.g_proj.weight", &[true], Arch::K3Real), Some(Role::ColsD));
    assert_eq!(role("layers.0.self_attn.g_proj.weight", &[false], Arch::Micro), Some(Role::ColsD));
    assert_eq!(role("layers.0.self_attn.q_proj.bias", &[], Arch::Dense), Some(Role::Copy));
    assert_eq!(role("layers.0.odd", &[], Arch::Dense), None);
    assert_eq!(split_layer(&chars("layers.12.a.b")), Some((12, chars("a.b"))));
    assert_eq!(split_layer(&chars("layers.x.a")), None);
}

#[test]
fn tensors_are_sliced() {
    // 3 x 4, rows and columns
    let w: Vec<u32> = (0..12).collect();
    assert_eq!(slice_f32(&[3, 4], &w, Role::ColsD, &[1, 3], None), (vec![1, 3, 5, 7, 9, 11], vec![3, 2]));
    assert_eq!(slice_f32(&[3, 4], &w, Role::RowsD, &[0, 2], None), (vec![0, 1, 2, 3, 8, 9, 10, 11], vec![2, 4]));
    assert_eq!(slice_f32(&[3, 4], &w, Role::BothD, &[0, 2], None), (vec![0, 2, 8, 10], vec![2, 2]));
    let experts = vec![2usize, 0];
    assert_eq!(
        slice_f32(&[3, 4], &w, Role::RouterW, &[1], Some(&experts)),
        (vec![9, 1], vec![2, 1])
    );
    assert_eq!(slice_f32(&[3], &[7u32, 8, 9], Role::RouterB, &[], Some(&experts)), (vec![9, 7], vec![2]));
    assert_eq!(slice_f32(&[3], &[7u32, 8, 9], Role::VecD, &[0, 2], None), (vec![7, 9], vec![2]));
    assert_eq!(slice_f32(&[3], &[7u32, 8, 9], Role::Copy, &[0], None), (vec![7, 8, 9], vec![3]));
}

#[test]
fn chunks_rebuild_the_tensor() {
    let w: Vec<u32> = (0..20).collect();
    let (whole, _) = slice_f32(&[5, 4], &w, Role::RowsD, &[0, 3, 4], None);
    let mut rebuilt: Vec<u32> = Vec::new();
    for (r0, r1) in [(0usize, 2usize), (2, 3), (3, 5)] {
        rebuilt.extend(slice_f32_rows(Role::RowsD, &w[r0 * 4..r1 * 4], r0, r1, 4, &[0, 3, 4]));
    }
    assert_eq!(rebuilt, whole);
    assert_eq!(slice_vocab_rows(&w[8..16], 2, 4, 4, &[1, 2], &[0, 3, 4]), vec![13, 14]);
    assert_eq!(row_chunks(5, 4), vec![(0, 5)]);
    assert_eq!(row_chunks(3, 0x400_0000), vec![(0, 1), (1, 2), (2, 3)]);
}

fn entry(dtype: u8, dims: &[u32]) -> Entry {
    Entry { dtype, dims: dims.to_vec(), offset: 0, size: 0 }
}

fn model() -> Vec<(String, Entry)> {
    let mut v = vec![
        ("embed_tokens.weight".to_string(), entry(DTYPE_F32, &[10, 8])),
        ("norm.weight".to_string(), entry(DTYPE_F32, &[8])),
    ];
    for l in 0..3 {
        v.push((format!("layers.{}.input_layernorm.weight", l), entry(DTYPE_F32, &[8])));
        v.push((format!("layers.{}.block_sparse_moe.gate.weight", l), entry(DTYPE_F32, &[4, 8])));
        for e in 0..4 {
            for m in ["w1", "w2", "w3"] {
                v.push((
                    format!("layers.{}.block_sparse_moe.experts.{}.{}", l, e, m),
                    entry(DTYPE_MXFP4, &[32, 32]),
                ));
            }
        }
    }
    v
}

fn selection() -> Selection {
    Selection {
        arch: Arch::Micro,
        mla: vec![false, false, false],
        layers: vec![0, 2],
        channels: vec![1, 5],
        experts: Some(vec![Some(vec![0, 3]), None, Some(vec![1, 2])]),
        hot: None,
        vocab: Some(vec![0, 4, 9]),
    }
}

#[test]
fn plans_renumber_layers_and_experts() {
    let plans = match selection().plan_all(&model()) {
        Ok(p) => p,
        Err(_) => panic!("the plan is made"),
    };
    let dims_of = |name: &str| plans.iter().find(|p| p.out_name == name).map(|p| p.dims.clone());
    assert_eq!(dims_of("embed_tokens.weight"), Some(vec![3, 2]));
    assert_eq!(dims_of("norm.weight"), Some(vec![2]));
    assert_eq!(dims_of("layers.1.block_sparse_moe.gate.weight"), Some(vec![2, 2]));
    // layer 2 became layer 1, its experts 1 and 2 became 0 and 1
    assert_eq!(dims_of("layers.1.block_sparse_moe.experts.1.w3"), Some(vec![32, 32]));
    assert_eq!(dims_of("layers.2.input_layernorm.weight"), None);
    assert_eq!(plans.iter().filter(|p| p.out_name.contains("experts.")).count(), 12);
}

#[test]
fn unknown_tensors_stop_the_plan() {
    let mut list = model();
    list.push(("odd".to_string(), entry(DTYPE_F32, &[1])));
    let at = list.len() - 1;
    assert!(matches!(selection().plan_all(&list), Err(PlanError::UnknownTensor(i)) if i == at));
    let mut s = selection();
    s.experts = Some(vec![None, None, None]);
    assert!(matches!(s.plan_all(&model()), Err(PlanError::NoExpertList(_))));
    let mut list = model();
    list.push(("layers.0.block_sparse_moe.experts.x.w1".to_string(), entry(DTYPE_MXFP4, &[32, 32])));
    assert!(matches!(selection().plan_all(&list), Err(PlanError::BadExpert(_))));
    let mut list = model();
    list[0].1.dims = Vec::new();
    assert!(matches!(selection().plan_all(&list), Err(PlanError::BadDims(0))));
}

#[test]
fn cold_experts_are_quantized_harder() {
    let mut s = selection();
    s.hot = Some(vec![Some(vec![3]), None, Some(vec![1, 2])]);
    let plans = match plan_output(&s, &model(), true, true) {
        Ok(p) => p,
        Err(_) => panic!("the plan is made"),
    };
    let dtype = |name: &str| plans.iter().find(|p| p.out_name == name).map(|p| p.dtype);
    assert_eq!(dtype("layers.0.block_sparse_moe.experts.0.w1"), Some(DTYPE_VQ1));
    assert_eq!(dtype("layers.0.block_sparse_moe.experts.1.w1"), Some(DTYPE_MXFP4));
    assert!(plans.iter().any(|p| p.src.is_none()));
    // the experts of a layer stand in their new order
    let keys: Vec<(usize, u8)> = plans
        .iter()
        .filter(|p| p.out_name.starts_with("layers.0.block_sparse_moe.experts."))
        .map(|p| expert_plan_key(&p.out_name).unwrap())
        .collect();
    let mut sorted = keys.clone();
    sorted.sort();
    assert_eq!(keys, sorted);
    assert_eq!(fold_order(&[3, 0, 2, 1], &[0, 1, 3]), vec![3, 0, 1]);
    assert_eq!(cold_experts(&[0, 3, 5], &[3]), vec![0, 5]);
    assert_eq!(expert_plan_key("layers.0.block_sparse_moe.experts.12.w2"), Some((12, 1)));
    assert_eq!(expert_plan_key("norm.weight"), None);
}

#[test]
fn checkpoints_resume() {
    let o = options(&["--model", "m.bin", "--out", "o.bin", "--hidden", "2", "--experts", "2"]);
    let key = key_of(&o, &[0, 2], "", 0);
    assert_eq!(key, "model=m.bin|layers=0,2|hidden=2|experts=2|vocabtop=|eorder=");
    let mark = mark_of(&key);
    assert_eq!(mark.len(), 16);
    let text = format!(
        "{}\n{}\n{}\n{}",
        record_config(&mark),
        record_channels(&[1, 5]),
        record_experts(2, &[0, 3]),
        "experts 4 1,"
    );
    let s = SliceCkpt::open(Some(text.as_bytes()), &mark);
    assert!(s.config_ok);
    assert_eq!(s.channels, Some(vec![1, 5]));
    assert_eq!(s.experts.get(2), Some(&vec![0, 3]));
    // the torn line is ignored
    assert!(s.experts.get(4).is_none());
    let s = SliceCkpt::open(Some(text.as_bytes()), "other");
    assert!(!s.config_ok);
    assert!(s.channels.is_none());
    let s = SliceCkpt::open(None, &mark);
    assert!(!s.config_ok);
}

#[test]
fn score_caches_read_back() {
    let scores: Vec<u64> = [0.5f64, 2.0, 1.0].iter().map(|x| x.to_bits()).collect();
    let mut bytes = write_header(2, 3);
    bytes.extend(record(7, &scores));
    let whole = bytes.len();
    bytes.extend(&record(8, &scores)[..10]);
    let c = ScoreCache::open(&bytes, 3).unwrap();
    assert_eq!(c.valid_len, whole);
    assert_eq!(c.scores.get(7), Some(&scores));
    assert!(c.scores.get(8).is_none());
    assert!(ScoreCache::open(&bytes, 4).is_none());
    assert!(ScoreCache::open(b"nothing", 3).is_none());
    assert!(matches!(keep_step(None, Some(&scores), 2, 3), KeepStep::Cached(v) if v == vec![1, 2]));
    assert!(matches!(keep_step(Some(&vec![0]), Some(&scores), 2, 3), KeepStep::Restored(v) if v == vec![0]));
    assert!(matches!(keep_step(None, None, 2, 3), KeepStep::Score));
    let nan = vec![f64::NAN.to_bits()];
    assert!(matches!(keep_step(None, Some(&nan), 1, 1), KeepStep::Unranked));
    assert_eq!(moe_layers(&[0, 2, 3], &[false, true, true]), vec![2]);
}

fn special_ids() -> SpecialIds {
    SpecialIds {
        bos: 163584,
        eos: 163585,
        open: 163586,
        close: 163587,
        sep: 163588,
        end_of_msg: 163589,
        unk: 163590,
        pad: 163591,
    }
}

#[test]
fn frequency_files_are_parsed() {
    assert_eq!(parse_freqfile("# c\n1 10\n\n3 7 # x\n1 2\n", 5), Ok(vec![0, 2, 0, 7, 0]));
    assert_eq!(parse_freqfile("1\n", 5), Err(FreqError::BadLine(0)));
    assert_eq!(parse_freqfile("x 1\n", 5), Err(FreqError::BadId(0)));
    assert_eq!(parse_freqfile("1 x\n", 5), Err(FreqError::BadCount(0)));
    assert_eq!(parse_freqfile("1 1\n5 1\n", 5), Err(FreqError::OutOfRange(1)));
    let pairs = vec![("2".to_string(), 4u64), ("0".to_string(), 9)];
    assert_eq!(freq_of_pairs(&pairs, 3), Ok(vec![9, 0, 4]));
    assert!(freq_of_pairs(&vec![("7".to_string(), 1)], 3).is_err());
}

#[test]
fn vocabularies_keep_their_specials() {
    let counts: Vec<u64> = vec![5, 0, 9, 1, 7, 0, 0, 0, 0, 0];
    let specials: Vec<(String, u32)> = vec![
        ("bos".to_string(), 5),
        ("eos".to_string(), 6),
        ("open".to_string(), 7),
        ("close".to_string(), 8),
        ("sep".to_string(), 9),
        ("end_of_msg".to_string(), 3),
        ("unk".to_string(), 1),
    ];
    let plan = match build_vocab_plan("o.bin", &counts, 2, &specials, &special_ids(), None) {
        Some(p) => p,
        None => panic!("the plan is made"),
    };
    assert_eq!(plan.keep, vec![1, 2, 3, 4, 5, 6, 7, 8, 9]);
    assert_eq!(plan.remap_path, "o.vocab.json");
    assert!(plan.specials_new.contains(&("bos".to_string(), 4)));
    assert!(plan.remap_json.contains("\"vocab_size\": 9"));
    assert!(plan.remap_json.contains("\"nano_to_kimi\": [1, 2, 3, 4, 5, 6, 7, 8, 9]"));
    assert!(build_vocab_plan("o.bin", &counts, 2, &Vec::new(), &special_ids(), None).is_none());
    assert_eq!(kimi_special_id(&special_ids(), "sep"), Some(163588));
    assert_eq!(kimi_special_id(&special_ids(), "odd"), None);
    let known = known_specials(&specials, &special_ids(), 10, 5, 6);
    assert!(known.iter().any(|(n, id)| n == "bos" && *id == 5));
}

#[test]
fn mapped_vocabularies_need_their_table() {
    assert_eq!(base_vocab_map(true, None, None, 10), Err(BaseError::Mismatch));
    assert_eq!(base_vocab_map(false, None, None, 10), Err(BaseError::Needed));
    assert_eq!(base_vocab_map(false, None, None, 163585), Ok(None));
    assert_eq!(base_vocab_map(false, None, Some(vec![1]), 1), Ok(Some(vec![1])));
}

#[test]
fn configurations_are_written() {
    let c = SourceConfig {
        dense_arch: false,
        n_experts: 4,
        top_k: 2,
        n_shared: 1,
        kda_heads: 2,
        kda_dim: 16,
        kda_conv: 4,
        kda_fa: 8,
        gate_lb: "-5.0".to_string(),
        mla_heads: 2,
        mla_qa: 8,
        mla_kva: 8,
        mla_nope: 8,
        mla_rope: 8,
        mla_v: 8,
        routed_hidden: 16,
        moe_inter: 32,
        shared_inter: 32,
        dense_inter: 64,
        attn_res_block: 2,
        first_k_dense: 1,
        rms_eps: "0.00001".to_string(),
        tokenizer: Some("t.json".to_string()),
        bos_id: 1,
        eos_id: 2,
        mla: vec![false, true, false],
        moe: vec![false, true, true],
    };
    let s = Sliced {
        layers: vec![0, 1],
        hidden: 8,
        vocab: 10,
        experts: Some(2),
        cold_vq: None,
        vocab_top: None,
        specials: None,
        order: None,
    };
    let json = config_json(&c, &s);
    assert!(json.starts_with("{"));
    assert!(json.ends_with("}"));
    assert!(json.contains("\"mla_layers\": [1]"));
    assert!(json.contains("\"dense_layers\": [0]"));
    assert!(json.contains("\"tokenizer\": \"t.json\""));
    assert!(!json.contains("expert_order"));
    assert!(json.contains("\"n_experts\": 2, \"top_k\": 2"));
    // more experts than there are cannot be kept
    let s = Sliced { experts: Some(10), ..s };
    let json = config_json(&SourceConfig { top_k: 8, ..c }, &s);
    assert!(json.contains("\"n_experts\": 4, \"top_k\": 4"));
    assert!(json.contains("\"experts\": 4"));
}

#[test]
fn numbers_and_lists_are_written_and_read() {
    assert_eq!(parse_number(&chars("42"), 100), Some(42));
    assert_eq!(parse_number(&chars("+42"), 100), Some(42));
    assert_eq!(parse_number(&chars("101"), 100), None);
    assert_eq!(parse_number(&chars(""), 100), None);
    assert_eq!(join_csv(&[3, 1, 20]), "3,1,20");
    assert_eq!(parse_csv(&chars("3,1,20")), Some(vec![3, 1, 20]));
    assert_eq!(parse_csv(&chars("3,,1")), None);
    let mut out = String::new();
    push_list(&mut out, &[1, 2]);
    assert_eq!(out, "1, 2");
    let mut out = String::new();
    push_pairs(&mut out, &vec![("a".to_string(), 7)]);
    assert_eq!(out, "\"a\": 7");
}

#[test]
fn frequency_files_are_told_apart() {
    assert!(holds_object(" \n{\"1\": 2}"));
    assert!(!holds_object("1 2\n"));
    assert!(!holds_object("  "));
}
