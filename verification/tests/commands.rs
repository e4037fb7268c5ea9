use microkimi::commands::calibrate_options;
use microkimi::commands::comparable_tensors;
use microkimi::commands::dump_header;
use microkimi::commands::dump_options;
use microkimi::commands::has_flag;
use microkimi::commands::lane_prompt;
use microkimi::commands::lane_token;
use microkimi::commands::lanebench_options;
use microkimi::commands::number_or;
use microkimi::commands::tok_options;
use microkimi::commands::token_list;
use microkimi::commands::CommandError;
use microkimi::slice_args::find_arg;
use microkimi::slice_args::number_flag;
use microkimi::slice_args::value_flag;
use microkimi::slice_args::NumFlag;
use microkimi::slice_roles::Arch;
use microkimi::slice_source::arch_of;
use microkimi::slice_source::cache_dir;
use microkimi::slice_source::is_remote;
use microkimi::slice_source::resume_path;
use microkimi::slice_source::score_file;
use microkimi::slice_source::source_kind;
use microkimi::slice_source::SourceKind;
use microkimi::weights::Entry;
use microkimi::weights::DTYPE_F32;
use microkimi::weights::DTYPE_MXFP4;

fn args(list: &[&str]) -> Vec<String> {
    list.iter().map(|s| s.to_string()).collect()
}

#[test]
fn flags_and_their_values_are_found() {
    let a = args(&["--lanes", "8", "--ab", "--steps"]);
    assert!(has_flag(&a, "--ab"));
    assert!(!has_flag(&a, "--mtp"));
    assert_eq!(find_arg(&a, "--ab"), 2);
    assert_eq!(find_arg(&a, "--mtp"), 4);
    assert_eq!(value_flag(&a, "--lanes"), Some("8".to_string()));
    assert_eq!(value_flag(&a, "--steps"), None);
    assert_eq!(number_or(&a, "--lanes", 4), 8);
    assert_eq!(number_or(&a, "--rounds", 6), 6);
    assert_eq!(number_or(&a, "--ab", 6), 6);
    assert!(matches!(number_flag(&a, "--lanes"), NumFlag::Number(8)));
    assert!(matches!(number_flag(&a, "--ab"), NumFlag::Bad));
    assert!(matches!(number_flag(&a, "--rounds"), NumFlag::Absent));
}

#[test]
fn calibration_asks_for_a_text_and_a_file() {
    assert_eq!(calibrate_options(&args(&[])).err(), Some(CommandError::NoText));
    assert_eq!(
        calibrate_options(&args(&["--text", "a.txt"])).err(),
        Some(CommandError::NoOut)
    );
    let o = calibrate_options(&args(&["--text", "a.txt", "--out", "b.bin"])).unwrap();
    assert_eq!((o.text.as_str(), o.out.as_str()), ("a.txt", "b.bin"));
    assert_eq!((o.max_tokens, o.chunk), (None, 512));
    let o = calibrate_options(&args(&[
        "--text", "a", "--out", "b", "--max-tokens", "77", "--chunk", "32",
    ]))
    .unwrap();
    assert_eq!((o.max_tokens, o.chunk), (Some(77), 32));
    let o = calibrate_options(&args(&["--text", "a", "--out", "b", "--max-tokens", "x"])).unwrap();
    assert_eq!(o.max_tokens, None);
}

#[test]
fn lanes_have_prompts_of_their_own() {
    assert_eq!(lanebench_options(&args(&["--lanes", "2"])).err(), Some(CommandError::NoModel));
    let o = lanebench_options(&args(&["--model", "m"])).unwrap();
    assert_eq!((o.lanes, o.steps, o.rounds), (4, 32, None));
    let o = lanebench_options(&args(&["--model", "m", "--ab"])).unwrap();
    assert_eq!(o.rounds, Some(6));
    let o = lanebench_options(&args(&["--model", "m", "--ab", "--rounds", "3"])).unwrap();
    assert_eq!(o.rounds, Some(3));
    assert_eq!(lane_prompt(0, 100_000), vec![3, 10, 17, 24, 31, 38, 45, 52]);
    assert_eq!(lane_prompt(2, 100_000), vec![37, 44, 51, 58, 65, 72, 79, 86]);
    assert_eq!(lane_prompt(0, 20), vec![3, 10, 17, 4, 11, 18, 5, 12]);
    assert_eq!(lane_token(3, 100_000), 44);
    assert_eq!(lane_token(3, 40), 4);
    assert_eq!(lane_token(4000, 100_000), 2005);
}

#[test]
fn dumps_ask_for_tokens() {
    assert_eq!(token_list("1,22,333"), Some(vec![1, 22, 333]));
    assert_eq!(token_list("1,,2"), None);
    assert_eq!(token_list("4294967296"), None);
    assert_eq!(dump_options(&args(&[])).err(), Some(CommandError::NoModel));
    assert_eq!(dump_options(&args(&["--model", "m"])).err(), Some(CommandError::NoTokens));
    assert_eq!(
        dump_options(&args(&["--model", "m", "--tokens", "1,x"])).err(),
        Some(CommandError::BadToken)
    );
    assert_eq!(
        dump_options(&args(&["--model", "m", "--tokens", "1,2"])).err(),
        Some(CommandError::NoOut)
    );
    let o = dump_options(&args(&["--model", "m", "--tokens", "1,2", "--out", "o", "--mtp"]));
    let o = o.unwrap();
    assert_eq!((o.model.as_str(), o.out.as_str(), o.mtp), ("m", "o", true));
    assert_eq!(o.tokens, vec![1, 2]);
    let mut want = b"QWLOGIT1".to_vec();
    want.extend_from_slice(&3u32.to_le_bytes());
    want.extend_from_slice(&1000u32.to_le_bytes());
    assert_eq!(dump_header(3, 1000), want);
}

#[test]
fn a_tokenizer_dump_asks_for_a_vocabulary() {
    assert!(tok_options(&args(&["--text", "a"])).is_none());
    let o = tok_options(&args(&["--vocab", "v"])).unwrap();
    assert_eq!((o.vocab.as_str(), o.text, o.model_vocab, o.chat), ("v", None, 248_320, false));
    let o = tok_options(&args(&["--vocab", "v", "--text", "hi", "--chat", "--model-vocab", "9"]));
    let o = o.unwrap();
    assert_eq!((o.text.as_deref(), o.model_vocab, o.chat), (Some("hi"), 9, true));
}

#[test]
fn large_matrices_are_compared_in_name_order() {
    let entry = |dtype: u8, dims: &[u32]| Entry { dtype, dims: dims.to_vec(), offset: 0, size: 0 };
    let list = vec![
        ("b".to_string(), entry(DTYPE_F32, &[512, 32])),
        ("c".to_string(), entry(DTYPE_MXFP4, &[512, 32])),
        ("a".to_string(), entry(DTYPE_F32, &[128, 128])),
        ("d".to_string(), entry(DTYPE_F32, &[128, 64])),
        ("e".to_string(), entry(DTYPE_F32, &[16384])),
        ("f".to_string(), entry(DTYPE_F32, &[1024, 17])),
        ("aa".to_string(), entry(DTYPE_F32, &[16384, 32])),
    ];
    assert_eq!(comparable_tensors(&list, 16), vec![2, 6, 0]);
    assert_eq!(comparable_tensors(&list, 2), vec![2, 6]);
    assert!(comparable_tensors(&list, 0).is_empty());
}

#[test]
fn sources_are_told_apart() {
    assert!(is_remote("https://host/repo"));
    assert!(is_remote("http://host/repo"));
    assert!(!is_remote("httpx://host"));
    assert!(!is_remote("model.bin"));
    assert!(matches!(source_kind("m", false, b"MKIM0002"), Some(SourceKind::Bin)));
    assert!(matches!(source_kind("m", false, b"\x10\0\0\0\0\0\0\0"), Some(SourceKind::Tensors)));
    assert!(source_kind("m", false, b"MKIM").is_none());
    assert!(matches!(source_kind("m", true, b""), Some(SourceKind::Tensors)));
    assert!(matches!(source_kind("https://h", false, b""), Some(SourceKind::Tensors)));
    assert!(matches!(arch_of(SourceKind::Bin, Some("dense"), false), Arch::Dense));
    assert!(matches!(arch_of(SourceKind::Bin, None, true), Arch::Micro));
    assert!(matches!(arch_of(SourceKind::Bin, Some("k3"), true), Arch::Micro));
    assert!(matches!(arch_of(SourceKind::Tensors, None, false), Arch::K3Real));
    assert!(matches!(arch_of(SourceKind::Tensors, None, true), Arch::Dense));
}

#[test]
fn a_run_has_files_beside_its_output() {
    assert_eq!(resume_path("d/y.bin"), "d/y.bin.sliceckpt");
    assert_eq!(cache_dir("d/y.bin"), "d/y.bin.slicecache");
    assert_eq!(score_file("x.bin"), "expert_scores.ef4d504095d9ebb8.bin");
}
