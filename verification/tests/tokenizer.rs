use microkimi::bpe::merge_bytes;
use microkimi::byte_level::byte_level_decode;
use microkimi::byte_level::byte_to_char_table;
use microkimi::hash::fnv1a;
use microkimi::pretokenize::qwen_pre_tokenize;
use microkimi::qwentok::QwenTokenizer;
use microkimi::qwentok::RemapError;
use microkimi::qwentok_load::LoadError;
use microkimi::qwentok_load::TokenizerFile;
use microkimi::table::ByteTable;
use microkimi::table::PairTable;
use microkimi::text::visible;

fn byte_level_fixture() -> QwenTokenizer {
    let mut ids = ByteTable::new();
    let mut id_to_bytes: Vec<Vec<u8>> = Vec::new();
    for b in 0..=255u8 {
        ids.insert(vec![b], b as u32);
        id_to_bytes.push(vec![b]);
    }
    ids.insert(b"ab".to_vec(), 256);
    id_to_bytes.push(b"ab".to_vec());
    ids.insert(b"cd".to_vec(), 257);
    id_to_bytes.push(b"cd".to_vec());
    QwenTokenizer {
        ids,
        pair_rank: PairTable::new(),
        id_to_bytes,
        added: Vec::new(),
        model_vocab: 258,
        remap: None,
    }
}

fn chat_tokens() -> Vec<(String, u32)> {
    vec![
        ("<|im_end|>".to_string(), 248046),
        ("<|im_start|>".to_string(), 248045),
        ("<|endoftext|>".to_string(), 248044),
        ("<think>".to_string(), 248068),
    ]
}

fn load(vocab: &[(&str, u32)], merges: &[&str], added: Vec<(String, u32)>, rows: usize) -> Option<LoadError> {
    let file = TokenizerFile {
        model_type: Some("BPE".to_string()),
        vocab: vocab.iter().map(|(t, id)| (t.to_string(), *id)).collect(),
        merges: merges.iter().map(|m| m.to_string()).collect(),
        added,
    };
    QwenTokenizer::load(file, rows).err()
}

/// Bytes, two merges and the chat tokens.
fn chat_fixture() -> QwenTokenizer {
    let table = byte_to_char_table();
    let mut vocab: Vec<(String, u32)> = Vec::new();
    for b in 0..256usize {
        vocab.push((char::from_u32(table[b]).unwrap().to_string(), b as u32));
    }
    vocab.push(("ab".to_string(), 256));
    vocab.push(("abc".to_string(), 257));
    let file = TokenizerFile {
        model_type: Some("BPE".to_string()),
        vocab,
        merges: vec!["a b".to_string(), "ab c".to_string()],
        added: chat_tokens(),
    };
    match QwenTokenizer::load(file, 300_000) {
        Ok(tok) => tok,
        Err(_) => panic!("the fixture loads"),
    }
}

#[test]
fn sliced_remap_falls_back_to_byte_tokens() {
    let mut tok = byte_level_fixture();
    // keep every byte token plus "ab"; drop "cd"
    let new_to_old: Vec<u32> = (0..=255).chain([256]).collect();
    assert!(tok.attach_remap(new_to_old.clone(), 257).is_ok());
    assert_eq!(tok.vocab_size(), 257);
    // kept token maps to its new row; dropped token becomes bytes
    assert_eq!(tok.map_out(vec![256, 257]), vec![256, b'c' as u32, b'd' as u32]);
    // decoding round-trips through the new ids
    assert_eq!(tok.decode(&[256, b'c' as u32, b'd' as u32]), "abcd");
}

#[test]
fn sliced_remap_refuses_a_dropped_byte_token() {
    let mut tok = byte_level_fixture();
    // dropping byte 7 makes the fallback unsound: fail closed
    let new_to_old: Vec<u32> = (0..=255).filter(|&b| b != 7).chain([256, 257]).collect();
    assert!(tok.attach_remap(new_to_old, 257).is_err());
}

#[test]
fn ascii_pretokenizer_follows_qwen_alternatives() {
    assert_eq!(
        qwen_pre_tokenize("Hello, world! 123\nnext"),
        vec!["Hello", ",", " world", "!", " ", "1", "2", "3", "\n", "next"]
    );
    assert_eq!(
        qwen_pre_tokenize("WE'RE can't"),
        vec!["WE", "'RE", " can", "'t"]
    );
    assert_eq!(qwen_pre_tokenize(" देवनागरी"), vec![" द", "ेवन", "ागर", "ी"]);
}

#[test]
fn pretokenizer_never_drops_utf8_text() {
    for text in ["", "naïve café", "中文🙂", "a\r\n  b", "e\u{301}"] {
        assert_eq!(qwen_pre_tokenize(text).concat(), text);
    }
}

#[test]
fn bpe_merge_rank_keeps_pair_boundaries() {
    let mut ids = ByteTable::new();
    ids.insert(b"a".to_vec(), 0);
    ids.insert(b"b".to_vec(), 1);
    ids.insert(b"c".to_vec(), 2);
    ids.insert(b"ab".to_vec(), 3);
    ids.insert(b"abc".to_vec(), 4);
    let mut pair_rank = PairTable::new();
    pair_rank.insert(b"a".to_vec(), b"b".to_vec(), 0);
    pair_rank.insert(b"b".to_vec(), b"c".to_vec(), 1);
    pair_rank.insert(b"a".to_vec(), b"bc".to_vec(), 2);
    let tokenizer = QwenTokenizer {
        ids,
        pair_rank,
        id_to_bytes: Vec::new(),
        added: Vec::new(),
        model_vocab: 5,
        remap: None,
    };
    assert_eq!(tokenizer.bpe(b"abc"), vec![3, 2]);
}

#[test]
fn merging_is_lowest_rank_first() {
    let mut ranks = PairTable::new();
    ranks.insert(b"b".to_vec(), b"c".to_vec(), 0);
    ranks.insert(b"a".to_vec(), b"b".to_vec(), 1);
    assert_eq!(
        merge_bytes(&ranks, b"abcab"),
        vec![b"a".to_vec(), b"bc".to_vec(), b"ab".to_vec()]
    );
    // tokens cover the piece
    assert_eq!(merge_bytes(&ranks, b"abcab").concat(), b"abcab".to_vec());
}

#[test]
fn loaded_tokenizer_encodes_and_decodes() {
    let tok = chat_fixture();
    assert_eq!(tok.added[0].0, "<|endoftext|>");
    let ids = tok.encode("abcab").unwrap();
    assert_eq!(ids, vec![257, 256]);
    assert_eq!(tok.decode(&ids), "abcab");
    let ids = tok.encode("naïve 中文🙂").unwrap();
    assert_eq!(tok.decode(&ids), "naïve 中文🙂");
    assert_eq!(tok.single_byte_full_id(b'a'), Some(b'a' as u32));
}

#[test]
fn encoding_normalizes_first() {
    let tok = chat_fixture();
    // the decomposed form is encoded as the composed one
    assert_eq!(tok.encode("e\u{301}").unwrap(), tok.encode("\u{e9}").unwrap());
    assert_eq!(tok.decode(&tok.encode("e\u{301}").unwrap()), "\u{e9}");
}

#[test]
fn invalid_utf8_is_replaced_when_decoded() {
    let tok = chat_fixture();
    assert_eq!(tok.decode(&[b'a' as u32, 0xff, b'b' as u32]), "a\u{fffd}b");
}

#[test]
fn loading_names_the_fault() {
    let rows = 300_000;
    assert_eq!(load(&[("a", 0), ("a", 1)], &[], chat_tokens(), rows), Some(LoadError::DuplicateToken));
    assert_eq!(load(&[("a", 300_000)], &[], chat_tokens(), rows), Some(LoadError::TokenOutOfRange(300_000)));
    assert_eq!(load(&[("a", 1), ("b", 1)], &[], chat_tokens(), rows), Some(LoadError::DuplicateTokenId(1)));
    assert_eq!(load(&[("a", 1)], &["ab"], chat_tokens(), rows), Some(LoadError::MalformedMerge));
    assert_eq!(load(&[("a", 1)], &["a b", "a b"], chat_tokens(), rows), Some(LoadError::DuplicateMerge));
    let beyond = vec![("<x>".to_string(), 300_000)];
    assert_eq!(load(&[("a", 1)], &[], beyond, rows), Some(LoadError::AddedOutOfRange(300_000)));
    assert_eq!(load(&[("a", 1)], &[], Vec::new(), rows), Some(LoadError::SpecialMismatch(248044)));
    assert_eq!(load(&[("a", 1)], &["a b"], chat_tokens(), rows), None);
}

#[test]
fn remap_errors_say_what_is_wrong() {
    let mut tok = byte_level_fixture();
    assert_eq!(tok.attach_remap((0..=255).collect(), 300), Err(RemapError::LengthMismatch));
    assert_eq!(tok.attach_remap((0..=255).chain([258]).collect(), 257), Err(RemapError::IdOutOfRange(258)));
    assert_eq!(tok.attach_remap((0..=255).chain([9]).collect(), 257), Err(RemapError::DuplicateId(9)));
    assert_eq!(tok.attach_remap((1..=255).collect(), 255), Err(RemapError::DroppedByteToken(0)));
    assert_eq!(
        RemapError::LengthMismatch.message(),
        "vocab map length does not match the sliced vocabulary"
    );
    assert!(tok.remap.is_none());
    let mut bare = QwenTokenizer {
        ids: ByteTable::new(),
        pair_rank: PairTable::new(),
        id_to_bytes: vec![b"a".to_vec()],
        added: Vec::new(),
        model_vocab: 1,
        remap: None,
    };
    assert_eq!(bare.attach_remap(vec![0], 1), Err(RemapError::NoByteToken(0)));
}

#[test]
fn missing_tokens_are_reported() {
    let mut tok = byte_level_fixture();
    tok.pair_rank.insert(b"x".to_vec(), b"y".to_vec(), 0);
    // the pair merges to a token that the vocabulary lacks
    assert!(tok.encode("xy").is_err());
    assert!(tok.encode("yx").is_ok());
}

#[test]
fn byte_level_spelling_is_inverted() {
    let table = byte_to_char_table();
    assert_eq!(table[b'a' as usize], 'a' as u32);
    assert_eq!(table[0], 256);
    assert_eq!(table[b' ' as usize], 288);
    let mut spelled = String::new();
    for b in 0..256usize {
        spelled.push(char::from_u32(table[b]).unwrap());
    }
    let bytes: Vec<u8> = (0..=255u8).collect();
    assert_eq!(byte_level_decode(&spelled), bytes);
}

#[test]
fn chat_prompts_extend_one_another() {
    let tok = chat_fixture();
    let first: Vec<(String, String)> = Vec::new();
    let (one, split) = tok.encode_chat_split(None, &first, "abc", true).unwrap();
    assert_eq!(one[0], 248045);
    assert_eq!(tok.decode(&one), "<|im_start|>user\nabc<|im_end|>\n<|im_start|>assistant\n<think>\n");
    assert_eq!(tok.encode_chat(&first, "abc").unwrap(), one);
    let next = vec![("abc".to_string(), "<think>x</think>\n\nyo".to_string())];
    let two = tok.encode_chat_prompt(None, &next, "more", true).unwrap();
    assert!(two.starts_with(&one[..split]));
    // with thinking off the whole prompt begins the next one
    let one = tok.encode_chat_prompt(Some("ab"), &first, "abc", false).unwrap();
    let two = tok.encode_chat_prompt(Some("ab"), &next, "more", false).unwrap();
    assert!(two.starts_with(&one));
    assert_eq!(
        tok.decode(&tok.encode_chat_system(Some("ab"), &first, "abc").unwrap()),
        "<|im_start|>system\nab<|im_end|>\n<|im_start|>user\nabc<|im_end|>\n<|im_start|>assistant\n<think>\n"
    );
    assert_eq!(tok.stop_end_of_msg(), 248046);
    assert_eq!(tok.stop_endoftext(), 248044);
}

#[test]
fn only_the_answer_is_visible() {
    let text: String = visible("<think>plan</think>\n\nanswer").into_iter().collect();
    assert_eq!(text, "answer");
    let text: String = visible("answer").into_iter().collect();
    assert_eq!(text, "answer");
}

#[test]
fn fnv_hash_is_exact() {
    assert_eq!(fnv1a(""), 0xcbf2_9ce4_8422_2325);
    assert_eq!(fnv1a("a"), 0xaf63_dc4c_8601_ec8c);
}

#[test]
fn other_models_are_refused() {
    for model_type in [None, Some("WordPiece".to_string()), Some("bpe".to_string())] {
        let file =
            TokenizerFile { model_type, vocab: Vec::new(), merges: Vec::new(), added: chat_tokens() };
        assert_eq!(QwenTokenizer::load(file, 300_000).err(), Some(LoadError::NotBpe));
    }
    let tok = chat_fixture();
    assert_eq!(tok.decode_id(256), "ab");
    assert_eq!(tok.decode_id(0xc3), "\u{fffd}");
    assert_eq!(tok.decode_id(1000), "<|qwen_unused_1000|>");
}

#[test]
fn past_reasoning_is_omitted() {
    let tok = chat_fixture();
    let ask = |answer: &str| -> Vec<u32> {
        let history = vec![("a".to_string(), answer.to_string())];
        match tok.encode_chat(&history, "b") {
            Ok(ids) => ids,
            Err(_) => panic!("the fixture encodes every text"),
        }
    };
    assert_eq!(ask("<think>abc</think>\n\nab"), ask("  other </think> more </think>ab "));
    assert_eq!(ask("<think>abc</think>\n\nab"), ask("ab"));
    // bytes of ids, one list behind the other
    let ids = ask("abc");
    let (a, b) = ids.split_at(4);
    let mut bytes = tok.decode_bytes(a);
    bytes.extend(tok.decode_bytes(b));
    assert_eq!(tok.decode_bytes(&ids), bytes);
}
