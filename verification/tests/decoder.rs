use microkimi::attn_layout::gather_heads;
use microkimi::attn_layout::kv_offset;
use microkimi::attn_layout::lin_head;
use microkimi::attn_layout::mlp_path;
use microkimi::attn_layout::push_conv;
use microkimi::attn_layout::split_gate;
use microkimi::attn_layout::LinHead;
use microkimi::attn_layout::MlpPath;
use microkimi::cache::CacheShape;
use microkimi::cache::DecodeLane;
use microkimi::cache::DecoderState;
use microkimi::cache::QwenCache;
use microkimi::decode::argmax;
use microkimi::decode::cheapest_first;
use microkimi::decode::draft_rows;
use microkimi::decode::embed_rows;
use microkimi::decode::exceeds;
use microkimi::decode::keep_mask;
use microkimi::decode::scored_positions;
use microkimi::decode::spine_mode;
use microkimi::decode::switch_on;
use microkimi::decode::turn_of;
use microkimi::decode::PrefillError;
use microkimi::decode::SkipStats;
use microkimi::decode::Turn;
use microkimi::memory::mem_available;
use microkimi::memory::memory_warning;
use microkimi::memory::warms_up;
use microkimi::memory::MemoryWarning;
use microkimi::speculative::greedy_step;
use microkimi::speculative::Speculation;
use microkimi::work::causal_ranges;
use microkimi::work::prefill_workers;
use microkimi::work::ranges;

/// A trunk whose greedy choice depends on all tokens before it.
fn greedy(prefix: &[u32]) -> u32 {
    let mut h = 7u32;
    for &t in prefix {
        h = h.wrapping_mul(31).wrapping_add(t + 1);
    }
    h % 5
}

/// What a plain greedy run emits.
fn plain(prompt: &[u32], max_new: usize, stop: u32) -> Vec<u32> {
    let mut all = prompt.to_vec();
    let mut out = Vec::new();
    while out.len() < max_new {
        let t = greedy(&all);
        if t == stop {
            break;
        }
        out.push(t);
        all.push(t);
    }
    out
}

fn speculate(prompt: &[u32], depth: usize, max_new: usize, stop: u32, draft: fn(&[u32]) -> u32) -> (Vec<u32>, usize) {
    let mut s = Speculation::start(greedy(prompt), depth, max_new, stop);
    while s.pass_due() {
        let mut batch = s.open_pass();
        let mut base = prompt.to_vec();
        base.extend_from_slice(&s.generated);
        base.pop();
        while s.wants_draft(&batch) {
            let mut ctx = base.clone();
            ctx.extend_from_slice(&batch);
            if !s.take_draft(&mut batch, draft(&ctx)) {
                break;
            }
        }
        let selected: Vec<u32> = (0..batch.len())
            .map(|i| {
                let mut ctx = base.clone();
                ctx.extend_from_slice(&batch[..i + 1]);
                greedy(&ctx)
            })
            .collect();
        let before = s.generated.len();
        let c = s.settle(&batch, &selected);
        assert!(c.committed >= 1);
        assert_eq!(c.rolled_back, c.committed < batch.len());
        assert!(s.generated.len() > before || !s.pass_due());
    }
    (s.generated, s.passes)
}

#[test]
fn speculation_emits_the_greedy_tokens() {
    for stop in [3u32, 999_999] {
        for depth in [0usize, 1, 2, 4] {
            for prompt in [vec![1u32, 2, 3], vec![9], vec![4, 4, 4, 4]] {
                let want = plain(&prompt, 24, stop);
                assert_eq!(speculate(&prompt, depth, 24, stop, greedy).0, want);
                assert_eq!(speculate(&prompt, depth, 24, stop, |_| 2).0, want);
            }
        }
    }
    // a perfect draft head needs fewer passes
    let (out, passes) = speculate(&[1, 2, 3], 4, 24, 999_999, greedy);
    assert_eq!(out.len(), 24);
    assert!(passes <= 6);
}

#[test]
fn work_is_split_into_ranges() {
    assert_eq!(ranges(10, 3), vec![(0, 4), (4, 8), (8, 10)]);
    assert_eq!(ranges(2, 4), vec![(0, 1), (1, 2)]);
    assert_eq!(ranges(0, 4), Vec::<(usize, usize)>::new());
    assert_eq!(ranges(usize::MAX, 1), vec![(0, usize::MAX)]);
    assert_eq!(prefill_workers(8, 3), 3);
    assert_eq!(prefill_workers(0, 3), 1);
    let r = causal_ranges(100, 4, 0);
    assert_eq!(r[0].0, 0);
    assert_eq!(r[r.len() - 1].1, 100);
    for i in 1..r.len() {
        assert_eq!(r[i].0, r[i - 1].1);
    }
    // later tokens look at more, so earlier ranges are longer
    assert!(r[0].1 - r[0].0 > r[r.len() - 1].1 - r[r.len() - 1].0);
    assert_eq!(causal_ranges(4, 2, 0), vec![(0, 3), (3, 4)]);
    assert_eq!(causal_ranges(0, 2, 7), Vec::<(usize, usize)>::new());
    // at a far base all tokens cost nearly the same, and two fall short of a quarter
    let far = usize::MAX - 9;
    assert_eq!(causal_ranges(8, 4, far), vec![(0, 3), (3, 5), (5, 7), (7, 8)]);
    // no range costs more than its share and one token
    let cost = |a: usize, b: usize| -> usize { (a..b).map(|t| 5 + t + 1).sum() };
    for w in 1..9 {
        for &(a, b) in &causal_ranges(50, w, 5) {
            assert!(cost(a, b) <= cost(0, 50) / w + 5 + 50);
        }
    }
}

fn state() -> DecoderState<f32> {
    DecoderState::new(CacheShape { state_len: 2, conv_len: 3, kv_width: 32 }, &[false, true], 0.0)
}

#[test]
fn resetting_forgets_every_token() {
    let mut s = state();
    if let QwenCache::Full(c) = &mut s.caches[1] {
        c.push_row(32, &[1.0; 32], &[2.0; 32], &[3; 32], &[4.0]);
    }
    if let QwenCache::Linear(c) = &mut s.caches[0] {
        c.state[1] = 5.0;
        c.conv[2] = 6.0;
    }
    s.mtp_cache.push_row(32, &[1.0; 32], &[2.0; 32], &[3; 32], &[4.0]);
    s.pos = 9;
    s.reset(&[false, true], 0.0);
    assert_eq!((s.pos, s.mtp_cache.len, s.caches.len()), (0, 0, 2));
    assert!(matches!(&s.caches[0], QwenCache::Linear(c) if c.state == [0.0; 2] && c.conv == [0.0; 3]));
    assert!(matches!(&s.caches[1], QwenCache::Full(c) if c.len == 0 && c.k.is_empty()));
}

#[test]
fn restoring_undoes_what_was_taken_in() {
    let mut s = state();
    if let QwenCache::Full(c) = &mut s.caches[1] {
        c.push_row(32, &[1.0; 32], &[2.0; 32], &[3; 32], &[4.0]);
    }
    s.pos = 1;
    let snap = s.snapshot();
    if let QwenCache::Linear(c) = &mut s.caches[0] {
        c.state[1] = 9.0;
        c.conv[0] = 8.0;
    }
    if let QwenCache::Full(c) = &mut s.caches[1] {
        c.push_rows(32, 2, &[5.0; 64], &[6.0; 64], &[7; 64], &[8.0; 2]);
        assert_eq!(c.len, 3);
        assert_eq!(c.kqs.len(), 3);
    }
    s.mtp_cache.push_row(32, &[1.0; 32], &[2.0; 32], &[3; 32], &[4.0]);
    s.pos = 3;
    s.restore(&snap);
    assert_eq!(s.pos, 1);
    assert_eq!(s.mtp_cache.len, 0);
    match &s.caches[0] {
        QwenCache::Linear(c) => {
            assert_eq!(c.state, vec![0.0; 2]);
            assert_eq!(c.conv, vec![0.0; 3]);
        }
        QwenCache::Full(_) => panic!("layer 0 is linear"),
    }
    match &s.caches[1] {
        QwenCache::Full(c) => {
            assert_eq!(c.len, 1);
            assert_eq!(c.k, vec![1.0; 32]);
            assert_eq!(c.v, vec![2.0; 32]);
            assert_eq!(c.kq, vec![3; 32]);
            assert_eq!(c.kqs, vec![4.0]);
        }
        QwenCache::Linear(_) => panic!("layer 1 is full"),
    }
}

#[test]
fn lanes_are_swapped_in_and_out() {
    let mut s = state();
    s.pos = 5;
    let mut lane = DecodeLane::new(s.shape, &[false, true], 0.0f32);
    lane.pos = 2;
    lane.swap_with(&mut s);
    assert_eq!((s.pos, lane.pos), (2, 5));
    lane.swap_with(&mut s);
    assert_eq!((s.pos, lane.pos), (5, 2));
    s.mtp_cache.push_row(32, &[1.0; 32], &[2.0; 32], &[3; 32], &[4.0]);
    s.mtp_cache.push_row(32, &[1.0; 32], &[2.0; 32], &[3; 32], &[4.0]);
    s.rollback_mtp(1);
    assert_eq!(s.mtp_cache.len, 1);
    assert_eq!(s.mtp_cache.k.len(), 32);
}

#[test]
fn histories_hold_the_latest_inputs() {
    // two channels, three past inputs each
    let mut conv = vec![1, 2, 3, 10, 20, 30];
    push_conv(&mut conv, 4, &[4, 40]);
    assert_eq!(conv, vec![2, 3, 4, 20, 30, 40]);
    push_conv(&mut conv, 4, &[5, 50]);
    assert_eq!(conv, vec![3, 4, 5, 30, 40, 50]);
    let mut conv = vec![7, 8];
    push_conv(&mut conv, 2, &[1, 2]);
    assert_eq!(conv, vec![1, 2]);
}

#[test]
fn heads_are_laid_out() {
    // two heads, three tokens, two cells
    let hm: Vec<u32> = vec![0, 1, 10, 11, 20, 21, 100, 101, 110, 111, 120, 121];
    assert_eq!(
        gather_heads(&hm, 2, 3, 2),
        vec![0, 1, 100, 101, 10, 11, 110, 111, 20, 21, 120, 121]
    );
    let (q, gate) = split_gate(&[1, 2, 11, 12, 3, 4, 13, 14], 2, 2);
    assert_eq!(q, vec![1, 2, 3, 4]);
    assert_eq!(gate, vec![11, 12, 13, 14]);
    assert_eq!(lin_head(3, 2, 4, 8, 16), LinHead { q: 8, k: 24, v: 80 });
    assert_eq!(lin_head(0, 2, 4, 8, 16), LinHead { q: 0, k: 16, v: 32 });
    assert_eq!(kv_offset(2, 5, 3, 4, 2, 8), 2 * 16 + 8);
    assert_eq!(mlp_path(3, true, false), MlpPath::Batch);
    assert_eq!(mlp_path(1, true, false), MlpPath::Single);
    assert_eq!(mlp_path(3, false, false), MlpPath::PerToken);
    assert_eq!(mlp_path(3, true, true), MlpPath::PerToken);
}

#[test]
fn switches_pick_the_spine() {
    assert!(switch_on(Some("1")));
    assert!(!switch_on(Some("11")));
    assert!(!switch_on(None));
    assert_eq!(spine_mode(Some("1"), Some("1")), Some(true));
    assert_eq!(spine_mode(Some("0"), Some("1")), Some(false));
    assert_eq!(spine_mode(None, None), None);
}

#[test]
fn turns_are_drafted_where_they_can_be() {
    assert_eq!(turn_of(true, false, true, false), (Turn::Speculative, true));
    assert_eq!(turn_of(true, true, true, false), (Turn::Plain, false));
    assert_eq!(turn_of(true, false, false, true), (Turn::NoDraftHead, true));
    assert_eq!(turn_of(true, false, true, true), (Turn::NotGreedy, true));
    assert_eq!(turn_of(false, false, true, false), (Turn::Plain, true));
}

#[test]
fn batches_are_embedded() {
    let table: Vec<u32> = (0..12).collect();
    assert_eq!(embed_rows(&table, &[2, 0], 4, 3), Ok(vec![6, 7, 8, 0, 1, 2]));
    assert_eq!(embed_rows(&table, &[], 4, 3), Err(PrefillError::NoTokens));
    assert_eq!(embed_rows(&table, &[1, 9, 4], 4, 3), Err(PrefillError::OutsideVocabulary(9)));
    assert_eq!(scored_positions(true, 3), vec![0, 1, 2]);
    assert_eq!(scored_positions(false, 3), vec![2]);
}

fn bits(v: &[f64]) -> Vec<u64> {
    v.iter().map(|x| x.to_bits()).collect()
}

#[test]
fn blocks_are_left_out_within_the_budget() {
    assert!(exceeds(1.0f64.to_bits(), (-1.0f64).to_bits()));
    assert!(!exceeds(0.0f64.to_bits(), (-0.0f64).to_bits()));
    assert!(!exceeds(f64::NAN.to_bits(), 0));
    let bounds = [3.0, 1.0, 2.0, 1.0];
    let order = cheapest_first(&bits(&bounds)).unwrap();
    assert_eq!(order, vec![1, 3, 2, 0]);
    assert!(cheapest_first(&bits(&[1.0, f64::NAN])).is_none());
    let mut spent = 0.0;
    let sums: Vec<f64> = order
        .iter()
        .map(|&b| {
            spent += bounds[b];
            spent
        })
        .collect();
    assert_eq!(keep_mask(&order, &bits(&sums), 2.5f64.to_bits()), vec![true, false, true, false]);
    assert_eq!(keep_mask(&order, &bits(&sums), 0.0f64.to_bits()), vec![true; 4]);
    assert_eq!(keep_mask(&order, &bits(&sums), 100.0f64.to_bits()), vec![false; 4]);
    let mut stats = SkipStats::new();
    assert_eq!(stats.record(&[true, false, true, false]), vec![0, 2]);
    assert_eq!(stats.record(&[false]), Vec::<usize>::new());
    assert_eq!(stats.mlp_skip_stats(), (3, 5));
}

#[test]
fn drafts_take_the_best_score() {
    assert_eq!(draft_rows(10, 300_000, 64), Some(248044));
    assert_eq!(draft_rows(10, 64, 64), Some(64));
    assert_eq!(draft_rows(64, 64, 64), None);
    assert_eq!(draft_rows(0, 64, 64), None);
    assert_eq!(draft_rows(10, 64, 33), None);
    assert_eq!(argmax(&bits(&[1.0, 5.0, 5.0, 2.0]), &bits(&[]), 64), 1);
    assert_eq!(argmax(&bits(&[1.0, 5.0]), &bits(&[5.0, 6.0, 6.0]), 40), 41);
    assert_eq!(argmax(&bits(&[-3.0, -2.0]), &bits(&[-2.0]), 40), 1);
}

#[test]
fn memory_is_read_and_compared() {
    let report = "MemTotal:       100 kB\nMemAvailable:    42 kB\nMemAvailable: 7 kB\n";
    assert_eq!(mem_available(report), Some(42 * 1024));
    assert_eq!(mem_available("MemTotal: 1 kB\n"), None);
    assert_eq!(mem_available("MemAvailable: x kB\nMemAvailable: 7 kB"), None);
    assert_eq!(mem_available("MemAvailable:"), None);
    assert_eq!(memory_warning(10, 5, false, Some(9)), Some(MemoryWarning::ModelTooLarge));
    assert_eq!(memory_warning(10, 5, true, Some(9)), None);
    assert_eq!(memory_warning(10, 5, true, Some(4)), Some(MemoryWarning::ResidentTooLarge));
    assert_eq!(memory_warning(10, 5, false, None), None);
    assert!(warms_up(5, Some(6)));
    assert!(!warms_up(6, Some(6)));
    assert!(!warms_up(5, None));
}

#[test]
fn plain_decoding_stops_as_asked() {
    let mut out = vec![3];
    assert!(greedy_step(&mut out, 5, 3, 9));
    assert!(!greedy_step(&mut out, 9, 3, 9));
    assert!(greedy_step(&mut out, 6, 3, 9));
    assert!(!greedy_step(&mut out, 7, 3, 9));
    assert_eq!(out, vec![3, 5, 6]);
}
