use microkimi::rosa::SuffixAutomaton;
use microkimi::tally::fade;
use microkimi::tally::raise;
use microkimi::tally::MIN_SCORE;
use microkimi::tally::MOST;
use microkimi::tally::ONE;

fn fed(s: &str) -> SuffixAutomaton {
    // map chars to token ids for readability
    let mut a = SuffixAutomaton::new();
    for c in s.bytes() {
        a.feed(c as u32);
    }
    a
}

fn as_string(v: &[u32]) -> String {
    v.iter().map(|&c| (c as u8) as char).collect()
}

#[test]
fn periodic_text_continues_period() {
    let a = fed("ab cd ab cd ab cd ");
    // longest repeated suffix is "ab cd " -> next tokens of the period
    assert_eq!(as_string(&a.propose(6)), "ab cd ");
}

#[test]
fn frequency_orders_proposals() {
    // "xa" appears 3 times, "xb" once: the continuation of "x" is "a"
    let a = fed("xaxaxaxb x");
    assert_eq!(as_string(&a.propose(1)), "a");
}

#[test]
fn unseen_context_proposes_nothing() {
    let a = fed("abc");
    assert!(a.propose(4).is_empty());
}

#[test]
fn chain_follows_transitions() {
    let a = fed("the quick brown fox the quick brown fox the q");
    // the chain should follow "uick brown fox" greedily
    assert_eq!(as_string(&a.propose(5)), "uick ");
}

/// Following the transitions from the root.
fn spells(a: &SuffixAutomaton, x: &[u8]) -> bool {
    let mut s = 0usize;
    for &c in x {
        match a.st[s].next.get(&(c as u32)) {
            Some(&t) => s = t,
            None => return false,
        }
    }
    true
}

#[test]
fn transitions_spell_exactly_the_substrings() {
    let text = b"abcbcabcbab";
    let a = fed("abcbcabcbab");
    for i in 0..text.len() {
        for j in i..=text.len() {
            assert!(spells(&a, &text[i..j]));
        }
    }
    for x in [&b"ac"[..], b"bb", b"abcbcb", b"babc", b"d"] {
        assert!(!text.windows(x.len()).any(|w| w == x));
        assert!(!spells(&a, x));
    }
    // no more than two states per token
    assert!(a.st.len() <= 2 * text.len() + 1);
}

#[test]
fn links_lead_to_shorter_suffixes() {
    let a = fed("aabbabd");
    for v in 1..a.st.len() {
        assert!(a.st[a.st[v].link].len < a.st[v].len);
    }
    assert_eq!(a.st[0].link, usize::MAX);
    assert_eq!(a.epoch, 7);
    // "ab" was followed by "b" inside the text
    let a = fed("aabbab");
    assert_eq!(as_string(&a.propose(1)), "b");
}

#[test]
fn proposals_have_followed_the_context() {
    let text = b"the cat sat on the mat and the cat";
    let a = fed("the cat sat on the mat and the cat");
    let out = a.propose(8);
    assert!(!out.is_empty());
    let mut context = text.to_vec();
    for &c in &out {
        let last = *context.last().unwrap();
        let pair = [last, c as u8];
        assert!(text.windows(2).any(|w| w == pair));
        context.push(c as u8);
    }
}

#[test]
fn old_successors_are_not_trusted() {
    // after "x" came "y"; 512 tokens later that is still trusted, one more and it is not
    let mut a = SuffixAutomaton::new();
    a.feed(1);
    a.feed(2);
    for i in 0..511u32 {
        a.feed(1000 + i);
    }
    a.feed(1);
    assert_eq!(a.propose(1), vec![2]);
    let mut a = SuffixAutomaton::new();
    a.feed(1);
    a.feed(2);
    for i in 0..512u32 {
        a.feed(1000 + i);
    }
    a.feed(1);
    assert_eq!(a.propose(1), Vec::<u32>::new());
}

fn decay(age: u64) -> f32 {
    (-(age as f32) / 256.0).exp2()
}

#[test]
fn counts_fade_as_single_precision_does() {
    let unit = (1u128 << 79) as f64;
    assert_eq!(fade(ONE, 0), 1 << 79);
    assert_eq!(fade(ONE, 256), 1 << 78);
    assert_eq!(fade(ONE, 512), MIN_SCORE);
    assert!(fade(ONE, 513) < MIN_SCORE);
    assert_eq!(fade(MOST, 1 << 40), 0);
    assert_eq!(raise(MOST, 1 << 40), ONE);
    for age in 0..8448u64 {
        assert_eq!(fade(ONE, age) as f64, decay(age) as f64 * unit);
    }
    // counts that were raised again and again, after all sorts of ages
    let mut count = 1f32;
    let mut c = ONE;
    let mut x = 1u64;
    for i in 0..20_000u64 {
        x = x.wrapping_mul(6364136223846793005).wrapping_add(1442695040888963407);
        let age = 1 + (x >> 33) % [3, 40, 700, 12_000][(i / 100 % 4) as usize];
        if age < 8448 {
            assert_eq!(fade(c, age) as f64, (count * decay(age)) as f64 * unit);
        } else {
            assert_eq!(fade(c, age), 0);
            assert!(count * decay(age) < 0.25);
        }
        count = count * decay(age) + 1.0;
        c = raise(c, age);
        assert_eq!(c as f32 / 8388608.0, count);
        assert_eq!(c as f64 / 8388608.0, count as f64);
    }
}

/// The best successor of `x`, counted in single precision.
fn best_of(text: &[u32], x: &[u32]) -> Option<u32> {
    let mut counts: Vec<(u32, f32, u64)> = Vec::new();
    for i in x.len()..text.len() {
        if text[i - x.len()..i] == *x {
            let now = i as u64 + 1;
            match counts.iter_mut().find(|e| e.0 == text[i]) {
                Some(e) => *e = (e.0, e.1 * decay(now - e.2) + 1.0, now),
                None => counts.push((text[i], 1.0, now)),
            }
        }
    }
    let mut best: Option<(u32, f32)> = None;
    for (token, count, stamp) in counts {
        let s = count * decay(text.len() as u64 - stamp);
        let ahead = best.map_or(true, |(t, b)| s > b || (s == b && token < t));
        if s >= 0.25 && ahead {
            best = Some((token, s));
        }
    }
    best.map(|b| b.0)
}

#[test]
fn proposals_follow_single_precision_counts() {
    let mut a = SuffixAutomaton::new();
    let mut text: Vec<u32> = Vec::new();
    let mut x = 7u64;
    for n in 0..400 {
        x = x.wrapping_mul(6364136223846793005).wrapping_add(1442695040888963407);
        let token = ((x >> 40) % if n % 50 < 25 { 2 } else { 5 }) as u32;
        a.feed(token);
        text.push(token);
        let mut want: Vec<u32> = Vec::new();
        let mut context = text.clone();
        while want.len() < 3 && !context.is_empty() {
            match best_of(&text, &context) {
                Some(c) => {
                    want.push(c);
                    context.push(c);
                }
                None => {
                    context.remove(0);
                }
            }
        }
        assert_eq!(a.propose(3), want);
    }
}

#[test]
fn the_most_frequent_successor_is_proposed() {
    // after "x" came "a" once and first, "b" twice
    let a = fed("xa1xb2xb3x");
    assert_eq!(a.propose(1), vec![98]);
    // the longest suffix that was seen before goes first: "abyab", then "abyaby"
    let a = fed("abxabyabyab");
    assert_eq!(as_string(&a.propose(4)), "yaby");
    // no prefix of the text ends it, and yet "ab" was followed by "a"
    let a = fed("zabab");
    assert_eq!(as_string(&a.propose(4)), "abab");
    // what was counted before a class was split counts for both parts
    let a = fed("abcabcabcbc");
    assert_eq!(as_string(&a.propose(1)), "a");
}

#[test]
fn old_counts_lose_against_recent_ones() {
    let mut a = SuffixAutomaton::new();
    for c in [1, 2, 1, 2, 1, 2] {
        a.feed(c);
    }
    for i in 0..100u32 {
        a.feed(1000 + i);
    }
    for c in [1, 3, 9, 1] {
        a.feed(c);
    }
    // three of 100 tokens ago outweigh a recent one
    assert_eq!(a.propose(1), vec![2]);
    for i in 0..500u32 {
        a.feed(2000 + i);
    }
    for c in [1, 3, 8, 1] {
        a.feed(c);
    }
    assert_eq!(a.propose(1), vec![3]);
}
