use microkimi::route_store::RouteError;
use microkimi::route_store::RouteStore;
use microkimi::routes::best_match;
use microkimi::routes::cosine_parts;
use microkimi::routes::overlap_parts;
use microkimi::routes::Session;
use microkimi::routes::MAX_SESSIONS;
use std::collections::HashMap;

fn counts(v: &[(u32, u32, u32)]) -> HashMap<u32, HashMap<u32, u32>> {
    let mut m: HashMap<u32, HashMap<u32, u32>> = HashMap::new();
    for &(l, e, c) in v {
        *m.entry(l).or_default().entry(e).or_insert(0) += c;
    }
    m
}

fn cosine(a: &Session, b: &Session) -> f64 {
    let (dot, aa, bb) = cosine_parts(a, b);
    if aa == 0 || bb == 0 {
        return 0.0;
    }
    dot as f64 / ((aa as f64).sqrt() * (bb as f64).sqrt())
}

#[test]
fn save_load_roundtrip() {
    let s = Session::from_counts(&counts(&[(1, 5, 3), (1, 2, 7), (3, 9, 1), (3, 9, 1)]));
    assert_eq!(s.requests, 12);
    let (bytes, n) = RouteStore::append(None, s);
    assert_eq!(n, 1);
    let back = RouteStore::load(&bytes).unwrap();
    assert_eq!(back.sessions.len(), 1);
    assert_eq!(back.n_layers, 4);
    assert_eq!(back.n_experts, 10);
    let s0 = &back.sessions[0];
    assert_eq!(s0.requests, 12);
    assert_eq!(s0.layers[1], vec![(2, 7), (5, 3)]);
    assert_eq!(s0.layers[3], vec![(9, 2)]);
    assert!(s0.layers[0].is_empty() && s0.layers[2].is_empty());
    assert_eq!(back.to_bytes(), bytes);
}

#[test]
fn append_caps_at_max_sessions() {
    let mut file: Option<Vec<u8>> = None;
    for i in 0..MAX_SESSIONS + 5 {
        let (bytes, _) = RouteStore::append(
            file.as_deref(),
            Session::from_counts(&counts(&[(0, i as u32, 1)])),
        );
        file = Some(bytes);
    }
    let back = RouteStore::load(&file.unwrap()).unwrap();
    assert_eq!(back.sessions.len(), MAX_SESSIONS);
    // the 5 oldest are gone: the first stored session is expert 5
    assert_eq!(back.sessions[0].layers[0], vec![(5, 1)]);
}

#[test]
fn load_tolerates_torn_tail() {
    let (b, _) = RouteStore::append(None, Session::from_counts(&counts(&[(0, 1, 1)])));
    let (mut b, _) = RouteStore::append(Some(&b), Session::from_counts(&counts(&[(0, 2, 2)])));
    b.truncate(b.len() - 5); // tear the second record
    let back = RouteStore::load(&b).unwrap();
    assert_eq!(back.sessions.len(), 1, "the torn record must be dropped, the valid prefix kept");
}

#[test]
fn load_rejects_garbage() {
    assert!(RouteStore::load(b"not a routes file").is_err());
    assert!(RouteStore::load(b"").is_err());
}

#[test]
fn cosine_bounds_and_identity() {
    let a = Session::from_counts(&counts(&[(1, 5, 3), (1, 2, 7)]));
    let b = Session::from_counts(&counts(&[(1, 5, 3), (1, 2, 7)]));
    assert!((cosine(&a, &b) - 1.0).abs() < 1e-9);
    let c = Session::from_counts(&counts(&[(1, 8, 4)])); // disjoint experts
    assert_eq!(cosine(&a, &c), 0.0);
    let d = Session::from_counts(&counts(&[(2, 5, 3), (2, 2, 7)])); // same experts, other layer
    assert_eq!(cosine(&a, &d), 0.0);
    let e = Session { requests: 0, layers: Vec::new() };
    assert_eq!(cosine(&a, &e), 0.0);
}

#[test]
fn top_n_is_count_ordered_and_deterministic() {
    let s = Session::from_counts(&counts(&[(1, 5, 3), (1, 2, 7), (1, 9, 7), (1, 4, 1)]));
    assert_eq!(s.top_n(1, 2), vec![2, 9]); // count tie: expert id ascending
    assert_eq!(s.top_n(1, 16), vec![2, 9, 5, 4]);
    assert_eq!(s.top_n(0, 4), Vec::<u32>::new());
    assert_eq!(s.routed_layers(), vec![1]);
}

#[test]
fn best_match_threshold() {
    let (b, _) = RouteStore::append(None, Session::from_counts(&counts(&[(1, 5, 3), (1, 2, 7)])));
    let (b, _) = RouteStore::append(Some(&b), Session::from_counts(&counts(&[(1, 8, 9)])));
    let store = RouteStore::load(&b).unwrap();
    let cur = Session::from_counts(&counts(&[(1, 2, 4), (1, 5, 1)]));
    let sims: Vec<f64> = store.sessions.iter().map(|s| cosine(&cur, s)).collect();
    let bits: Vec<u64> = sims.iter().map(|s| s.to_bits()).collect();
    let idx = best_match(&bits, 0.5f64.to_bits()).unwrap();
    assert_eq!(idx, 0);
    assert!(sims[idx] > 0.9);
    // above the reachable similarity: no match
    assert!(best_match(&bits, 1.1f64.to_bits()).is_none());
}

#[test]
fn inner_products_are_exact() {
    let a = Session::from_counts(&counts(&[(1, 5, 3), (1, 2, 7), (4, 0, 2)]));
    let b = Session::from_counts(&counts(&[(1, 5, 10), (1, 3, 1), (4, 0, 5)]));
    assert_eq!(cosine_parts(&a, &b), (30 + 10, 9 + 49 + 4, 100 + 1 + 25));
    assert_eq!(a.n_experts(), 6);
    assert_eq!(overlap_parts(&a, &b, 1), vec![(0, 1), (1, 1)]);
}

#[test]
fn dimensions_are_those_of_the_stored_sessions() {
    let (mut file, _) = RouteStore::append(None, Session::from_counts(&counts(&[(4, 7, 1)])));
    for _ in 1..MAX_SESSIONS {
        file = RouteStore::append(Some(&file), Session::from_counts(&counts(&[(0, 2, 1)]))).0;
    }
    let full = RouteStore::load(&file).unwrap();
    assert_eq!((full.n_layers, full.n_experts), (5, 8));
    // the one with five layers goes
    let (file, n) = RouteStore::append(Some(&file), Session::from_counts(&counts(&[(0, 1, 1)])));
    assert_eq!(n, MAX_SESSIONS);
    let store = RouteStore::load(&file).unwrap();
    assert_eq!((store.n_layers, store.n_experts), (1, 3));
}

#[test]
fn records_beyond_the_header_are_refused() {
    let (file, _) = RouteStore::append(None, Session::from_counts(&counts(&[(0, 6, 1)])));
    let mut flat = file.clone();
    flat[12] = 0;
    assert_eq!(RouteStore::load(&flat).err(), Some(RouteError::BadDims));
    let mut narrow = file.clone();
    narrow[16] = 6;
    assert_eq!(RouteStore::load(&narrow).err(), Some(RouteError::BadDims));
    narrow[16] = 7;
    assert_eq!(RouteStore::load(&narrow).unwrap().sessions.len(), 1);
    // a record that the file does not hold whole is no fault of the header
    flat.truncate(file.len() - 1);
    assert_eq!(RouteStore::load(&flat).unwrap().sessions.len(), 0);
    // a file that cannot be read starts afresh
    narrow[16] = 6;
    let (_, n) = RouteStore::append(Some(&narrow), Session::from_counts(&counts(&[(0, 1, 1)])));
    assert_eq!(n, 1);
    assert_eq!(RouteStore::load(b"MKRTS001").err(), Some(RouteError::Truncated));
}
