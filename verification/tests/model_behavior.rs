use simple_n_gram::BuildError;
use simple_n_gram::Candidate;
use simple_n_gram::ConfigError;
use simple_n_gram::ContextEntry;
use simple_n_gram::LidstoneConfig;
use simple_n_gram::LidstoneModel;
use simple_n_gram::PersistenceError;
use simple_n_gram::PreStage;
use simple_n_gram::Ratio;
use simple_n_gram::SavedModel;
use simple_n_gram::UnseenPolicy;
use simple_n_gram::rng::SmRng;

fn ratio(num: u64, den: u64) -> Ratio {
    Ratio { num, den }
}

fn config(n_size: usize) -> LidstoneConfig {
    LidstoneConfig {
        n_size,
        top_k: ratio(1, 1),
        temperature: ratio(1, 1),
        unseen: UnseenPolicy::EndSentinel,
    }
}

fn standard_chain() -> Vec<PreStage> {
    vec![PreStage::LowerCase, PreStage::StartEndTokens]
}

fn corpus(lines: &[&str]) -> Vec<String> {
    lines.iter().map(|s| s.to_string()).collect()
}

fn build_bigram(lines: &[&str]) -> LidstoneModel {
    let mut m = LidstoneModel::new(config(2));
    m.build_n_gram(&standard_chain(), &corpus(lines)).unwrap();
    m
}

fn counts_of(m: &LidstoneModel, ctx: &str) -> Vec<(String, u64)> {
    m.context_candidates(ctx)
        .expect("context should be present")
        .iter()
        .map(|c| (c.token.clone(), c.count))
        .collect()
}

#[test]
fn two_sentence_bigram_table() {
    // training on ["the cat sat", "the dog sat"] with n = 2 must give
    // "the" two candidates of count 1 each, "cat" before "dog"
    let m = build_bigram(&["the cat sat", "the dog sat"]);
    let the = counts_of(&m, "the");
    assert_eq!(
        the,
        vec![(String::from("cat"), 1), (String::from("dog"), 1)]
    );
    // each probability is count / total = 1 / 2
    let total: u64 = the.iter().map(|c| c.1).sum();
    assert_eq!(total, 2);
    assert!((the[0].1 as f64 / total as f64 - 0.5).abs() < 1e-9);
    // the start sentinel precedes "the" in both sentences
    assert_eq!(counts_of(&m, "<s>"), vec![(String::from("the"), 2)]);
    // both sentences end after "sat"
    assert_eq!(counts_of(&m, "sat"), vec![(String::from("<s/>"), 2)]);
    assert_eq!(m.context_count(), 5);
    assert!(m.context_candidates("unseen").is_none());
}

#[test]
fn counts_sum_to_total_per_context() {
    let m = build_bigram(&["a b a c a b", "b a"]);
    for ctx in ["<s>", "a", "b", "c"] {
        let cs = counts_of(&m, ctx);
        assert!(!cs.is_empty());
        let total: u64 = cs.iter().map(|c| c.1).sum();
        assert!(total >= 1);
        let prob_sum: f64 = cs.iter().map(|c| c.1 as f64 / total as f64).sum();
        assert!((prob_sum - 1.0).abs() < 1e-9);
    }
}

#[test]
fn candidate_order_count_then_token() {
    // "a" is followed by b twice, and once each by the end sentinel,
    // by a and by c: b first, then the count-1 tie in lexicographic
    // order ("<s/>" sorts before the letters)
    let m = build_bigram(&["a b a b a c a a"]);
    let a = counts_of(&m, "a");
    assert_eq!(
        a,
        vec![
            (String::from("b"), 2),
            (String::from("<s/>"), 1),
            (String::from("a"), 1),
            (String::from("c"), 1),
        ]
    );
}

#[test]
fn vocabulary_is_sorted_and_deduplicated() {
    let m = build_bigram(&["the cat sat", "the dog sat"]);
    let v: Vec<&str> = m.vocabulary().iter().map(|s| s.as_str()).collect();
    assert_eq!(v, vec!["<s/>", "<s>", "cat", "dog", "sat", "the"]);
}

#[test]
fn start_contexts_in_corpus_order() {
    let mut m = LidstoneModel::new(config(3));
    m.build_n_gram(&standard_chain(), &corpus(&["The cat", "a dog"]))
        .unwrap();
    let s: Vec<&str> = m.start_contexts().iter().map(|x| x.as_str()).collect();
    assert_eq!(s, vec!["<s> the", "<s> a"]);
}

#[test]
fn lowercasing_merges_case_variants() {
    let m = build_bigram(&["The cat", "the Dog"]);
    let the = counts_of(&m, "the");
    assert_eq!(
        the,
        vec![(String::from("cat"), 1), (String::from("dog"), 1)]
    );
}

#[test]
fn short_sentence_fails_with_position() {
    let mut m = LidstoneModel::new(config(4));
    let r = m.build_n_gram(&standard_chain(), &corpus(&["the cat sat", "hi"]));
    match r {
        Err(BuildError::SentenceTooShort { index, n_size, sentence }) => {
            assert_eq!(index, 1);
            assert_eq!(n_size, 4);
            assert_eq!(sentence, "hi");
        }
        _ => panic!("expected a too-short error"),
    }
}

#[test]
fn empty_sentences_are_skipped() {
    let mut m = LidstoneModel::new(config(2));
    m.build_n_gram(&standard_chain(), &corpus(&["", "the cat", ""]))
        .unwrap();
    assert_eq!(m.start_contexts().len(), 1);
}

#[test]
fn generation_is_deterministic() {
    let m = build_bigram(&["the cat sat", "the dog sat", "a cat ran"]);
    let a = m.generate(10, 54);
    let b = m.generate(10, 54);
    assert_eq!(a, b);
    let c = m.generate(0, 54);
    let d = m.generate(0, 54);
    assert_eq!(c, d);
}

#[test]
fn generation_starts_with_a_start_context() {
    let m = build_bigram(&["the cat sat"]);
    let out = m.generate(5, 7);
    assert!(out.starts_with("<s>"));
}

#[test]
fn unbounded_generation_ends_with_sentinel() {
    // a single training sentence gives a deterministic chain that must
    // reach the end sentinel
    let m = build_bigram(&["the cat sat"]);
    let out = m.generate(0, 3);
    assert_eq!(out, "<s> the cat sat <s/>");
}

#[test]
fn save_load_round_trip() {
    let m = build_bigram(&["the cat sat", "the dog sat"]);
    let saved = m.save_data();
    let m2 = LidstoneModel::load_data(saved).unwrap();
    // counts match exactly
    for ctx in ["<s>", "the", "cat", "dog", "sat"] {
        assert_eq!(counts_of(&m, ctx), counts_of(&m2, ctx));
    }
    // derived probabilities match exactly
    for ctx in ["<s>", "the"] {
        let a = counts_of(&m, ctx);
        let b = counts_of(&m2, ctx);
        let ta: u64 = a.iter().map(|c| c.1).sum();
        let tb: u64 = b.iter().map(|c| c.1).sum();
        for (x, y) in a.iter().zip(b.iter()) {
            let pa = x.1 as f64 / ta as f64;
            let pb = y.1 as f64 / tb as f64;
            assert!((pa - pb).abs() < 1e-9);
        }
    }
    assert_eq!(m.vocabulary(), m2.vocabulary());
    assert_eq!(m.start_contexts(), m2.start_contexts());
    // the reloaded model generates identically
    assert_eq!(m.generate(10, 99), m2.generate(10, 99));
}

fn saved_fixture() -> SavedModel {
    SavedModel {
        n_size: 2,
        top_k: ratio(1, 1),
        temperature: ratio(1, 1),
        unseen: UnseenPolicy::EndSentinel,
        vocabulary: vec![String::from("a"), String::from("b"), String::from("c")],
        start_contexts: vec![String::from("a")],
        table: vec![ContextEntry {
            context: String::from("a"),
            candidates: vec![
                Candidate { token: String::from("b"), count: 2 },
                Candidate { token: String::from("c"), count: 1 },
            ],
        }],
    }
}

#[test]
fn load_accepts_well_formed_data() {
    let m = LidstoneModel::load_data(saved_fixture()).unwrap();
    assert_eq!(counts_of(&m, "a"), vec![(String::from("b"), 2), (String::from("c"), 1)]);
}

#[test]
fn load_rejects_bad_n_size() {
    let mut s = saved_fixture();
    s.n_size = 1;
    assert!(matches!(LidstoneModel::load_data(s), Err(PersistenceError::Malformed)));
}

#[test]
fn load_rejects_zero_count() {
    let mut s = saved_fixture();
    s.table[0].candidates[1].count = 0;
    assert!(matches!(LidstoneModel::load_data(s), Err(PersistenceError::Malformed)));
}

#[test]
fn load_rejects_unsorted_candidates() {
    let mut s = saved_fixture();
    s.table[0].candidates.reverse();
    assert!(matches!(LidstoneModel::load_data(s), Err(PersistenceError::Malformed)));
}

#[test]
fn load_rejects_duplicate_contexts() {
    let mut s = saved_fixture();
    let dup = ContextEntry {
        context: String::from("a"),
        candidates: vec![Candidate { token: String::from("b"), count: 1 }],
    };
    s.table.push(dup);
    assert!(matches!(LidstoneModel::load_data(s), Err(PersistenceError::Malformed)));
}

#[test]
fn load_rejects_wrong_start_context_width() {
    let mut s = saved_fixture();
    s.start_contexts = vec![String::from("a b")];
    assert!(matches!(LidstoneModel::load_data(s), Err(PersistenceError::Malformed)));
}

#[test]
fn load_flags_zero_total_context_as_corrupt() {
    let mut s = saved_fixture();
    s.table[0].candidates = Vec::new();
    assert!(matches!(LidstoneModel::load_data(s), Err(PersistenceError::Corrupt)));
}

fn top_k_fixture() -> SavedModel {
    // four candidates counted [10, 10, 5, 5]; with top_k = 0.5 the
    // effective window is the first two (ties already broken: a < b)
    SavedModel {
        n_size: 2,
        top_k: ratio(1, 2),
        temperature: ratio(1, 1),
        unseen: UnseenPolicy::EndSentinel,
        vocabulary: vec![
            String::from("a"),
            String::from("b"),
            String::from("c"),
            String::from("d"),
            String::from("x"),
        ],
        start_contexts: vec![String::from("x")],
        table: vec![ContextEntry {
            context: String::from("x"),
            candidates: vec![
                Candidate { token: String::from("a"), count: 10 },
                Candidate { token: String::from("b"), count: 10 },
                Candidate { token: String::from("c"), count: 5 },
                Candidate { token: String::from("d"), count: 5 },
            ],
        }],
    }
}

#[test]
fn top_k_half_samples_only_top_two() {
    let m = LidstoneModel::load_data(top_k_fixture()).unwrap();
    let mut seen_a = false;
    let mut seen_b = false;
    for seed in 0..200u64 {
        let mut rng = SmRng::from_seed(seed);
        let t = m.predict_next_token("x", &mut rng);
        assert!(t == "a" || t == "b", "candidate outside the window: {}", t);
        seen_a = seen_a || t == "a";
        seen_b = seen_b || t == "b";
    }
    assert!(seen_a && seen_b);
}

#[test]
fn top_k_renormalizes_over_the_window() {
    // within the window the weights [10, 10] renormalize to a half
    // each: the draw picks "a" exactly when it lies below one half
    let m = LidstoneModel::load_data(top_k_fixture()).unwrap();
    for seed in 0..50u64 {
        let x = SmRng::from_seed(seed).next_u64();
        let expected = if (x as u128) * 20 < (10u128 << 64) { "a" } else { "b" };
        let mut rng = SmRng::from_seed(seed);
        assert_eq!(m.predict_next_token("x", &mut rng), expected);
    }
}

#[test]
fn unseen_context_end_sentinel_policy() {
    let m = LidstoneModel::load_data(saved_fixture()).unwrap();
    let mut rng = SmRng::from_seed(5);
    assert_eq!(m.predict_next_token("never seen", &mut rng), "<s/>");
}

#[test]
fn unseen_context_vocabulary_policy() {
    let mut s = saved_fixture();
    s.unseen = UnseenPolicy::UniformVocabulary;
    let m = LidstoneModel::load_data(s).unwrap();
    for seed in 0..20u64 {
        let mut rng = SmRng::from_seed(seed);
        let t = m.predict_next_token("never seen", &mut rng);
        assert!(t == "a" || t == "b" || t == "c");
    }
}

#[test]
fn checked_constructor_validates() {
    assert!(LidstoneModel::new_checked(config(2)).is_ok());
    assert!(matches!(LidstoneModel::new_checked(config(1)), Err(ConfigError::InvalidNSize)));
    let mut c = config(2);
    c.top_k = ratio(3, 2);
    assert!(matches!(LidstoneModel::new_checked(c), Err(ConfigError::InvalidTopK)));
    let mut c2 = config(2);
    c2.temperature = ratio(0, 1);
    assert!(matches!(LidstoneModel::new_checked(c2), Err(ConfigError::InvalidTemperature)));
}

#[test]
fn default_config_is_a_plain_bigram() {
    let c = LidstoneConfig::default();
    assert_eq!(c.n_size, 2);
    assert_eq!(c.top_k, Ratio { num: 1, den: 1 });
    assert_eq!(c.temperature, Ratio { num: 1, den: 1 });
    assert!(c.unseen == UnseenPolicy::UniformVocabulary);
}

#[test]
fn temperature_changes_the_draw_threshold() {
    // counts [4, 1]: with unit temperature "b" needs a draw above 4/5;
    // with temperature 2 the weights become [4096, 2048], so "b"
    // already wins above 2/3
    let mut flat = saved_fixture();
    flat.table[0].candidates = vec![
        Candidate { token: String::from("b"), count: 4 },
        Candidate { token: String::from("c"), count: 1 },
    ];
    let m1 = LidstoneModel::load_data(flat).unwrap();
    let mut hot = saved_fixture();
    hot.temperature = ratio(2, 1);
    hot.table[0].candidates = vec![
        Candidate { token: String::from("b"), count: 4 },
        Candidate { token: String::from("c"), count: 1 },
    ];
    let m2 = LidstoneModel::load_data(hot).unwrap();
    // find a draw between 2/3 and 4/5 of the range: the two models
    // must disagree there
    let mut found = false;
    for seed in 0..400u64 {
        let x = SmRng::from_seed(seed).next_u64() as u128;
        let frac_num = x;
        let lo = (2u128 << 64) / 3;
        let hi = (4u128 << 64) / 5;
        if frac_num > lo && frac_num < hi {
            let mut r1 = SmRng::from_seed(seed);
            let mut r2 = SmRng::from_seed(seed);
            assert_eq!(m1.predict_next_token("a", &mut r1), "b");
            assert_eq!(m2.predict_next_token("a", &mut r2), "c");
            found = true;
            break;
        }
    }
    assert!(found, "no seed fell in the distinguishing band");
}

#[test]
fn generation_with_truncation_and_temperature() {
    let mut m = LidstoneModel::new(LidstoneConfig {
        n_size: 2,
        top_k: ratio(1, 2),
        temperature: ratio(2, 1),
        unseen: UnseenPolicy::EndSentinel,
    });
    m.build_n_gram(
        &standard_chain(),
        &corpus(&["the cat sat on the mat", "the dog sat on a log", "a cat ran"]),
    )
    .unwrap();
    let a = m.generate(12, 11);
    let b = m.generate(12, 11);
    assert_eq!(a, b);
    assert!(a.starts_with("<s>"));
}

#[test]
fn load_rejects_unsorted_vocabulary() {
    let mut s = saved_fixture();
    s.vocabulary = vec![String::from("b"), String::from("a"), String::from("c")];
    assert!(matches!(LidstoneModel::load_data(s), Err(PersistenceError::Malformed)));
}

#[test]
fn load_rejects_duplicate_vocabulary_entries() {
    let mut s = saved_fixture();
    s.vocabulary = vec![String::from("a"), String::from("a"), String::from("b"), String::from("c")];
    assert!(matches!(LidstoneModel::load_data(s), Err(PersistenceError::Malformed)));
}

#[test]
fn load_rejects_candidate_token_outside_vocabulary() {
    let mut s = saved_fixture();
    s.vocabulary = vec![String::from("a"), String::from("b")];
    assert!(matches!(LidstoneModel::load_data(s), Err(PersistenceError::Malformed)));
}

#[test]
fn load_rejects_context_token_outside_vocabulary() {
    let mut s = saved_fixture();
    s.vocabulary = vec![String::from("b"), String::from("c")];
    assert!(matches!(LidstoneModel::load_data(s), Err(PersistenceError::Malformed)));
}
