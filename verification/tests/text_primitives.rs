use simple_n_gram::PreProcessor;
use simple_n_gram::LowerCasePreProcessor;
use simple_n_gram::StartEndTokensPreProcessor;
use simple_n_gram::rng::SmRng;
use simple_n_gram::rng::below;
use simple_n_gram::arith::iroot;
use simple_n_gram::arith::pow_checked;
use simple_n_gram::sample::window_len;
use simple_n_gram::sample::weight;
use simple_n_gram::text::tokenize;
use simple_n_gram::text::join;
use simple_n_gram::text::lowercase;
use simple_n_gram::text::add_start_end;
use simple_n_gram::text::lex_le_exec;

#[test]
fn tokenize_splits_on_whitespace() {
    let toks = tokenize("  the\tcat \n sat ");
    let words: Vec<&str> = toks.iter().map(|s| s.as_str()).collect();
    assert_eq!(words, vec!["the", "cat", "sat"]);
}

#[test]
fn tokenize_empty_and_spaces() {
    assert_eq!(tokenize("").len(), 0);
    assert_eq!(tokenize("   ").len(), 0);
    assert_eq!(tokenize("one").len(), 1);
}

#[test]
fn join_inverts_tokenize() {
    let toks = tokenize("a bb ccc");
    assert_eq!(join(&toks), "a bb ccc");
    let empty: Vec<String> = Vec::new();
    assert_eq!(join(&empty), "");
}

#[test]
fn lowercase_is_ascii_only() {
    assert_eq!(lowercase("The CAT Sat 9!"), "the cat sat 9!");
}

#[test]
fn wrap_adds_sentinels() {
    assert_eq!(add_start_end("the cat"), "<s> the cat <s/>");
}

#[test]
fn preprocessor_builder_chain() {
    let out = PreProcessor::new(String::from("The Cat"))
        .lowercase()
        .add_start_end_tokens()
        .done();
    assert_eq!(out, "<s> the cat <s/>");
}

#[test]
fn standalone_preprocessors() {
    let lc = LowerCasePreProcessor::new();
    assert_eq!(lc.process(String::from("ABC")).unwrap(), "abc");
    let se = StartEndTokensPreProcessor::new();
    assert_eq!(se.process(String::from("abc")).unwrap(), "<s> abc <s/>");
}

#[test]
fn standalone_lowercasing_is_unicode() {
    // the standalone transform folds the whole of Unicode, where the
    // builder's lowercase maps ASCII letters only
    let lc = LowerCasePreProcessor::new();
    assert_eq!(lc.process(String::from("\u{c9}T\u{c9}")).unwrap(), "\u{e9}t\u{e9}");
    assert_eq!(lowercase("\u{c9}T\u{c9}"), "\u{c9}t\u{c9}");
}

#[test]
fn lex_order_on_strings() {
    assert!(lex_le_exec("cat", "dog"));
    assert!(!lex_le_exec("dog", "cat"));
    assert!(lex_le_exec("cat", "cat"));
    assert!(lex_le_exec("ca", "cat"));
}

#[test]
fn rng_is_deterministic() {
    let mut a = SmRng::from_seed(54);
    let mut b = SmRng::from_seed(54);
    let xs: Vec<u64> = (0..8).map(|_| a.next_u64()).collect();
    let ys: Vec<u64> = (0..8).map(|_| b.next_u64()).collect();
    assert_eq!(xs, ys);
    let mut c = SmRng::from_seed(55);
    assert_ne!(c.next_u64(), ys[0]);
}

#[test]
fn rng_known_values() {
    // the SplitMix64 sequence from seed 0
    let mut r = SmRng::from_seed(0);
    assert_eq!(r.next_u64(), 0xE220A8397B1DCDAF);
    assert_eq!(r.next_u64(), 0x6E789E6AA1B965F4);
    assert_eq!(r.next_u64(), 0x06C45D188009454F);
}

#[test]
fn below_stays_in_range() {
    let mut r = SmRng::from_seed(1);
    for _ in 0..100 {
        let x = r.next_u64();
        assert!(below(x, 7) < 7);
    }
    assert_eq!(below(0, 5), 0);
    assert_eq!(below(u64::MAX, 5), 4);
}

#[test]
fn integer_roots() {
    assert_eq!(iroot(27, 3), 3);
    assert_eq!(iroot(26, 3), 2);
    assert_eq!(iroot(0, 2), 0);
    assert_eq!(iroot(1, 5), 1);
    assert_eq!(iroot(4096 * 4096, 2), 4096);
}

#[test]
fn checked_powers() {
    assert_eq!(pow_checked(2, 10), Some(1024));
    assert_eq!(pow_checked(65536, 4), Some(1u128 << 64));
    assert_eq!(pow_checked(2, 128), None);
}

#[test]
fn window_length_rule() {
    // top_k = 0.5 over 4 candidates keeps the first 2
    assert_eq!(window_len(4, 1, 2), 2);
    // floor(5 * 0.5) = 2
    assert_eq!(window_len(5, 1, 2), 2);
    // never below one candidate
    assert_eq!(window_len(1, 1, 2), 1);
    // a fraction of one disables truncation
    assert_eq!(window_len(4, 1, 1), 4);
    assert_eq!(window_len(10, 3, 10), 3);
}

#[test]
fn temperature_two_scales_by_square_root() {
    // probabilities [0.8, 0.2] as counts [4, 1]; temperature 2 applies
    // the exponent 1/2, so the weights must be in ratio sqrt(4):sqrt(1)
    let w_high = weight(4, 4, 2, 1);
    let w_low = weight(1, 4, 2, 1);
    assert_eq!(w_high, 4096);
    assert_eq!(w_low, 2048);
    // before renormalization: 0.8^0.5 / 0.2^0.5 = 2.0
    assert!((w_high as f64 / w_low as f64 - 0.8f64.sqrt() / 0.2f64.sqrt()).abs() < 1e-9);
    // renormalized over the two candidates: [2/3, 1/3]
    let total = (w_high + w_low) as f64;
    assert!((w_high as f64 / total - 0.667).abs() < 1e-3);
    assert!((w_low as f64 / total - 0.333).abs() < 1e-3);
}

#[test]
fn unit_temperature_keeps_counts() {
    assert_eq!(weight(10, 10, 1, 1), 10);
    assert_eq!(weight(5, 10, 1, 1), 5);
    assert_eq!(weight(7, 7, 3, 3), 7);
}
