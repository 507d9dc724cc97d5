use rskenlm::{LMError, LanguageModel, NGram, State};

fn gram(ids: &[u32], prob: i64, backoff: i64) -> NGram {
    NGram { ids: ids.to_vec(), prob, backoff }
}

fn words(ws: &[&str]) -> Vec<String> {
    ws.iter().map(|w| w.to_string()).collect()
}

/// Unigrams only: P(a) = 0.5, P(</s>) = 0.25.
fn unigram_model() -> LanguageModel {
    let grams = vec![
        gram(&[0], -1_000_000, 0),
        gram(&[1], -99_000_000, 0),
        gram(&[2], -602_060, 0),
        gram(&[3], -301_030, 0),
    ];
    LanguageModel::from_image(1, words(&["<unk>", "<s>", "</s>", "a"]), grams).unwrap()
}

/// Ids: <unk> 0, <s> 1, </s> 2, a 3, b 4.
fn bigram_model() -> LanguageModel {
    let grams = vec![
        gram(&[0], -2_000_000, 0),
        gram(&[1], -99_000_000, -500_000),
        gram(&[2], -1_000_000, 0),
        gram(&[3], -700_000, -200_000),
        gram(&[4], -800_000, -100_000),
        gram(&[1, 3], -300_000, 0),
        gram(&[3, 4], -400_000, 0),
        gram(&[4, 2], -250_000, 0),
    ];
    LanguageModel::from_image(2, words(&["<unk>", "<s>", "</s>", "a", "b"]), grams).unwrap()
}

#[test]
fn unigram_sentence_total() {
    let m = unigram_model();
    assert_eq!(m.score("a", true, true), -903_090);
}

#[test]
fn unigram_perplexity() {
    let m = unigram_model();
    let (neg_total, n) = m.perplexity_parts("a");
    assert_eq!((neg_total, n), (903_090, 1));
    let ppl = 10f64.powf(neg_total as f64 / 1_000_000.0 / (n as f64 + 1.0));
    assert!((ppl - 2.828).abs() < 0.001);
}

#[test]
fn bigram_full_matches() {
    let m = bigram_model();
    assert_eq!(m.score("a b", true, true), -950_000);
}

#[test]
fn bigram_backoff_composition() {
    let m = bigram_model();
    // b after <s>: backoff(<s>) + P(b); a after b: backoff(b) + P(a);
    // </s> after a: backoff(a) + P(</s>).
    assert_eq!(m.score("b a", true, true), -1_300_000 - 800_000 - 1_200_000);
}

#[test]
fn without_markers() {
    let m = bigram_model();
    assert_eq!(m.score("a b", false, false), -700_000 - 400_000);
    assert_eq!(m.score("", false, false), 0);
    assert_eq!(m.score("", true, true), -500_000 - 1_000_000);
}

#[test]
fn unknown_word_uses_unknown_unigram() {
    let m = bigram_model();
    assert_eq!(m.vocab_index("zzz"), m.unknown_id());
    assert_eq!(m.score("zzz", false, false), -2_000_000);
    assert_eq!(m.score("a zzz", false, false), -700_000 - 200_000 - 2_000_000);
}

#[test]
fn unknown_id_out_of_range_scores_as_unknown() {
    let m = bigram_model();
    let st = State::new();
    let (p, next) = m.score_word(&st, 1000);
    assert_eq!(p, -2_000_000);
    assert_eq!(next.len(), 1);
    assert_eq!(next.get(0), 0);
}

#[test]
fn vocabulary_lookup() {
    let m = bigram_model();
    assert_eq!(m.vocab_index("<unk>"), 0);
    assert_eq!(m.vocab_index("a"), 3);
    assert_eq!(m.vocab_index("b"), 4);
    assert_eq!(m.begin_sentence_id(), 1);
    assert_eq!(m.end_sentence_id(), 2);
    assert_eq!(m.unknown_id(), 0);
    assert_eq!(m.max_order(), 2);
}

#[test]
fn sentence_state_writers() {
    let m = bigram_model();
    let mut st = State::new();
    m.begin_sentence_write(&mut st);
    assert_eq!(st.len(), 1);
    assert_eq!(st.get(0), 1);
    m.null_context_write(&mut st);
    assert_eq!(st.len(), 0);
}

#[test]
fn base_score_writes_next_state() {
    let m = bigram_model();
    let mut st = State::new();
    m.begin_sentence_write(&mut st);
    let mut out = State::new();
    assert_eq!(m.base_score(&st, "a", &mut out), -300_000);
    assert_eq!(out.len(), 1);
    assert_eq!(out.get(0), 3);
    let mut out2 = State::new();
    assert_eq!(m.base_score(&out, "b", &mut out2), -400_000);
    assert_eq!(out2.get(0), 4);
}

#[test]
fn backoff_keeps_short_state() {
    let m = bigram_model();
    let st = State::from_ids(&vec![1]);
    let (p, next) = m.score_word(&st, 4);
    assert_eq!(p, -1_300_000);
    assert_eq!(next, State::from_ids(&vec![4]));
}

#[test]
fn equal_states_score_alike() {
    let m = bigram_model();
    let a = State::from_ids(&vec![3]);
    let mut b = State::new();
    m.base_score(&State::new(), "a", &mut b);
    assert_eq!(a, b);
    assert_eq!(m.score_word(&a, 4), m.score_word(&b, 4));
}

#[test]
fn copied_state_is_independent() {
    let m = bigram_model();
    let mut st = State::new();
    m.begin_sentence_write(&mut st);
    let copy = st;
    let (p1, s1) = m.score_word(&copy, 3);
    let (p2, s2) = m.score_word(&st, 4);
    assert_eq!(p1, -300_000);
    assert_eq!(p2, -1_300_000);
    assert_eq!(m.score_word(&st, 3), (p1, s1));
    assert_eq!(m.score_word(&copy, 4), (p2, s2));
    assert_eq!(st, copy);
}

#[test]
fn scoring_is_deterministic() {
    let m = bigram_model();
    let first = m.score("b a zzz b", true, true);
    for _ in 0..5 {
        assert_eq!(m.score("b a zzz b", true, true), first);
    }
    assert_eq!(m.score("  b\ta \n zzz   b ", true, true), first);
}

#[test]
fn word_score_is_bounded() {
    let m = bigram_model();
    let st = State::from_ids(&vec![1, 3, 4, 2, 0]);
    for w in 0..6u32 {
        let (p, next) = m.score_word(&st, w);
        assert!(p <= 0 && p > -6_000_000_000_000);
        assert!(next.len() <= 1);
    }
}

fn load(order: usize, ws: &[&str], grams: Vec<NGram>) -> Result<LanguageModel, LMError> {
    LanguageModel::from_image(order, words(ws), grams)
}

fn base_grams() -> Vec<NGram> {
    vec![gram(&[0], -1, 0), gram(&[1], -1, 0), gram(&[2], -1, 0)]
}

#[test]
fn load_accepts_minimal_image() {
    assert!(load(1, &["<unk>", "<s>", "</s>"], base_grams()).is_ok());
    assert!(load(6, &["<unk>", "<s>", "</s>"], base_grams()).is_ok());
}

#[test]
fn load_rejects_bad_order() {
    assert_eq!(load(0, &["<unk>", "<s>", "</s>"], base_grams()).err(), Some(LMError::LoadError));
    assert_eq!(load(7, &["<unk>", "<s>", "</s>"], base_grams()).err(), Some(LMError::LoadError));
}

#[test]
fn load_rejects_missing_reserved_word() {
    let grams = vec![gram(&[0], -1, 0), gram(&[1], -1, 0)];
    assert!(load(1, &["<unk>", "<s>"], grams).is_err());
    let grams = vec![gram(&[0], -1, 0), gram(&[1], -1, 0), gram(&[2], -1, 0)];
    assert!(load(1, &["x", "<s>", "</s>"], grams).is_err());
}

#[test]
fn load_rejects_duplicate_word() {
    let mut grams = base_grams();
    grams.push(gram(&[3], -1, 0));
    assert!(load(1, &["<unk>", "<s>", "</s>", "<s>"], grams).is_err());
}

#[test]
fn load_rejects_missing_unigram() {
    let grams = vec![gram(&[0], -1, 0), gram(&[1], -1, 0)];
    assert!(load(1, &["<unk>", "<s>", "</s>"], grams).is_err());
}

#[test]
fn load_rejects_bad_grams() {
    let mut g = base_grams();
    g.push(gram(&[0, 1], -1, 0));
    assert!(load(1, &["<unk>", "<s>", "</s>"], g).is_err());
    let mut g = base_grams();
    g.push(gram(&[0, 3], -1, 0));
    assert!(load(2, &["<unk>", "<s>", "</s>"], g).is_err());
    let mut g = base_grams();
    g.push(gram(&[1], -2, 0));
    assert!(load(2, &["<unk>", "<s>", "</s>"], g).is_err());
    let mut g = base_grams();
    g.push(gram(&[], -2, 0));
    assert!(load(2, &["<unk>", "<s>", "</s>"], g).is_err());
    let mut g = base_grams();
    g.push(gram(&[0, 1], -1_000_000_000_001, 0));
    assert!(load(2, &["<unk>", "<s>", "</s>"], g).is_err());
    let mut g = base_grams();
    g.push(gram(&[0, 1], -1, 1_000_000_000_001));
    assert!(load(2, &["<unk>", "<s>", "</s>"], g).is_err());
    let mut g = base_grams();
    g.push(gram(&[0, 1], -1_000_000_000_000, 1_000_000_000_000));
    assert!(load(2, &["<unk>", "<s>", "</s>"], g).is_ok());
}
