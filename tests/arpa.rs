use rskenlm::decimal::parse_log10;
use rskenlm::{LMError, LanguageModel, State};

fn chars(s: &str) -> Vec<char> {
    s.chars().collect()
}

const SMALL_ARPA: &str = "\\data\\
ngram 1=6
ngram 2=3

\\1-grams:
-1.0\t<unk>\t0
-99\t<s>\t-0.5
-1\t</s>
-0.7\tscreening\t-0.2
-0.8\ta\t-0.1
-0.9\tlittle\t-0.3

\\2-grams:
-0.3\t<s> screening
-0.4\tscreening a
-0.25\ta little

\\end\\
";

#[test]
fn decimal_values() {
    assert_eq!(parse_log10(&chars("-0.30103")), Some(-301_030));
    assert_eq!(parse_log10(&chars("-99")), Some(-99_000_000));
    assert_eq!(parse_log10(&chars("0")), Some(0));
    assert_eq!(parse_log10(&chars("1.5")), Some(1_500_000));
    assert_eq!(parse_log10(&chars("-1.")), Some(-1_000_000));
    assert_eq!(parse_log10(&chars("-0.12345678")), Some(-123_456));
    assert_eq!(parse_log10(&chars("-1000000")), Some(-1_000_000_000_000));
}

#[test]
fn decimal_rejects_malformed() {
    assert_eq!(parse_log10(&chars("")), None);
    assert_eq!(parse_log10(&chars("-")), None);
    assert_eq!(parse_log10(&chars(".5")), None);
    assert_eq!(parse_log10(&chars("1.2.3")), None);
    assert_eq!(parse_log10(&chars("-inf")), None);
    assert_eq!(parse_log10(&chars("1e-05")), None);
    assert_eq!(parse_log10(&chars("-0.1234567x")), None);
    assert_eq!(parse_log10(&chars("-1000000.000001")), None);
    assert_eq!(parse_log10(&chars("99999999999999999999")), None);
}

#[test]
fn lm_load() {
    let model = LanguageModel::from_arpa(SMALL_ARPA).unwrap();
    assert_eq!(model.max_order(), 2);
    assert_eq!(model.vocab_index("screening"), 3);
    assert_eq!(model.vocab_index("little"), 5);
    // <s> screening, screening a, a little, then </s> backs off from "little".
    let total = model.score("screening a little", true, true);
    assert_eq!(total, -300_000 - 400_000 - 250_000 - 300_000 - 1_000_000);
    let (neg_total, n) = model.perplexity_parts("screening a little");
    assert_eq!((neg_total, n), (2_250_000, 3));
}

#[test]
fn arpa_backoff_and_states() {
    let model = LanguageModel::from_arpa(SMALL_ARPA).unwrap();
    let mut st = State::new();
    model.begin_sentence_write(&mut st);
    let mut out = State::new();
    assert_eq!(model.base_score(&st, "little", &mut out), -500_000 - 900_000);
    assert_eq!(out.len(), 1);
    assert_eq!(out.get(0), 5);
}

#[test]
fn arpa_rejects_truncated() {
    let cut = &SMALL_ARPA[..SMALL_ARPA.find("-0.25").unwrap()];
    assert_eq!(LanguageModel::from_arpa(cut).err(), Some(LMError::LoadError));
    let no_end = SMALL_ARPA.replace("\\end\\", "");
    assert!(LanguageModel::from_arpa(&no_end).is_err());
}

#[test]
fn arpa_rejects_bad_structure() {
    assert!(LanguageModel::from_arpa("").is_err());
    assert!(LanguageModel::from_arpa("\\data\\\n\\end\\\n").is_err());
    let wrong_count = SMALL_ARPA.replace("ngram 2=3", "ngram 2=4");
    assert!(LanguageModel::from_arpa(&wrong_count).is_err());
    let unknown_word = SMALL_ARPA.replace("-0.25\ta little", "-0.25\ta big");
    assert!(LanguageModel::from_arpa(&unknown_word).is_err());
    let bad_number = SMALL_ARPA.replace("-0.4\t", "-x\t");
    assert!(LanguageModel::from_arpa(&bad_number).is_err());
    let no_unk = SMALL_ARPA.replace("<unk>", "unk");
    assert!(LanguageModel::from_arpa(&no_unk).is_err());
    let order_gap = SMALL_ARPA.replace("ngram 2=3", "ngram 3=3");
    assert!(LanguageModel::from_arpa(&order_gap).is_err());
}

#[test]
fn arpa_rejects_order_above_six() {
    let text = "\\data\\\nngram 1=3\nngram 2=0\nngram 3=0\nngram 4=0\nngram 5=0\nngram 6=0\nngram 7=0\n\n\\1-grams:\n-1\t<unk>\n-1\t<s>\n-1\t</s>\n\n\\end\\\n";
    assert_eq!(LanguageModel::from_arpa(text).err(), Some(LMError::LoadError));
}

#[test]
fn arpa_accepts_order_six() {
    let text = "\\data\\\nngram 1=3\nngram 2=0\nngram 3=0\nngram 4=0\nngram 5=0\nngram 6=0\n\n\\1-grams:\n-1\t<unk>\n-1\t<s>\n-1\t</s>\n\n\\2-grams:\n\n\\3-grams:\n\n\\4-grams:\n\n\\5-grams:\n\n\\6-grams:\n\n\\end\\\n";
    let m = LanguageModel::from_arpa(text).unwrap();
    assert_eq!(m.max_order(), 6);
}

#[test]
fn arpa_rejects_missing_unigram_section() {
    let text = SMALL_ARPA.replace("\\1-grams:", "");
    assert!(LanguageModel::from_arpa(&text).is_err());
    let text = "\\data\\\nngram 2=1\n\n\\2-grams:\n-1\t<s> </s>\n\n\\end\\\n";
    assert!(LanguageModel::from_arpa(text).is_err());
}

#[test]
fn arpa_rejects_duplicate_unigram() {
    let text = SMALL_ARPA
        .replace("ngram 1=6", "ngram 1=7")
        .replace("-0.9\tlittle\t-0.3\n", "-0.9\tlittle\t-0.3\n-0.9\tlittle\n");
    assert!(LanguageModel::from_arpa(&text).is_err());
}

#[test]
fn arpa_loads_twice_alike() {
    let a = LanguageModel::from_arpa(SMALL_ARPA).unwrap();
    let b = LanguageModel::from_arpa(SMALL_ARPA).unwrap();
    for s in ["screening a little", "little little", "zzz a", ""] {
        assert_eq!(a.score(s, true, true), b.score(s, true, true));
        assert_eq!(a.perplexity_parts(s), b.perplexity_parts(s));
    }
}

#[test]
fn state_default_is_empty() {
    let st = State::default();
    assert_eq!(st.len(), 0);
    assert_eq!(st, State::new());
}
