use rskenlm::index::{hash_chars, hash_ids, HashIndex};
use rskenlm::text::{char_is_space, chars_of, split_words};

fn word(s: &str) -> Vec<char> {
    s.chars().collect()
}

#[test]
fn split_on_any_whitespace() {
    let ws = split_words("  a\tbb \n c\u{3000}d ");
    assert_eq!(ws, vec![word("a"), word("bb"), word("c"), word("d")]);
    assert!(split_words("").is_empty());
    assert!(split_words(" \t\n").is_empty());
    assert_eq!(split_words("x"), vec![word("x")]);
}

#[test]
fn whitespace_set() {
    for c in [' ', '\t', '\n', '\r', '\u{0B}', '\u{0C}', '\u{85}', '\u{A0}', '\u{2000}', '\u{200A}', '\u{3000}'] {
        assert!(char_is_space(c));
        assert!(c.is_whitespace());
    }
    for c in ['a', '<', '\u{200B}', '_'] {
        assert!(!char_is_space(c));
    }
}

#[test]
fn chars_of_keeps_every_char() {
    assert_eq!(chars_of("héllo wörld"), word("héllo wörld"));
    assert!(chars_of("").is_empty());
}

#[test]
fn hashes_of_sequences() {
    assert_eq!(hash_ids(&vec![]), 14695981039346656037);
    assert_eq!(hash_chars(&vec![]), 14695981039346656037);
    let one = ((14695981039346656037u128 * 1099511628211 + 7) % (1u128 << 64)) as u64;
    assert_eq!(hash_ids(&vec![7]), one);
    assert_eq!(hash_chars(&vec!['\u{7}']), one);
    assert_ne!(hash_ids(&vec![1, 2]), hash_ids(&vec![2, 1]));
}

#[test]
fn index_buckets() {
    let mut idx = HashIndex::new();
    assert!(idx.bucket(5).is_none());
    idx.add(5, 1);
    idx.add(5, 3);
    idx.add(9, 2);
    let b = idx.bucket(5).unwrap();
    assert!(b.contains(&1) && b.contains(&3) && !b.contains(&2));
    assert_eq!(idx.bucket(9).unwrap(), &vec![2]);
}
