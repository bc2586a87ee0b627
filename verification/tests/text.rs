use seqtrie::strings_util::{
    convert_to_byte_index, convert_to_byte_range, convert_to_char_index, convert_to_char_range,
    normalize, prefix_until_char_index, remove_diacritics, substring_with_char_range,
    suffix_from_char_index,
};
use seqtrie::language::Language;
use seqtrie::range::ranges_overlap;
use seqtrie::token::{compute_all_ngrams, Token};
use seqtrie::trie::{Key, KeyMatch};
use std::str::FromStr;

#[test]
fn ranges_overlap_works() {
    let test_cases = vec![
        (3..6, 4..7, true),
        (3..6, 4..5, true),
        (3..6, 7..9, false),
        (3..6, 6..7, false),
    ];
    for (r1, r2, expected_result) in test_cases {
        assert_eq!(ranges_overlap(&r1, &r2), expected_result);
        assert_eq!(ranges_overlap(&r2, &r1), expected_result);
    }
}

#[test]
fn substring_with_char_range_works() {
    let text = "Hellö !!".to_string();
    let char_range = 2..5;
    let substring = substring_with_char_range(text, &char_range);
    assert_eq!("llö", &substring);
}

#[test]
fn prefix_works() {
    let text = "Hellö !!".to_string();
    let prefix = prefix_until_char_index(text, 5);
    assert_eq!("Hellö", &prefix);
}

#[test]
fn suffix_works() {
    let text = "Hellö !!".to_string();
    let suffix = suffix_from_char_index(text, 4);
    assert_eq!("ö !!", &suffix);
}

#[test]
fn remove_diacritics_works() {
    assert_eq!("".to_owned(), remove_diacritics(""));
    assert_eq!("ceaA".to_owned(), remove_diacritics("çéaÀ"));
}

#[test]
fn normalize_works() {
    assert_eq!("heloa".to_string(), normalize("  HelöÀ "));
}

#[test]
fn char_byte_index_conversions() {
    // "héllo": h=1 byte, é=2 bytes
    let s = "héllo";
    assert_eq!(convert_to_char_index(s, 0), 0);
    assert_eq!(convert_to_char_index(s, 1), 1);
    assert_eq!(convert_to_char_index(s, 3), 2);
    assert_eq!(convert_to_char_index(s, 99), 5);
    assert_eq!(convert_to_byte_index(s, 0), 0);
    assert_eq!(convert_to_byte_index(s, 1), 1);
    assert_eq!(convert_to_byte_index(s, 2), 3);
    assert_eq!(convert_to_byte_index(s, 99), 6);
    let cr = convert_to_char_range(s, &(1..3));
    assert_eq!(cr, 1..2);
    let br = convert_to_byte_range(s, &(1..2));
    assert_eq!(br, 1..3);
    assert_eq!(convert_to_char_index("", 5), 0);
}

#[test]
fn compute_all_ngrams_works() {
    let result = compute_all_ngrams(&vec!["a", "b", "c"], 3);
    let expected: Vec<(String, Vec<usize>)> = vec![
        ("a".to_string(), vec![0]),
        ("a b".to_string(), vec![0, 1]),
        ("a b c".to_string(), vec![0, 1, 2]),
        ("b".to_string(), vec![1]),
        ("b c".to_string(), vec![1, 2]),
        ("c".to_string(), vec![2]),
    ];
    assert_eq!(result, expected)
}

#[test]
fn compute_all_ngrams_caps_size() {
    let result = compute_all_ngrams(&vec!["x", "y", "z"], 1);
    let expected: Vec<(String, Vec<usize>)> =
        vec![("x".to_string(), vec![0]), ("y".to_string(), vec![1]), ("z".to_string(), vec![2])];
    assert_eq!(result, expected);
    let empty: Vec<(String, Vec<usize>)> = vec![];
    assert_eq!(compute_all_ngrams(&vec![], 3), empty);
}

#[test]
fn normalized_value_should_be_lazy() {
    let mut token = Token::new("HellÖ".to_string(), 0..6, 0..5);
    let normalized_value = token.normalized_value();
    assert_eq!("hello".to_string(), normalized_value);
    assert_eq!(Some("hello".to_string()), token.normalized);
}

#[test]
fn token_equality_compares_fields() {
    let a = Token::new("ab".to_string(), 0..2, 0..2);
    let b = Token::new("ab".to_string(), 0..2, 0..2);
    let c = Token::new("ab".to_string(), 1..3, 1..3);
    assert_eq!(a, b);
    assert_ne!(a, c);
}

#[test]
fn key_matching_cases() {
    let a = Key::new(vec![1, 2, 3]);
    assert!(matches!(a.match_key(&Key::new(vec![1, 2, 3])), KeyMatch::Full));
    assert!(matches!(a.match_key(&Key::new(vec![1, 2, 9])), KeyMatch::Partial(2)));
    assert!(matches!(a.match_key(&Key::new(vec![1, 2])), KeyMatch::Partial(2)));
    assert!(matches!(a.match_key(&Key::new(vec![1, 2, 3, 4])), KeyMatch::Partial(3)));
    assert!(matches!(a.match_key(&Key::new(vec![9, 2, 3])), KeyMatch::NoMatch));
}

#[test]
fn key_buckets() {
    // 0x61 is odd: low nibble 1; 0x62 is even: high nibble 6
    assert_eq!(Key::new(vec![0x61]).get_bucket(), 1);
    assert_eq!(Key::new(vec![0x62]).get_bucket(), 6);
    // only the low byte matters
    assert_eq!(Key::new(vec![0x1234_0062]).get_bucket(), 6);
}

#[test]
fn key_split_and_merge() {
    let mut k = Key::new(vec![1, 2, 3, 4]);
    let mut tail = k.split(2);
    assert_eq!(k.len(), 2);
    assert_eq!(tail.len(), 2);
    k.merge(&mut tail);
    assert_eq!(k.len(), 4);
    assert!(tail.is_empty());
    assert!(Key::empty().is_empty());
}

#[test]
fn language_codes() {
    assert_eq!(Language::all().len(), 7);
    assert!(matches!(Language::from_str("EN"), Ok(Language::EN)));
    assert!(matches!(Language::from_str("ja"), Ok(Language::JA)));
    assert!(Language::from_str("xx").is_err());
    assert_eq!(Language::EN.code(), "en");
    assert_eq!(Language::EN.default_separator(), " ");
    assert!(Language::EN.punctuation().contains('!'));
}

use seqtrie::token::{tokenize, tokenize_light};

#[test]
fn tokenize_empty_string_works() {
    let text = "";
    let language = Language::EN;
    let retrieved = tokenize(text, language);
    assert_eq!(retrieved, vec![]);
}

#[test]
fn tokenize_only_whitespaces_works() {
    let text = "                ";
    let language = Language::EN;
    let retrieved = tokenize(text, language);
    assert_eq!(retrieved, vec![]);
}

#[test]
fn tokenize_literals_works() {
    let text = "hello World";
    let language = Language::EN;
    let retrieved = tokenize(text, language);
    let expected = vec![
        Token::new("hello".to_string(), 0..5, 0..5),
        Token::new("World".to_string(), 6..11, 6..11),
    ];
    assert_eq!(retrieved, expected);
}

#[test]
fn tokenize_symbols_works() {
    let text = "$$ % !!";
    let language = Language::EN;
    let retrieved = tokenize(text, language);
    let expected = vec![
        Token::new("$".to_string(), 0..1, 0..1),
        Token::new("$".to_string(), 1..2, 1..2),
        Token::new("%".to_string(), 3..4, 3..4),
        Token::new("!".to_string(), 5..6, 5..6),
        Token::new("!".to_string(), 6..7, 6..7),
    ];
    assert_eq!(retrieved, expected);
}

#[test]
fn tokenize_words_and_symbols_works() {
    let text = "hello$$ %world?";
    let language = Language::EN;
    let retrieved = tokenize(text, language);
    let expected = vec![
        Token::new("hello".to_string(), 0..5, 0..5),
        Token::new("$".to_string(), 5..6, 5..6),
        Token::new("$".to_string(), 6..7, 6..7),
        Token::new("%".to_string(), 8..9, 8..9),
        Token::new("world".to_string(), 9..14, 9..14),
        Token::new("?".to_string(), 14..15, 14..15),
    ];
    assert_eq!(retrieved, expected);
}

#[test]
fn tokenize_light_gives_values() {
    let vals = tokenize_light("hello$$ %world?", Language::EN);
    assert_eq!(vals, vec!["hello", "$", "$", "%", "world", "?"]);
}

#[test]
fn remove_combination_marks_works() {
    assert_eq!("c".to_owned(), remove_diacritics("\u{e7}"));
    assert_eq!("e".to_owned(), remove_diacritics("\u{eb}"));
    assert_eq!("\u{c548}".to_owned(), remove_diacritics("\u{c548}"));
}
