use fts_index::{deserialize_id, is_token_charcter, serialize_id, split_runs, tokens_iter};

#[test]
fn splits_on_non_token_characters() {
    assert_eq!(tokens_iter("foo, bar-baz  42"), vec!["foo", "bar", "baz", "42"]);
    assert_eq!(tokens_iter(""), Vec::<String>::new());
    assert_eq!(tokens_iter(" .,;"), Vec::<String>::new());
    assert_eq!(tokens_iter("x"), vec!["x"]);
}

#[test]
fn keeps_case_and_unicode_letters() {
    assert_eq!(tokens_iter("Héllo wörld"), vec!["Héllo", "wörld"]);
    assert_eq!(tokens_iter("Foo foo"), vec!["Foo", "foo"]);
    assert_eq!(tokens_iter("a\u{E000}b c"), vec!["a\u{E000}b", "c"]);
    assert_eq!(tokens_iter("x²y"), vec!["x²y"]);
}

#[test]
fn classifies_characters() {
    assert!(is_token_charcter('a'));
    assert!(is_token_charcter('Z'));
    assert!(is_token_charcter('7'));
    assert!(is_token_charcter('ß'));
    assert!(is_token_charcter('\u{E000}'));
    assert!(!is_token_charcter(' '));
    assert!(!is_token_charcter('-'));
    assert!(!is_token_charcter('_'));
}

#[test]
fn id_keys_are_little_endian() {
    assert_eq!(serialize_id(1), vec![1, 0, 0, 0, 0, 0, 0, 0]);
    assert_eq!(serialize_id(0x0102030405060708), vec![8, 7, 6, 5, 4, 3, 2, 1]);
    assert_eq!(deserialize_id(&[8, 7, 6, 5, 4, 3, 2, 1]), 0x0102030405060708);
    assert_eq!(deserialize_id(&serialize_id(u64::MAX)), u64::MAX);
}

#[test]
fn splits_runs_by_given_flags() {
    let chars: Vec<char> = "ab-cd--e".chars().collect();
    let flags: Vec<bool> = vec![true, true, false, true, true, false, false, true];
    let runs = split_runs(&chars, &flags);
    assert_eq!(runs, vec![vec!['a', 'b'], vec!['c', 'd'], vec!['e']]);
    let none = split_runs(&chars, &vec![false; 8]);
    assert!(none.is_empty());
    let all = split_runs(&chars, &vec![true; 8]);
    assert_eq!(all, vec![chars.clone()]);
}
