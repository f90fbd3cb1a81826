use emoji_search::tokenize::tokenize_2gram;

#[test]
fn bigrams_of_empty_text() {
    assert_eq!(tokenize_2gram(""), Vec::<String>::new());
}

#[test]
fn bigrams_of_one_character() {
    assert_eq!(tokenize_2gram("a"), vec!["a".to_string()]);
}

#[test]
fn bigrams_of_two_characters() {
    assert_eq!(tokenize_2gram("ab"), vec!["ab".to_string()]);
}

#[test]
fn bigrams_of_three_characters() {
    assert_eq!(tokenize_2gram("abc"), vec!["ab".to_string(), "bc".to_string(), "abc".to_string()]);
}

#[test]
fn bigrams_keep_multibyte_characters_whole() {
    assert_eq!(
        tokenize_2gram("とうきょう"),
        vec!["とう", "うき", "きょ", "ょう", "とうきょう"]
            .into_iter()
            .map(String::from)
            .collect::<Vec<_>>()
    );
}
