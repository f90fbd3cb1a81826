use emoji_search::cache::StringCache;

#[test]
fn lowercase_is_computed_and_cached() {
    let mut c = StringCache::new();
    assert_eq!(c.get_lowercase(&"GrInNiNg".to_string()), "grinning");
    assert_eq!(c.get_lowercase(&"GrInNiNg".to_string()), "grinning");
}

#[test]
fn hiragana_only_for_ascii_text() {
    let mut c = StringCache::new();
    assert_eq!(c.get_hiragana(&"Toukyou".to_string()), Some("とうきょう".to_string()));
    assert_eq!(c.get_hiragana(&"東京".to_string()), None);
}

#[test]
fn alias_mappings_come_and_go() {
    let mut c = StringCache::new();
    c.add_alias_mapping("kitty".to_string(), "cat".to_string());
    c.add_alias_mapping("kitty".to_string(), "lion".to_string());
    c.remove_alias_mapping("kitty", "cat");
    c.remove_document(&"lion".to_string(), &vec!["kitty".to_string()]);
    c.clear();
    assert_eq!(c.get_lowercase(&"A".to_string()), "a");
}
