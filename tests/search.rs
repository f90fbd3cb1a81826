use emoji_search::index::Index;
use emoji_search::priority::{calculate_priority, MatchPriority};
use emoji_search::query::{and_keywords, expand_query, sort_longest_first};
use emoji_search::rank::rank_candidates;
use emoji_search::search::{Candidate, Hit};

fn strings(v: &[&str]) -> Vec<String> {
    v.iter().map(|s| s.to_string()).collect()
}

fn animals() -> Index {
    let mut ix = Index::new();
    ix.add_document("cat", strings(&["kitty"]));
    ix.add_document("scat", vec![]);
    ix.add_document("dog", strings(&["puppy"]));
    ix
}

fn candidate(name: &str, priority: Option<MatchPriority>) -> Candidate {
    Candidate {
        name: name.to_string(),
        n_aliases: 0,
        hits: vec![],
        priority,
        exact_bonus: false,
        containment_bonus: false,
    }
}

#[test]
fn expansion_of_a_non_alphabetic_term() {
    let tokens = expand_query(&strings(&["ab1", "b1"]));
    assert_eq!(tokens, strings(&["ab1", "ab", "b1"]));
}

#[test]
fn tokens_are_taken_longest_first() {
    let sorted = sort_longest_first(strings(&["ab", "abcd", "x", "cd", "abc"]));
    assert_eq!(sorted, strings(&["abcd", "abc", "ab", "cd", "x"]));
}

#[test]
fn candidates_carry_class_hits_and_bonuses() {
    let ix = animals();
    let cands = ix.search_candidates(&strings(&["cat"]), 10);
    let names: Vec<String> = cands.iter().map(|c| c.name.clone()).collect();
    assert_eq!(names, strings(&["cat", "scat"]));
    let cat = &cands[0];
    assert_eq!(cat.priority, Some(MatchPriority::NameExact));
    assert_eq!(cat.n_aliases, 1);
    assert!(cat.exact_bonus);
    assert!(cat.containment_bonus);
    assert_eq!(cat.hits[0], Hit { df: 1, verbatim: true });
    assert_eq!(cat.hits.len(), 3);
    let scat = &cands[1];
    assert_eq!(scat.priority, Some(MatchPriority::NamePartial));
    assert!(!scat.exact_bonus);
    assert!(scat.containment_bonus);
    assert_eq!(scat.hits, vec![Hit { df: 2, verbatim: false }, Hit { df: 2, verbatim: false }]);
}

#[test]
fn alias_query_finds_its_document_as_alias_exact() {
    let mut ix = Index::new();
    ix.add_document("grinning", strings(&["smile", "happy"]));
    ix.add_document("cry", strings(&["sad"]));
    let cands = ix.search_candidates(&strings(&["happy"]), 10);
    let hit = cands.iter().find(|c| c.name == "grinning").unwrap();
    assert_eq!(hit.priority, Some(MatchPriority::AliasExact));
    let keys = vec![0u32; cands.len()];
    let ranked = rank_candidates(&cands, &keys, 10);
    assert_eq!(ranked[0], "grinning");
}

#[test]
fn own_name_ranks_above_partial_matches() {
    let ix = animals();
    let cands = ix.search_candidates(&strings(&["cat"]), 10);
    let keys: Vec<u32> = cands.iter().map(|c| if c.name == "scat" { 1000 } else { 1 }).collect();
    assert_eq!(rank_candidates(&cands, &keys, 10), strings(&["cat", "scat"]));
    assert_eq!(rank_candidates(&cands, &keys, 1), strings(&["cat"]));
}

#[test]
fn romanized_query_reaches_native_script_name() {
    let mut ix = Index::new();
    ix.add_document("とうきょう", vec![]);
    ix.add_document("おおさか", vec![]);
    let cands = ix.search_candidates(&strings(&["toukyou"]), 10);
    assert_eq!(cands.len(), 1);
    assert_eq!(cands[0].name, "とうきょう");
    assert_eq!(cands[0].priority, Some(MatchPriority::NamePrefix));
}

#[test]
fn empty_query_and_empty_store_give_nothing() {
    let ix = animals();
    let none = ix.search_candidates(&vec![], 0);
    assert!(none.is_empty());
    assert!(rank_candidates(&none, &vec![], 0).is_empty());
    let empty = Index::new();
    let cands = empty.search_candidates(&strings(&["cat", "dog"]), 10);
    assert!(cands.is_empty());
    assert!(rank_candidates(&cands, &vec![], 10).is_empty());
}

#[test]
fn work_budget_stops_the_scan() {
    let mut ix = Index::new();
    for i in 0..30 {
        ix.add_document(&format!("ab{}", i), vec![]);
    }
    let cands = ix.search_candidates(&strings(&["ab"]), 1);
    // Eleven visits may be made before the budget (more than ten visits and
    // two candidates) is spent.
    assert_eq!(cands.len(), 11);
    let all = ix.search_candidates(&strings(&["ab"]), 10);
    assert_eq!(all.len(), 30);
}

#[test]
fn ranking_orders_by_class_then_key_then_input() {
    let cands = vec![
        candidate("partial", Some(MatchPriority::AliasPartial)),
        candidate("low", Some(MatchPriority::NamePrefix)),
        candidate("high", Some(MatchPriority::NamePrefix)),
        candidate("none", None),
        candidate("tie", Some(MatchPriority::NamePrefix)),
    ];
    let keys = vec![99, 1, 7, 500, 1];
    assert_eq!(rank_candidates(&cands, &keys, 10), strings(&["high", "low", "tie", "partial", "none"]));
    assert_eq!(rank_candidates(&cands, &keys, 2), strings(&["high", "low"]));
}

#[test]
fn priority_weights() {
    assert_eq!(calculate_priority(Some(MatchPriority::NameExact)), 100);
    assert_eq!(calculate_priority(Some(MatchPriority::AliasExact)), 90);
    assert_eq!(calculate_priority(Some(MatchPriority::NamePrefix)), 80);
    assert_eq!(calculate_priority(Some(MatchPriority::AliasPrefix)), 70);
    assert_eq!(calculate_priority(Some(MatchPriority::NamePartial)), 60);
    assert_eq!(calculate_priority(Some(MatchPriority::AliasPartial)), 50);
    assert_eq!(calculate_priority(None), 0);
    assert_eq!(MatchPriority::AliasPartial.rank(), 6);
}

#[test]
fn and_keywords_split_a_spaced_query() {
    assert_eq!(and_keywords(&strings(&["red apple"])), Some(strings(&["red", "apple"])));
    assert_eq!(and_keywords(&strings(&["  x  y "])), Some(strings(&["x", "y"])));
    assert_eq!(and_keywords(&strings(&["red"])), None);
    assert_eq!(and_keywords(&strings(&["red", "green apple"])), None);
}

#[test]
fn and_search_prefers_name_matches() {
    let mut ix = Index::new();
    ix.add_document("apple pie", strings(&["dessert", "sweet"]));
    ix.add_document("red apple", strings(&["fruit"]));
    ix.add_document("green apple", vec![]);
    assert_eq!(ix.search_and(vec!["apple", "red"], 10), strings(&["red apple"]));
    assert_eq!(ix.search_and(vec!["apple", "sweet"], 10), strings(&["apple pie"]));
    // Upper-case romaji still meets the names through their hiragana forms.
    assert_eq!(
        ix.search_and(vec!["APPLE"], 10),
        strings(&["apple pie", "red apple", "green apple"])
    );
    assert_eq!(ix.search_and(vec!["banana"], 10), Vec::<String>::new());
    assert_eq!(ix.search_and(vec!["apple"], 2), strings(&["apple pie", "red apple"]));
    assert_eq!(ix.search_and(vec!["apple"], 0), Vec::<String>::new());
}

#[test]
fn and_search_lowercases_names() {
    let mut ix = Index::new();
    ix.add_document("Red Apple", vec![]);
    assert_eq!(ix.search_and(vec!["red", "apple"], 10), strings(&["Red Apple"]));
}

#[test]
fn unified_search_orders_by_class() {
    let mut ix = animals();
    assert_eq!(ix.search_unified(&strings(&["cat"]), 10), strings(&["cat", "scat"]));
    assert_eq!(ix.search_unified(&strings(&["kit"]), 10), strings(&["cat"]));
    assert_eq!(ix.search_unified(&strings(&["sc"]), 10), strings(&["scat"]));
    assert_eq!(ix.search_unified(&strings(&["cat"]), 0), Vec::<String>::new());
}

#[test]
fn unified_search_puts_alias_exact_before_name_prefix() {
    let mut ix = Index::new();
    ix.add_document("catalog", vec![]);
    ix.add_document("feline", strings(&["cat"]));
    assert_eq!(ix.search_unified(&strings(&["cat"]), 10), strings(&["feline", "catalog"]));
}

#[test]
fn and_search_ignores_case_on_both_sides() {
    let mut ix = Index::new();
    ix.add_document("émile", vec![]);
    ix.add_document("Cat Face", vec![]);
    assert_eq!(ix.search_and(vec!["Émile"], 10), strings(&["émile"]));
    assert_eq!(ix.search_and(vec!["CAT", "face"], 10), strings(&["Cat Face"]));
}

#[test]
fn and_search_meets_native_script_through_romaji() {
    let mut ix = Index::new();
    ix.add_document("とうきょう たわー", vec![]);
    ix.add_document("おおさか", vec![]);
    assert_eq!(ix.search_and(vec!["toukyou", "tawa"], 10), strings(&["とうきょう たわー"]));
}

#[test]
fn halfwidth_voicing_marks_are_not_transliterated() {
    let mut ix = Index::new();
    ix.add_document("ﾞa", vec![]);
    assert_eq!(ix.search_and(vec!["ﾞ", "a"], 10), strings(&["ﾞa"]));
    assert_eq!(ix.search_unified(&strings(&["ﾟ"]), 10), Vec::<String>::new());
    let cands = ix.search_candidates(&strings(&["ﾞa"]), 10);
    assert_eq!(cands.len(), 1);
}

#[test]
fn unified_search_meets_native_script_through_romaji() {
    let mut ix = Index::new();
    ix.add_document("とうきょう", vec![]);
    ix.add_document("おおさか", vec![]);
    assert_eq!(ix.search_unified(&strings(&["toukyou"]), 10), strings(&["とうきょう"]));
}

#[test]
fn long_alphabetic_terms_are_still_transliterated() {
    let term = "ka".repeat(30);
    let tokens = expand_query(&vec![term.clone()]);
    assert_eq!(tokens[0], term);
    assert_eq!(tokens[1], "か".repeat(30));
}
