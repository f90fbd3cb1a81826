use emoji_search::index::{Document, Index};

fn doc(name: &str, aliases: &[&str]) -> Document {
    Document { name: name.to_string(), aliases: aliases.iter().map(|a| a.to_string()).collect() }
}

fn names(ix: &Index) -> Vec<String> {
    ix.documents().iter().map(|d| d.name.clone()).collect()
}

#[test]
fn add_documents_counts_each_name_once() {
    let mut ix = Index::new();
    ix.add_documents(vec![doc("cat", &["kitty"]), doc("dog", &["puppy"]), doc("cat", &["neko"])]);
    assert_eq!(ix.n_docs(), 2);
    assert_eq!(names(&ix), vec!["dog".to_string(), "cat".to_string()]);
    assert_eq!(ix.documents()[1].aliases, vec!["neko".to_string()]);
}

#[test]
fn postings_follow_the_store() {
    let mut ix = Index::new();
    ix.add_document("cat", vec!["kitty".to_string()]);
    ix.add_document("scat", vec![]);
    let at = ix.postings_for(&"at".to_string()).unwrap().clone();
    assert_eq!(at, vec!["cat".to_string(), "scat".to_string()]);
    let kitty = ix.postings_for(&"kitty".to_string()).unwrap().clone();
    assert_eq!(kitty, vec!["cat".to_string()]);
    assert!(ix.postings_for(&"zz".to_string()).is_none());
}

#[test]
fn remove_document_drops_every_posting() {
    let mut ix = Index::new();
    ix.add_document("cat", vec!["kitty".to_string()]);
    ix.add_document("dog", vec!["puppy".to_string()]);
    assert!(ix.remove_document("cat"));
    assert_eq!(ix.n_docs(), 1);
    assert!(ix.postings_for(&"kitty".to_string()).is_none());
    assert!(ix.postings_for(&"ca".to_string()).is_none());
    assert!(!ix.remove_document("cat"));
    assert_eq!(ix.n_docs(), 1);
}

#[test]
fn update_unknown_document_is_not_found() {
    let mut ix = Index::new();
    ix.add_document("cat", vec![]);
    assert!(!ix.update_document("dog", vec!["x".to_string()]));
    assert_eq!(ix.n_docs(), 1);
}

#[test]
fn update_replaces_aliases() {
    let mut ix = Index::new();
    ix.add_document("cat", vec!["kitty".to_string()]);
    assert!(ix.update_document("cat", vec!["neko".to_string()]));
    assert_eq!(ix.n_docs(), 1);
    assert!(ix.postings_for(&"kitty".to_string()).is_none());
    assert_eq!(ix.postings_for(&"neko".to_string()).unwrap().clone(), vec!["cat".to_string()]);
}

#[test]
fn replace_all_and_clear() {
    let mut ix = Index::new();
    ix.add_document("cat", vec![]);
    ix.replace_all_documents(vec![doc("dog", &[]), doc("fox", &[])]);
    assert_eq!(names(&ix), vec!["dog".to_string(), "fox".to_string()]);
    ix.clear_index();
    assert_eq!(ix.n_docs(), 0);
    assert!(ix.postings_for(&"dog".to_string()).is_none());
}

#[test]
fn aliases_of_finds_the_document() {
    let mut ix = Index::new();
    ix.add_document("cat", vec!["kitty".to_string(), "neko".to_string()]);
    assert_eq!(ix.aliases_of(&"cat".to_string()).unwrap().len(), 2);
    assert!(ix.aliases_of(&"dog".to_string()).is_none());
}

#[test]
fn update_with_same_aliases_changes_no_search() {
    let mut once = Index::new();
    once.add_document("dog", vec!["puppy".to_string()]);
    once.add_document("cat", vec!["kitty".to_string()]);
    let mut twice = Index::new();
    twice.add_document("dog", vec!["puppy".to_string()]);
    twice.add_document("cat", vec!["kitty".to_string()]);
    assert!(twice.update_document("cat", vec!["kitty".to_string()]));
    let q = vec!["kit".to_string()];
    let a: Vec<(String, Option<emoji_search::priority::MatchPriority>)> =
        once.search_candidates(&q, 10).into_iter().map(|c| (c.name, c.priority)).collect();
    let b: Vec<(String, Option<emoji_search::priority::MatchPriority>)> =
        twice.search_candidates(&q, 10).into_iter().map(|c| (c.name, c.priority)).collect();
    assert_eq!(a, b);
    assert_eq!(names(&once), names(&twice));
}
