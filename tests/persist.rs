use std::collections::HashMap;

use emoji_search::index::{Document, Index};

fn doc(name: &str, aliases: &[&str]) -> Document {
    Document { name: name.to_string(), aliases: aliases.iter().map(|a| a.to_string()).collect() }
}

fn contents(ix: &Index) -> Vec<(String, Vec<String>)> {
    ix.documents().iter().map(|d| (d.name.clone(), d.aliases.clone())).collect()
}

#[test]
fn load_after_dump_gives_the_same_store() {
    let mut ix = Index::new();
    ix.add_documents(vec![doc("cat", &["kitty", "neko"]), doc("dog", &[]), doc("fox", &["kitsune"])]);
    ix.search_and(vec!["cat"], 10);
    let bytes = ix.dump().unwrap();
    let back = Index::load(&bytes).unwrap();
    assert_eq!(contents(&back), contents(&ix));
    assert_eq!(back.n_docs(), 3);
    assert_eq!(back.postings_for(&"kitsune".to_string()).unwrap().clone(), vec!["fox".to_string()]);
}

#[test]
fn legacy_buffer_is_migrated() {
    let mut postings: HashMap<String, Vec<String>> = HashMap::new();
    postings.insert("cat".to_string(), vec!["cat".to_string()]);
    let mut lengths: HashMap<String, usize> = HashMap::new();
    lengths.insert("cat".to_string(), 2);
    let mut aliases: HashMap<String, Vec<String>> = HashMap::new();
    aliases.insert("cat".to_string(), vec!["kitty".to_string()]);
    let legacy = (postings, lengths, aliases, 1usize, 1.2f32, 0.75f32);
    let bytes = bincode::serialize(&legacy).unwrap();
    let ix = Index::load(&bytes).unwrap();
    assert_eq!(contents(&ix), vec![("cat".to_string(), vec!["kitty".to_string()])]);
    assert_eq!(ix.n_docs(), 1);
    assert_eq!(ix.postings_for(&"ki".to_string()).unwrap().clone(), vec!["cat".to_string()]);
}

#[test]
fn garbage_reports_both_decodings() {
    let err = Index::load(&[1u8, 2, 3]).err().unwrap();
    assert!(!err.current.is_empty());
    assert!(!err.legacy.is_empty());
}

#[test]
fn unknown_version_is_not_read_as_current() {
    let docs: Vec<(String, Vec<String>)> = vec![];
    let bytes = bincode::serialize(&(99u32, docs, 0u64)).unwrap();
    let err = Index::load(&bytes).err().unwrap();
    assert_eq!(err.current, "unsupported schema version");
}

#[test]
fn dump_always_succeeds_on_an_empty_store() {
    let ix = Index::new();
    let bytes = ix.dump().unwrap();
    let back = Index::load(&bytes).unwrap();
    assert_eq!(back.n_docs(), 0);
}
