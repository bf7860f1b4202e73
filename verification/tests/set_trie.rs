use trie_rs::set::{Trie, TrieBuilder};
use trie_rs::label::LabelKind;

fn build_trie() -> Trie<u8> {
    let mut builder = TrieBuilder::new();
    builder.insert("a");
    builder.insert("app");
    builder.insert("apple");
    builder.insert("better");
    builder.insert("application");
    builder.insert("アップル🍎");
    builder.build()
}

fn strings(v: Vec<Vec<u8>>) -> Vec<String> {
    v.into_iter().map(|k| String::from_utf8(k).unwrap()).collect()
}

#[test]
fn set_trie_from_iter() {
    let trie = Trie::<u8>::from_iter(vec!["a", "app", "apple", "better", "application"]);
    assert!(trie.is_exact("application"));
}

#[test]
fn set_collect_a_trie() {
    let trie: Trie<u8> = Trie::from_iter(vec!["a", "app", "apple", "better", "application"]);
    assert!(trie.is_exact("application"));
}

#[test]
fn set_clone() {
    let trie = build_trie();
    let _c: Trie<u8> = trie.clone();
}

#[test]
fn set_use_empty_queries() {
    let trie = build_trie();
    assert!(!trie.is_exact(""));
    let _ = trie.starts_with("").into_iter().next();
    let _ = trie.suffixes_of("").into_iter().next();
    let _ = trie.prefixes_of("").into_iter().next();
}

#[test]
fn set_doc_examples() {
    let trie = Trie::<u8>::from_iter(vec!["a", "app", "apple", "better", "application"]);
    assert!(trie.is_exact("application"));
    assert!(trie.is_exact("app"));
    assert!(!trie.is_exact("appla"));
    assert_eq!(strings(trie.prefixes_of("application")), vec!["a", "app", "application"]);
    assert!(trie.suffixes_of("application").is_empty());
    assert_eq!(strings(trie.suffixes_of("app")), vec!["le", "lication"]);
    assert_eq!(
        strings(trie.iter()),
        vec!["a", "app", "apple", "application", "better"]
    );
    assert_eq!(strings(trie.starts_with_labels("app")), vec!["app", "apple", "application"]);
    assert_eq!(strings(trie.suffixes_of_labels("app")), vec!["le", "lication"]);
    assert_eq!(strings(trie.prefixes_of_labels("apple")), vec!["a", "app", "apple"]);
}

#[test]
fn set_prefix_and_longest() {
    let trie = build_trie();
    assert!(trie.is_prefix("ap"));
    assert!(trie.is_prefix(""));
    assert!(!trie.is_prefix("apple"));
    assert!(!trie.is_prefix("z"));
    assert_eq!(trie.longest_prefix("ap").map(|v| String::from_utf8(v).unwrap()), Some("app".to_string()));
    assert_eq!(trie.longest_prefix("appl"), None);
    assert_eq!(trie.longest_prefix("b").map(|v| String::from_utf8(v).unwrap()), Some("better".to_string()));
}

#[test]
fn set_key_ref() {
    let trie = build_trie();
    let k = trie.get("appl").unwrap();
    assert_eq!(k.kind(), LabelKind::Prefix);
    assert!(!k.is_exact());
    assert!(k.is_prefix());
    assert_eq!(*k.token(), b'l');
    assert_eq!(k.label(), b"appl".to_vec());
    let kids: Vec<u8> = k.children().iter().map(|c| *c.token()).collect();
    assert_eq!(kids, vec![b'e', b'i']);
    assert_eq!(strings(k.starts_with()), vec!["apple", "application"]);
    assert_eq!(strings(k.suffixes_of()), vec!["e", "ication"]);
    assert_eq!(strings(k.prefixes_of()), vec!["a", "app"]);
    assert!(trie.get("x").is_none());
}

#[test]
fn set_inc_search() {
    let trie = build_trie();
    let mut search = trie.inc_search();
    assert_eq!(search.next_label_kind("app"), Ok(LabelKind::PrefixAndExact));
    assert_eq!(search.value(), Some(&()));
}

#[test]
fn set_key_range() {
    let trie = build_trie();
    let k = trie.get("be").unwrap();
    let labels: Vec<String> = k
        .range()
        .iter()
        .map(|m| String::from_utf8(m.label()).unwrap())
        .collect();
    assert_eq!(labels, vec!["be", "b"]);
}
