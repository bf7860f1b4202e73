use trie_rs::inc_search::IncSearch;
use trie_rs::label::LabelKind;
use trie_rs::map::{Trie, TrieBuilder};

fn build_trie() -> Trie<u8, u8> {
    let mut builder = TrieBuilder::new();
    builder.insert("a", 0);
    builder.insert("app", 1);
    builder.insert("apple", 2);
    builder.insert("better", 3);
    builder.insert("application", 4);
    builder.insert("アップル🍎", 5);
    builder.build()
}

fn prefix(search: &IncSearch<'_, u8, u8>) -> String {
    String::from_utf8(search.prefix()).unwrap()
}

#[test]
fn inc_search_inc_search() {
    let trie = build_trie();
    let mut search = trie.inc_search();
    assert_eq!("", prefix(&search));
    assert_eq!(0, search.prefix_len());
    assert!(search.next(&b'z').is_none());
    assert_eq!("", prefix(&search));
    assert_eq!(0, search.prefix_len());
    assert_eq!(LabelKind::PrefixAndExact, search.next_kind(&b'a').unwrap());
    assert_eq!("a", prefix(&search));
    assert_eq!(1, search.prefix_len());
    assert_eq!(LabelKind::Prefix, search.next_kind(&b'p').unwrap());
    assert_eq!("ap", prefix(&search));
    assert_eq!(2, search.prefix_len());
    assert_eq!(LabelKind::PrefixAndExact, search.next_kind(&b'p').unwrap());
    assert_eq!("app", prefix(&search));
    assert_eq!(3, search.prefix_len());
    assert_eq!(LabelKind::Prefix, search.next_kind(&b'l').unwrap());
    assert_eq!("appl", prefix(&search));
    assert_eq!(4, search.prefix_len());
    assert_eq!(LabelKind::Exact, search.next_kind(&b'e').unwrap());
    assert_eq!("apple", prefix(&search));
    assert_eq!(5, search.prefix_len());
}

#[test]
fn inc_search_children() {
    let trie = build_trie();
    let mut search = trie.inc_search();
    assert_eq!("", prefix(&search));
    assert_eq!(3, search.children().len());
    assert_eq!(None, search.next_kind(&b'z'));
    assert_eq!("", prefix(&search));
    assert_eq!(3, search.children().len());
    assert_eq!(LabelKind::PrefixAndExact, search.next_kind(&b'a').unwrap());
    assert_eq!("a", prefix(&search));
    assert_eq!(1, search.children().len());
    assert_eq!(LabelKind::Prefix, search.next_kind(&b'p').unwrap());
    assert_eq!("ap", prefix(&search));
    assert_eq!(1, search.children().len());
    assert_eq!(LabelKind::PrefixAndExact, search.next_kind(&b'p').unwrap());
    assert_eq!("app", prefix(&search));
    assert_eq!(1, search.children().len());
    assert_eq!(LabelKind::Prefix, search.next_kind(&b'l').unwrap());
    assert_eq!("appl", prefix(&search));
    assert_eq!(2, search.children().len());
    assert_eq!(
        vec![b'e', b'i'],
        search.children().iter().map(|(c, _)| **c).collect::<Vec<_>>()
    );
    assert_eq!(LabelKind::Exact, search.next_kind(&b'e').unwrap());
    assert_eq!("apple", prefix(&search));
    assert_eq!(0, search.children().len());
}

#[test]
fn inc_search_inc_search_value() {
    let trie = build_trie();
    let mut search = trie.inc_search();
    assert_eq!("", prefix(&search));
    assert_eq!(None, search.next_kind(&b'z'));
    assert_eq!("", prefix(&search));
    assert_eq!(LabelKind::PrefixAndExact, search.next_kind(&b'a').unwrap());
    assert_eq!("a", prefix(&search));
    assert_eq!(LabelKind::Prefix, search.next_kind(&b'p').unwrap());
    assert_eq!("ap", prefix(&search));
    assert_eq!(LabelKind::PrefixAndExact, search.next_kind(&b'p').unwrap());
    assert_eq!("app", prefix(&search));
    assert_eq!(LabelKind::Prefix, search.next_kind(&b'l').unwrap());
    assert_eq!("appl", prefix(&search));
    assert_eq!(LabelKind::Exact, search.next_kind(&b'e').unwrap());
    assert_eq!("apple", prefix(&search));
    assert_eq!(Some(&2), search.value());
}

#[test]
fn inc_search_label() {
    let trie = build_trie();
    let mut search = trie.inc_search();
    assert_eq!(Err(0), search.next_label("zoo").map(|n| n.label()));
    assert_eq!("", prefix(&search));
    search.reset();
    assert_eq!(Err(1), search.next_label("blue").map(|n| n.label()));
    assert_eq!("b", prefix(&search));
    search.reset();
    assert_eq!(LabelKind::Exact, search.next_label_kind("apple").unwrap());
    assert_eq!("apple", prefix(&search));
    assert_eq!(Some(&2), search.value());
}

#[test]
fn inc_search_goto_longest_prefix() {
    let trie = build_trie();
    let mut search = trie.inc_search();
    assert_eq!(Err(0), search.goto_longest_prefix());
    assert_eq!("", prefix(&search));
    search.reset();
    assert_eq!(Ok(LabelKind::PrefixAndExact), search.next_label_kind("a"));
    assert_eq!("a", prefix(&search));
    assert_eq!(Ok(2), search.goto_longest_prefix());
    assert_eq!("app", prefix(&search));
    assert_eq!(Err(1), search.goto_longest_prefix());
    assert_eq!("appl", prefix(&search));
    assert_eq!(Err(0), search.goto_longest_prefix());
    assert_eq!(Ok(LabelKind::Prefix), search.next_label_kind("i"));
    assert_eq!(Ok(6), search.goto_longest_prefix());
    assert_eq!(Ok(0), search.goto_longest_prefix());
    assert_eq!("application", prefix(&search));
    search.reset();
    assert_eq!(LabelKind::Exact, search.next_label_kind("apple").unwrap());
    assert_eq!("apple", prefix(&search));
    assert_eq!(Some(&2), search.value());
}

#[test]
fn inc_search_resume() {
    let trie = build_trie();
    let mut search = trie.inc_search();
    assert_eq!(search.next_label_kind("he"), Err(0));
    assert_eq!(search.next_label_kind("ap"), Ok(LabelKind::Prefix));
    let position = search.position();
    let mut search2 = IncSearch::resume(&trie, position);
    assert_eq!(search2.next_label_kind("ple"), Ok(LabelKind::Exact));
    assert_eq!("apple", prefix(&search2));
}

#[test]
fn inc_search_peek() {
    let trie = build_trie();
    let mut search = trie.inc_search();
    assert_eq!(search.peek_kind(&b'a'), Some(LabelKind::PrefixAndExact));
    assert!(search.peek(&b'q').is_none());
    assert_eq!("", prefix(&search));
    assert_eq!(search.next_label_kind(""), Err(0));
    assert_eq!(search.peek(&b'a').unwrap().label(), b"a".to_vec());
    assert_eq!("", prefix(&search));
}

#[test]
fn inc_search_agrees_with_exact_match() {
    let q = "appli";
    let trie = trie_rs::set::Trie::<u8>::from_iter(vec!["appli", "application"]);
    for i in 0..q.len() - 1 {
        assert!(!trie.is_exact(&q[0..i]));
    }
    assert!(trie.is_exact(q));
    let mut search = trie.inc_search();
    let bytes = q.as_bytes();
    for i in 0..bytes.len() {
        let kind = search.next_kind(&bytes[i]).unwrap();
        assert_eq!(kind.is_exact(), trie.is_exact(&q[0..i + 1]));
    }
    assert_eq!(search.goto_longest_prefix(), Ok(6));
    assert_eq!(String::from_utf8(search.prefix()).unwrap(), "application");
}
