use trie_rs::map::{Trie, TrieBuilder};
use trie_rs::label::LabelKind;

fn build_trie() -> Trie<u8, u8> {
    let mut builder: TrieBuilder<u8, u8> = TrieBuilder::new();
    builder.insert("a", 0);
    builder.insert("app", 1);
    builder.insert("apple", 2);
    builder.insert("better", 3);
    builder.insert("application", 4);
    builder.insert("アップル🍎", 5);
    builder.build()
}

fn build_trie2() -> Trie<char, u8> {
    let mut builder: TrieBuilder<char, u8> = TrieBuilder::new();
    builder.insert("a", 0);
    builder.insert("app", 1);
    builder.insert("apple", 2);
    builder.insert("better", 3);
    builder.insert("application", 4);
    builder.insert("アップル🍎", 5);
    builder.build()
}

fn to_strings<'a>(pairs: Vec<(Vec<u8>, &'a u8)>) -> Vec<(String, &'a u8)> {
    pairs
        .into_iter()
        .map(|(k, v)| (String::from_utf8(k).unwrap(), v))
        .collect()
}

fn expected<'a>(items: &'a [(&str, u8)]) -> Vec<(String, &'a u8)> {
    items.iter().map(|s| (s.0.to_string(), &s.1)).collect()
}

#[test]
fn trie_sanity_check() {
    let trie = build_trie();
    let v: Vec<(String, &u8)> = to_strings(trie.starts_with("apple").pairs());
    assert_eq!(v, vec![("apple".to_string(), &2)]);
}

#[test]
fn trie_clone() {
    let trie = build_trie();
    let _c: Trie<u8, u8> = trie.clone();
}

#[test]
fn clone_answers_the_same() {
    let trie = build_trie();
    let c = trie.clone();
    assert_eq!(to_strings(c.iter().pairs()), to_strings(trie.iter().pairs()));
    assert_eq!(c.get_value("better"), Some(&3));
    assert_eq!(
        String::from_utf8(c.get("appli").unwrap().label()).unwrap(),
        "appli"
    );
}

#[test]
fn from_iter_last_pair_wins() {
    let trie = Trie::<u8, u8>::from_iter(vec![("ab", 1), ("a", 2), ("ab", 3)]);
    assert_eq!(trie.get_value("ab"), Some(&3));
    assert_eq!(trie.get_value("a"), Some(&2));
    assert_eq!(trie.iter().len(), 2);
}

#[test]
fn trie_value_mut() {
    let mut trie = build_trie();
    assert_eq!(trie.get_value("apple"), Some(&2));
    let v = trie.get_value_mut("apple").unwrap();
    *v = 10;
    assert_eq!(trie.get_value("apple"), Some(&10));
}

#[test]
fn node_mut_writes_value() {
    let mut trie = build_trie();
    {
        let mut n = trie.get_mut("app").unwrap();
        assert_eq!(n.kind(), LabelKind::PrefixAndExact);
        assert!(n.is_exact());
        assert!(n.is_prefix());
        assert_eq!(n.value(), Some(&1));
        assert_eq!(*n.token(), b'p');
        assert_eq!(n.children().len(), 1);
        assert_eq!(n.as_ref().label(), b"app".to_vec());
        *n.value_mut().unwrap() = 42;
        assert_eq!(n.value(), Some(&42));
    }
    assert_eq!(trie.get_value("app"), Some(&42));
    {
        let mut n = trie.get_mut("ap").unwrap();
        assert!(n.value_mut().is_none());
    }
    assert!(trie.get_mut("xyz").is_none());
    assert_eq!(trie.get_value("apple"), Some(&2));
}

#[test]
fn value_mut_missing_label() {
    let mut trie = build_trie();
    assert!(trie.get_value_mut("appl").is_none());
    assert!(trie.get_value_mut("zzz").is_none());
    assert!(trie.get_value_mut("").is_none());
    assert_eq!(trie.get_value("app"), Some(&1));
}

#[test]
fn builder_default() {
    let mut builder: TrieBuilder<u8, u8> = Default::default();
    builder.insert("x", 7);
    assert_eq!(builder.build().get_value("x"), Some(&7));
}

#[test]
fn trie_trie_from_iter() {
    let trie = Trie::<u8, u8>::from_iter(vec![
        ("a", 0),
        ("app", 1),
        ("apple", 2),
        ("better", 3),
        ("application", 4),
    ]);
    assert_eq!(trie.get_value("application"), Some(&4));
}

#[test]
fn trie_collect_a_trie() {
    let items = vec![
        ("a", 0),
        ("app", 1),
        ("apple", 2),
        ("better", 3),
        ("application", 4),
    ];
    let trie: Trie<u8, u8> = Trie::from_iter(items);
    assert_eq!(trie.get_value("application"), Some(&4));
}

#[test]
fn trie_use_empty_queries() {
    let trie = build_trie();
    assert!(trie.get_value("").is_none());
    let _ = trie.starts_with("").pairs().into_iter().next();
    let _ = trie.suffixes_of("").pairs().into_iter().next();
    let _ = trie.prefixes_of("").pairs().into_iter().next();
}

#[test]
fn insert_order_dependent() {
    let trie: Trie<u8, u8> = Trie::from_iter(vec![("a", 0), ("app", 1), ("apple", 2)]);
    let results: Vec<(String, &u8)> = to_strings(trie.iter().pairs());
    assert_eq!(
        results,
        [
            ("a".to_string(), &0u8),
            ("app".to_string(), &1u8),
            ("apple".to_string(), &2u8)
        ]
    );

    let trie: Trie<u8, u8> = Trie::from_iter(vec![("a", 0), ("apple", 2), ("app", 1)]);
    let results: Vec<(String, &u8)> = to_strings(trie.iter().pairs());
    assert_eq!(
        results,
        [
            ("a".to_string(), &0u8),
            ("app".to_string(), &1u8),
            ("apple".to_string(), &2u8)
        ]
    );
}

#[test]
fn t10() {
    let trie = build_trie();
    let result: Vec<u8> = trie
        .get("appl")
        .unwrap()
        .children()
        .iter()
        .map(|n| *n.token())
        .collect();
    assert_eq!(result, vec![b'e', b'i']);
}

#[test]
fn array_and_vec_labels() {
    let trie = build_trie();
    assert_eq!(trie.get_value([b'a', b'p', b'p']), Some(&1));
    assert_eq!(trie.get_value(b"apple".to_vec()), Some(&2));
    let slice: &[u8] = b"better";
    assert_eq!(trie.get_value(slice), Some(&3));
    assert_eq!(trie.get_value('a'), Some(&0));
}

#[test]
fn exact_match_cases() {
    let trie = build_trie();
    let cases: Vec<(&str, Option<&u8>)> = vec![
        ("a", Some(&0)),
        ("app", Some(&1)),
        ("apple", Some(&2)),
        ("application", Some(&4)),
        ("better", Some(&3)),
        ("アップル🍎", Some(&5)),
        ("appl", None),
        ("appler", None),
    ];
    for (label, expected_match) in cases {
        assert_eq!(trie.get_value(label), expected_match);
        assert_eq!(trie.is_exact(label), expected_match.is_some());
    }
}

#[test]
fn is_prefix_cases() {
    let trie = build_trie();
    let cases = vec![
        ("a", true),
        ("app", true),
        ("apple", false),
        ("application", false),
        ("better", false),
        ("アップル🍎", false),
        ("appl", true),
        ("appler", false),
        ("アップル", true),
    ];
    for (label, expected_match) in cases {
        let result = trie.get(label).filter(|n| n.is_prefix()).is_some();
        assert_eq!(result, expected_match, "{}", label);
    }
}

#[test]
fn children_cases() {
    let trie = build_trie();
    let cases = vec![
        ("a", Some(1)),
        ("app", Some(1)),
        ("apple", Some(0)),
        ("application", Some(0)),
        ("better", Some(0)),
        ("アップル🍎", Some(0)),
        ("appl", Some(2)),
        ("appler", None),
        ("アップル", Some(1)),
    ];
    for (label, expected_match) in cases {
        let result = trie.get(label).map(|n| n.children().len());
        assert_eq!(result, expected_match, "{}", label);
    }
}

#[test]
fn longest_prefix_cases() {
    let trie = build_trie();
    let cases = vec![
        ("a", Some("a")),
        ("ap", Some("app")),
        ("app", Some("app")),
        ("appl", None),
        ("appli", Some("application")),
        ("b", Some("better")),
        ("アップル🍎", Some("アップル🍎")),
        ("appler", None),
        ("アップル", Some("アップル🍎")),
        ("z", None),
        ("applesDONTEXIST", None),
        ("", None),
    ];
    for (label, expected_match) in cases {
        let result: Option<String> = trie
            .path_of(label)
            .map(|n| String::from_utf8(n.label()).unwrap());
        assert_eq!(result, expected_match.map(str::to_string), "{}", label);
    }
}

#[test]
fn starts_with_cases() {
    let trie = build_trie();
    let cases: Vec<(&str, Vec<(&str, u8)>)> = vec![
        ("a", vec![("a", 0), ("app", 1), ("apple", 2), ("application", 4)]),
        ("app", vec![("app", 1), ("apple", 2), ("application", 4)]),
        ("appl", vec![("apple", 2), ("application", 4)]),
        ("apple", vec![("apple", 2)]),
        ("b", vec![("better", 3)]),
        ("c", Vec::<(&str, u8)>::new()),
        ("アップ", vec![("アップル🍎", 5)]),
    ];
    for (label, expected_results) in cases.iter() {
        let results = to_strings(trie.starts_with(*label).pairs());
        assert_eq!(results, expected(expected_results), "{}", label);
        let results = to_strings(trie.starts_with_pairs(*label));
        assert_eq!(results, expected(expected_results), "{}", label);
    }
}

#[test]
fn prefixes_of_pairs_cases() {
    let trie = build_trie();
    let cases: Vec<(&str, Vec<(&str, u8)>)> = vec![
        ("a", vec![("a", 0)]),
        ("ap", vec![("a", 0)]),
        ("appl", vec![("a", 0), ("app", 1)]),
        ("appler", vec![("a", 0), ("app", 1), ("apple", 2)]),
        ("bette", Vec::<(&str, u8)>::new()),
        ("betterment", vec![("better", 3)]),
        ("c", Vec::<(&str, u8)>::new()),
        ("アップル🍎🍏", vec![("アップル🍎", 5)]),
    ];
    for (label, expected_results) in cases.iter() {
        let results = to_strings(trie.prefixes_of_pairs(*label));
        assert_eq!(results, expected(expected_results), "{}", label);
        let results = to_strings(trie.prefixes_of(*label).pairs());
        assert_eq!(results, expected(expected_results), "{}", label);
    }
}

#[test]
fn suffixes_of_cases() {
    let trie = build_trie();
    let cases: Vec<(&str, Vec<(&str, u8)>)> = vec![
        ("a", vec![("pp", 1), ("pple", 2), ("pplication", 4)]),
        ("ap", vec![("p", 1), ("ple", 2), ("plication", 4)]),
        ("appl", vec![("e", 2), ("ication", 4)]),
        ("appler", Vec::<(&str, u8)>::new()),
        ("bette", vec![("r", 3)]),
        ("betterment", Vec::<(&str, u8)>::new()),
        ("c", Vec::<(&str, u8)>::new()),
        ("アップル🍎🍏", Vec::<(&str, u8)>::new()),
    ];
    for (label, expected_results) in cases.iter() {
        let results = to_strings(trie.suffixes_of(*label).pairs());
        assert_eq!(results, expected(expected_results), "{}", label);
        let results = to_strings(trie.suffixes_of_pairs(*label));
        assert_eq!(results, expected(expected_results), "{}", label);
    }
}

#[test]
fn suffixes_of_char_cases() {
    let trie = build_trie2();
    let cases: Vec<(&str, Vec<(&str, u8)>)> = vec![
        ("a", vec![("pp", 1), ("pple", 2), ("pplication", 4)]),
        ("ap", vec![("p", 1), ("ple", 2), ("plication", 4)]),
        ("appl", vec![("e", 2), ("ication", 4)]),
        ("appler", Vec::<(&str, u8)>::new()),
        ("bette", vec![("r", 3)]),
        ("betterment", Vec::<(&str, u8)>::new()),
        ("c", Vec::<(&str, u8)>::new()),
        ("アップル🍎🍏", Vec::<(&str, u8)>::new()),
    ];
    for (label, expected_results) in cases.iter() {
        let results: Vec<(String, &u8)> = trie
            .suffixes_of(*label)
            .pairs()
            .into_iter()
            .map(|(k, v)| (k.into_iter().collect::<String>(), v))
            .collect();
        assert_eq!(results, expected(expected_results), "{}", label);
    }
}

#[test]
fn node_kind_and_value() {
    let trie = build_trie();
    assert_eq!(trie.get("a").unwrap().kind(), LabelKind::PrefixAndExact);
    assert_eq!(trie.get("ap").unwrap().kind(), LabelKind::Prefix);
    assert_eq!(trie.get("apple").unwrap().kind(), LabelKind::Exact);
    assert_eq!(trie.get("apple").unwrap().value(), Some(&2));
    assert_eq!(trie.get("appl").unwrap().value(), None);
    assert_eq!(trie.get("appl").unwrap().label(), b"appl".to_vec());
    assert!(trie.get("").is_some());
    assert!(trie.get("x").is_none());
}

#[test]
fn node_searches() {
    let trie = build_trie();
    let n = trie.get("app").unwrap();
    assert_eq!(
        to_strings(n.starts_with().pairs()),
        expected(&[("app", 1), ("apple", 2), ("application", 4)])
    );
    assert_eq!(
        to_strings(n.suffixes_of().pairs()),
        expected(&[("le", 2), ("lication", 4)])
    );
    assert_eq!(
        to_strings(n.prefixes_of().pairs()),
        expected(&[("a", 0), ("app", 1)])
    );
}

#[test]
fn later_insert_replaces_value() {
    let mut builder: TrieBuilder<u8, u8> = TrieBuilder::new();
    builder.insert("key", 1);
    builder.insert("key", 2);
    let trie = builder.build();
    assert_eq!(trie.get_value("key"), Some(&2));
    assert_eq!(trie.iter().len(), 1);
}

#[test]
fn empty_trie() {
    let trie: Trie<u8, u8> = TrieBuilder::new().build();
    assert_eq!(trie.iter().len(), 0);
    assert!(trie.get_value("a").is_none());
    assert!(trie.get_value("").is_none());
    assert!(trie.inc_search().value().is_none());
    assert!(trie.path_of("").is_none());
    assert!(!trie.get("").unwrap().is_prefix());
}

#[test]
fn node_range_walks_up() {
    let trie = build_trie();
    let n = trie.get("app").unwrap();
    let labels: Vec<String> = n
        .range()
        .iter()
        .map(|m| String::from_utf8(m.label()).unwrap())
        .collect();
    assert_eq!(labels, vec!["app", "ap", "a"]);
    assert!(trie.get("").unwrap().range().is_empty());
}

#[test]
fn other_integer_tokens() {
    let trie = Trie::<i32, u8>::from_iter(vec![(vec![-1, 2], 1), (vec![-1], 0), (vec![3], 2)]);
    assert_eq!(trie.get_value(vec![-1, 2]), Some(&1));
    let keys: Vec<Vec<i32>> = trie.iter().labels();
    assert_eq!(keys, vec![vec![-1], vec![-1, 2], vec![3]]);
    let trie = Trie::<u64, u8>::from_iter(vec![(vec![u64::MAX], 7)]);
    assert_eq!(trie.get_value(vec![u64::MAX]), Some(&7));
}
