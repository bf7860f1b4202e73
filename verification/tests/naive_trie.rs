use trie_rs::internal::naive_trie::NaiveTrie;

#[test]
fn naive_insert_reuses_shared_prefix() {
    let mut t: NaiveTrie<u8, u8> = NaiveTrie::make_root();
    t.insert(b"ab", 1);
    assert_eq!(t.children().len(), 1);
    t.insert(b"ac", 2);
    assert_eq!(t.children().len(), 1);
    let a = &t.children()[0];
    assert_eq!(*a.token(), b'a');
    assert_eq!(a.value(), None);
    let toks: Vec<u8> = a.children().iter().map(|k| *k.token()).collect();
    assert_eq!(toks, vec![b'b', b'c']);
    t.insert(b"a", 3);
    assert_eq!(t.children()[0].value(), Some(&3));
    assert_eq!(t.children()[0].children().len(), 2);
}

#[test]
fn naive_insert_order_gives_same_shape() {
    let mut t1: NaiveTrie<u8, u8> = NaiveTrie::make_root();
    t1.insert(b"apple", 2);
    t1.insert(b"app", 1);
    let mut t2: NaiveTrie<u8, u8> = NaiveTrie::make_root();
    t2.insert(b"app", 1);
    t2.insert(b"apple", 2);
    let mut n1 = &t1;
    let mut n2 = &t2;
    for _ in 0..5 {
        assert_eq!(n1.children().len(), 1);
        assert_eq!(n2.children().len(), 1);
        n1 = &n1.children()[0];
        n2 = &n2.children()[0];
        assert_eq!(n1.token(), n2.token());
        assert_eq!(n1.value(), n2.value());
    }
    assert!(n1.children().is_empty());
}
