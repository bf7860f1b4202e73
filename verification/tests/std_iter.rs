#[test]
fn trie_vec_into_iter_clone() {
    let v = vec![1, 2, 3];
    let i = v.into_iter();
    let c = i.clone();
    assert_eq!(c.count(), 3);
    assert_eq!(i.count(), 3);
}
