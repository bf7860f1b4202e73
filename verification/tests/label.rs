use trie_rs::label::{CharBytes, IntoLabel, Label, LabelKind, ToLabel};

#[test]
fn label_generic_iter() {
    // let's turn a regular char iterator into a label
    let chars = "hello".chars();
    let label = chars.to_label();
    let _tokens = label.into_tokens();
}

#[test]
fn into_generic_iter() {
    // let's turn a regular char iterator into a label
    let chars = "hello".chars();
    let label = chars.into_label();
    let _tokens = label.into_tokens();
}

#[test]
fn iter_label_tokens() {
    let tokens = "héllo".chars().to_label().into_tokens();
    assert_eq!(tokens, vec!['h', 'é', 'l', 'l', 'o']);
    let tokens = vec![1u8, 2, 3].into_iter().into_label().into_tokens();
    assert_eq!(tokens, vec![1, 2, 3]);
}

#[test]
fn str_labels() {
    let bytes: Vec<u8> = Label::<u8>::into_tokens("aé");
    assert_eq!(bytes, vec![b'a', 0xc3, 0xa9]);
    let chars: Vec<char> = Label::<char>::into_tokens("aé");
    assert_eq!(chars, vec!['a', 'é']);
    let slice: &[u32] = &[7, 8];
    assert_eq!(slice.into_tokens(), vec![7, 8]);
    assert_eq!([3u8, 4, 5].into_tokens(), vec![3, 4, 5]);
}

#[test]
fn char_bytes() {
    let bytes: Vec<u8> = Label::<u8>::into_tokens('🍎');
    assert_eq!(bytes, "🍎".as_bytes().to_vec());
    assert_eq!(CharBytes::new('a').into_vec(), vec![b'a']);
    assert_eq!(CharBytes::new('é').into_vec(), vec![0xc3, 0xa9]);
    let mut it = CharBytes::new('ア');
    assert_eq!(it.next(), Some(0xe3));
    assert_eq!(it.next(), Some(0x82));
    assert_eq!(it.next(), Some(0xa2));
    assert_eq!(it.next(), None);
}

#[test]
fn label_kind() {
    assert!(LabelKind::Prefix.is_prefix());
    assert!(!LabelKind::Prefix.is_exact());
    assert!(LabelKind::Exact.is_exact());
    assert!(!LabelKind::Exact.is_prefix());
    assert!(LabelKind::PrefixAndExact.is_prefix());
    assert!(LabelKind::PrefixAndExact.is_exact());
}

#[test]
fn str_bytes_are_char_bytes() {
    let s = "aé🍎ア";
    let mut joined: Vec<u8> = Vec::new();
    for c in s.chars() {
        joined.extend(Label::<u8>::into_tokens(c));
    }
    assert_eq!(joined, Label::<u8>::into_tokens(s));
    assert_eq!(joined, s.as_bytes().to_vec());
}
