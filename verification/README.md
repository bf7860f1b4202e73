# trie_rs

A trie for labels (sequences of tokens) built on a LOUDS (level-order unary
degree sequence) tree, with every operation verified by Verus against a
mathematical model: a map trie is viewed as a `Map<Seq<Token>, Value>`, a set
trie as a `Set<Seq<Token>>`.

Layout of `src/`:

- `label.rs`: labels (`&str`, `Vec`, slices, `char`, token iterators) and
  `LabelKind`.
- `token.rs`: the token order and the lexicographic order of labels.
- `lbs.rs`: the LOUDS bit vector of a degree sequence, with rank/select
  counting.
- `louds.rs`: the `louds-rs` tree, reached through a few wrappers whose
  contracts are stated over `lbs.rs`.
- `internal/naive_trie.rs`: the pointer trie a builder fills.
- `map/`: `Trie`, `TrieBuilder`, `NodeRef`, `NodeMut`.
- `search.rs`: searches below and along a label.
- `inc_search.rs`: incremental search, one token at a time.
- `set/`: the set trie, over a map trie with `()` values.
