//! Labels: the sequences of tokens that a trie holds, and the values that can
//! be read as one.
use vstd::prelude::*;
use vstd::string::StringSliceAdditionalSpecFns;
use vstd::std_specs::iter::IteratorSpec;
use vstd::utf8::{char_is_scalar, encode_scalar, encode_utf8};

verus! {

/// The role that a label holds in a trie.
#[derive(Debug, PartialEq, Eq, Clone, Copy, Structural)]
pub enum LabelKind {
    /// There is a prefix here.
    Prefix,
    /// There is an exact match here.
    Exact,
    /// There is a prefix and an exact match here.
    PrefixAndExact,
}

impl LabelKind {
    /// Is this label a prefix?
    pub fn is_prefix(&self) -> (r: bool)
        ensures
            r == (*self is Prefix || *self is PrefixAndExact),
    {
        match self {
            LabelKind::Prefix | LabelKind::PrefixAndExact => true,
            LabelKind::Exact => false,
        }
    }

    /// Is this label an exact match?
    pub fn is_exact(&self) -> (r: bool)
        ensures
            r == (*self is Exact || *self is PrefixAndExact),
    {
        match self {
            LabelKind::Exact | LabelKind::PrefixAndExact => true,
            LabelKind::Prefix => false,
        }
    }

    /// The kind of a label that is a prefix (of a longer key) and/or a key.
    pub open spec fn of(is_prefix: bool, is_exact: bool) -> LabelKind {
        if is_prefix && is_exact {
            LabelKind::PrefixAndExact
        } else if is_prefix {
            LabelKind::Prefix
        } else {
            LabelKind::Exact
        }
    }
}

/// Used to convert labels to token sequences.
pub trait Label<Token>: Sized {
    /// The tokens of this label.
    spec fn tokens(&self) -> Seq<Token>;

    /// Produces the tokens.
    fn into_tokens(self) -> (r: Vec<Token>)
        ensures
            r@ == self.tokens(),
    ;
}

impl<'i> Label<u8> for &'i str {
    /// The UTF-8 bytes of the string.
    open spec fn tokens(&self) -> Seq<u8> {
        (**self).spec_bytes()
    }

    fn into_tokens(self) -> (r: Vec<u8>) {
        vstd::slice::slice_to_vec(self.as_bytes())
    }
}

impl<'i> Label<char> for &'i str {
    /// The characters of the string.
    open spec fn tokens(&self) -> Seq<char> {
        (**self)@
    }

    fn into_tokens(self) -> (r: Vec<char>) {
        let n = self.unicode_len();
        let mut out: Vec<char> = Vec::new();
        let mut i: usize = 0;
        while i < n
            invariant
                n == self@.len(),
                0 <= i <= n,
                out@ == self@.take(i as int),
            decreases n - i,
        {
            let c = self.get_char(i);
            out.push(c);
            i = i + 1;
            proof {
                assert(out@ =~= self@.take(i as int));
            }
        }
        proof {
            assert(self@.take(n as int) =~= self@);
        }
        out
    }
}

impl<T> Label<T> for Vec<T> {
    open spec fn tokens(&self) -> Seq<T> {
        self@
    }

    fn into_tokens(self) -> (r: Vec<T>) {
        self
    }
}

impl<'i, T: Copy> Label<T> for &'i [T] {
    open spec fn tokens(&self) -> Seq<T> {
        (**self)@
    }

    fn into_tokens(self) -> (r: Vec<T>) {
        vstd::slice::slice_to_vec(self)
    }
}

impl<T: Copy, const N: usize> Label<T> for [T; N] {
    open spec fn tokens(&self) -> Seq<T> {
        self@
    }

    fn into_tokens(self) -> (r: Vec<T>) {
        vstd::slice::slice_to_vec(self.as_slice())
    }
}

/// The bytes of the characters `cs`, one character's after the other's.
pub open spec fn char_bytes_concat(cs: Seq<char>) -> Seq<u8>
    decreases cs.len(),
{
    if cs.len() == 0 {
        Seq::empty()
    } else {
        <char as Label<u8>>::tokens(&cs[0]) + char_bytes_concat(cs.drop_first())
    }
}

/// The UTF-8 encoding of a character sequence is its characters' bytes, one
/// after the other.
proof fn lemma_encode_concat(cs: Seq<char>)
    ensures
        encode_utf8(cs) == char_bytes_concat(cs),
    decreases cs.len(),
{
    if cs.len() > 0 {
        lemma_encode_concat(cs.drop_first());
    }
}

/// A string's bytes, as a label, are the bytes of its characters, as labels,
/// one character's after the other's.
pub proof fn lemma_str_bytes_are_char_bytes(s: &str)
    ensures
        <&str as Label<u8>>::tokens(&s) == char_bytes_concat(<&str as Label<char>>::tokens(&s)),
{
    lemma_encode_concat(s@);
}

/// The tokens an iterator produced, kept as a label.
pub struct LabelIter<Token>(pub(crate) Vec<Token>);

impl<Token> Label<Token> for LabelIter<Token> {
    closed spec fn tokens(&self) -> Seq<Token> {
        self.0@
    }

    fn into_tokens(self) -> (r: Vec<Token>) {
        self.0
    }
}

/// Runs a terminating iterator to its end, keeping what it produced.
fn drain_iter<Token, I: Iterator<Item = Token>>(iter: I) -> (r: Vec<Token>)
    requires
        iter.obeys_prophetic_iter_laws(),
        iter.decrease() is Some,
    ensures
        r@ == iter.remaining(),
{
    let mut it = iter;
    let ghost all = it.remaining();
    let mut v: Vec<Token> = Vec::new();
    loop
        invariant
            it.obeys_prophetic_iter_laws(),
            it.decrease() is Some,
            v@ + it.remaining() == all,
        ensures
            v@ == all,
        decreases it.decrease()->0,
    {
        match it.next() {
            Some(t) => {
                v.push(t);
            },
            None => {
                break;
            },
        }
    }
    v
}

/// Used to convert a token iterator into a label.
pub trait ToLabel<Token>: Iterator<Item = Token> + Sized {
    /// Runs the iterator and keeps its tokens as a label.
    fn to_label(self) -> (r: LabelIter<Token>)
        requires
            self.obeys_prophetic_iter_laws(),
            self.decrease() is Some,
        ensures
            r.tokens() == self.remaining(),
    ;
}

impl<Token, T: Iterator<Item = Token>> ToLabel<Token> for T {
    fn to_label(self) -> (r: LabelIter<Token>) {
        LabelIter(drain_iter(self))
    }
}

/// Used to convert a token iterator into a label.
pub trait IntoLabel<Token>: Iterator<Item = Token> + Sized {
    /// Runs the iterator and keeps its tokens as a label.
    fn into_label(self) -> (r: LabelIter<Token>)
        requires
            self.obeys_prophetic_iter_laws(),
            self.decrease() is Some,
        ensures
            r.tokens() == self.remaining(),
    ;
}

impl<Token, T: Iterator<Item = Token>> IntoLabel<Token> for T {
    fn into_label(self) -> (r: LabelIter<Token>) {
        LabelIter(drain_iter(self))
    }
}

impl Label<u8> for char {
    /// The UTF-8 bytes of the character.
    open spec fn tokens(&self) -> Seq<u8> {
        encode_scalar(*self as u32)
    }

    fn into_tokens(self) -> (r: Vec<u8>) {
        CharBytes::new(self).into_vec()
    }
}

/// The bytes of a `char` in UTF-8.
pub struct CharBytes {
    bytes: [u8; 4],
    idx: usize,
    len: usize,
}

impl View for CharBytes {
    type V = Seq<u8>;

    /// The bytes still to come.
    closed spec fn view(&self) -> Seq<u8> {
        self.bytes@.subrange(self.idx as int, self.len as int)
    }
}

impl CharBytes {
    #[verifier::type_invariant]
    spec fn inv(self) -> bool {
        self.idx <= self.len <= 4
    }

    /// The UTF-8 encoding of `c`.
    pub fn new(c: char) -> (r: Self)
        ensures
            r@ == encode_scalar(c as u32),
    {
        let s = c as u32;
        proof {
            char_is_scalar(c);
        }
        let r = if s <= 0x7F {
            CharBytes { bytes: [(s & 0x7F) as u8, 0, 0, 0], idx: 0, len: 1 }
        } else if s <= 0x7FF {
            CharBytes {
                bytes: [0xC0 | ((s >> 6) & 0x1F) as u8, 0x80 | (s & 0x3F) as u8, 0, 0],
                idx: 0,
                len: 2,
            }
        } else if s <= 0xFFFF {
            CharBytes {
                bytes: [
                    0xE0 | ((s >> 12) & 0x0F) as u8,
                    0x80 | ((s >> 6) & 0x3F) as u8,
                    0x80 | (s & 0x3F) as u8,
                    0,
                ],
                idx: 0,
                len: 3,
            }
        } else {
            CharBytes {
                bytes: [
                    0xF0 | ((s >> 18) & 0x7) as u8,
                    0x80 | ((s >> 12) & 0x3F) as u8,
                    0x80 | ((s >> 6) & 0x3F) as u8,
                    0x80 | (s & 0x3F) as u8,
                ],
                idx: 0,
                len: 4,
            }
        };
        proof {
            assert(r@ =~= encode_scalar(s));
        }
        r
    }

    /// The next byte, if any is left.
    pub fn next(&mut self) -> (r: Option<u8>)
        ensures
            old(self)@.len() == 0 ==> r is None && final(self)@ == old(self)@,
            old(self)@.len() > 0 ==> r == Some(old(self)@[0]) && final(self)@ == old(self)@.drop_first(),
    {
        proof {
            use_type_invariant(&*self);
        }
        if self.idx == self.len {
            return None;
        }
        let byte = self.bytes[self.idx];
        self.idx = self.idx + 1;
        proof {
            assert(self@ =~= old(self)@.drop_first());
        }
        Some(byte)
    }

    /// All the bytes still to come.
    pub fn into_vec(self) -> (r: Vec<u8>)
        ensures
            r@ == self@,
    {
        proof {
            use_type_invariant(&self);
        }
        let mut out: Vec<u8> = Vec::new();
        let mut i: usize = self.idx;
        while i < self.len
            invariant
                self.idx <= i <= self.len <= 4,
                out@ == self.bytes@.subrange(self.idx as int, i as int),
            decreases self.len - i,
        {
            out.push(self.bytes[i]);
            i = i + 1;
            proof {
                assert(out@ =~= self.bytes@.subrange(self.idx as int, i as int));
            }
        }
        out
    }
}

} // verus!
