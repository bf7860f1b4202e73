//! Tokens: the elements of a label, compared by a total order.
use vstd::prelude::*;

verus! {

/// A token type with a total order, given by an injective integer rank.
pub trait TrieToken: Copy + Sized {
    /// The position of this token in the order.
    spec fn order(self) -> int;

    /// `self` comes before `other`.
    fn less_than(&self, other: &Self) -> (r: bool)
        ensures
            r == (self.order() < other.order()),
    ;

    /// Tokens of equal rank are equal.
    proof fn lemma_order_injective(a: Self, b: Self)
        requires
            a.order() == b.order(),
        ensures
            a == b,
    ;
}

impl TrieToken for u8 {
    open spec fn order(self) -> int {
        self as int
    }

    fn less_than(&self, other: &Self) -> (r: bool) {
        *self < *other
    }

    proof fn lemma_order_injective(a: Self, b: Self) {
    }
}

impl TrieToken for char {
    open spec fn order(self) -> int {
        (self as u32) as int
    }

    fn less_than(&self, other: &Self) -> (r: bool) {
        (*self as u32) < (*other as u32)
    }

    proof fn lemma_order_injective(a: Self, b: Self) {
        vstd::utf8::char_u32_cast(a, a as u32);
        vstd::utf8::char_u32_cast(b, b as u32);
    }
}

impl TrieToken for u32 {
    open spec fn order(self) -> int {
        self as int
    }

    fn less_than(&self, other: &Self) -> (r: bool) {
        *self < *other
    }

    proof fn lemma_order_injective(a: Self, b: Self) {
    }
}

impl TrieToken for u16 {
    open spec fn order(self) -> int {
        self as int
    }

    fn less_than(&self, other: &Self) -> (r: bool) {
        *self < *other
    }

    proof fn lemma_order_injective(a: Self, b: Self) {
    }
}

impl TrieToken for u64 {
    open spec fn order(self) -> int {
        self as int
    }

    fn less_than(&self, other: &Self) -> (r: bool) {
        *self < *other
    }

    proof fn lemma_order_injective(a: Self, b: Self) {
    }
}

impl TrieToken for u128 {
    open spec fn order(self) -> int {
        self as int
    }

    fn less_than(&self, other: &Self) -> (r: bool) {
        *self < *other
    }

    proof fn lemma_order_injective(a: Self, b: Self) {
    }
}

impl TrieToken for usize {
    open spec fn order(self) -> int {
        self as int
    }

    fn less_than(&self, other: &Self) -> (r: bool) {
        *self < *other
    }

    proof fn lemma_order_injective(a: Self, b: Self) {
    }
}

impl TrieToken for i8 {
    open spec fn order(self) -> int {
        self as int
    }

    fn less_than(&self, other: &Self) -> (r: bool) {
        *self < *other
    }

    proof fn lemma_order_injective(a: Self, b: Self) {
    }
}

impl TrieToken for i16 {
    open spec fn order(self) -> int {
        self as int
    }

    fn less_than(&self, other: &Self) -> (r: bool) {
        *self < *other
    }

    proof fn lemma_order_injective(a: Self, b: Self) {
    }
}

impl TrieToken for i32 {
    open spec fn order(self) -> int {
        self as int
    }

    fn less_than(&self, other: &Self) -> (r: bool) {
        *self < *other
    }

    proof fn lemma_order_injective(a: Self, b: Self) {
    }
}

impl TrieToken for i64 {
    open spec fn order(self) -> int {
        self as int
    }

    fn less_than(&self, other: &Self) -> (r: bool) {
        *self < *other
    }

    proof fn lemma_order_injective(a: Self, b: Self) {
    }
}

impl TrieToken for i128 {
    open spec fn order(self) -> int {
        self as int
    }

    fn less_than(&self, other: &Self) -> (r: bool) {
        *self < *other
    }

    proof fn lemma_order_injective(a: Self, b: Self) {
    }
}

impl TrieToken for isize {
    open spec fn order(self) -> int {
        self as int
    }

    fn less_than(&self, other: &Self) -> (r: bool) {
        *self < *other
    }

    proof fn lemma_order_injective(a: Self, b: Self) {
    }
}

/// `u8` tokens are ordered by their numeric value, sign included for
/// signed types: one token comes before another exactly when it is smaller.
pub proof fn lemma_u8_order_is_numeric(a: u8, b: u8)
    ensures
        (a.order() < b.order()) == (a < b),
        (a.order() == b.order()) == (a == b),
{
}

/// `u16` tokens are ordered by their numeric value, sign included for
/// signed types: one token comes before another exactly when it is smaller.
pub proof fn lemma_u16_order_is_numeric(a: u16, b: u16)
    ensures
        (a.order() < b.order()) == (a < b),
        (a.order() == b.order()) == (a == b),
{
}

/// `u32` tokens are ordered by their numeric value, sign included for
/// signed types: one token comes before another exactly when it is smaller.
pub proof fn lemma_u32_order_is_numeric(a: u32, b: u32)
    ensures
        (a.order() < b.order()) == (a < b),
        (a.order() == b.order()) == (a == b),
{
}

/// `u64` tokens are ordered by their numeric value, sign included for
/// signed types: one token comes before another exactly when it is smaller.
pub proof fn lemma_u64_order_is_numeric(a: u64, b: u64)
    ensures
        (a.order() < b.order()) == (a < b),
        (a.order() == b.order()) == (a == b),
{
}

/// `u128` tokens are ordered by their numeric value, sign included for
/// signed types: one token comes before another exactly when it is smaller.
pub proof fn lemma_u128_order_is_numeric(a: u128, b: u128)
    ensures
        (a.order() < b.order()) == (a < b),
        (a.order() == b.order()) == (a == b),
{
}

/// `usize` tokens are ordered by their numeric value, sign included for
/// signed types: one token comes before another exactly when it is smaller.
pub proof fn lemma_usize_order_is_numeric(a: usize, b: usize)
    ensures
        (a.order() < b.order()) == (a < b),
        (a.order() == b.order()) == (a == b),
{
}

/// `i8` tokens are ordered by their numeric value, sign included for
/// signed types: one token comes before another exactly when it is smaller.
pub proof fn lemma_i8_order_is_numeric(a: i8, b: i8)
    ensures
        (a.order() < b.order()) == (a < b),
        (a.order() == b.order()) == (a == b),
{
}

/// `i16` tokens are ordered by their numeric value, sign included for
/// signed types: one token comes before another exactly when it is smaller.
pub proof fn lemma_i16_order_is_numeric(a: i16, b: i16)
    ensures
        (a.order() < b.order()) == (a < b),
        (a.order() == b.order()) == (a == b),
{
}

/// `i32` tokens are ordered by their numeric value, sign included for
/// signed types: one token comes before another exactly when it is smaller.
pub proof fn lemma_i32_order_is_numeric(a: i32, b: i32)
    ensures
        (a.order() < b.order()) == (a < b),
        (a.order() == b.order()) == (a == b),
{
}

/// `i64` tokens are ordered by their numeric value, sign included for
/// signed types: one token comes before another exactly when it is smaller.
pub proof fn lemma_i64_order_is_numeric(a: i64, b: i64)
    ensures
        (a.order() < b.order()) == (a < b),
        (a.order() == b.order()) == (a == b),
{
}

/// `i128` tokens are ordered by their numeric value, sign included for
/// signed types: one token comes before another exactly when it is smaller.
pub proof fn lemma_i128_order_is_numeric(a: i128, b: i128)
    ensures
        (a.order() < b.order()) == (a < b),
        (a.order() == b.order()) == (a == b),
{
}

/// `isize` tokens are ordered by their numeric value, sign included for
/// signed types: one token comes before another exactly when it is smaller.
pub proof fn lemma_isize_order_is_numeric(a: isize, b: isize)
    ensures
        (a.order() < b.order()) == (a < b),
        (a.order() == b.order()) == (a == b),
{
}

/// `char` tokens are ordered by their Unicode scalar values.
pub proof fn lemma_char_order_is_scalar(a: char, b: char)
    ensures
        (a.order() < b.order()) == ((a as u32) < (b as u32)),
        (a.order() == b.order()) == (a == b),
{
    vstd::utf8::char_u32_cast(a, a as u32);
    vstd::utf8::char_u32_cast(b, b as u32);
}

/// Lexicographic order of token sequences: a proper prefix comes first.
pub open spec fn lex_lt<Token: TrieToken>(a: Seq<Token>, b: Seq<Token>) -> bool
    decreases a.len(),
{
    if a.len() == 0 {
        b.len() > 0
    } else if b.len() == 0 {
        false
    } else if a[0].order() < b[0].order() {
        true
    } else if a[0] == b[0] {
        lex_lt(a.drop_first(), b.drop_first())
    } else {
        false
    }
}

/// A proper prefix comes first.
pub proof fn lemma_lex_prefix<Token: TrieToken>(a: Seq<Token>, b: Seq<Token>)
    requires
        a.is_prefix_of(b),
        a.len() < b.len(),
    ensures
        lex_lt(a, b),
    decreases a.len(),
{
    if a.len() > 0 {
        assert(a[0] == b[0]);
        assert(a.drop_first().is_prefix_of(b.drop_first())) by {
            assert(a.drop_first() =~= b.drop_first().subrange(0, a.drop_first().len() as int));
        }
        lemma_lex_prefix(a.drop_first(), b.drop_first());
    }
}

/// Sequences that branch off a common prefix are ordered by the tokens where
/// they branch.
pub proof fn lemma_lex_branch<Token: TrieToken>(
    p: Seq<Token>,
    x: Token,
    y: Token,
    a: Seq<Token>,
    b: Seq<Token>,
)
    requires
        p.push(x).is_prefix_of(a),
        p.push(y).is_prefix_of(b),
        x.order() < y.order(),
    ensures
        lex_lt(a, b),
    decreases p.len(),
{
    assert(a[p.len() as int] == p.push(x)[p.len() as int]);
    assert(b[p.len() as int] == p.push(y)[p.len() as int]);
    if p.len() > 0 {
        assert(a[0] == p.push(x)[0]);
        assert(b[0] == p.push(y)[0]);
        assert(p.drop_first().push(x) =~= p.push(x).drop_first());
        assert(p.drop_first().push(y) =~= p.push(y).drop_first());
        assert(p.drop_first().push(x).is_prefix_of(a.drop_first())) by {
            assert(p.drop_first().push(x) =~= a.drop_first().subrange(0, p.len() as int));
        }
        assert(p.drop_first().push(y).is_prefix_of(b.drop_first())) by {
            assert(p.drop_first().push(y) =~= b.drop_first().subrange(0, p.len() as int));
        }
        lemma_lex_branch(p.drop_first(), x, y, a.drop_first(), b.drop_first());
    }
}

/// No sequence comes before itself.
pub proof fn lemma_lex_irreflexive<Token: TrieToken>(a: Seq<Token>)
    ensures
        !lex_lt(a, a),
    decreases a.len(),
{
    if a.len() > 0 {
        lemma_lex_irreflexive(a.drop_first());
    }
}

/// The lexicographic order is transitive.
pub proof fn lemma_lex_transitive<Token: TrieToken>(a: Seq<Token>, b: Seq<Token>, c: Seq<Token>)
    requires
        lex_lt(a, b),
        lex_lt(b, c),
    ensures
        lex_lt(a, c),
    decreases a.len(),
{
    if a.len() > 0 && b.len() > 0 && c.len() > 0 {
        if a[0] == b[0] && b[0] == c[0] {
            lemma_lex_transitive(a.drop_first(), b.drop_first(), c.drop_first());
        }
    }
}

/// Of two distinct sequences, one comes before the other.
pub proof fn lemma_lex_total<Token: TrieToken>(a: Seq<Token>, b: Seq<Token>)
    requires
        a != b,
    ensures
        lex_lt(a, b) || lex_lt(b, a),
    decreases a.len(),
{
    if a.len() > 0 && b.len() > 0 {
        if a[0].order() == b[0].order() {
            Token::lemma_order_injective(a[0], b[0]);
            if a.drop_first() == b.drop_first() {
                assert(a =~= seq![a[0]] + a.drop_first());
                assert(b =~= seq![b[0]] + b.drop_first());
            }
            lemma_lex_total(a.drop_first(), b.drop_first());
        }
    } else if a.len() == 0 && b.len() == 0 {
        assert(a =~= b);
    }
}

/// `a` comes before `b` exactly when `a` is a proper prefix of `b`, or at the
/// first position where the two differ `a`'s token comes first.
pub proof fn lemma_lex_first_difference<Token: TrieToken>(a: Seq<Token>, b: Seq<Token>)
    ensures
        lex_lt(a, b) == ((a.is_prefix_of(b) && a.len() < b.len()) || exists|k: int|
            0 <= k < a.len() && k < b.len() && a.take(k) == b.take(k) && (#[trigger] a[k]).order()
                < b[k].order()),
    decreases a.len(),
{
    if a.len() > 0 && b.len() > 0 {
        let a1 = a.drop_first();
        let b1 = b.drop_first();
        if a[0].order() < b[0].order() {
            assert(a.take(0) =~= b.take(0));
            assert(0 < a.len() && 0 < b.len() && a.take(0) == b.take(0) && a[0].order() < b[0].order());
        } else if a[0] == b[0] {
            lemma_lex_first_difference(a1, b1);
            if a1.is_prefix_of(b1) && a1.len() < b1.len() {
                assert(a =~= b.subrange(0, a.len() as int)) by {
                    assert forall|i: int| 0 <= i < a.len() implies a[i] == b[i] by {
                        if i > 0 {
                            assert(a[i] == a1[i - 1]);
                            assert(b[i] == b1[i - 1]);
                        }
                    }
                }
            }
            if a.is_prefix_of(b) && a.len() < b.len() {
                assert(a1 =~= b1.subrange(0, a1.len() as int));
            }
            if exists|k: int|
                0 <= k < a1.len() && k < b1.len() && a1.take(k) == b1.take(k) && (#[trigger] a1[k]).order()
                    < b1[k].order() {
                let k = choose|k: int|
                    0 <= k < a1.len() && k < b1.len() && a1.take(k) == b1.take(k) && (#[trigger] a1[k]).order()
                        < b1[k].order();
                assert(a.take(k + 1) =~= seq![a[0]] + a1.take(k));
                assert(b.take(k + 1) =~= seq![b[0]] + b1.take(k));
                assert(a[k + 1] == a1[k]);
                assert(b[k + 1] == b1[k]);
            }
            if exists|k: int|
                0 <= k < a.len() && k < b.len() && a.take(k) == b.take(k) && (#[trigger] a[k]).order()
                    < b[k].order() {
                let k = choose|k: int|
                    0 <= k < a.len() && k < b.len() && a.take(k) == b.take(k) && (#[trigger] a[k]).order()
                        < b[k].order();
                if k == 0 {
                    assert(false);
                } else {
                    assert(a1.take(k - 1) =~= a.take(k).drop_first());
                    assert(b1.take(k - 1) =~= b.take(k).drop_first());
                    assert(a1[k - 1] == a[k]);
                    assert(b1[k - 1] == b[k]);
                }
            }
        } else {
            if a.is_prefix_of(b) {
                assert(a[0] == b[0]);
            }
            if exists|k: int|
                0 <= k < a.len() && k < b.len() && a.take(k) == b.take(k) && (#[trigger] a[k]).order()
                    < b[k].order() {
                let k = choose|k: int|
                    0 <= k < a.len() && k < b.len() && a.take(k) == b.take(k) && (#[trigger] a[k]).order()
                        < b[k].order();
                if k > 0 {
                    assert(a.take(k)[0] == b.take(k)[0]);
                }
            }
        }
    } else if a.len() == 0 {
        if b.len() > 0 {
            assert(a =~= b.subrange(0, 0));
        }
    }
}

/// Byte labels are ordered as unsigned bytes: `a` comes before `b` exactly
/// when `a` is a proper prefix of `b`, or at the first differing position
/// `a`'s byte is the smaller number (so 0x61 comes before 0xC3).
pub proof fn lemma_byte_labels_lex(a: Seq<u8>, b: Seq<u8>)
    ensures
        lex_lt(a, b) == ((a.is_prefix_of(b) && a.len() < b.len()) || exists|k: int|
            0 <= k < a.len() && k < b.len() && a.take(k) == b.take(k) && #[trigger] a[k] < b[k]),
{
    lemma_lex_first_difference(a, b);
    if exists|k: int| 0 <= k < a.len() && k < b.len() && a.take(k) == b.take(k) && #[trigger] a[k] < b[k] {
        let k = choose|k: int| 0 <= k < a.len() && k < b.len() && a.take(k) == b.take(k) && #[trigger] a[k] < b[k];
        lemma_u8_order_is_numeric(a[k], b[k]);
    }
    if exists|k: int|
        0 <= k < a.len() && k < b.len() && a.take(k) == b.take(k) && (#[trigger] a[k]).order() < b[k].order() {
        let k = choose|k: int|
            0 <= k < a.len() && k < b.len() && a.take(k) == b.take(k) && (#[trigger] a[k]).order() < b[k].order();
        lemma_u8_order_is_numeric(a[k], b[k]);
    }
}

/// Labels of signed tokens are ordered by signed value: `a` comes before `b`
/// exactly when `a` is a proper prefix of `b`, or at the first differing
/// position `a`'s token is the smaller integer (so -1 comes before 2).
pub proof fn lemma_i64_labels_lex(a: Seq<i64>, b: Seq<i64>)
    ensures
        lex_lt(a, b) == ((a.is_prefix_of(b) && a.len() < b.len()) || exists|k: int|
            0 <= k < a.len() && k < b.len() && a.take(k) == b.take(k) && #[trigger] a[k] < b[k]),
{
    lemma_lex_first_difference(a, b);
    if exists|k: int| 0 <= k < a.len() && k < b.len() && a.take(k) == b.take(k) && #[trigger] a[k] < b[k] {
        let k = choose|k: int| 0 <= k < a.len() && k < b.len() && a.take(k) == b.take(k) && #[trigger] a[k] < b[k];
        lemma_i64_order_is_numeric(a[k], b[k]);
    }
    if exists|k: int|
        0 <= k < a.len() && k < b.len() && a.take(k) == b.take(k) && (#[trigger] a[k]).order() < b[k].order() {
        let k = choose|k: int|
            0 <= k < a.len() && k < b.len() && a.take(k) == b.take(k) && (#[trigger] a[k]).order() < b[k].order();
        lemma_i64_order_is_numeric(a[k], b[k]);
    }
}

/// Level order of labels: shorter first, and labels of one length in
/// lexicographic order.
pub open spec fn level_lt<Token: TrieToken>(a: Seq<Token>, b: Seq<Token>) -> bool {
    a.len() < b.len() || (a.len() == b.len() && lex_lt(a, b))
}

/// Labels of one length keep their order when each grows by a token.
pub proof fn lemma_lex_push<Token: TrieToken>(a: Seq<Token>, b: Seq<Token>, x: Token, y: Token)
    requires
        lex_lt(a, b),
        a.len() == b.len(),
    ensures
        lex_lt(a.push(x), b.push(y)),
    decreases a.len(),
{
    if a.len() > 0 {
        assert(a.push(x)[0] == a[0]);
        assert(b.push(y)[0] == b[0]);
        if a[0] == b[0] && !(a[0].order() < b[0].order()) {
            assert(a.push(x).drop_first() =~= a.drop_first().push(x));
            assert(b.push(y).drop_first() =~= b.drop_first().push(y));
            lemma_lex_push(a.drop_first(), b.drop_first(), x, y);
        }
    }
}

/// The level order is irreflexive and asymmetric.
pub proof fn lemma_level_lt_asymmetric<Token: TrieToken>(a: Seq<Token>, b: Seq<Token>)
    ensures
        level_lt(a, b) ==> !level_lt(b, a) && a != b,
{
    if level_lt(a, b) && a.len() == b.len() {
        lemma_lex_irreflexive(a);
        if lex_lt(b, a) {
            lemma_lex_transitive(a, b, a);
        }
    }
}

/// `x` occurs in `s`.
#[verifier::opaque]
pub open spec fn occurs_in<T>(s: Seq<T>, x: T) -> bool {
    exists|j: int| 0 <= j < s.len() && s[j] == x
}

/// Two sequences, each strictly increasing in an irreflexive, asymmetric
/// relation, that hold the same elements are equal.
pub proof fn lemma_sorted_unique_by<T>(lt: spec_fn(T, T) -> bool, a: Seq<T>, b: Seq<T>)
    requires
        forall|x: T, y: T| #[trigger] lt(x, y) ==> !lt(y, x) && x != y,
        forall|i: int, j: int| 0 <= i < j < a.len() ==> lt(#[trigger] a[i], #[trigger] a[j]),
        forall|i: int, j: int| 0 <= i < j < b.len() ==> lt(#[trigger] b[i], #[trigger] b[j]),
        forall|i: int| 0 <= i < a.len() ==> #[trigger] occurs_in(b, a[i]),
        forall|j: int| 0 <= j < b.len() ==> #[trigger] occurs_in(a, b[j]),
    ensures
        a == b,
    decreases a.len(),
{
    if a.len() == 0 {
        if b.len() > 0 {
            assert(occurs_in(a, b[0]));
            reveal(occurs_in);
        }
        assert(a =~= b);
    } else {
        assert(b.len() > 0) by {
            assert(occurs_in(b, a[0]));
            reveal(occurs_in);
        }
        let ja = choose|j: int| 0 <= j < b.len() && b[j] == a[0];
        let ib = choose|i: int| 0 <= i < a.len() && a[i] == b[0];
        assert(0 <= ja < b.len() && b[ja] == a[0]) by {
            assert(occurs_in(b, a[0]));
            reveal(occurs_in);
        }
        assert(0 <= ib < a.len() && a[ib] == b[0]) by {
            assert(occurs_in(a, b[0]));
            reveal(occurs_in);
        }
        if ja > 0 {
            assert(lt(b[0], b[ja]));
            if ib > 0 {
                assert(lt(a[0], a[ib]));
            }
        }
        assert(b[0] == a[0]);
        let a1 = a.drop_first();
        let b1 = b.drop_first();
        assert forall|i: int| 0 <= i < a1.len() implies #[trigger] occurs_in(b1, a1[i]) by {
            assert(a1[i] == a[i + 1]);
            assert(occurs_in(b, a[i + 1]));
            let j = choose|j: int| 0 <= j < b.len() && b[j] == a[i + 1];
            assert(0 <= j < b.len() && b[j] == a[i + 1]) by {
                reveal(occurs_in);
            }
            if j == 0 {
                assert(lt(a[0], a[i + 1]));
            }
            assert(b1[j - 1] == a1[i]);
            reveal(occurs_in);
        }
        assert forall|j: int| 0 <= j < b1.len() implies #[trigger] occurs_in(a1, b1[j]) by {
            assert(b1[j] == b[j + 1]);
            assert(occurs_in(a, b[j + 1]));
            let i = choose|i: int| 0 <= i < a.len() && a[i] == b[j + 1];
            assert(0 <= i < a.len() && a[i] == b[j + 1]) by {
                reveal(occurs_in);
            }
            if i == 0 {
                assert(lt(b[0], b[j + 1]));
            }
            assert(a1[i - 1] == b1[j]);
            reveal(occurs_in);
        }
        assert forall|i: int, j: int| 0 <= i < j < a1.len() implies lt(#[trigger] a1[i], #[trigger] a1[j]) by {
            assert(lt(a[i + 1], a[j + 1]));
        }
        assert forall|i: int, j: int| 0 <= i < j < b1.len() implies lt(#[trigger] b1[i], #[trigger] b1[j]) by {
            assert(lt(b[i + 1], b[j + 1]));
        }
        lemma_sorted_unique_by(lt, a1, b1);
        assert(a =~= seq![a[0]] + a1);
        assert(b =~= seq![b[0]] + b1);
    }
}

} // verus!
