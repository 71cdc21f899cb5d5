//! The mathematics of a bitset of pixel indices packed into 64-bit words.
//!
//! Index `i` lives in word `i / 64` at bit `i % 64`. Everything the support
//! algebra states is stated over the SET of indices these words encode; the
//! lemmas here connect the words to that set and to its size.

use vstd::prelude::*;
use vstd::set_lib::{lemma_int_range, lemma_len_subset, set_int_range};

verus! {

broadcast use vstd::set::group_set_axioms;

/// Bit `b` of word `w` is set.
pub open spec fn word_bit(w: u64, b: u64) -> bool {
    w & (1u64 << b) != 0
}

/// Index `i` is set in the packed words.
pub open spec fn bit_at(words: Seq<u64>, i: int) -> bool {
    0 <= i && i / 64 < words.len() && word_bit(words[i / 64], (i % 64) as u64)
}

/// The set indices below `n`.
pub open spec fn members_below(words: Seq<u64>, n: int) -> Set<int> {
    Set::new(|i: int| 0 <= i < n && bit_at(words, i))
}

/// Number of set indices below `n`, counted one index at a time.
pub open spec fn count_bits(words: Seq<u64>, n: nat) -> nat
    decreases n,
{
    if n == 0 {
        0
    } else {
        count_bits(words, (n - 1) as nat) + if bit_at(words, n - 1) {
            1nat
        } else {
            0nat
        }
    }
}

/// Number of set bits of `w` among its lowest `k` positions.
pub open spec fn ones_below(w: u64, k: nat) -> nat
    decreases k,
{
    if k == 0 {
        0
    } else {
        ones_below(w, (k - 1) as nat) + if word_bit(w, (k - 1) as u64) {
            1nat
        } else {
            0nat
        }
    }
}

/// The number of ones in the binary representation of a 64-bit word.
pub open spec fn popcount(w: u64) -> nat {
    ones_below(w, 64)
}

/// The number of ones among the 64 bits of a word.
pub fn count_ones(w: u64) -> (r: u32)
    ensures
        r as nat == popcount(w),
{
    let mut r: u32 = 0;
    let mut b: u64 = 0;
    while b < 64
        invariant
            b <= 64,
            r as nat == ones_below(w, b as nat),
            r <= b,
        decreases 64 - b,
    {
        if w & (1u64 << b) != 0 {
            r = r + 1;
        }
        b = b + 1;
    }
    r
}

/// Number of words a bitset over `pixels` indices occupies.
pub open spec fn words_for(pixels: int) -> int {
    (pixels + 63) / 64
}

/// The words hold no bit at or above `pixels`, and are exactly as many as needed.
pub open spec fn canonical(words: Seq<u64>, pixels: int) -> bool {
    &&& words.len() == words_for(pixels)
    &&& forall|i: int| pixels <= i && #[trigger] bit_at(words, i) ==> false
}

/// Word-wise AND of two word sequences over their common length.
pub open spec fn and_words(a: Seq<u64>, b: Seq<u64>) -> Seq<u64> {
    let m = if a.len() <= b.len() { a.len() } else { b.len() };
    Seq::new(m, |k: int| a[k] & b[k])
}

/// Word-wise OR of two word sequences of the first one's length.
pub open spec fn or_words(a: Seq<u64>, b: Seq<u64>) -> Seq<u64> {
    Seq::new(a.len(), |k: int| if k < b.len() { a[k] | b[k] } else { a[k] })
}

/// Setting bit `b` of a word sets exactly that bit.
pub proof fn lemma_set_bit(x: u64, b: u64, c: u64)
    requires
        b < 64,
        c < 64,
    ensures
        word_bit(x | (1u64 << b), c) == (word_bit(x, c) || c == b),
{
    assert(((x | (1u64 << b)) & (1u64 << c) != 0) == ((x & (1u64 << c) != 0) || c == b))
        by (bit_vector)
        requires
            b < 64,
            c < 64,
    ;
}

/// A bit of an AND is set exactly when it is set in both words.
pub proof fn lemma_and_bit(x: u64, y: u64, c: u64)
    requires
        c < 64,
    ensures
        word_bit(x & y, c) == (word_bit(x, c) && word_bit(y, c)),
{
    assert(((x & y) & (1u64 << c) != 0) == ((x & (1u64 << c) != 0) && (y & (1u64 << c) != 0)))
        by (bit_vector)
        requires
            c < 64,
    ;
}

/// A bit of an OR is set exactly when it is set in either word.
pub proof fn lemma_or_bit(x: u64, y: u64, c: u64)
    requires
        c < 64,
    ensures
        word_bit(x | y, c) == (word_bit(x, c) || word_bit(y, c)),
{
    assert(((x | y) & (1u64 << c) != 0) == ((x & (1u64 << c) != 0) || (y & (1u64 << c) != 0)))
        by (bit_vector)
        requires
            c < 64,
    ;
}

/// The zero word has no bit set.
pub proof fn lemma_zero_bit(c: u64)
    requires
        c < 64,
    ensures
        !word_bit(0u64, c),
{
    assert((0u64 & (1u64 << c)) == 0) by (bit_vector);
}

/// Two words that agree on every bit are equal.
pub proof fn lemma_word_ext(x: u64, y: u64)
    requires
        word_bit(x, 0) == word_bit(y, 0),
        word_bit(x, 1) == word_bit(y, 1),
        word_bit(x, 2) == word_bit(y, 2),
        word_bit(x, 3) == word_bit(y, 3),
        word_bit(x, 4) == word_bit(y, 4),
        word_bit(x, 5) == word_bit(y, 5),
        word_bit(x, 6) == word_bit(y, 6),
        word_bit(x, 7) == word_bit(y, 7),
        word_bit(x, 8) == word_bit(y, 8),
        word_bit(x, 9) == word_bit(y, 9),
        word_bit(x, 10) == word_bit(y, 10),
        word_bit(x, 11) == word_bit(y, 11),
        word_bit(x, 12) == word_bit(y, 12),
        word_bit(x, 13) == word_bit(y, 13),
        word_bit(x, 14) == word_bit(y, 14),
        word_bit(x, 15) == word_bit(y, 15),
        word_bit(x, 16) == word_bit(y, 16),
        word_bit(x, 17) == word_bit(y, 17),
        word_bit(x, 18) == word_bit(y, 18),
        word_bit(x, 19) == word_bit(y, 19),
        word_bit(x, 20) == word_bit(y, 20),
        word_bit(x, 21) == word_bit(y, 21),
        word_bit(x, 22) == word_bit(y, 22),
        word_bit(x, 23) == word_bit(y, 23),
        word_bit(x, 24) == word_bit(y, 24),
        word_bit(x, 25) == word_bit(y, 25),
        word_bit(x, 26) == word_bit(y, 26),
        word_bit(x, 27) == word_bit(y, 27),
        word_bit(x, 28) == word_bit(y, 28),
        word_bit(x, 29) == word_bit(y, 29),
        word_bit(x, 30) == word_bit(y, 30),
        word_bit(x, 31) == word_bit(y, 31),
        word_bit(x, 32) == word_bit(y, 32),
        word_bit(x, 33) == word_bit(y, 33),
        word_bit(x, 34) == word_bit(y, 34),
        word_bit(x, 35) == word_bit(y, 35),
        word_bit(x, 36) == word_bit(y, 36),
        word_bit(x, 37) == word_bit(y, 37),
        word_bit(x, 38) == word_bit(y, 38),
        word_bit(x, 39) == word_bit(y, 39),
        word_bit(x, 40) == word_bit(y, 40),
        word_bit(x, 41) == word_bit(y, 41),
        word_bit(x, 42) == word_bit(y, 42),
        word_bit(x, 43) == word_bit(y, 43),
        word_bit(x, 44) == word_bit(y, 44),
        word_bit(x, 45) == word_bit(y, 45),
        word_bit(x, 46) == word_bit(y, 46),
        word_bit(x, 47) == word_bit(y, 47),
        word_bit(x, 48) == word_bit(y, 48),
        word_bit(x, 49) == word_bit(y, 49),
        word_bit(x, 50) == word_bit(y, 50),
        word_bit(x, 51) == word_bit(y, 51),
        word_bit(x, 52) == word_bit(y, 52),
        word_bit(x, 53) == word_bit(y, 53),
        word_bit(x, 54) == word_bit(y, 54),
        word_bit(x, 55) == word_bit(y, 55),
        word_bit(x, 56) == word_bit(y, 56),
        word_bit(x, 57) == word_bit(y, 57),
        word_bit(x, 58) == word_bit(y, 58),
        word_bit(x, 59) == word_bit(y, 59),
        word_bit(x, 60) == word_bit(y, 60),
        word_bit(x, 61) == word_bit(y, 61),
        word_bit(x, 62) == word_bit(y, 62),
        word_bit(x, 63) == word_bit(y, 63),
    ensures
        x == y,
{
    assert(x == y) by (bit_vector)
        requires
            word_bit(x, 0) == word_bit(y, 0),
        word_bit(x, 1) == word_bit(y, 1),
        word_bit(x, 2) == word_bit(y, 2),
        word_bit(x, 3) == word_bit(y, 3),
        word_bit(x, 4) == word_bit(y, 4),
        word_bit(x, 5) == word_bit(y, 5),
        word_bit(x, 6) == word_bit(y, 6),
        word_bit(x, 7) == word_bit(y, 7),
        word_bit(x, 8) == word_bit(y, 8),
        word_bit(x, 9) == word_bit(y, 9),
        word_bit(x, 10) == word_bit(y, 10),
        word_bit(x, 11) == word_bit(y, 11),
        word_bit(x, 12) == word_bit(y, 12),
        word_bit(x, 13) == word_bit(y, 13),
        word_bit(x, 14) == word_bit(y, 14),
        word_bit(x, 15) == word_bit(y, 15),
        word_bit(x, 16) == word_bit(y, 16),
        word_bit(x, 17) == word_bit(y, 17),
        word_bit(x, 18) == word_bit(y, 18),
        word_bit(x, 19) == word_bit(y, 19),
        word_bit(x, 20) == word_bit(y, 20),
        word_bit(x, 21) == word_bit(y, 21),
        word_bit(x, 22) == word_bit(y, 22),
        word_bit(x, 23) == word_bit(y, 23),
        word_bit(x, 24) == word_bit(y, 24),
        word_bit(x, 25) == word_bit(y, 25),
        word_bit(x, 26) == word_bit(y, 26),
        word_bit(x, 27) == word_bit(y, 27),
        word_bit(x, 28) == word_bit(y, 28),
        word_bit(x, 29) == word_bit(y, 29),
        word_bit(x, 30) == word_bit(y, 30),
        word_bit(x, 31) == word_bit(y, 31),
        word_bit(x, 32) == word_bit(y, 32),
        word_bit(x, 33) == word_bit(y, 33),
        word_bit(x, 34) == word_bit(y, 34),
        word_bit(x, 35) == word_bit(y, 35),
        word_bit(x, 36) == word_bit(y, 36),
        word_bit(x, 37) == word_bit(y, 37),
        word_bit(x, 38) == word_bit(y, 38),
        word_bit(x, 39) == word_bit(y, 39),
        word_bit(x, 40) == word_bit(y, 40),
        word_bit(x, 41) == word_bit(y, 41),
        word_bit(x, 42) == word_bit(y, 42),
        word_bit(x, 43) == word_bit(y, 43),
        word_bit(x, 44) == word_bit(y, 44),
        word_bit(x, 45) == word_bit(y, 45),
        word_bit(x, 46) == word_bit(y, 46),
        word_bit(x, 47) == word_bit(y, 47),
        word_bit(x, 48) == word_bit(y, 48),
        word_bit(x, 49) == word_bit(y, 49),
        word_bit(x, 50) == word_bit(y, 50),
        word_bit(x, 51) == word_bit(y, 51),
        word_bit(x, 52) == word_bit(y, 52),
        word_bit(x, 53) == word_bit(y, 53),
        word_bit(x, 54) == word_bit(y, 54),
        word_bit(x, 55) == word_bit(y, 55),
        word_bit(x, 56) == word_bit(y, 56),
        word_bit(x, 57) == word_bit(y, 57),
        word_bit(x, 58) == word_bit(y, 58),
        word_bit(x, 59) == word_bit(y, 59),
        word_bit(x, 60) == word_bit(y, 60),
        word_bit(x, 61) == word_bit(y, 61),
        word_bit(x, 62) == word_bit(y, 62),
        word_bit(x, 63) == word_bit(y, 63),
    ;
}

/// Two words that agree on every bit position below 64 are equal.
pub proof fn lemma_word_ext_forall(x: u64, y: u64)
    requires
        forall|b: u64| b < 64 ==> #[trigger] word_bit(x, b) == word_bit(y, b),
    ensures
        x == y,
{
    lemma_word_ext(x, y);
}

/// The position of index `i` in the words.
pub proof fn lemma_index_split(i: int)
    requires
        0 <= i,
    ensures
        i == 64 * (i / 64) + i % 64,
        0 <= i % 64 < 64,
        0 <= i / 64,
{
}

/// The index at word `k`, bit `b`.
pub proof fn lemma_index_join(k: int, b: int)
    requires
        0 <= k,
        0 <= b < 64,
    ensures
        (64 * k + b) / 64 == k,
        (64 * k + b) % 64 == b,
{
}

/// The set of indices below `n` is finite and its size is the running count.
pub proof fn lemma_members_len(words: Seq<u64>, n: nat)
    ensures
        members_below(words, n as int).finite(),
        members_below(words, n as int).len() == count_bits(words, n),
    decreases n,
{
    if n == 0 {
        assert(members_below(words, 0) =~= Set::<int>::empty());
    } else {
        let m = (n - 1) as nat;
        lemma_members_len(words, m);
        if bit_at(words, m as int) {
            assert(members_below(words, n as int) =~= members_below(words, m as int).insert(
                m as int,
            ));
        } else {
            assert(members_below(words, n as int) =~= members_below(words, m as int));
        }
    }
}

/// Counting a whole word at a time: the indices of word `k` contribute its ones.
pub proof fn lemma_count_word(words: Seq<u64>, k: nat, b: nat)
    requires
        k < words.len(),
        b <= 64,
    ensures
        count_bits(words, 64 * k + b) == count_bits(words, 64 * k) + ones_below(words[k as int], b),
    decreases b,
{
    if b > 0 {
        lemma_count_word(words, k, (b - 1) as nat);
        lemma_index_join(k as int, b - 1);
        assert(64 * k + b - 1 == (64 * k + (b - 1)) as nat);
    }
}

/// A set over a range of `pixels` indices has at most `pixels` members.
pub proof fn lemma_members_bounded(words: Seq<u64>, pixels: int)
    requires
        0 <= pixels,
    ensures
        members_below(words, pixels).finite(),
        members_below(words, pixels).len() <= pixels,
{
    lemma_int_range(0, pixels);
    assert(members_below(words, pixels).subset_of(set_int_range(0, pixels)));
    lemma_len_subset(members_below(words, pixels), set_int_range(0, pixels));
}

/// The words of a bitset over `pixels` indices cover at least the `pixels` positions.
pub proof fn lemma_words_cover(pixels: int)
    requires
        0 <= pixels,
    ensures
        pixels <= 64 * words_for(pixels),
        64 * words_for(pixels) < pixels + 64,
{
}

/// Bits of the word-wise AND.
pub proof fn lemma_and_words_bit(a: Seq<u64>, b: Seq<u64>, i: int)
    requires
        0 <= i,
    ensures
        bit_at(and_words(a, b), i) == (bit_at(a, i) && bit_at(b, i)),
{
    let m = and_words(a, b).len();
    if i / 64 < m {
        lemma_index_split(i);
        lemma_and_bit(a[i / 64], b[i / 64], (i % 64) as u64);
    }
}

/// Bits of the word-wise OR.
pub proof fn lemma_or_words_bit(a: Seq<u64>, b: Seq<u64>, i: int)
    requires
        0 <= i,
        b.len() <= a.len(),
    ensures
        bit_at(or_words(a, b), i) == (bit_at(a, i) || bit_at(b, i)),
{
    if i / 64 < a.len() {
        lemma_index_split(i);
        if i / 64 < b.len() {
            lemma_or_bit(a[i / 64], b[i / 64], (i % 64) as u64);
        }
    }
}

/// Two canonical word sequences over the same range that encode the same set are equal.
pub proof fn lemma_canonical_unique(a: Seq<u64>, b: Seq<u64>, pixels: int)
    requires
        0 <= pixels,
        canonical(a, pixels),
        canonical(b, pixels),
        members_below(a, pixels) == members_below(b, pixels),
    ensures
        a == b,
{
    assert forall|k: int| 0 <= k < a.len() implies a[k] == b[k] by {
        assert forall|c: u64| c < 64 implies #[trigger] word_bit(a[k], c) == word_bit(b[k], c) by {
            let i = 64 * k + c;
            lemma_index_join(k, c as int);
            assert(bit_at(a, i) == word_bit(a[k], c));
            assert(bit_at(b, i) == word_bit(b[k], c));
            if i < pixels {
                assert(0 <= i < pixels);
                assert(members_below(a, pixels).contains(i) == bit_at(a, i));
                assert(members_below(b, pixels).contains(i) == bit_at(b, i));
            } else {
                assert(!bit_at(a, i));
                assert(!bit_at(b, i));
            }
        }
        lemma_word_ext_forall(a[k], b[k]);
    }
    assert(a =~= b);
}

} // verus!
