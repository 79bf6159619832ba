//! Fixed-width bitsets packed into `u64` words.
//!
//! Sized for boards up to `MAX_ROWS` × `MAX_COLS` boxes (enough for classic
//! play and small-board perfect solvers).
use vstd::prelude::*;

verus! {

/// Number of `u64` words for the edge bitboard (256 bits).
pub const EDGE_WORDS: usize = 4;

/// Number of `u64` words for the box bitboard (128 bits).
pub const BOX_WORDS: usize = 2;

/// Bit `b` of the word `w`.
pub open spec fn word_bit(w: u64, b: u64) -> bool {
    (w >> b) & 1u64 == 1u64
}

/// Number of set bits of `w` among positions `0..k`.
pub open spec fn word_count_below(w: u64, k: nat) -> nat
    decreases k,
{
    if k == 0 {
        0
    } else {
        word_count_below(w, (k - 1) as nat) + if k - 1 < 64 && word_bit(w, (k - 1) as u64) {
            1nat
        } else {
            0nat
        }
    }
}

/// Bit `i` of a little-endian sequence of words (bit `i % 64` of word `i / 64`).
pub open spec fn words_bit(words: Seq<u64>, i: int) -> bool {
    0 <= i < words.len() * 64 && word_bit(words[i / 64], (i % 64) as u64)
}

/// Population count of a word, peeling the low bit off.
spec fn popcount(x: u64) -> nat
    decreases x,
{
    if x == 0 {
        0
    } else {
        proof {
            lemma_shr1_smaller(x);
        }
        (x & 1) as nat + popcount(x >> 1)
    }
}

proof fn lemma_shr1_smaller(x: u64)
    requires
        x != 0,
    ensures
        x >> 1 < x,
{
    assert(x != 0 ==> x >> 1u64 < x) by (bit_vector);
}

proof fn lemma_or_bit(x: u64, b: u64, c: u64)
    requires
        b < 64,
        c < 64,
    ensures
        word_bit(x | (1u64 << b), c) == (word_bit(x, c) || c == b),
{
    assert(word_bit(x | (1u64 << b), c) == (word_bit(x, c) || c == b)) by (bit_vector)
        requires
            b < 64,
            c < 64,
    ;
}

proof fn lemma_and_not_bit(x: u64, b: u64, c: u64)
    requires
        b < 64,
        c < 64,
    ensures
        word_bit(x & !(1u64 << b), c) == (word_bit(x, c) && c != b),
{
    assert(word_bit(x & !(1u64 << b), c) == (word_bit(x, c) && c != b)) by (bit_vector)
        requires
            b < 64,
            c < 64,
    ;
}

proof fn lemma_xor_bit(x: u64, b: u64, c: u64)
    requires
        b < 64,
        c < 64,
    ensures
        word_bit(x ^ (1u64 << b), c) == (if c == b {
            !word_bit(x, c)
        } else {
            word_bit(x, c)
        }),
{
    assert(word_bit(x ^ (1u64 << b), c) == (if c == b {
        !word_bit(x, c)
    } else {
        word_bit(x, c)
    })) by (bit_vector)
        requires
            b < 64,
            c < 64,
    ;
}

/// A nonzero word has a set bit at or above `k` when its shift by `k` is nonzero.
proof fn lemma_find_bit(d: u64, k: u64) -> (j: u64)
    requires
        k < 64,
        d >> k != 0,
    ensures
        k <= j < 64,
        word_bit(d, j),
    decreases 64 - k,
{
    if (d >> k) & 1 == 1 {
        k
    } else {
        let k1 = (k + 1) as u64;
        assert(((d >> k) & 1u64 != 1u64 && d >> k != 0u64 && k < 64u64 && k1 == k + 1) ==> (k < 63u64
            && d >> k1 != 0u64)) by (bit_vector);
        lemma_find_bit(d, k1)
    }
}

/// Two words with the same bits are equal.
pub proof fn lemma_word_ext(x: u64, y: u64)
    requires
        forall|j: u64| j < 64 ==> word_bit(x, j) == word_bit(y, j),
    ensures
        x == y,
{
    if x != y {
        let d = x ^ y;
        assert(x != y ==> (x ^ y) >> 0u64 != 0u64) by (bit_vector);
        let j = lemma_find_bit(d, 0);
        assert(word_bit(x ^ y, j) ==> word_bit(x, j) != word_bit(y, j)) by (bit_vector);
        assert(word_bit(x, j) == word_bit(y, j));
    }
}

/// The recursive population count agrees with the bit-by-bit count.
proof fn lemma_popcount(x: u64)
    ensures
        popcount(x) == word_count_below(x, 64),
    decreases x,
{
    if x == 0 {
        lemma_count_zero(0, 64);
    } else {
        lemma_shr1_smaller(x);
        lemma_popcount(x >> 1);
        lemma_count_shift(x, 63);
        // Bit 63 of `x >> 1` is clear.
        assert(!word_bit(x >> 1u64, 63u64)) by (bit_vector);
        assert(word_count_below(x >> 1, 64) == word_count_below(x >> 1, 63));
        assert((x & 1u64) == 1u64 <==> word_bit(x, 0u64)) by (bit_vector);
        assert((x & 1u64) == 0u64 || (x & 1u64) == 1u64) by (bit_vector);
        assert(word_count_below(x, 0) == 0);
        assert(word_count_below(x, 1) == word_count_below(x, 0) + if word_bit(x, 0) {
            1nat
        } else {
            0nat
        });
        if word_bit(x, 0) {
            assert((x & 1) == 1);
        } else {
            assert((x & 1) == 0);
        }
        assert(word_count_below(x, 1) == (x & 1) as nat);
        assert(popcount(x) == (x & 1) as nat + popcount(x >> 1));
    }
}

proof fn lemma_word_count_le(x: u64, k: nat)
    ensures
        word_count_below(x, k) <= k,
    decreases k,
{
    if k > 0 {
        lemma_word_count_le(x, (k - 1) as nat);
    }
}

proof fn lemma_count_zero(x: u64, k: nat)
    requires
        x == 0,
    ensures
        word_count_below(x, k) == 0,
    decreases k,
{
    if k > 0 {
        lemma_count_zero(x, (k - 1) as nat);
        let b = (k - 1) as u64;
        assert(!word_bit(0u64, b)) by (bit_vector);
    }
}

/// Counting `k + 1` low bits of `x` is bit 0 plus counting `k` low bits of `x >> 1`.
proof fn lemma_count_shift(x: u64, k: nat)
    requires
        k <= 63,
    ensures
        word_count_below(x, k + 1) == word_count_below(x, 1) + word_count_below(x >> 1, k),
    decreases k,
{
    if k > 0 {
        lemma_count_shift(x, (k - 1) as nat);
        let c = (k - 1) as u64;
        let c1 = k as u64;
        assert((c < 63 && c1 == c + 1) ==> word_bit(x >> 1u64, c) == word_bit(x, c1)) by (bit_vector);
    }
}

/// Compact bitset used for drawn edges or claimed boxes.
#[derive(Clone, Copy, PartialEq, Eq, Hash, Debug)]
pub struct Bitboard<const N: usize> {
    words: [u64; N],
}

/// Drawn-edge set (256 bits).
pub type EdgeBits = Bitboard<EDGE_WORDS>;

/// Claimed-box set (128 bits).
pub type BoxBits = Bitboard<BOX_WORDS>;

impl<const N: usize> View for Bitboard<N> {
    type V = Set<int>;

    /// The indices of the set bits.
    open spec fn view(&self) -> Set<int> {
        Set::new(|i: int| words_bit(self.words_seq(), i))
    }
}

impl<const N: usize> Default for Bitboard<N> {
    fn default() -> (r: Self)
        ensures
            r@ == Set::<int>::empty(),
    {
        Self::new()
    }
}

impl<const N: usize> Bitboard<N> {
    /// The packed words, low bits first.
    pub closed spec fn words_seq(self) -> Seq<u64> {
        self.words@
    }

    /// Number of set bits among indices `0..k`.
    pub open spec fn count_below(self, k: nat) -> nat
        decreases k,
    {
        if k == 0 {
            0
        } else {
            self.count_below((k - 1) as nat) + if self@.contains(k - 1) {
                1nat
            } else {
                0nat
            }
        }
    }

    /// Number of set bits.
    pub open spec fn count(self) -> nat {
        self.count_below((N * 64) as nat)
    }

    /// Bitboards with the same set of bits are equal.
    pub proof fn lemma_ext(a: Self, b: Self)
        requires
            a@ =~= b@,
        ensures
            a == b,
    {
        assert forall|w: int| 0 <= w < N implies a.words[w] == b.words[w] by {
            assert forall|j: u64| j < 64 implies word_bit(a.words[w], j) == word_bit(
                b.words[w],
                j,
            ) by {
                let i = w * 64 + j;
                assert(i / 64 == w && i % 64 == j as int) by (nonlinear_arith)
                    requires
                        i == w * 64 + j,
                        0 <= j < 64,
                ;
                assert(0 <= i < N * 64) by (nonlinear_arith)
                    requires
                        i == w * 64 + j,
                        0 <= j < 64,
                        0 <= w < N,
                ;
                assert(a@.contains(i) == b@.contains(i));
            }
            lemma_word_ext(a.words[w], b.words[w]);
        }
        assert(a.words =~= b.words);
    }

    /// Every set bit is below the capacity.
    pub proof fn lemma_bounded(self)
        ensures
            forall|i: int| self@.contains(i) ==> 0 <= i < N * 64,
    {
    }

    /// Inserting an absent bit below `k` adds one to the count below `k`.
    pub proof fn lemma_count_insert(a: Self, b: Self, i: int, k: nat)
        requires
            !a@.contains(i),
            b@ == a@.insert(i),
        ensures
            b.count_below(k) == a.count_below(k) + if 0 <= i < k {
                1nat
            } else {
                0nat
            },
        decreases k,
    {
        if k > 0 {
            Self::lemma_count_insert(a, b, i, (k - 1) as nat);
        }
    }

    /// Two bitboards with the same bits below `k` have the same count below `k`.
    pub proof fn lemma_count_same(a: Self, b: Self, k: nat)
        requires
            forall|i: int| 0 <= i < k ==> (a@.contains(i) <==> b@.contains(i)),
        ensures
            a.count_below(k) == b.count_below(k),
        decreases k,
    {
        if k > 0 {
            Self::lemma_count_same(a, b, (k - 1) as nat);
        }
    }

    /// The count below `k` is at most `k`, and equals `k` exactly when all of `0..k` is set.
    pub proof fn lemma_count_full(self, k: nat)
        ensures
            self.count_below(k) <= k,
            self.count_below(k) == k <==> forall|i: int| 0 <= i < k ==> self@.contains(i),
        decreases k,
    {
        if k > 0 {
            self.lemma_count_full((k - 1) as nat);
        }
    }

    /// Bits at or above `k` do not change the count once none are set there.
    pub proof fn lemma_count_stable(self, k: nat, m: nat)
        requires
            k <= m,
            forall|i: int| k <= i < m ==> !self@.contains(i),
        ensures
            self.count_below(m) == self.count_below(k),
        decreases m,
    {
        if m > k {
            self.lemma_count_stable(k, (m - 1) as nat);
        }
    }

    /// Counting word `w` bit by bit.
    proof fn lemma_count_word(self, w: int, k: nat)
        requires
            0 <= w < N,
            k <= 64,
        ensures
            self.count_below((w * 64 + k) as nat) == self.count_below((w * 64) as nat)
                + word_count_below(self.words[w], k),
        decreases k,
    {
        if k > 0 {
            self.lemma_count_word(w, (k - 1) as nat);
            let i = w * 64 + k - 1;
            assert(i / 64 == w && i % 64 == k - 1) by (nonlinear_arith)
                requires
                    i == w * 64 + k - 1,
                    1 <= k <= 64,
            ;
            assert(0 <= i < N * 64) by (nonlinear_arith)
                requires
                    i == w * 64 + k - 1,
                    1 <= k <= 64,
                    0 <= w < N,
            ;
            assert(self@.contains(i) == word_bit(self.words[w], (k - 1) as u64));
        }
    }

    #[inline]
    pub fn new() -> (r: Self)
        ensures
            r@ == Set::<int>::empty(),
    {
        let r = Self { words: [0u64; N] };
        assert forall|i: int| !r@.contains(i) by {
            if 0 <= i < N * 64 {
                let b = (i % 64) as u64;
                assert(r.words[i / 64] == 0);
                assert(!word_bit(0u64, b)) by (bit_vector);
            }
        }
        assert(r@ =~= Set::<int>::empty());
        r
    }

    #[inline]
    pub fn capacity_bits() -> (r: usize)
        requires
            N * 64 <= usize::MAX,
        ensures
            r == N * 64,
    {
        N * 64
    }

    #[inline]
    pub fn get(self, index: u16) -> (b: bool)
        requires
            index < N * 64,
        ensures
            b == self@.contains(index as int),
    {
        let i = index as usize;
        let word = i / 64;
        let bit = (i % 64) as u64;
        (self.words[word] >> bit) & 1 == 1
    }

    #[inline]
    pub fn set(&mut self, index: u16)
        requires
            index < N * 64,
        ensures
            final(self)@ == old(self)@.insert(index as int),
        no_unwind
    {
        let i = index as usize;
        let word = i / 64;
        let bit = (i % 64) as u64;
        let ghost before = *self;
        self.words[word] = self.words[word] | (1u64 << bit);
        proof {
            assert forall|j: int| #[trigger] self@.contains(j) == before@.insert(index as int).contains(
                j,
            ) by {
                if 0 <= j < N * 64 {
                    if j / 64 == word as int {
                        lemma_or_bit(before.words[word as int], bit, (j % 64) as u64);
                    }
                }
            }
            assert(self@ =~= before@.insert(index as int));
        }
    }

    #[inline]
    pub fn clear(&mut self, index: u16)
        requires
            index < N * 64,
        ensures
            final(self)@ == old(self)@.remove(index as int),
        no_unwind
    {
        let i = index as usize;
        let word = i / 64;
        let bit = (i % 64) as u64;
        let ghost before = *self;
        self.words[word] = self.words[word] & !(1u64 << bit);
        proof {
            assert forall|j: int| #[trigger] self@.contains(j) == before@.remove(index as int).contains(
                j,
            ) by {
                if 0 <= j < N * 64 {
                    if j / 64 == word as int {
                        lemma_and_not_bit(before.words[word as int], bit, (j % 64) as u64);
                    }
                }
            }
            assert(self@ =~= before@.remove(index as int));
        }
    }

    #[inline]
    pub fn toggle(&mut self, index: u16)
        requires
            index < N * 64,
        ensures
            final(self)@ == (if old(self)@.contains(index as int) {
                old(self)@.remove(index as int)
            } else {
                old(self)@.insert(index as int)
            }),
        no_unwind
    {
        let i = index as usize;
        let word = i / 64;
        let bit = (i % 64) as u64;
        let ghost before = *self;
        self.words[word] = self.words[word] ^ (1u64 << bit);
        proof {
            let target = if before@.contains(index as int) {
                before@.remove(index as int)
            } else {
                before@.insert(index as int)
            };
            assert forall|j: int| #[trigger] self@.contains(j) == target.contains(j) by {
                if 0 <= j < N * 64 {
                    if j / 64 == word as int {
                        lemma_xor_bit(before.words[word as int], bit, (j % 64) as u64);
                    }
                }
            }
            assert(self@ =~= target);
        }
    }

    #[inline]
    pub fn count_ones(self) -> (r: u32)
        requires
            N * 64 <= u32::MAX,
        ensures
            r == self.count(),
    {
        let mut total: u32 = 0;
        let mut w: usize = 0;
        proof {
            self.lemma_count_full((N * 64) as nat);
        }
        while w < N
            invariant
                w <= N,
                N * 64 <= u32::MAX,
                total == self.count_below((w * 64) as nat),
            decreases N - w,
        {
            let mut x = self.words[w];
            let mut c: u32 = 0;
            proof {
                lemma_popcount(x);
                lemma_word_count_le(x, 64);
                self.lemma_count_word(w as int, 64);
                self.lemma_count_full(((w + 1) * 64) as nat);
                assert(((w + 1) * 64) <= N * 64) by (nonlinear_arith)
                    requires
                        w < N,
                ;
            }
            while x != 0
                invariant
                    w < N,
                    c + popcount(x) == popcount(self.words[w as int]),
                    popcount(self.words[w as int]) <= 64,
                decreases x,
            {
                proof {
                    lemma_shr1_smaller(x);
                }
                assert((x & 1u64) <= 1u64) by (bit_vector);
                c = c + (x & 1) as u32;
                x = x >> 1;
            }
            total = total + c;
            w = w + 1;
        }
        total
    }

    #[inline]
    pub fn is_empty(self) -> (b: bool)
        ensures
            b == (self@ =~= Set::<int>::empty()),
    {
        let mut w: usize = 0;
        while w < N
            invariant
                w <= N,
                forall|v: int| 0 <= v < w ==> self.words[v] == 0,
            decreases N - w,
        {
            if self.words[w] != 0 {
                proof {
                    let d = self.words[w as int];
                    assert(d != 0 ==> d >> 0u64 != 0u64) by (bit_vector);
                    let j = lemma_find_bit(d, 0);
                    let i = w * 64 + j;
                    assert(i / 64 == w && i % 64 == j as int) by (nonlinear_arith)
                        requires
                            i == w * 64 + j,
                            0 <= j < 64,
                    ;
                    assert(0 <= i < N * 64) by (nonlinear_arith)
                        requires
                            i == w * 64 + j,
                            0 <= j < 64,
                            w < N,
                    ;
                    assert(self@.contains(i));
                }
                return false;
            }
            w = w + 1;
        }
        proof {
            assert forall|i: int| !self@.contains(i) by {
                if 0 <= i < N * 64 {
                    let b = (i % 64) as u64;
                    assert(self.words[i / 64] == 0);
                    assert(!word_bit(0u64, b)) by (bit_vector);
                }
            }
        }
        true
    }

    /// Whether both bitboards hold the same bits (the derived `==`).
    pub(crate) fn same_bits(&self, other: &Self) -> (r: bool)
        ensures
            r == (self@ == other@),
    {
        let mut w: usize = 0;
        while w < N
            invariant
                w <= N,
                forall|k: int| 0 <= k < w ==> self.words[k] == other.words[k],
            decreases N - w,
        {
            if self.words[w] != other.words[w] {
                proof {
                    if self@ == other@ {
                        Self::lemma_ext(*self, *other);
                    }
                }
                return false;
            }
            w += 1;
        }
        proof {
            assert(self.words@ =~= other.words@);
            assert(self@ =~= other@);
        }
        true
    }

    #[inline]
    pub fn words(&self) -> (r: &[u64; N])
        ensures
            r@ == self.words_seq(),
    {
        &self.words
    }

    #[inline]
    pub fn from_words(words: [u64; N]) -> (r: Self)
        ensures
            r.words_seq() == words@,
    {
        Self { words }
    }
}

} // verus!
