//! Rows of a GF(2) matrix packed 64 columns to a machine word.

use crate::symbol_slab::lemma_block_in_bounds;
use vstd::prelude::*;
use vstd::std_specs::bits::{axiom_u64_trailing_zeros, u64_trailing_zeros};

verus! {

/// Bit `k` (counted from the least significant) of `w`.
pub open spec fn bit_of(w: u64, k: u64) -> bool {
    (w >> k) & 1u64 == 1u64
}

/// The number of set bits among the lowest `n` bits of `w`.
pub open spec fn popcount_prefix(w: u64, n: nat) -> nat
    decreases n,
{
    if n == 0 {
        0
    } else {
        popcount_prefix(w, (n - 1) as nat) + if bit_of(w, (n - 1) as u64) {
            1nat
        } else {
            0nat
        }
    }
}

/// `u64::count_ones`: the number of ones in the binary representation of `w`.
#[verifier::external_body]
fn count_ones(w: u64) -> (r: u32)
    ensures
        r == popcount_prefix(w, 64),
{
    w.count_ones()
}

pub proof fn lemma_bit_ops(a: u64, b: u64, j: u64)
    by (bit_vector)
    requires
        j < 64,
    ensures
        bit_of(a | b, j) == (bit_of(a, j) || bit_of(b, j)),
        bit_of(a & b, j) == (bit_of(a, j) && bit_of(b, j)),
        bit_of(a ^ b, j) == (bit_of(a, j) != bit_of(b, j)),
        bit_of(!a, j) == !bit_of(a, j),
        bit_of(0u64, j) == false,
        bit_of(0xffff_ffff_ffff_ffffu64, j),
{
}

pub proof fn lemma_bit_masks(k: u64, j: u64)
    by (bit_vector)
    requires
        k < 64,
        j < 64,
    ensures
        bit_of(1u64 << k, j) == (j == k),
        bit_of(0xffff_ffff_ffff_ffffu64 << k, j) == (j >= k),
{
}

/// A word is zero exactly when none of its 64 bits is set.
pub proof fn lemma_word_zero(w: u64)
    ensures
        w == 0 ==> forall|j: u64| j < 64 ==> !#[trigger] bit_of(w, j),
        w != 0 ==> u64_trailing_zeros(w) < 64 && bit_of(w, u64_trailing_zeros(w) as u64)
            && forall|j: u64| j < u64_trailing_zeros(w) ==> !#[trigger] bit_of(w, j),
{
    axiom_u64_trailing_zeros(w);
    assert forall|j: u64| j < 64 && w == 0 implies !#[trigger] bit_of(w, j) by {
        lemma_bit_ops(w, w, j);
    }
    assert forall|j: u64| j < u64_trailing_zeros(w) implies !#[trigger] bit_of(w, j) by {
        assert((w >> j) & 1u64 == 0u64);
    }
}

/// The number of set bits of `w` at positions `lo <= j < n`.
pub open spec fn popcount_range(w: u64, lo: nat, n: nat) -> nat
    decreases n,
{
    if n <= lo {
        0
    } else {
        popcount_range(w, lo, (n - 1) as nat) + if bit_of(w, (n - 1) as u64) {
            1nat
        } else {
            0nat
        }
    }
}

/// Masking off the bits below `lo` keeps exactly the count of the bits at or above `lo`.
pub proof fn lemma_popcount_masked(w: u64, lo: u64, n: nat)
    requires
        lo < 64,
        n <= 64,
    ensures
        popcount_prefix(w & (u64::MAX << lo), n) == popcount_range(w, lo as nat, n),
    decreases n,
{
    if n > 0 {
        lemma_popcount_masked(w, lo, (n - 1) as nat);
        let j = (n - 1) as u64;
        lemma_bit_ops(w, u64::MAX << lo, j);
        lemma_bit_masks(lo, j);
    }
}

pub proof fn lemma_popcount_range_zero(w: u64, n: nat)
    ensures
        popcount_range(w, 0, n) == popcount_prefix(w, n),
    decreases n,
{
    if n > 0 {
        lemma_popcount_range_zero(w, (n - 1) as nat);
    }
}

/// Rows of a binary matrix, each stored as `words_per_row` little-endian 64-bit words.
#[derive(Debug, PartialEq, Eq)]
pub struct PackedBinaryRows {
    height: usize,
    width: usize,
    words_per_row: usize,
    words: Vec<u64>,
}

impl PackedBinaryRows {
    pub closed spec fn spec_height(&self) -> nat {
        self.height as nat
    }

    pub closed spec fn spec_width(&self) -> nat {
        self.width as nat
    }

    pub closed spec fn spec_words_per_row(&self) -> nat {
        self.words_per_row as nat
    }

    pub closed spec fn spec_words(&self) -> Seq<u64> {
        self.words@
    }

    /// Word `k` of row `r`.
    pub open spec fn word(&self, r: int, k: int) -> u64 {
        self.spec_words()[r * self.spec_words_per_row() + k]
    }

    /// Whether column `c` of row `r` is set.
    pub open spec fn bit(&self, r: int, c: int) -> bool {
        bit_of(self.word(r, c / 64), (c % 64) as u64)
    }

    /// The word layout is consistent and no bit beyond the width is set.
    pub open spec fn wf(&self) -> bool {
        &&& self.spec_words_per_row() == (self.spec_width() + 63) / 64
        &&& self.spec_words().len() == self.spec_height() * self.spec_words_per_row()
        &&& forall|r: int, c: int|
            0 <= r < self.spec_height() && self.spec_width() <= c < self.spec_words_per_row() * 64
                ==> !#[trigger] self.bit(r, c)
    }

    /// The number of set columns `c` of row `r` with `lo <= c < hi`.
    pub open spec fn ones(&self, r: int, lo: int, hi: int) -> nat
        decreases hi - lo,
    {
        if hi <= lo {
            0
        } else {
            self.ones(r, lo, hi - 1) + if self.bit(r, hi - 1) {
                1nat
            } else {
                0nat
            }
        }
    }

    pub proof fn lemma_word_index(&self, r: int, k: int)
        requires
            self.wf(),
            0 <= r < self.spec_height(),
            0 <= k < self.spec_words_per_row(),
        ensures
            0 <= r * self.spec_words_per_row() + k < self.spec_words().len(),
            r * self.spec_words_per_row() + self.spec_words_per_row() <= self.spec_words().len(),
    {
        lemma_block_in_bounds(
            r,
            self.spec_height() as int,
            self.spec_words_per_row() as int,
        );
    }

    /// Words of distinct rows are stored at distinct positions.
    pub proof fn lemma_word_index_distinct(&self, r1: int, k1: int, r2: int, k2: int)
        requires
            self.wf(),
            0 <= r1 < self.spec_height(),
            0 <= r2 < self.spec_height(),
            0 <= k1 < self.spec_words_per_row(),
            0 <= k2 < self.spec_words_per_row(),
            r1 != r2 || k1 != k2,
        ensures
            r1 * self.spec_words_per_row() + k1 != r2 * self.spec_words_per_row() + k2,
    {
        let w = self.spec_words_per_row() as int;
        if r1 < r2 {
            assert(r1 * w + w <= r2 * w) by (nonlinear_arith)
                requires
                    r1 < r2,
                    0 <= w,
            ;
        } else if r2 < r1 {
            assert(r2 * w + w <= r1 * w) by (nonlinear_arith)
                requires
                    r2 < r1,
                    0 <= w,
            ;
        }
    }
}

impl PackedBinaryRows {
    /// Bit `j` of word `k` of a row is column `64 k + j`.
    pub proof fn lemma_bit_in_word(&self, r: int, k: int, j: int)
        requires
            0 <= k,
            0 <= j < 64,
        ensures
            self.bit(r, 64 * k + j) == bit_of(self.word(r, k), j as u64),
    {
        assert((64 * k + j) / 64 == k);
        assert((64 * k + j) % 64 == j);
    }

    /// Counts of set columns add up over adjacent ranges.
    pub proof fn lemma_ones_split(&self, r: int, lo: int, mid: int, hi: int)
        requires
            lo <= mid <= hi,
        ensures
            self.ones(r, lo, hi) == self.ones(r, lo, mid) + self.ones(r, mid, hi),
        decreases hi - mid,
    {
        if hi > mid {
            self.lemma_ones_split(r, lo, mid, hi - 1);
        }
    }

    /// The set columns inside one word are counted by the word's population count.
    pub proof fn lemma_ones_word(&self, r: int, k: int, lo: nat, n: nat)
        requires
            0 <= k,
            lo <= n <= 64,
        ensures
            self.ones(r, 64 * k + lo, 64 * k + n) == popcount_range(self.word(r, k), lo, n),
        decreases n,
    {
        if n > lo {
            self.lemma_ones_word(r, k, lo, (n - 1) as nat);
            self.lemma_bit_in_word(r, k, n - 1);
        }
    }

    /// A count of columns is at most the length of the range.
    pub proof fn lemma_ones_bound(&self, r: int, lo: int, hi: int)
        requires
            lo <= hi,
        ensures
            self.ones(r, lo, hi) <= hi - lo,
        decreases hi - lo,
    {
        if hi > lo {
            self.lemma_ones_bound(r, lo, hi - 1);
        }
    }

    /// No set column lies beyond the width.
    pub proof fn lemma_ones_tail(&self, r: int, lo: int, hi: int)
        requires
            self.wf(),
            0 <= r < self.spec_height(),
            self.spec_width() <= lo,
            hi <= self.spec_words_per_row() * 64,
        ensures
            self.ones(r, lo, hi) == 0,
        decreases hi - lo,
    {
        if hi > lo {
            self.lemma_ones_tail(r, lo, hi - 1);
        }
    }
}

impl View for PackedBinaryRows {
    type V = Seq<Seq<bool>>;

    open spec fn view(&self) -> Seq<Seq<bool>> {
        Seq::new(
            self.spec_height(),
            |r: int| Seq::new(self.spec_width(), |c: int| self.bit(r, c)),
        )
    }
}

/// The mask selecting column `col` within its word.
fn bit_mask(col: usize) -> (r: u64)
    ensures
        r == 1u64 << ((col % 64) as u64),
        forall|j: u64| j < 64 ==> #[trigger] bit_of(r, j) == (j == (col % 64) as u64),
{
    proof {
        assert forall|j: u64| j < 64 implies #[trigger] bit_of(1u64 << ((col % 64) as u64), j) == (j
            == (col % 64) as u64) by {
            lemma_bit_masks((col % 64) as u64, j);
        }
    }
    1u64 << ((col % 64) as u64)
}

impl PackedBinaryRows {
    /// An all-zero `height` x `width` matrix.
    pub fn new(height: usize, width: usize) -> (r: PackedBinaryRows)
        requires
            width + 63 <= usize::MAX,
            height * ((width + 63) / 64) <= usize::MAX,
        ensures
            r.wf(),
            r.spec_height() == height,
            r.spec_width() == width,
            forall|row: int, c: int|
                0 <= row < height && 0 <= c < r.spec_words_per_row() * 64 ==> !#[trigger] r.bit(
                    row,
                    c,
                ),
    {
        let words_per_row = (width + 63) / 64;
        let words = vec![0u64; height * words_per_row];
        let r = PackedBinaryRows { height, width, words_per_row, words };
        proof {
            assert forall|row: int, c: int|
                0 <= row < height && 0 <= c < words_per_row * 64 implies !#[trigger] r.bit(
                    row,
                    c,
                ) by {
                lemma_bit_ops(0, 0, (c % 64) as u64);
                lemma_block_in_bounds(row, height as int, words_per_row as int);
                assert(r.word(row, c / 64) == 0);
            }
        }
        r
    }

    pub fn width(&self) -> (r: usize)
        ensures
            r == self.spec_width(),
    {
        self.width
    }

    pub fn height(&self) -> (r: usize)
        ensures
            r == self.spec_height(),
    {
        self.height
    }

    fn row_start(&self, row: usize) -> (r: usize)
        requires
            self.wf(),
            row < self.spec_height(),
        ensures
            r == row * self.spec_words_per_row(),
            r + self.spec_words_per_row() <= self.spec_words().len(),
            self.spec_words().len() <= usize::MAX,
    {
        let _ = self.words.len();
        proof {
            lemma_block_in_bounds(
                row as int,
                self.spec_height() as int,
                self.spec_words_per_row() as int,
            );
        }
        row * self.words_per_row
    }

    fn word_index(&self, row: usize, col: usize) -> (r: usize)
        requires
            self.wf(),
            row < self.spec_height(),
            col < self.spec_width(),
        ensures
            r == row * self.spec_words_per_row() + col / 64,
            r < self.spec_words().len(),
    {
        let start = self.row_start(row);
        assert(col / 64 < self.spec_words_per_row());
        start + col / 64
    }

    /// Whether column `col` of row `row` is set.
    pub fn contains(&self, row: usize, col: usize) -> (r: bool)
        requires
            self.wf(),
            row < self.spec_height(),
            col < self.spec_width(),
        ensures
            r == self.bit(row as int, col as int),
            r == self@[row as int][col as int],
    {
        let word = self.word_index(row, col);
        let m = bit_mask(col);
        proof {
            lemma_bit_ops(self.words@[word as int], m, (col % 64) as u64);
            let w = self.words@[word as int];
            let k = (col % 64) as u64;
            assert((w & m) != 0u64 <==> bit_of(w & m, k)) by (bit_vector)
                requires
                    m == 1u64 << k,
                    k < 64,
            ;
        }
        (self.words[word] & m) != 0
    }

    /// Sets column `col` of row `row`.
    pub fn set(&mut self, row: usize, col: usize)
        requires
            old(self).wf(),
            row < old(self).spec_height(),
            col < old(self).spec_width(),
        ensures
            final(self).wf(),
            final(self).spec_height() == old(self).spec_height(),
            final(self).spec_width() == old(self).spec_width(),
            forall|r: int, c: int|
                0 <= r < old(self).spec_height() && 0 <= c < old(self).spec_words_per_row() * 64
                    ==> #[trigger] final(self).bit(r, c) == (old(self).bit(r, c) || (r == row && c
                    == col)),
    {
        let word = self.word_index(row, col);
        let m = bit_mask(col);
        let ghost old_self = *self;
        let v = self.words[word] | m;
        self.words.set(word, v);
        proof {
            assert forall|r: int, c: int|
                0 <= r < old_self.spec_height() && 0 <= c < old_self.spec_words_per_row() * 64
                    implies #[trigger] self.bit(r, c) == (old_self.bit(r, c) || (r == row && c
                    == col)) by {
                let k = (c % 64) as u64;
                old_self.lemma_word_index(r, c / 64);
                if r == row && c / 64 == col / 64 {
                    lemma_bit_ops(old_self.words@[word as int], m, k);
                    if c != col {
                        assert(k != (col % 64) as u64);
                    }
                } else {
                    old_self.lemma_word_index_distinct(r, c / 64, row as int, (col / 64) as int);
                }
            }
        }
    }

    /// Whether row `row` has no set column.
    pub fn is_zero(&self, row: usize) -> (r: bool)
        requires
            self.wf(),
            row < self.spec_height(),
        ensures
            r == (forall|c: int| 0 <= c < self.spec_width() ==> !#[trigger] self.bit(row as int, c)),
    {
        let start = self.row_start(row);
        let n = self.words_per_row;
        let mut k: usize = 0;
        while k < n
            invariant
                self.wf(),
                row < self.spec_height(),
                self.spec_words().len() <= usize::MAX,
                start == row * self.spec_words_per_row(),
                n == self.spec_words_per_row(),
                start + n <= self.spec_words().len(),
                k <= n,
                forall|c: int| 0 <= c < k * 64 ==> !#[trigger] self.bit(row as int, c),
            decreases n - k,
        {
            let w = self.words[start + k];
            if w != 0 {
                proof {
                    lemma_word_zero(w);
                    let c = k * 64 + u64_trailing_zeros(w) as int;
                    assert(c / 64 == k && c % 64 == u64_trailing_zeros(w) as int);
                    assert(self.bit(row as int, c));
                    if c >= self.spec_width() {
                        assert(!self.bit(row as int, c));
                    }
                }
                return false;
            }
            proof {
                lemma_word_zero(w);
                assert forall|c: int| 0 <= c < (k + 1) * 64 implies !#[trigger] self.bit(
                    row as int,
                    c,
                ) by {
                    if c >= k * 64 {
                        assert(c / 64 == k);
                        assert(self.word(row as int, c / 64) == w);
                    }
                }
            }
            k += 1;
        }
        proof {
            assert(self.spec_width() <= n * 64);
        }
        true
    }
}

impl PackedBinaryRows {
    /// The first set column of row `row` at or after `start_col`.
    pub fn first_one_at_or_after(&self, row: usize, start_col: usize) -> (r: Option<usize>)
        requires
            self.wf(),
            row < self.spec_height(),
        ensures
            match r {
                None => forall|c: int|
                    start_col <= c < self.spec_width() ==> !#[trigger] self.bit(row as int, c),
                Some(c) => start_col <= c < self.spec_width() && self.bit(row as int, c as int)
                    && forall|c2: int|
                    start_col <= c2 < c ==> !#[trigger] self.bit(row as int, c2),
            },
    {
        if start_col >= self.width {
            return None;
        }
        let row_start = self.row_start(row);
        let mut offset = start_col / 64;
        let bit_offset = start_col % 64;
        let mask = u64::MAX << (bit_offset as u64);
        let mut word = self.words[row_start + offset] & mask;
        proof {
            assert forall|j: int| 0 <= j < 64 implies #[trigger] bit_of(word, j as u64) == (self.bit(
                row as int,
                64 * offset + j,
            ) && 64 * offset + j >= start_col) by {
                self.lemma_bit_in_word(row as int, offset as int, j);
                lemma_bit_ops(self.words@[row_start + offset], mask, j as u64);
                lemma_bit_masks(bit_offset as u64, j as u64);
            }
        }
        loop
            invariant
                self.wf(),
                row < self.spec_height(),
                start_col < self.spec_width(),
                row_start == row * self.spec_words_per_row(),
                row_start + self.spec_words_per_row() <= self.spec_words().len(),
                self.spec_words().len() <= usize::MAX,
                start_col / 64 <= offset < self.spec_words_per_row(),
                forall|c: int| start_col <= c < 64 * offset ==> !#[trigger] self.bit(row as int, c),
                forall|j: int|
                    0 <= j < 64 ==> #[trigger] bit_of(word, j as u64) == (self.bit(
                        row as int,
                        64 * offset + j,
                    ) && 64 * offset + j >= start_col),
            decreases self.spec_words_per_row() - offset,
        {
            if word != 0 {
                let tz = word.trailing_zeros();
                proof {
                    lemma_word_zero(word);
                }
                let col = offset * 64 + tz as usize;
                proof {
                    assert(bit_of(word, tz as u64));
                    assert forall|c2: int| start_col <= c2 < col implies !#[trigger] self.bit(
                        row as int,
                        c2,
                    ) by {
                        if c2 >= 64 * offset {
                            let j = c2 - 64 * offset;
                            assert(!bit_of(word, j as u64));
                        }
                    }
                }
                if col < self.width {
                    return Some(col);
                } else {
                    proof {
                        assert(self.bit(row as int, col as int));
                        assert(col < self.spec_words_per_row() * 64);
                    }
                    return None;
                }
            }
            proof {
                lemma_word_zero(word);
                assert forall|c: int| start_col <= c < 64 * (offset + 1) implies !#[trigger] self.bit(
                    row as int,
                    c,
                ) by {
                    if c >= 64 * offset {
                        let j = c - 64 * offset;
                        assert(!bit_of(word, j as u64));
                    }
                }
            }
            offset += 1;
            if offset >= self.words_per_row {
                proof {
                    assert forall|c: int| start_col <= c < self.spec_width() implies !#[trigger] self.bit(
                        row as int,
                        c,
                    ) by {
                        assert(self.spec_width() <= 64 * offset);
                    }
                }
                return None;
            }
            word = self.words[row_start + offset];
            proof {
                assert forall|j: int| 0 <= j < 64 implies #[trigger] bit_of(word, j as u64) == (
                self.bit(row as int, 64 * offset + j) && 64 * offset + j >= start_col) by {
                    self.lemma_bit_in_word(row as int, offset as int, j);
                }
            }
        }
    }

    /// The number of set columns of row `row` at or after `start_col`.
    pub fn weight_at_or_after(&self, row: usize, start_col: usize) -> (r: u32)
        requires
            self.wf(),
            row < self.spec_height(),
            self.spec_width() <= u32::MAX,
        ensures
            r == self.ones(row as int, start_col as int, self.spec_width() as int),
    {
        self.weight_at_or_after_fallback(row, start_col)
    }

    fn weight_at_or_after_fallback(&self, row: usize, start_col: usize) -> (r: u32)
        requires
            self.wf(),
            row < self.spec_height(),
            self.spec_width() <= u32::MAX,
        ensures
            r == self.ones(row as int, start_col as int, self.spec_width() as int),
    {
        if start_col >= self.width {
            return 0;
        }
        let row_start = self.row_start(row);
        let first_word = start_col / 64;
        let bit_offset = start_col % 64;
        let n = self.words_per_row;
        let first = self.words[row_start + first_word];
        let mut weight = count_ones(first & (u64::MAX << (bit_offset as u64)));
        proof {
            lemma_popcount_masked(first, bit_offset as u64, 64);
            self.lemma_ones_word(row as int, first_word as int, bit_offset as nat, 64);
            assert(64 * first_word + bit_offset == start_col);
        }
        let mut offset = first_word + 1;
        while offset < n
            invariant
                self.wf(),
                row < self.spec_height(),
                self.spec_width() <= u32::MAX,
                start_col < self.spec_width(),
                n == self.spec_words_per_row(),
                row_start == row * self.spec_words_per_row(),
                row_start + n <= self.spec_words().len(),
                self.spec_words().len() <= usize::MAX,
                first_word < offset <= n,
                weight == self.ones(row as int, start_col as int, 64 * offset),
                start_col <= 64 * offset,
            decreases n - offset,
        {
            let w = self.words[row_start + offset];
            let c = count_ones(w);
            proof {
                self.lemma_ones_word(row as int, offset as int, 0, 64);
                lemma_popcount_range_zero(w, 64);
                self.lemma_ones_split(row as int, start_col as int, 64 * offset, 64 * offset + 64);
                if 64 * offset >= self.spec_width() {
                    self.lemma_ones_tail(row as int, 64 * offset, 64 * offset + 64);
                } else {
                    self.lemma_ones_split(row as int, start_col as int, 64 * offset + 64, 64 * n);
                    self.lemma_ones_split(row as int, start_col as int, self.spec_width() as int, 64 * n);
                    self.lemma_ones_tail(row as int, self.spec_width() as int, 64 * n);
                    self.lemma_ones_split(row as int, start_col as int, 64 * offset, self.spec_width() as int);
                    self.lemma_ones_split(row as int, 64 * offset, 64 * offset + 64, 64 * n);
                    assert(self.ones(row as int, start_col as int, 64 * offset + 64) <= self.ones(
                        row as int,
                        start_col as int,
                        self.spec_width() as int,
                    ) + 0);
                    self.lemma_ones_bound(row as int, start_col as int, self.spec_width() as int);
                }
            }
            weight = weight + c;
            offset += 1;
        }
        proof {
            self.lemma_ones_split(row as int, start_col as int, self.spec_width() as int, 64 * n);
            self.lemma_ones_tail(row as int, self.spec_width() as int, 64 * n);
        }
        weight
    }
}

impl PackedBinaryRows {
    /// Row `dest` after adding the columns of row `src` at or after `start_col`.
    pub open spec fn xor_suffix_bit(&self, dest: int, src: int, start_col: int, r: int, c: int) -> bool {
        if r == dest && c >= start_col {
            self.bit(dest, c) != self.bit(src, c)
        } else {
            self.bit(r, c)
        }
    }

    /// Adds the columns of row `src` at or after `start_col` into row `dest`.
    pub fn xor_suffix(&mut self, dest: usize, src: usize, start_col: usize)
        requires
            old(self).wf(),
            dest < old(self).spec_height(),
            src < old(self).spec_height(),
            start_col < old(self).spec_width(),
        ensures
            final(self).wf(),
            final(self).spec_height() == old(self).spec_height(),
            final(self).spec_width() == old(self).spec_width(),
            forall|r: int, c: int|
                0 <= r < old(self).spec_height() && 0 <= c < old(self).spec_words_per_row() * 64
                    ==> #[trigger] final(self).bit(r, c) == old(self).xor_suffix_bit(
                    dest as int,
                    src as int,
                    start_col as int,
                    r,
                    c,
                ),
    {
        let _ = self.xor_suffix_count_impl(dest, src, start_col, false);
    }

    /// Adds the columns of row `src` at or after `start_col` into row `dest`, returning how many
    /// columns of `dest` at or after `start_col` are then set and which of them comes first.
    pub fn xor_suffix_count_ones_and_first_one(
        &mut self,
        dest: usize,
        src: usize,
        start_col: usize,
    ) -> (r: (u32, Option<usize>))
        requires
            old(self).wf(),
            dest < old(self).spec_height(),
            src < old(self).spec_height(),
            start_col < old(self).spec_width(),
            old(self).spec_width() <= u32::MAX,
        ensures
            final(self).wf(),
            final(self).spec_height() == old(self).spec_height(),
            final(self).spec_width() == old(self).spec_width(),
            forall|r: int, c: int|
                0 <= r < old(self).spec_height() && 0 <= c < old(self).spec_words_per_row() * 64
                    ==> #[trigger] final(self).bit(r, c) == old(self).xor_suffix_bit(
                    dest as int,
                    src as int,
                    start_col as int,
                    r,
                    c,
                ),
            r.0 == final(self).ones(dest as int, start_col as int, final(self).spec_width() as int),
            match r.1 {
                None => forall|c: int|
                    start_col <= c < final(self).spec_width() ==> !#[trigger] final(self).bit(
                        dest as int,
                        c,
                    ),
                Some(c) => start_col <= c < final(self).spec_width() && final(self).bit(
                    dest as int,
                    c as int,
                ) && forall|c2: int|
                    start_col <= c2 < c ==> !#[trigger] final(self).bit(dest as int, c2),
            },
    {
        self.xor_suffix_count_ones_and_first_one_fallback(dest, src, start_col)
    }

    /// The weight of row `dest` at or after `start_col` after adding row `src` into it.
    pub fn xor_suffix_count_ones(&mut self, dest: usize, src: usize, start_col: usize) -> (r: u32)
        requires
            old(self).wf(),
            dest < old(self).spec_height(),
            src < old(self).spec_height(),
            start_col < old(self).spec_width(),
            old(self).spec_width() <= u32::MAX,
        ensures
            final(self).wf(),
            final(self).spec_height() == old(self).spec_height(),
            final(self).spec_width() == old(self).spec_width(),
            forall|r: int, c: int|
                0 <= r < old(self).spec_height() && 0 <= c < old(self).spec_words_per_row() * 64
                    ==> #[trigger] final(self).bit(r, c) == old(self).xor_suffix_bit(
                    dest as int,
                    src as int,
                    start_col as int,
                    r,
                    c,
                ),
            r == final(self).ones(dest as int, start_col as int, final(self).spec_width() as int),
    {
        self.xor_suffix_count_ones_and_first_one(dest, src, start_col).0
    }

    fn xor_suffix_count_ones_and_first_one_fallback(
        &mut self,
        dest: usize,
        src: usize,
        start_col: usize,
    ) -> (r: (u32, Option<usize>))
        requires
            old(self).wf(),
            dest < old(self).spec_height(),
            src < old(self).spec_height(),
            start_col < old(self).spec_width(),
            old(self).spec_width() <= u32::MAX,
        ensures
            final(self).wf(),
            final(self).spec_height() == old(self).spec_height(),
            final(self).spec_width() == old(self).spec_width(),
            forall|r: int, c: int|
                0 <= r < old(self).spec_height() && 0 <= c < old(self).spec_words_per_row() * 64
                    ==> #[trigger] final(self).bit(r, c) == old(self).xor_suffix_bit(
                    dest as int,
                    src as int,
                    start_col as int,
                    r,
                    c,
                ),
            r.0 == final(self).ones(dest as int, start_col as int, final(self).spec_width() as int),
            match r.1 {
                None => forall|c: int|
                    start_col <= c < final(self).spec_width() ==> !#[trigger] final(self).bit(
                        dest as int,
                        c,
                    ),
                Some(c) => start_col <= c < final(self).spec_width() && final(self).bit(
                    dest as int,
                    c as int,
                ) && forall|c2: int|
                    start_col <= c2 < c ==> !#[trigger] final(self).bit(dest as int, c2),
            },
    {
        self.xor_suffix_count_impl(dest, src, start_col, true)
    }

    /// Two states agreeing on a range of columns count the same number of them.
    pub proof fn lemma_ones_frame(&self, other: &PackedBinaryRows, r: int, lo: int, hi: int)
        requires
            forall|c: int| lo <= c < hi ==> #[trigger] self.bit(r, c) == other.bit(r, c),
        ensures
            self.ones(r, lo, hi) == other.ones(r, lo, hi),
        decreases hi - lo,
    {
        if hi > lo {
            self.lemma_ones_frame(other, r, lo, hi - 1);
        }
    }

    /// The bit of row `r`, column `c` once the first `done` words of row `dest` (counting from
    /// the word holding `start_col`) have been updated.
    spec fn partial_xor_bit(&self, dest: int, src: int, start_col: int, done: int, r: int, c: int) -> bool {
        if r == dest && c < done {
            self.xor_suffix_bit(dest, src, start_col, r, c)
        } else {
            self.bit(r, c)
        }
    }

    /// The shared loop: XOR the suffix words, tallying weight and first column when asked.
    fn xor_suffix_count_impl(&mut self, dest: usize, src: usize, start_col: usize, count: bool) -> (r: (
        u32,
        Option<usize>,
    ))
        requires
            old(self).wf(),
            dest < old(self).spec_height(),
            src < old(self).spec_height(),
            start_col < old(self).spec_width(),
            count ==> old(self).spec_width() <= u32::MAX,
        ensures
            final(self).wf(),
            final(self).spec_height() == old(self).spec_height(),
            final(self).spec_width() == old(self).spec_width(),
            forall|r: int, c: int|
                0 <= r < old(self).spec_height() && 0 <= c < old(self).spec_words_per_row() * 64
                    ==> #[trigger] final(self).bit(r, c) == old(self).xor_suffix_bit(
                    dest as int,
                    src as int,
                    start_col as int,
                    r,
                    c,
                ),
            count ==> r.0 == final(self).ones(
                dest as int,
                start_col as int,
                final(self).spec_width() as int,
            ),
            count ==> match r.1 {
                None => forall|c: int|
                    start_col <= c < final(self).spec_width() ==> !#[trigger] final(self).bit(
                        dest as int,
                        c,
                    ),
                Some(c) => start_col <= c < final(self).spec_width() && final(self).bit(
                    dest as int,
                    c as int,
                ) && forall|c2: int|
                    start_col <= c2 < c ==> !#[trigger] final(self).bit(dest as int, c2),
            },
    {
        let ghost old_self = *self;
        let width = self.width;
        let n = self.words_per_row;
        let first_word = start_col / 64;
        let bit_offset = start_col % 64;
        let mask = u64::MAX << (bit_offset as u64);
        let dest_start = self.row_start(dest);
        let src_start = self.row_start(src);
        let mut weight: u32 = 0;
        let mut first_one: Option<usize> = None;
        let mut offset = first_word;
        proof {
            assert forall|r: int, c: int|
                0 <= r < old_self.spec_height() && 0 <= c < n * 64 implies #[trigger] self.bit(r, c)
                == old_self.partial_xor_bit(dest as int, src as int, start_col as int, 64 * first_word, r, c) by {
            }
        }
        while offset < n
            invariant
                old_self.wf(),
                self.spec_height() == old_self.spec_height(),
                self.spec_width() == old_self.spec_width(),
                self.spec_words_per_row() == old_self.spec_words_per_row(),
                self.spec_words().len() == old_self.spec_words().len(),
                old_self.spec_words().len() <= usize::MAX,
                width == self.spec_width(),
                n == self.spec_words_per_row(),
                first_word == start_col / 64,
                bit_offset == start_col % 64,
                start_col < width,
                mask == u64::MAX << (bit_offset as u64),
                dest < self.spec_height(),
                src < self.spec_height(),
                dest_start == dest * n,
                src_start == src * n,
                dest_start + n <= old_self.spec_words().len(),
                src_start + n <= old_self.spec_words().len(),
                first_word <= offset <= n,
                count ==> width <= u32::MAX,
                forall|r: int, c: int|
                    0 <= r < old_self.spec_height() && 0 <= c < n * 64 ==> #[trigger] self.bit(r, c)
                        == old_self.partial_xor_bit(
                        dest as int,
                        src as int,
                        start_col as int,
                        64 * offset,
                        r,
                        c,
                    ),
                count ==> weight == self.ones(dest as int, start_col as int, 64 * offset),
                count ==> match first_one {
                    None => forall|c: int|
                        start_col <= c < 64 * offset ==> !#[trigger] self.bit(dest as int, c),
                    Some(c) => start_col <= c < 64 * offset && c < width && self.bit(
                        dest as int,
                        c as int,
                    ) && forall|c2: int|
                        start_col <= c2 < c ==> !#[trigger] self.bit(dest as int, c2),
                },
            decreases n - offset,
        {
            let d = self.words[dest_start + offset];
            let s = self.words[src_start + offset];
            let w = if offset == first_word {
                d ^ (s & mask)
            } else {
                d ^ s
            };
            let ghost before = *self;
            proof {
                // the bits read are still the original ones
                assert forall|j: int| 0 <= j < 64 implies #[trigger] bit_of(w, j as u64)
                    == old_self.partial_xor_bit(
                    dest as int,
                    src as int,
                    start_col as int,
                    64 * offset + 64,
                    dest as int,
                    64 * offset + j,
                ) by {
                    let c = 64 * offset + j;
                    before.lemma_bit_in_word(dest as int, offset as int, j);
                    before.lemma_bit_in_word(src as int, offset as int, j);
                    old_self.lemma_bit_in_word(dest as int, offset as int, j);
                    old_self.lemma_bit_in_word(src as int, offset as int, j);
                    assert(before.bit(dest as int, c) == old_self.bit(dest as int, c));
                    assert(before.bit(src as int, c) == old_self.bit(src as int, c));
                    lemma_bit_ops(d, s & mask, j as u64);
                    lemma_bit_ops(s, mask, j as u64);
                    lemma_bit_ops(d, s, j as u64);
                    lemma_bit_masks(bit_offset as u64, j as u64);
                }
            }
            self.words.set(dest_start + offset, w);
            proof {
                assert forall|r: int, c: int|
                    0 <= r < old_self.spec_height() && 0 <= c < n * 64 implies #[trigger] self.bit(
                    r,
                    c,
                ) == old_self.partial_xor_bit(
                    dest as int,
                    src as int,
                    start_col as int,
                    64 * offset + 64,
                    r,
                    c,
                ) by {
                    old_self.lemma_word_index(r, c / 64);
                    if r == dest && c / 64 == offset {
                        before.lemma_bit_in_word(dest as int, offset as int, c - 64 * offset);
                        self.lemma_bit_in_word(dest as int, offset as int, c - 64 * offset);
                    } else {
                        old_self.lemma_word_index_distinct(r, c / 64, dest as int, offset as int);
                        assert(self.word(r, c / 64) == before.word(r, c / 64));
                        assert(before.bit(r, c) == old_self.partial_xor_bit(
                            dest as int,
                            src as int,
                            start_col as int,
                            64 * offset,
                            r,
                            c,
                        ));
                    }
                }
            }
            if count {
                let counted = if offset == first_word {
                    w & mask
                } else {
                    w
                };
                let lo_bit: u64 = if offset == first_word {
                    bit_offset as u64
                } else {
                    0
                };
                let c = count_ones(counted);
                proof {
                    let lo: int = 64 * offset + lo_bit;
                    assert(lo == if offset == first_word { start_col as int } else { 64 * offset });
                    assert forall|j: int| 0 <= j < 64 implies #[trigger] bit_of(counted, j as u64) == (
                    bit_of(w, j as u64) && j >= lo_bit) by {
                        lemma_bit_ops(w, mask, j as u64);
                        lemma_bit_masks(bit_offset as u64, j as u64);
                    }
                    if offset == first_word {
                        lemma_popcount_masked(w, bit_offset as u64, 64);
                    } else {
                        lemma_popcount_range_zero(w, 64);
                        assert(w & (u64::MAX << 0u64) == w) by (bit_vector);
                        lemma_popcount_masked(w, 0, 64);
                    }
                    assert(self.word(dest as int, offset as int) == w);
                    self.lemma_ones_word(dest as int, offset as int, lo_bit as nat, 64);
                    assert forall|c2: int| start_col <= c2 < 64 * offset implies #[trigger] self.bit(
                        dest as int,
                        c2,
                    ) == before.bit(dest as int, c2) by {}
                    self.lemma_ones_frame(&before, dest as int, start_col as int, 64 * offset);
                    self.lemma_ones_split(dest as int, start_col as int, lo, 64 * offset + 64);
                    if offset == first_word {
                        assert(self.ones(dest as int, start_col as int, 64 * offset) == 0);
                    }
                    // the count stays within the width
                    let hi = 64 * offset + 64;
                    if hi > width {
                        self.lemma_ones_split(dest as int, start_col as int, width as int, hi);
                        assert forall|c2: int| width <= c2 < hi implies !#[trigger] self.bit(
                            dest as int,
                            c2,
                        ) by {
                            assert(!old_self.bit(dest as int, c2));
                            assert(!old_self.bit(src as int, c2));
                        }
                        self.lemma_ones_zero(dest as int, width as int, hi);
                        self.lemma_ones_bound(dest as int, start_col as int, width as int);
                    } else {
                        self.lemma_ones_bound(dest as int, start_col as int, hi);
                    }
                }
                weight = weight + c;
                if first_one.is_none() && counted != 0 {
                    let tz = counted.trailing_zeros();
                    proof {
                        lemma_word_zero(counted);
                    }
                    let col = offset * 64 + tz as usize;
                    proof {
                        self.lemma_bit_in_word(dest as int, offset as int, tz as int);
                        assert forall|c2: int| start_col <= c2 < col implies !#[trigger] self.bit(
                            dest as int,
                            c2,
                        ) by {
                            if c2 >= 64 * offset {
                                self.lemma_bit_in_word(dest as int, offset as int, c2 - 64 * offset);
                                assert(!bit_of(counted, (c2 - 64 * offset) as u64));
                            } else {
                                assert(!before.bit(dest as int, c2));
                            }
                        }
                    }
                    if col < width {
                        first_one = Some(col);
                    } else {
                        proof {
                            assert(!old_self.bit(dest as int, col as int));
                            assert(!old_self.bit(src as int, col as int));
                            assert(false);
                        }
                    }
                } else {
                    proof {
                        if first_one.is_none() {
                            lemma_word_zero(counted);
                            assert forall|c2: int| start_col <= c2 < 64 * offset + 64 implies !#[trigger] self.bit(
                                dest as int,
                                c2,
                            ) by {
                                if c2 >= 64 * offset {
                                    self.lemma_bit_in_word(dest as int, offset as int, c2 - 64 * offset);
                                    assert(!bit_of(counted, (c2 - 64 * offset) as u64));
                                } else {
                                    assert(!before.bit(dest as int, c2));
                                }
                            }
                        } else {
                            let fc = first_one.unwrap();
                            assert(self.bit(dest as int, fc as int) == before.bit(dest as int, fc as int));
                            assert forall|c2: int| start_col <= c2 < fc implies !#[trigger] self.bit(
                                dest as int,
                                c2,
                            ) by {
                                assert(!before.bit(dest as int, c2));
                            }
                        }
                    }
                }
            }
            offset += 1;
        }
        proof {
            assert forall|r: int, c: int|
                0 <= r < old_self.spec_height() && width <= c < n * 64 implies !#[trigger] self.bit(r, c) by {
                assert(!old_self.bit(r, c));
                assert(!old_self.bit(src as int, c));
            }
            if count {
                self.lemma_ones_split(dest as int, start_col as int, width as int, 64 * n);
                self.lemma_ones_tail(dest as int, width as int, 64 * n);
            }
        }
        (weight, first_one)
    }

    /// A range holding no set column counts zero.
    /// A range with no ones counted has no set column.
    pub proof fn lemma_ones_zero_clear(&self, r: int, lo: int, hi: int)
        requires
            lo <= hi,
            self.ones(r, lo, hi) == 0,
        ensures
            forall|c: int| lo <= c < hi ==> !#[trigger] self.bit(r, c),
        decreases hi - lo,
    {
        if hi > lo {
            self.lemma_ones_bound(r, lo, hi - 1);
            self.lemma_ones_zero_clear(r, lo, hi - 1);
        }
    }

    pub proof fn lemma_ones_zero(&self, r: int, lo: int, hi: int)
        requires
            forall|c: int| lo <= c < hi ==> !#[trigger] self.bit(r, c),
        ensures
            self.ones(r, lo, hi) == 0,
        decreases hi - lo,
    {
        if hi > lo {
            self.lemma_ones_zero(r, lo, hi - 1);
        }
    }
}

/// Clearing the lowest set bit of a nonzero word keeps every other bit.
pub proof fn lemma_clear_lowest(w: u64)
    requires
        w != 0,
    ensures
        forall|j: u64|
            j < 64 ==> #[trigger] bit_of(w & ((w - 1) as u64), j) == (bit_of(w, j) && j
                != u64_trailing_zeros(w) as u64),
        w & ((w - 1) as u64) < w,
{
    axiom_u64_trailing_zeros(w);
    let t = u64_trailing_zeros(w) as u64;
    assert(t < 64);
    assert forall|j: u64| j < 64 implies #[trigger] bit_of(w & ((w - 1) as u64), j) == (bit_of(w, j)
        && j != t) by {
        assert forall|i: u64| i < t implies #[trigger] ((w >> i) & 1u64) == 0u64 by {}
        assert(((w & ((w - 1) as u64)) >> j) & 1u64 == 1u64 <==> ((w >> j) & 1u64 == 1u64 && j != t))
            by (bit_vector)
            requires
                t < 64,
                j < 64,
                (w >> t) & 1u64 == 1u64,
                w << ((64 - t) as u64) == 0u64,
        ;
    }
    assert(w & ((w - 1) as u64) < w) by (bit_vector)
        requires
            w != 0,
    ;
}

impl PackedBinaryRows {
    /// Sets each listed column of row `row`.
    pub fn set_entries(&mut self, row: usize, cols: &[usize])
        requires
            old(self).wf(),
            row < old(self).spec_height(),
            forall|i: int| 0 <= i < cols@.len() ==> #[trigger] cols@[i] < old(self).spec_width(),
        ensures
            final(self).wf(),
            final(self).spec_height() == old(self).spec_height(),
            final(self).spec_width() == old(self).spec_width(),
            forall|r: int, c: int|
                0 <= r < old(self).spec_height() && 0 <= c < old(self).spec_words_per_row() * 64
                    ==> #[trigger] final(self).bit(r, c) == (old(self).bit(r, c) || (r == row
                    && cols@.contains(c as usize))),
    {
        let ghost old_self = *self;
        let mut k: usize = 0;
        while k < cols.len()
            invariant
                self.wf(),
                self.spec_height() == old_self.spec_height(),
                self.spec_width() == old_self.spec_width(),
                self.spec_words_per_row() == old_self.spec_words_per_row(),
                row < self.spec_height(),
                k <= cols@.len(),
                forall|i: int| 0 <= i < cols@.len() ==> #[trigger] cols@[i] < old_self.spec_width(),
                forall|r: int, c: int|
                    0 <= r < old_self.spec_height() && 0 <= c < old_self.spec_words_per_row() * 64
                        ==> #[trigger] self.bit(r, c) == (old_self.bit(r, c) || (r == row
                        && exists|i: int| 0 <= i < k && #[trigger] cols@[i] == c as usize)),
            decreases cols@.len() - k,
        {
            let ghost before = *self;
            self.set(row, cols[k]);
            proof {
                assert forall|r: int, c: int|
                    0 <= r < old_self.spec_height() && 0 <= c < old_self.spec_words_per_row() * 64
                        implies #[trigger] self.bit(r, c) == (old_self.bit(r, c) || (r == row
                        && exists|i: int| 0 <= i < k + 1 && #[trigger] cols@[i] == c as usize)) by {
                    assert(before.bit(r, c) == (old_self.bit(r, c) || (r == row
                        && exists|i: int| 0 <= i < k && #[trigger] cols@[i] == c as usize)));
                    if c == cols@[k as int] {
                        assert(0 <= k < k + 1 && cols@[k as int] == c as usize);
                    }
                }
            }
            k += 1;
        }
        proof {
            assert forall|r: int, c: int|
                0 <= r < old_self.spec_height() && 0 <= c < old_self.spec_words_per_row() * 64
                    implies #[trigger] self.bit(r, c) == (old_self.bit(r, c) || (r == row
                    && cols@.contains(c as usize))) by {
                if cols@.contains(c as usize) {
                    let i = choose|i: int| 0 <= i < cols@.len() && cols@[i] == c as usize;
                    assert(0 <= i < k && cols@[i] == c as usize);
                }
            }
        }
    }

    /// The set columns of row `row` at or after `start_col`, in increasing order.
    pub fn visit_ones_at_or_after(&self, row: usize, start_col: usize) -> (r: Vec<usize>)
        requires
            self.wf(),
            row < self.spec_height(),
        ensures
            forall|i: int|
                0 <= i < r@.len() ==> start_col <= #[trigger] r@[i] < self.spec_width() && self.bit(
                    row as int,
                    r@[i] as int,
                ),
            forall|i: int, j: int| 0 <= i < j < r@.len() ==> r@[i] < r@[j],
            forall|c: int|
                start_col <= c < self.spec_width() && #[trigger] self.bit(row as int, c) ==> r@.contains(
                    c as usize,
                ),
    {
        let mut out: Vec<usize> = Vec::new();
        if start_col >= self.width {
            return out;
        }
        let row_start = self.row_start(row);
        let n = self.words_per_row;
        let mut offset = start_col / 64;
        let bit_offset = start_col % 64;
        let mask = u64::MAX << (bit_offset as u64);
        let mut word = self.words[row_start + offset] & mask;
        proof {
            assert forall|j: int| 0 <= j < 64 implies #[trigger] bit_of(word, j as u64) == (self.bit(
                row as int,
                64 * offset + j,
            ) && 64 * offset + j >= start_col) by {
                self.lemma_bit_in_word(row as int, offset as int, j);
                lemma_bit_ops(self.words@[row_start + offset], mask, j as u64);
                lemma_bit_masks(bit_offset as u64, j as u64);
            }
        }
        while offset < n
            invariant
                self.wf(),
                row < self.spec_height(),
                start_col < self.spec_width(),
                n == self.spec_words_per_row(),
                row_start == row * n,
                row_start + n <= self.spec_words().len(),
                self.spec_words().len() <= usize::MAX,
                start_col / 64 <= offset <= n,
                offset < n ==> forall|j: int|
                    0 <= j < 64 ==> #[trigger] bit_of(word, j as u64) ==> (self.bit(
                        row as int,
                        64 * offset + j,
                    ) && 64 * offset + j >= start_col),
                offset < n ==> forall|c: int|
                    start_col <= c < 64 * offset + 64 && c >= 64 * offset && self.bit(row as int, c)
                        && !bit_of(word, (c - 64 * offset) as u64) ==> out@.contains(c as usize),
                offset == n ==> forall|c: int|
                    start_col <= c < self.spec_width() && #[trigger] self.bit(row as int, c) ==> out@.contains(
                        c as usize,
                    ),
                forall|c: int|
                    start_col <= c < 64 * offset && c < 64 * n && #[trigger] self.bit(row as int, c)
                        ==> out@.contains(c as usize),
                forall|i: int|
                    0 <= i < out@.len() ==> start_col <= #[trigger] out@[i] < self.spec_width()
                        && self.bit(row as int, out@[i] as int),
                forall|i: int| 0 <= i < out@.len() ==> #[trigger] out@[i] < 64 * offset + 64,
                offset < n ==> forall|i: int, j: int|
                    #![trigger out@[i], bit_of(word, j as u64)]
                    0 <= i < out@.len() && 0 <= j < 64 && bit_of(word, j as u64) ==> out@[i] < 64
                        * offset + j,
                forall|i: int, j: int| 0 <= i < j < out@.len() ==> out@[i] < out@[j],
            decreases n - offset, word,
        {
            if word != 0 {
                let tz = word.trailing_zeros();
                proof {
                    lemma_word_zero(word);
                    lemma_clear_lowest(word);
                }
                let col = offset * 64 + tz as usize;
                if col >= self.width {
                    proof {
                        self.lemma_bit_in_word(row as int, offset as int, tz as int);
                        assert(!self.bit(row as int, col as int));
                    }
                    return out;
                }
                let ghost before = out@;
                out.push(col);
                let ghost old_word = word;
                word = word & (word - 1);
                proof {
                    assert forall|c: int|
                        start_col <= c < 64 * offset + 64 && c >= 64 * offset && self.bit(row as int, c)
                            && !bit_of(word, (c - 64 * offset) as u64) implies out@.contains(c as usize) by {
                        let j = (c - 64 * offset) as u64;
                        if c == col {
                            assert(out@[before.len() as int] == col);
                        } else {
                            self.lemma_bit_in_word(row as int, offset as int, j as int);
                            if bit_of(old_word, j) {
                                assert(j == tz as u64);
                            }
                            assert(before.contains(c as usize));
                            let i = choose|i: int| 0 <= i < before.len() && before[i] == c as usize;
                            assert(out@[i] == c as usize);
                        }
                    }
                    assert forall|c: int|
                        start_col <= c < 64 * offset && c < 64 * n && #[trigger] self.bit(row as int, c)
                            implies out@.contains(c as usize) by {
                        let i = choose|i: int| 0 <= i < before.len() && before[i] == c as usize;
                        assert(out@[i] == c as usize);
                    }
                    assert forall|i: int, j: int|
                        #![trigger out@[i], bit_of(word, j as u64)]
                        0 <= i < out@.len() && 0 <= j < 64 && bit_of(word, j as u64) implies out@[i]
                            < 64 * offset + j by {
                        if i < before.len() {
                            assert(bit_of(old_word, j as u64));
                        } else {
                            assert(j as u64 != tz as u64);
                            assert(j > tz);
                        }
                    }
                }
                continue;
            }
            proof {
                lemma_word_zero(word);
            }
            offset += 1;
            if offset < n {
                word = self.words[row_start + offset];
                proof {
                    assert forall|j: int| 0 <= j < 64 implies #[trigger] bit_of(word, j as u64) == (self.bit(
                        row as int,
                        64 * offset + j,
                    ) && 64 * offset + j >= start_col) by {
                        self.lemma_bit_in_word(row as int, offset as int, j);
                    }
                }
            } else {
                proof {
                    assert forall|c: int|
                        start_col <= c < self.spec_width() && #[trigger] self.bit(row as int, c) implies out@.contains(
                        c as usize,
                    ) by {
                        assert(self.spec_width() <= 64 * n);
                        if c >= 64 * (offset - 1) {
                            assert(!bit_of(0u64, (c - 64 * (offset - 1)) as u64)) by {
                                lemma_bit_ops(0, 0, (c - 64 * (offset - 1)) as u64);
                            }
                        }
                    }
                }
            }
        }
        out
    }
}

} // verus!
verus! {

use crate::matrix::{BinaryMatrix, packs_bits, packable, weights_of, first_ones_of};

impl PackedBinaryRows {
    /// Flips column `col` of row `row`, returning whether it was set before.
    fn toggle(&mut self, row: usize, col: usize) -> (was_set: bool)
        requires
            old(self).wf(),
            row < old(self).spec_height(),
            col < old(self).spec_width(),
        ensures
            final(self).wf(),
            final(self).spec_height() == old(self).spec_height(),
            final(self).spec_width() == old(self).spec_width(),
            final(self).spec_words_per_row() == old(self).spec_words_per_row(),
            was_set == old(self).bit(row as int, col as int),
            forall|r: int, c: int|
                0 <= r < old(self).spec_height() && 0 <= c < old(self).spec_words_per_row() * 64
                    ==> #[trigger] final(self).bit(r, c) == (if r == row && c == col {
                    !old(self).bit(r, c)
                } else {
                    old(self).bit(r, c)
                }),
    {
        let word = self.word_index(row, col);
        let m = bit_mask(col);
        let ghost old_self = *self;
        let current = self.words[word];
        let was_set = current & m != 0;
        self.words.set(word, current ^ m);
        proof {
            let kc = (col % 64) as u64;
            old_self.lemma_word_index(row as int, col as int / 64);
            lemma_toggle_bits(current, m, kc);
            assert forall|r: int, c: int|
                0 <= r < old_self.spec_height() && 0 <= c < old_self.spec_words_per_row() * 64
                    implies #[trigger] self.bit(r, c) == (if r == row && c == col {
                    !old_self.bit(r, c)
                } else {
                    old_self.bit(r, c)
                }) by {
                let k = (c % 64) as u64;
                old_self.lemma_word_index(r, c / 64);
                if r == row && c / 64 == col / 64 {
                    if c != col {
                        assert(k != kc);
                    }
                } else {
                    old_self.lemma_word_index_distinct(r, c / 64, row as int, (col / 64) as int);
                }
            }
            assert forall|r: int, c: int|
                0 <= r < self.spec_height() && self.spec_width() <= c < self.spec_words_per_row()
                    * 64 implies !#[trigger] self.bit(r, c) by {
                assert(!old_self.bit(r, c));
            }
        }
        was_set
    }

    /// Toggling one column at or after `lo` changes the count of ones in `[lo, hi)` by one.
    proof fn lemma_ones_toggle_suffix(&self, other: &PackedBinaryRows, r: int, col: int, lo: int, hi: int)
        requires
            0 <= lo <= col < hi,
            forall|c: int| 0 <= c < hi && c != col ==> #[trigger] self.bit(r, c) == other.bit(r, c),
            self.bit(r, col) != other.bit(r, col),
        ensures
            other.ones(r, lo, hi) == if self.bit(r, col) {
                self.ones(r, lo, hi) - 1
            } else {
                self.ones(r, lo, hi) + 1int
            },
    {
        self.lemma_ones_toggle(other, r, col, hi);
        self.lemma_ones_split(r, 0, lo, hi);
        other.lemma_ones_split(r, 0, lo, hi);
        self.lemma_ones_frame(other, r, 0, lo);
    }

    /// Toggling one column changes the row's count of ones by one.
    proof fn lemma_ones_toggle(&self, other: &PackedBinaryRows, r: int, col: int, hi: int)
        requires
            0 <= col < hi,
            forall|c: int| 0 <= c < hi && c != col ==> #[trigger] self.bit(r, c) == other.bit(r, c),
            self.bit(r, col) != other.bit(r, col),
        ensures
            other.ones(r, 0, hi) == if self.bit(r, col) {
                self.ones(r, 0, hi) - 1
            } else {
                self.ones(r, 0, hi) + 1int
            },
    {
        self.lemma_ones_split(r, 0, col, hi);
        other.lemma_ones_split(r, 0, col, hi);
        self.lemma_ones_split(r, col, col + 1, hi);
        other.lemma_ones_split(r, col, col + 1, hi);
        self.lemma_ones_frame(other, r, 0, col);
        self.lemma_ones_frame(other, r, col + 1, hi);
        assert(self.ones(r, col, col) == 0);
        assert(other.ones(r, col, col) == 0);
    }

    /// Flips the listed columns of row `dest` (none before the first listed one), keeping
    /// `weight` as the row's number of ones from the first listed column on, and finds the
    /// row's first one from that column on.
    pub fn xor_columns_update_weight_and_first_one(
        &mut self,
        dest: usize,
        cols: &[usize],
        weight: u32,
    ) -> (r: (u32, Option<usize>))
        requires
            old(self).wf(),
            dest < old(self).spec_height(),
            old(self).spec_width() <= u32::MAX,
            forall|i: int| 0 <= i < cols@.len() ==> #[trigger] cols@[i] < old(self).spec_width(),
            forall|i: int| 0 <= i < cols@.len() ==> cols@[0] <= #[trigger] cols@[i],
            cols@.len() > 0 ==> weight == old(self).ones(
                dest as int,
                cols@[0] as int,
                old(self).spec_width() as int,
            ),
        ensures
            final(self).wf(),
            final(self).spec_height() == old(self).spec_height(),
            final(self).spec_width() == old(self).spec_width(),
            forall|row: int, c: int|
                0 <= row < old(self).spec_height() && 0 <= c < old(self).spec_width()
                    ==> #[trigger] final(self).bit(row, c) == (if row == dest {
                    old(self).bit(row, c) != (column_count(cols@, c) % 2 == 1)
                } else {
                    old(self).bit(row, c)
                }),
            cols@.len() == 0 ==> r == (weight, None::<usize>),
            cols@.len() > 0 ==> r.0 == final(self).ones(
                dest as int,
                cols@[0] as int,
                final(self).spec_width() as int,
            ),
            cols@.len() > 0 ==> match r.1 {
                None => forall|c: int|
                    cols@[0] <= c < final(self).spec_width() ==> !#[trigger] final(self).bit(
                        dest as int,
                        c,
                    ),
                Some(c) => cols@[0] <= c < final(self).spec_width() && final(self).bit(
                    dest as int,
                    c as int,
                ) && forall|c2: int|
                    cols@[0] <= c2 < c ==> !#[trigger] final(self).bit(dest as int, c2),
            },
    {
        let n = cols.len();
        if n == 0 {
            return (weight, None);
        }
        let start_col = cols[0];
        let mut weight = weight;
        let ghost old_self = *self;
        let mut i: usize = 0;
        while i < n
            invariant
                n == cols@.len(),
                i <= n,
                self.wf(),
                self.spec_height() == old_self.spec_height(),
                self.spec_width() == old_self.spec_width(),
                self.spec_words_per_row() == old_self.spec_words_per_row(),
                dest < self.spec_height(),
                self.spec_width() <= u32::MAX,
                forall|j: int| 0 <= j < cols@.len() ==> #[trigger] cols@[j] < self.spec_width(),
                forall|j: int| 0 <= j < cols@.len() ==> cols@[0] <= #[trigger] cols@[j],
                start_col == cols@[0],
                weight == self.ones(dest as int, start_col as int, self.spec_width() as int),
                forall|row: int, c: int|
                    0 <= row < old_self.spec_height() && 0 <= c < old_self.spec_width()
                        ==> #[trigger] self.bit(row, c) == (if row == dest {
                        old_self.bit(row, c) != (column_count(cols@.subrange(0, i as int), c) % 2
                            == 1)
                    } else {
                        old_self.bit(row, c)
                    }),
            decreases n - i,
        {
            let col = cols[i];
            let ghost before = *self;
            let was_set = self.toggle(dest, col);
            proof {
                before.lemma_ones_toggle_suffix(
                    self,
                    dest as int,
                    col as int,
                    start_col as int,
                    self.spec_width() as int,
                );
                self.lemma_ones_bound(dest as int, start_col as int, self.spec_width() as int);
                assert(cols@.subrange(0, i + 1).drop_last() =~= cols@.subrange(0, i as int));
            }
            if was_set {
                weight -= 1;
            } else {
                weight += 1;
            }
            i += 1;
        }
        assert(cols@.subrange(0, n as int) =~= cols@);
        let first_one = if weight == 0 {
            proof {
                self.lemma_ones_zero_clear(dest as int, start_col as int, self.spec_width() as int);
            }
            None
        } else {
            self.first_one_at_or_after(dest, start_col)
        };
        (weight, first_one)
    }

    /// Flips the listed 16-bit columns of row `dest` (none before the first listed one),
    /// keeping `weight` as the row's number of ones from the first listed column on, and finds
    /// the row's first one from that column on.
    pub fn xor_u16_columns_update_weight_and_first_one(
        &mut self,
        dest: usize,
        cols: &[u16],
        weight: u32,
    ) -> (r: (u32, Option<usize>))
        requires
            old(self).wf(),
            dest < old(self).spec_height(),
            old(self).spec_width() <= u32::MAX,
            forall|i: int| 0 <= i < cols@.len() ==> #[trigger] cols@[i] < old(self).spec_width(),
            forall|i: int| 0 <= i < cols@.len() ==> cols@[0] <= #[trigger] cols@[i],
            cols@.len() > 0 ==> old(self).ones(dest as int, cols@[0] as int, old(self).spec_width() as int)
                <= weight,
            cols@.len() > 0 ==> weight - old(self).ones(
                dest as int,
                cols@[0] as int,
                old(self).spec_width() as int,
            ) + old(self).spec_width() <= u32::MAX,
        ensures
            final(self).wf(),
            final(self).spec_height() == old(self).spec_height(),
            final(self).spec_width() == old(self).spec_width(),
            forall|row: int, c: int|
                0 <= row < old(self).spec_height() && 0 <= c < old(self).spec_width()
                    ==> #[trigger] final(self).bit(row, c) == (if row == dest {
                    old(self).bit(row, c) != (toggle_count(cols@, c) % 2 == 1)
                } else {
                    old(self).bit(row, c)
                }),
            cols@.len() == 0 ==> r == (weight, None::<usize>),
            cols@.len() > 0 ==> r.0 == weight - old(self).ones(
                dest as int,
                cols@[0] as int,
                old(self).spec_width() as int,
            ) + final(self).ones(dest as int, cols@[0] as int, final(self).spec_width() as int),
            cols@.len() > 0 ==> match r.1 {
                None => forall|c: int|
                    cols@[0] <= c < final(self).spec_width() ==> !#[trigger] final(self).bit(
                        dest as int,
                        c,
                    ),
                Some(c) => cols@[0] <= c < final(self).spec_width() && final(self).bit(
                    dest as int,
                    c as int,
                ) && forall|c2: int|
                    cols@[0] <= c2 < c ==> !#[trigger] final(self).bit(dest as int, c2),
            },
    {
        let n = cols.len();
        if n == 0 {
            return (weight, None);
        }
        let start_col = cols[0] as usize;
        let ghost weight0 = weight;
        let mut weight = weight;
        let ghost old_self = *self;
        let ghost ones0 = old_self.ones(dest as int, start_col as int, old_self.spec_width() as int);
        let mut i: usize = 0;
        while i < n
            invariant
                n == cols@.len(),
                i <= n,
                self.wf(),
                self.spec_height() == old_self.spec_height(),
                self.spec_width() == old_self.spec_width(),
                self.spec_words_per_row() == old_self.spec_words_per_row(),
                dest < self.spec_height(),
                self.spec_width() <= u32::MAX,
                forall|j: int| 0 <= j < cols@.len() ==> #[trigger] cols@[j] < self.spec_width(),
                forall|j: int| 0 <= j < cols@.len() ==> cols@[0] <= #[trigger] cols@[j],
                start_col == cols@[0],
                ones0 <= weight0,
                weight0 - ones0 + self.spec_width() <= u32::MAX,
                weight == weight0 - ones0 + self.ones(dest as int, start_col as int, self.spec_width() as int),
                forall|row: int, c: int|
                    0 <= row < old_self.spec_height() && 0 <= c < old_self.spec_width()
                        ==> #[trigger] self.bit(row, c) == (if row == dest {
                        old_self.bit(row, c) != (toggle_count(cols@.subrange(0, i as int), c) % 2
                            == 1)
                    } else {
                        old_self.bit(row, c)
                    }),
            decreases n - i,
        {
            let col = cols[i] as usize;
            let ghost before = *self;
            let was_set = self.toggle(dest, col);
            proof {
                before.lemma_ones_toggle_suffix(
                    self,
                    dest as int,
                    col as int,
                    start_col as int,
                    self.spec_width() as int,
                );
                self.lemma_ones_bound(dest as int, start_col as int, self.spec_width() as int);
                assert(cols@.subrange(0, i + 1).drop_last() =~= cols@.subrange(0, i as int));
            }
            if was_set {
                weight -= 1;
            } else {
                weight += 1;
            }
            i += 1;
        }
        assert(cols@.subrange(0, n as int) =~= cols@);
        proof {
            self.lemma_ones_bound(dest as int, start_col as int, self.spec_width() as int);
        }
        let first_one = if weight == 0 {
            proof {
                self.lemma_ones_zero_clear(dest as int, start_col as int, self.spec_width() as int);
            }
            None
        } else {
            self.first_one_at_or_after(dest, start_col)
        };
        (weight, first_one)
    }

    /// Flips the listed 16-bit columns of row `dest` when the caller already knows the row's
    /// resulting weight and first one, which are handed back unchanged.
    pub fn xor_u16_columns_apply_known_state(
        &mut self,
        dest: usize,
        cols: &[u16],
        weight: u32,
        first_one: Option<usize>,
    ) -> (r: (u32, Option<usize>))
        requires
            old(self).wf(),
            dest < old(self).spec_height(),
            forall|i: int| 0 <= i < cols@.len() ==> #[trigger] cols@[i] < old(self).spec_width(),
        ensures
            final(self).wf(),
            final(self).spec_height() == old(self).spec_height(),
            final(self).spec_width() == old(self).spec_width(),
            r == (weight, first_one),
            forall|row: int, c: int|
                0 <= row < old(self).spec_height() && 0 <= c < old(self).spec_width() ==> #[trigger] final(self).bit(row, c)
                    == (if row == dest {
                    old(self).bit(row, c) != (toggle_count(cols@, c) % 2 == 1)
                } else {
                    old(self).bit(row, c)
                }),
    {
        let n = cols.len();
        let ghost old_self = *self;
        let mut i: usize = 0;
        while i < n
            invariant
                n == cols@.len(),
                i <= n,
                self.wf(),
                self.spec_height() == old_self.spec_height(),
                self.spec_width() == old_self.spec_width(),
                self.spec_words_per_row() == old_self.spec_words_per_row(),
                dest < self.spec_height(),
                forall|j: int| 0 <= j < cols@.len() ==> #[trigger] cols@[j] < self.spec_width(),
                forall|row: int, c: int|
                    0 <= row < old_self.spec_height() && 0 <= c < old_self.spec_width() ==> #[trigger] self.bit(row, c)
                        == (if row == dest {
                        old_self.bit(row, c) != (toggle_count(cols@.subrange(0, i as int), c) % 2
                            == 1)
                    } else {
                        old_self.bit(row, c)
                    }),
            decreases n - i,
        {
            let col = cols[i] as usize;
            let ghost before = *self;
            self.toggle(dest, col);
            proof {
                assert(cols@.subrange(0, i + 1).drop_last() =~= cols@.subrange(0, i as int));
            }
            i += 1;
        }
        proof {
            assert(cols@.subrange(0, n as int) =~= cols@);
        }
        (weight, first_one)
    }
}

/// How many times column `c` is listed.
pub open spec fn column_count(cols: Seq<usize>, c: int) -> nat
    decreases cols.len(),
{
    if cols.len() == 0 {
        0
    } else {
        column_count(cols.drop_last(), c) + if cols.last() == c {
            1nat
        } else {
            0nat
        }
    }
}

/// How many times column `c` is listed.
pub open spec fn toggle_count(cols: Seq<u16>, c: int) -> nat
    decreases cols.len(),
{
    if cols.len() == 0 {
        0
    } else {
        toggle_count(cols.drop_last(), c) + if cols.last() == c {
            1nat
        } else {
            0nat
        }
    }
}

proof fn lemma_toggle_bits(w: u64, m: u64, k: u64)
    requires
        k < 64,
        m == 1u64 << k,
    ensures
        forall|j: u64| j < 64 ==> #[trigger] bit_of(w ^ m, j) == (if j == k {
            !bit_of(w, j)
        } else {
            bit_of(w, j)
        }),
        (w & m != 0) == bit_of(w, k),
{
    assert forall|j: u64| j < 64 implies #[trigger] bit_of(w ^ m, j) == (if j == k {
        !bit_of(w, j)
    } else {
        bit_of(w, j)
    }) by {
        assert((((w ^ (1u64 << k)) >> j) & 1u64 == 1u64) == (if j == k {
            !((w >> j) & 1u64 == 1u64)
        } else {
            (w >> j) & 1u64 == 1u64
        })) by (bit_vector)
            requires
                k < 64,
                j < 64,
        ;
    }
    assert(((w & (1u64 << k)) != 0u64) == ((w >> k) & 1u64 == 1u64)) by (bit_vector)
        requires
            k < 64,
    ;
}

} // verus!

verus! {

/// Every listed column of every row is below `width`.
pub open spec fn entries_below(rows: Seq<Vec<usize>>, width: nat) -> bool {
    forall|r: int, i: int|
        0 <= r < rows.len() && 0 <= i < rows[r]@.len() ==> #[trigger] rows[r]@[i] < width
}

/// The packed rows hold exactly the listed columns of each row.
pub open spec fn packs_entries(p: PackedBinaryRows, rows: Seq<Vec<usize>>, width: nat) -> bool {
    &&& p.wf()
    &&& p.spec_height() == rows.len()
    &&& p.spec_width() == width
    &&& forall|r: int, c: int|
        0 <= r < rows.len() && 0 <= c < width ==> #[trigger] p.bit(r, c) == rows[r]@.contains(
            c as usize,
        )
}

impl PackedBinaryRows {
    /// Packs rows given as lists of their set columns.
    pub fn from_sparse(rows: Vec<Vec<usize>>, width: usize) -> (r: PackedBinaryRows)
        requires
            packable(rows@.len(), width as nat),
            entries_below(rows@, width as nat),
        ensures
            packs_entries(r, rows@, width as nat),
    {
        let height = rows.len();
        let mut packed = PackedBinaryRows::new(height, width);
        let mut row: usize = 0;
        while row < height
            invariant
                height == rows@.len(),
                row <= height,
                entries_below(rows@, width as nat),
                packed.wf(),
                packed.spec_height() == height,
                packed.spec_width() == width,
                forall|r: int, c: int|
                    0 <= r < height && 0 <= c < packed.spec_words_per_row() * 64 ==> #[trigger] packed.bit(
                        r,
                        c,
                    ) == (r < row && c < width && rows@[r]@.contains(c as usize)),
            decreases height - row,
        {
            let ghost before = packed;
            packed.set_entries(row, rows[row].as_slice());
            proof {
                assert forall|r: int, c: int|
                    0 <= r < height && 0 <= c < packed.spec_words_per_row() * 64 implies #[trigger] packed.bit(
                    r,
                    c,
                ) == (r < row + 1 && c < width && rows@[r]@.contains(c as usize)) by {
                    if r == row && rows@[r]@.contains(c as usize) && c >= width {
                        let i = choose|i: int|
                            0 <= i < rows@[r]@.len() && rows@[r]@[i] == c as usize;
                        assert(rows@[r]@[i] < width);
                    }
                }
            }
            row += 1;
        }
        packed
    }

    /// Packs every row of a binary matrix.
    pub fn from_matrix<M: BinaryMatrix>(matrix: &M) -> (r: PackedBinaryRows)
        requires
            matrix.inv(),
            packable(matrix.spec_height(), matrix.spec_width()),
        ensures
            packs_bits(
                r,
                matrix.spec_height(),
                matrix.spec_width(),
                |i: int, j: int| matrix.spec_bit(i, j),
            ),
    {
        let height = matrix.height();
        let width = matrix.width();
        let mut packed = PackedBinaryRows::new(height, width);
        let mut row: usize = 0;
        while row < height
            invariant
                matrix.inv(),
                height == matrix.spec_height(),
                width == matrix.spec_width(),
                row <= height,
                packed.wf(),
                packed.spec_height() == height,
                packed.spec_width() == width,
                forall|r: int, c: int|
                    0 <= r < height && 0 <= c < packed.spec_words_per_row() * 64 ==> #[trigger] packed.bit(
                        r,
                        c,
                    ) == (r < row && c < width && matrix.spec_bit(r, c)),
            decreases height - row,
        {
            let entries = matrix.row_entries(row);
            let ghost before = packed;
            packed.set_entries(row, entries.as_slice());
            proof {
                assert forall|r: int, c: int|
                    0 <= r < height && 0 <= c < packed.spec_words_per_row() * 64 implies #[trigger] packed.bit(
                    r,
                    c,
                ) == (r < row + 1 && c < width && matrix.spec_bit(r, c)) by {
                    if r == row && entries@.contains(c as usize) {
                        let i = choose|i: int| 0 <= i < entries@.len() && entries@[i] == c as usize;
                        assert(entries@[i] < width && matrix.spec_bit(row as int, entries@[i] as int));
                    }
                    if r == row && c < width && matrix.spec_bit(r, c) {
                        let bits = |c2: int| matrix.spec_bit(row as int, c2);
                        assert(bits(c));
                        assert(entries@.contains(c as usize));
                    }
                }
            }
            row += 1;
        }
        packed
    }

    /// Packs rows given as lists of distinct set columns, with each row's number of ones and
    /// first one.
    pub fn from_sparse_entries_with_row_weights_and_first_ones(
        width: usize,
        rows: &Vec<Vec<usize>>,
    ) -> (r: (PackedBinaryRows, Vec<u32>, Vec<Option<usize>>))
        requires
            packable(rows@.len(), width as nat),
            entries_below(rows@, width as nat),
            width <= u32::MAX,
        ensures
            packs_entries(r.0, rows@, width as nat),
            weights_of(r.0, r.1@),
            first_ones_of(r.0, r.2@),
    {
        let height = rows.len();
        let mut packed = PackedBinaryRows::new(height, width);
        let mut row_weights: Vec<u32> = Vec::new();
        let mut first_ones: Vec<Option<usize>> = Vec::new();
        fill_sparse_entry_metadata_chunk(width, rows, &mut packed, &mut row_weights, &mut first_ones);
        (packed, row_weights, first_ones)
    }

    /// Packs rows given as lists of set columns, with each row's first one.
    pub fn from_sparse_entries_with_first_ones(width: usize, rows: &Vec<Vec<usize>>) -> (r: (
        PackedBinaryRows,
        Vec<Option<usize>>,
    ))
        requires
            packable(rows@.len(), width as nat),
            entries_below(rows@, width as nat),
        ensures
            packs_entries(r.0, rows@, width as nat),
            first_ones_of(r.0, r.1@),
    {
        let height = rows.len();
        let mut packed = PackedBinaryRows::new(height, width);
        let mut first_ones: Vec<Option<usize>> = Vec::new();
        fill_sparse_entry_first_ones(width, rows, &mut packed, &mut first_ones);
        (packed, first_ones)
    }
}

/// Sets the listed columns of one row and returns the smallest of them, if any.
fn fill_sparse_entry_row(width: usize, packed: &mut PackedBinaryRows, row: usize, entries: &Vec<usize>) -> (first: Option<usize>)
    requires
        old(packed).wf(),
        row < old(packed).spec_height(),
        width == old(packed).spec_width(),
        forall|i: int| 0 <= i < entries@.len() ==> #[trigger] entries@[i] < width,
        forall|c: int| 0 <= c < old(packed).spec_words_per_row() * 64 ==> !#[trigger] old(packed).bit(row as int, c),
    ensures
        final(packed).wf(),
        final(packed).spec_height() == old(packed).spec_height(),
        final(packed).spec_width() == old(packed).spec_width(),
        final(packed).spec_words_per_row() == old(packed).spec_words_per_row(),
        forall|r: int, c: int|
            0 <= r < old(packed).spec_height() && 0 <= c < old(packed).spec_words_per_row() * 64
                ==> #[trigger] final(packed).bit(r, c) == (if r == row {
                entries@.contains(c as usize)
            } else {
                old(packed).bit(r, c)
            }),
        match first {
            None => entries@.len() == 0,
            Some(c) => entries@.contains(c) && forall|i: int| 0 <= i < entries@.len() ==> c <= #[trigger] entries@[i],
        },
{
    let mut first_one = width;
    let mut i: usize = 0;
    let ghost old_packed = *packed;
    while i < entries.len()
        invariant
            i <= entries@.len(),
            packed.wf(),
            packed.spec_height() == old_packed.spec_height(),
            packed.spec_width() == old_packed.spec_width(),
            packed.spec_words_per_row() == old_packed.spec_words_per_row(),
            row < packed.spec_height(),
            width == packed.spec_width(),
            forall|j: int| 0 <= j < entries@.len() ==> #[trigger] entries@[j] < width,
            forall|r: int, c: int|
                0 <= r < old_packed.spec_height() && 0 <= c < old_packed.spec_words_per_row() * 64
                    ==> #[trigger] packed.bit(r, c) == (if r == row {
                    exists|j: int| 0 <= j < i && #[trigger] entries@[j] == c as usize && c < width
                } else {
                    old_packed.bit(r, c)
                }),
            first_one <= width,
            i == 0 ==> first_one == width,
            i > 0 ==> first_one < width && exists|j: int| 0 <= j < i && entries@[j] == first_one,
            forall|j: int| 0 <= j < i ==> first_one <= #[trigger] entries@[j],
        decreases entries@.len() - i,
    {
        let col = entries[i];
        if col < first_one {
            first_one = col;
        }
        let ghost before = *packed;
        packed.set(row, col);
        proof {
            assert forall|r: int, c: int|
                0 <= r < old_packed.spec_height() && 0 <= c < old_packed.spec_words_per_row() * 64
                    implies #[trigger] packed.bit(r, c) == (if r == row {
                    exists|j: int| 0 <= j < i + 1 && #[trigger] entries@[j] == c as usize && c < width
                } else {
                    old_packed.bit(r, c)
                }) by {
                if r == row && c == col {
                    assert(entries@[i as int] == c as usize);
                }
                if r == row && c != col {
                    if exists|j: int| 0 <= j < i + 1 && #[trigger] entries@[j] == c as usize && c < width {
                        let j = choose|j: int| 0 <= j < i + 1 && #[trigger] entries@[j] == c as usize && c < width;
                        assert(j < i);
                    }
                }
            }
        }
        i += 1;
    }
    proof {
        assert forall|r: int, c: int|
            0 <= r < old_packed.spec_height() && 0 <= c < old_packed.spec_words_per_row() * 64
                implies #[trigger] packed.bit(r, c) == (if r == row {
                entries@.contains(c as usize)
            } else {
                old_packed.bit(r, c)
            }) by {
            if r == row && entries@.contains(c as usize) {
                let j = choose|j: int| 0 <= j < entries@.len() && entries@[j] == c as usize;
                assert(entries@[j] < width);
            }
        }
    }
    if first_one != width {
        Some(first_one)
    } else {
        None
    }
}

/// Fills every row with its listed columns and records each row's weight and first one.
fn fill_sparse_entry_metadata_chunk(
    width: usize,
    rows: &Vec<Vec<usize>>,
    packed: &mut PackedBinaryRows,
    row_weights: &mut Vec<u32>,
    first_ones: &mut Vec<Option<usize>>,
)
    requires
        old(packed).wf(),
        old(packed).spec_height() == rows@.len(),
        old(packed).spec_width() == width,
        width <= u32::MAX,
        entries_below(rows@, width as nat),
        forall|r: int, c: int|
            0 <= r < rows@.len() && 0 <= c < old(packed).spec_words_per_row() * 64 ==> !#[trigger] old(packed).bit(r, c),
        old(row_weights)@.len() == 0,
        old(first_ones)@.len() == 0,
    ensures
        packs_entries(*final(packed), rows@, width as nat),
        weights_of(*final(packed), final(row_weights)@),
        first_ones_of(*final(packed), final(first_ones)@),
{
    fill_sparse_entry_first_ones(width, rows, packed, first_ones);
    let height = rows.len();
    let mut row: usize = 0;
    while row < height
        invariant
            packed.wf(),
            packed.spec_height() == height,
            height == rows@.len(),
            packed.spec_width() <= u32::MAX,
            row <= height,
            row_weights@.len() == row,
            forall|r: int| 0 <= r < row ==> #[trigger] row_weights@[r] == packed.ones(r, 0, packed.spec_width() as int),
        decreases height - row,
    {
        row_weights.push(packed.weight_at_or_after(row, 0));
        row += 1;
    }
}

/// Fills every row with its listed columns and records each row's first one.
fn fill_sparse_entry_first_ones(
    width: usize,
    rows: &Vec<Vec<usize>>,
    packed: &mut PackedBinaryRows,
    first_ones: &mut Vec<Option<usize>>,
)
    requires
        old(packed).wf(),
        old(packed).spec_height() == rows@.len(),
        old(packed).spec_width() == width,
        entries_below(rows@, width as nat),
        forall|r: int, c: int|
            0 <= r < rows@.len() && 0 <= c < old(packed).spec_words_per_row() * 64 ==> !#[trigger] old(packed).bit(r, c),
        old(first_ones)@.len() == 0,
    ensures
        packs_entries(*final(packed), rows@, width as nat),
        first_ones_of(*final(packed), final(first_ones)@),
        final(packed).spec_words_per_row() == old(packed).spec_words_per_row(),
{
    let height = rows.len();
    let ghost old_packed = *packed;
    let mut row: usize = 0;
    while row < height
        invariant
            packed.wf(),
            packed.spec_height() == height,
            packed.spec_width() == width,
            packed.spec_words_per_row() == old_packed.spec_words_per_row(),
            height == rows@.len(),
            entries_below(rows@, width as nat),
            row <= height,
            first_ones@.len() == row,
            forall|r: int, c: int|
                0 <= r < height && 0 <= c < packed.spec_words_per_row() * 64 ==> #[trigger] packed.bit(r, c)
                    == (if r < row {
                    rows@[r]@.contains(c as usize)
                } else {
                    false
                }),
            forall|r: int|
                0 <= r < row ==> match #[trigger] first_ones@[r] {
                    None => forall|c: int| 0 <= c < width ==> !#[trigger] packed.bit(r, c),
                    Some(c) => c < width && packed.bit(r, c as int) && forall|c2: int|
                        0 <= c2 < c ==> !#[trigger] packed.bit(r, c2),
                },
        decreases height - row,
    {
        let ghost before = *packed;
        proof {
            assert forall|i: int| 0 <= i < rows@[row as int]@.len() implies #[trigger] rows@[row as int]@[i] < width by {}
        }
        let first = fill_sparse_entry_row(width, packed, row, &rows[row]);
        first_ones.push(first);
        proof {
            assert forall|r: int|
                0 <= r < row + 1 implies match #[trigger] first_ones@[r] {
                    None => forall|c: int| 0 <= c < width ==> !#[trigger] packed.bit(r, c),
                    Some(c) => c < width && packed.bit(r, c as int) && forall|c2: int|
                        0 <= c2 < c ==> !#[trigger] packed.bit(r, c2),
                } by {
                if r == row {
                    match first {
                        None => {
                            assert forall|c: int| 0 <= c < width implies !#[trigger] packed.bit(r, c) by {
                                assert(!rows@[r]@.contains(c as usize));
                            }
                        },
                        Some(c) => {
                            let j = choose|j: int| 0 <= j < rows@[r]@.len() && rows@[r]@[j] == c;
                            assert(rows@[r]@[j] < width);
                            assert forall|c2: int| 0 <= c2 < c implies !#[trigger] packed.bit(r, c2) by {
                                if rows@[r]@.contains(c2 as usize) {
                                    let j2 = choose|j2: int| 0 <= j2 < rows@[r]@.len() && rows@[r]@[j2] == c2 as usize;
                                    assert(c <= rows@[r]@[j2]);
                                }
                            }
                        },
                    }
                } else {
                    match first_ones@[r] {
                        None => {
                            assert forall|c: int| 0 <= c < width implies !#[trigger] packed.bit(r, c) by {
                                assert(!before.bit(r, c));
                            }
                        },
                        Some(c) => {
                            assert(before.bit(r, c as int));
                            assert forall|c2: int| 0 <= c2 < c implies !#[trigger] packed.bit(r, c2) by {
                                assert(!before.bit(r, c2));
                            }
                        },
                    }
                }
            }
        }
        row += 1;
    }
}

} // verus!

verus! {

use crate::matrix::byte_bit;

/// OR-ing byte `b` into byte lane `k` of a word sets exactly that lane's bits of `b`.
proof fn lemma_or_byte_lane(bits: u64, b: u8, k: u64, j: u64)
    by (bit_vector)
    requires
        k < 8,
        j < 64,
    ensures
        bit_of(bits | ((b as u64) << (8 * k)), j) == (bit_of(bits, j) || (8 * k <= j && j < 8 * k
            + 8 && (b >> ((j - 8 * k) as u8)) & 1u8 == 1u8)),
{
}

/// Bit `j` of `w >> o` is bit `j + o` of `w`.
proof fn lemma_shift_right_bit(w: u64, o: u64, j: u64)
    by (bit_vector)
    requires
        o < 64,
        j < 64,
    ensures
        bit_of(w >> o, j) == (j + o < 64 && bit_of(w, (j + o) as u64)),
{
}

/// OR-ing byte `b` in at the top `o` bits of a word.
proof fn lemma_or_high_byte(x: u64, b: u8, o: u64, j: u64)
    by (bit_vector)
    requires
        0 < o < 8,
        j < 64,
    ensures
        bit_of(x | ((b as u64) << ((64 - o) as u64)), j) == (bit_of(x, j) || (j >= 64 - o && (b
            >> ((j + o - 64) as u8)) & 1u8 == 1u8)),
{
}

/// The mask of the lowest `v` bits.
proof fn lemma_low_mask(v: u64, j: u64)
    by (bit_vector)
    requires
        v < 64,
        j < 64,
    ensures
        1u64 << v >= 1u64,
        bit_of(((1u64 << v) - 1u64) as u64, j) == (j < v),
{
}

/// The word whose lowest `valid_bits` bits are set.
pub fn valid_bit_mask(valid_bits: usize) -> (r: u64)
    requires
        1 <= valid_bits <= 64,
    ensures
        forall|j: u64| j < 64 ==> #[trigger] bit_of(r, j) == (j < valid_bits),
{
    if valid_bits == 64 {
        proof {
            assert forall|j: u64| j < 64 implies #[trigger] bit_of(u64::MAX, j) == (j < valid_bits) by {
                lemma_bit_ops(0, 0, j);
            }
        }
        u64::MAX
    } else {
        let v = valid_bits as u64;
        proof {
            lemma_low_mask(v, 0);
            assert forall|j: u64| j < 64 implies #[trigger] bit_of(((1u64 << v) - 1u64) as u64, j)
                == (j < valid_bits) by {
                lemma_low_mask(v, j);
            }
        }
        (1u64 << v) - 1
    }
}

/// Bit `b` of the byte string is byte `b / 8`'s bit `b % 8`: the lane of byte `i` in a word
/// built from bytes `first, first + 1, ...` holds bits `8 * (i - first)` to `8 * (i - first) + 7`.
proof fn lemma_byte_bit_lane(bytes: Seq<u8>, first: int, k: int, j: int)
    requires
        0 <= first,
        0 <= k,
        8 * k <= j < 8 * k + 8,
        first + k < bytes.len(),
    ensures
        byte_bit(bytes, 8 * first + j) == ((bytes[first + k] >> ((j - 8 * k) as u8)) & 1u8
            == 1u8),
{
    assert((8 * first + j) / 8 == first + k);
    assert((8 * first + j) % 8 == j - 8 * k);
}

/// `valid_bits` bits of `bytes` from bit `start_bit` on, least significant bit first, as the
/// low bits of a word.
pub fn read_le_bits(bytes: &[u8], start_bit: usize, valid_bits: usize) -> (r: u64)
    requires
        1 <= valid_bits <= 64,
        start_bit + valid_bits <= bytes@.len() * 8,
    ensures
        forall|j: u64| j < 64 ==> #[trigger] bit_of(r, j) == (j < valid_bits && byte_bit(
            bytes@,
            start_bit + j,
        )),
{
    let byte_start = start_bit / 8;
    let bit_offset = start_bit % 8;
    let byte_len = (bit_offset + valid_bits + 7) / 8;
    assert(byte_start + byte_len <= bytes@.len());
    let n = if byte_len < 8 {
        byte_len
    } else {
        8
    };
    let total = bytes.len();
    let mut bits: u64 = 0;
    let mut offset: usize = 0;
    proof {
        assert forall|j: u64| j < 64 implies #[trigger] bit_of(bits, j) == (j < 8 * offset
            && byte_bit(bytes@, 8 * byte_start + j)) by {
            lemma_bit_ops(0, 0, j);
        }
    }
    while offset < n
        invariant
            n <= 8,
            n <= byte_len,
            byte_start + byte_len <= bytes@.len(),
            total == bytes@.len(),
            offset <= n,
            forall|j: u64| j < 64 ==> #[trigger] bit_of(bits, j) == (j < 8 * offset && byte_bit(
                bytes@,
                8 * byte_start + j,
            )),
        decreases n - offset,
    {
        let byte = bytes[byte_start + offset];
        let ghost old_bits = bits;
        let k = offset as u64;
        bits = bits | ((byte as u64) << (8 * k));
        proof {
            assert forall|j: u64| j < 64 implies #[trigger] bit_of(bits, j) == (j < 8 * (offset
                + 1) && byte_bit(bytes@, 8 * byte_start + j)) by {
                lemma_or_byte_lane(old_bits, byte, k, j);
                if 8 * k <= j && j < 8 * k + 8 {
                    lemma_byte_bit_lane(bytes@, byte_start as int, k as int, j as int);
                }
            }
        }
        offset += 1;
    }
    let o = bit_offset as u64;
    let mut shifted = bits >> o;
    proof {
        assert forall|j: u64| j < 64 implies #[trigger] bit_of(shifted, j) == (j + o < 64 && j
            + o < 8 * n && byte_bit(bytes@, 8 * byte_start + j + o)) by {
            lemma_shift_right_bit(bits, o, j);
        }
    }
    if bit_offset != 0 && byte_len > 8 {
        let high = bytes[byte_start + 8];
        let ghost low = shifted;
        shifted = shifted | ((high as u64) << (64 - o));
        proof {
            assert forall|j: u64| j < 64 implies #[trigger] bit_of(shifted, j) == (j + o < 72
                && byte_bit(bytes@, 8 * byte_start + j + o)) by {
                lemma_or_high_byte(low, high, o, j);
                if j + o >= 64 {
                    lemma_byte_bit_lane(bytes@, byte_start as int, 8, (j + o) as int);
                }
            }
        }
    }
    let mask = valid_bit_mask(valid_bits);
    let r = shifted & mask;
    proof {
        assert forall|j: u64| j < 64 implies #[trigger] bit_of(r, j) == (j < valid_bits
            && byte_bit(bytes@, start_bit + j)) by {
            lemma_bit_ops(shifted, mask, j);
            assert(start_bit + j == 8 * byte_start + j + o);
        }
    }
    r
}

} // verus!
