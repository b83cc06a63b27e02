//! Binary matrices: the operations the solver needs, and a dense bit-array implementation.

use crate::gf2::PackedBinaryRows;
use crate::octet::Octet;
use vstd::prelude::*;

verus! {

/// A packed row set of this shape can be allocated.
pub open spec fn packable(height: nat, width: nat) -> bool {
    &&& width + 63 <= usize::MAX
    &&& height * ((width + 63) / 64) <= usize::MAX
}

/// `entries` lists the set columns of a row in increasing order.
pub open spec fn lists_row(entries: Seq<usize>, bits: spec_fn(int) -> bool, width: nat) -> bool {
    &&& forall|i: int, j: int| 0 <= i < j < entries.len() ==> entries[i] < entries[j]
    &&& forall|i: int| 0 <= i < entries.len() ==> (#[trigger] entries[i]) < width && bits(
        entries[i] as int,
    )
    &&& forall|c: int| 0 <= c < width && #[trigger] bits(c) ==> entries.contains(c as usize)
}

/// The packed rows hold the first `height` rows of a matrix of the given width and entries.
pub open spec fn packs_bits(
    p: PackedBinaryRows,
    height: nat,
    width: nat,
    bits: spec_fn(int, int) -> bool,
) -> bool {
    &&& p.wf()
    &&& p.spec_height() == height
    &&& p.spec_width() == width
    &&& forall|r: int, c: int| 0 <= r < height && 0 <= c < width ==> #[trigger] p.bit(r, c) == bits(r, c)
}

/// The weights count the ones of each packed row.
pub open spec fn weights_of(p: PackedBinaryRows, weights: Seq<u32>) -> bool {
    &&& weights.len() == p.spec_height()
    &&& forall|r: int|
        0 <= r < weights.len() ==> #[trigger] weights[r] == p.ones(r, 0, p.spec_width() as int)
}

/// Each entry is the first set column of its packed row, if any.
pub open spec fn first_ones_of(p: PackedBinaryRows, first_ones: Seq<Option<usize>>) -> bool {
    &&& first_ones.len() == p.spec_height()
    &&& forall|r: int|
        0 <= r < first_ones.len() ==> match #[trigger] first_ones[r] {
            None => forall|c: int| 0 <= c < p.spec_width() ==> !#[trigger] p.bit(r, c),
            Some(c) => c < p.spec_width() && p.bit(r, c as int) && forall|c2: int|
                0 <= c2 < c ==> !#[trigger] p.bit(r, c2),
        }
}

/// A matrix over GF(2), read as octets zero and one.
pub trait BinaryMatrix: Sized {
    spec fn spec_height(&self) -> nat;

    spec fn spec_width(&self) -> nat;

    /// Whether the entry at `(row, col)` is one.
    spec fn spec_bit(&self, row: int, col: int) -> bool;

    /// The representation is consistent.
    spec fn inv(&self) -> bool;

    fn new(height: usize, width: usize) -> (r: Self)
        requires
            height * width <= usize::MAX,
        ensures
            r.inv(),
            r.spec_height() == height,
            r.spec_width() == width,
            forall|i: int, j: int| !#[trigger] r.spec_bit(i, j),
    ;

    fn height(&self) -> (r: usize)
        requires
            self.inv(),
        ensures
            r == self.spec_height(),
    ;

    fn width(&self) -> (r: usize)
        requires
            self.inv(),
        ensures
            r == self.spec_width(),
    ;

    fn get(&self, row: usize, col: usize) -> (r: Octet)
        requires
            self.inv(),
            row < self.spec_height(),
            col < self.spec_width(),
        ensures
            r@ == (if self.spec_bit(row as int, col as int) {
                1u8
            } else {
                0u8
            }),
    ;

    fn set(&mut self, row: usize, col: usize, value: bool)
        requires
            old(self).inv(),
            row < old(self).spec_height(),
            col < old(self).spec_width(),
        ensures
            final(self).inv(),
            final(self).spec_height() == old(self).spec_height(),
            final(self).spec_width() == old(self).spec_width(),
            forall|i: int, j: int| #[trigger]
                final(self).spec_bit(i, j) == if i == row && j == col {
                    value
                } else {
                    old(self).spec_bit(i, j)
                },
    ;

    /// Flips the entry at `(row, col)`.
    fn toggle(&mut self, row: usize, col: usize)
        requires
            old(self).inv(),
            row < old(self).spec_height(),
            col < old(self).spec_width(),
        ensures
            final(self).inv(),
            final(self).spec_height() == old(self).spec_height(),
            final(self).spec_width() == old(self).spec_width(),
            forall|i: int, j: int| #[trigger]
                final(self).spec_bit(i, j) == if i == row && j == col {
                    !old(self).spec_bit(i, j)
                } else {
                    old(self).spec_bit(i, j)
                },
    {
        let next = self.get(row, col).is_zero();
        self.set(row, col, next);
    }

    /// Sets an entry known to be zero.
    fn toggle_unique(&mut self, row: usize, col: usize)
        requires
            old(self).inv(),
            row < old(self).spec_height(),
            col < old(self).spec_width(),
            !old(self).spec_bit(row as int, col as int),
        ensures
            final(self).inv(),
            final(self).spec_height() == old(self).spec_height(),
            final(self).spec_width() == old(self).spec_width(),
            forall|i: int, j: int| #[trigger]
                final(self).spec_bit(i, j) == if i == row && j == col {
                    true
                } else {
                    old(self).spec_bit(i, j)
                },
    {
        self.toggle(row, col);
    }

    /// Brings the stored rows into canonical order; the entries do not change.
    fn normalize_rows(&mut self)
        requires
            old(self).inv(),
        ensures
            final(self).inv(),
            final(self).spec_height() == old(self).spec_height(),
            final(self).spec_width() == old(self).spec_width(),
            forall|i: int, j: int| #[trigger] final(self).spec_bit(i, j) == old(self).spec_bit(i, j),
    {
    }

    /// The set columns of row `row`, in increasing order.
    fn row_entries(&self, row: usize) -> (r: Vec<usize>)
        requires
            self.inv(),
            row < self.spec_height(),
        ensures
            lists_row(r@, |c: int| self.spec_bit(row as int, c), self.spec_width()),
    {
        let width = self.width();
        let mut entries: Vec<usize> = Vec::new();
        let mut col: usize = 0;
        while col < width
            invariant
                self.inv(),
                row < self.spec_height(),
                width == self.spec_width(),
                col <= width,
                forall|i: int, j: int| 0 <= i < j < entries@.len() ==> entries@[i] < entries@[j],
                forall|i: int|
                    0 <= i < entries@.len() ==> (#[trigger] entries@[i]) < col && self.spec_bit(
                        row as int,
                        entries@[i] as int,
                    ),
                forall|c: int|
                    0 <= c < col && #[trigger] self.spec_bit(row as int, c) ==> entries@.contains(
                        c as usize,
                    ),
            decreases width - col,
        {
            if !self.get(row, col).is_zero() {
                let ghost before = entries@;
                entries.push(col);
                proof {
                    assert forall|c: int|
                        0 <= c < col + 1 && #[trigger] self.spec_bit(row as int, c) implies entries@.contains(
                        c as usize,
                    ) by {
                        if c == col {
                            assert(entries@[before.len() as int] == col);
                        } else {
                            let i = choose|i: int| 0 <= i < before.len() && before[i] == c as usize;
                            assert(entries@[i] == c as usize);
                        }
                    }
                }
            }
            col += 1;
        }
        entries
    }

    /// The set columns of row `row` in the order a visitor meets them: increasing.
    fn visit_row_entries(&self, row: usize) -> (r: Vec<usize>)
        requires
            self.inv(),
            row < self.spec_height(),
        ensures
            lists_row(r@, |c: int| self.spec_bit(row as int, c), self.spec_width()),
    {
        self.row_entries(row)
    }

    /// The first `height` rows, packed into words.
    fn packed_row_prefix(&self, height: usize) -> (r: PackedBinaryRows)
        requires
            self.inv(),
            height <= self.spec_height(),
            packable(height as nat, self.spec_width()),
        ensures
            packs_bits(r, height as nat, self.spec_width(), |i: int, j: int| self.spec_bit(i, j)),
    {
        let width = self.width();
        let mut rows = PackedBinaryRows::new(height, width);
        let mut row: usize = 0;
        while row < height
            invariant
                self.inv(),
                height <= self.spec_height(),
                width == self.spec_width(),
                rows.wf(),
                rows.spec_height() == height,
                rows.spec_width() == width,
                row <= height,
                forall|r: int, c: int|
                    0 <= r < height && 0 <= c < rows.spec_words_per_row() * 64 ==> #[trigger] rows.bit(
                        r,
                        c,
                    ) == (r < row && c < width && self.spec_bit(r, c)),
            decreases height - row,
        {
            let entries = self.row_entries(row);
            let ghost before = rows;
            rows.set_entries(row, entries.as_slice());
            proof {
                assert forall|r: int, c: int|
                    0 <= r < height && 0 <= c < rows.spec_words_per_row() * 64 implies #[trigger] rows.bit(
                    r,
                    c,
                ) == (r < row + 1 && c < width && self.spec_bit(r, c)) by {
                    assert(rows.bit(r, c) == (before.bit(r, c) || (r == row && entries@.contains(
                        c as usize,
                    ))));
                    if r == row && entries@.contains(c as usize) {
                        let i = choose|i: int| 0 <= i < entries@.len() && entries@[i] == c as usize;
                        assert(entries@[i] < width && self.spec_bit(row as int, entries@[i] as int));
                    }
                    if r == row && c < width && self.spec_bit(r, c) {
                        let bits = |c2: int| self.spec_bit(row as int, c2);
                        assert(bits(c));
                        assert(entries@.contains(c as usize));
                    }
                }
            }
            row += 1;
        }
        rows
    }

    /// All rows, packed into words.
    fn packed_rows(&self) -> (r: PackedBinaryRows)
        requires
            self.inv(),
            packable(self.spec_height(), self.spec_width()),
        ensures
            packs_bits(r, self.spec_height(), self.spec_width(), |i: int, j: int| self.spec_bit(i, j)),
    {
        self.packed_row_prefix(self.height())
    }

    /// The first `height` rows packed, with the number of ones and the first one of each.
    fn packed_row_prefix_with_row_weights_and_first_ones(&self, height: usize) -> (r: (
        PackedBinaryRows,
        Vec<u32>,
        Vec<Option<usize>>,
    ))
        requires
            self.inv(),
            height <= self.spec_height(),
            packable(height as nat, self.spec_width()),
            self.spec_width() <= u32::MAX,
        ensures
            packs_bits(r.0, height as nat, self.spec_width(), |i: int, j: int| self.spec_bit(i, j)),
            weights_of(r.0, r.1@),
            first_ones_of(r.0, r.2@),
    {
        let rows = self.packed_row_prefix(height);
        let (row_weights, first_ones) = row_metadata(&rows);
        (rows, row_weights, first_ones)
    }

    /// All rows packed, with the first one of each.
    fn packed_rows_with_first_ones(&self) -> (r: (PackedBinaryRows, Vec<Option<usize>>))
        requires
            self.inv(),
            packable(self.spec_height(), self.spec_width()),
            self.spec_width() <= u32::MAX,
        ensures
            packs_bits(r.0, self.spec_height(), self.spec_width(), |i: int, j: int| self.spec_bit(i, j)),
            first_ones_of(r.0, r.1@),
    {
        let rows = self.packed_rows();
        let (_, first_ones) = row_metadata(&rows);
        (rows, first_ones)
    }

    /// All rows packed, with the number of ones and the first one of each.
    fn packed_rows_with_row_weights_and_first_ones(&self) -> (r: (
        PackedBinaryRows,
        Vec<u32>,
        Vec<Option<usize>>,
    ))
        requires
            self.inv(),
            packable(self.spec_height(), self.spec_width()),
            self.spec_width() <= u32::MAX,
        ensures
            packs_bits(r.0, self.spec_height(), self.spec_width(), |i: int, j: int| self.spec_bit(i, j)),
            weights_of(r.0, r.1@),
            first_ones_of(r.0, r.2@),
    {
        let rows = self.packed_rows();
        let (row_weights, first_ones) = row_metadata(&rows);
        (rows, row_weights, first_ones)
    }

    /// The set columns of every row, in increasing order.
    fn into_row_entries(self) -> (r: Vec<Vec<usize>>)
        requires
            self.inv(),
        ensures
            r@.len() == self.spec_height(),
            forall|row: int|
                0 <= row < r@.len() ==> lists_row(
                    (#[trigger] r@[row])@,
                    |c: int| self.spec_bit(row, c),
                    self.spec_width(),
                ),
    {
        let height = self.height();
        let mut rows: Vec<Vec<usize>> = Vec::new();
        let mut row: usize = 0;
        while row < height
            invariant
                self.inv(),
                height == self.spec_height(),
                row <= height,
                rows@.len() == row,
                forall|i: int|
                    0 <= i < rows@.len() ==> lists_row(
                        (#[trigger] rows@[i])@,
                        |c: int| self.spec_bit(i, c),
                        self.spec_width(),
                    ),
            decreases height - row,
        {
            let entries = self.row_entries(row);
            rows.push(entries);
            row += 1;
        }
        rows
    }
}

/// The number of ones and the first one of every packed row.
pub fn row_metadata(rows: &PackedBinaryRows) -> (r: (Vec<u32>, Vec<Option<usize>>))
    requires
        rows.wf(),
        rows.spec_width() <= u32::MAX,
    ensures
        weights_of(*rows, r.0@),
        first_ones_of(*rows, r.1@),
{
    let height = rows.height();
    let mut row_weights: Vec<u32> = Vec::new();
    let mut first_ones: Vec<Option<usize>> = Vec::new();
    let mut row: usize = 0;
    while row < height
        invariant
            rows.wf(),
            rows.spec_width() <= u32::MAX,
            height == rows.spec_height(),
            row <= height,
            row_weights@.len() == row,
            first_ones@.len() == row,
            forall|r: int|
                0 <= r < row ==> #[trigger] row_weights@[r] == rows.ones(
                    r,
                    0,
                    rows.spec_width() as int,
                ),
            forall|r: int|
                0 <= r < row ==> match #[trigger] first_ones@[r] {
                    None => forall|c: int| 0 <= c < rows.spec_width() ==> !#[trigger] rows.bit(r, c),
                    Some(c) => c < rows.spec_width() && rows.bit(r, c as int) && forall|c2: int|
                        0 <= c2 < c ==> !#[trigger] rows.bit(r, c2),
                },
        decreases height - row,
    {
        row_weights.push(rows.weight_at_or_after(row, 0));
        first_ones.push(rows.first_one_at_or_after(row, 0));
        row += 1;
    }
    (row_weights, first_ones)
}

} // verus!

verus! {

/// Bit `b` of a byte array, least significant bit first within each byte.
pub open spec fn byte_bit(data: Seq<u8>, b: int) -> bool {
    (data[b / 8] >> ((b % 8) as u8)) & 1u8 == 1u8
}

/// A binary matrix stored one bit per entry, row after row.
#[derive(Clone, Debug, PartialEq, Eq)]
pub struct DenseBinaryMatrix {
    height: usize,
    width: usize,
    data: Vec<u8>,
}

proof fn lemma_byte_ops(x: u8, k: u8, j: u8)
    by (bit_vector)
    requires
        k < 8,
        j < 8,
    ensures
        ((x | (1u8 << k)) >> j) & 1u8 == (if j == k {
            1u8
        } else {
            (x >> j) & 1u8
        }),
        ((x & !(1u8 << k)) >> j) & 1u8 == (if j == k {
            0u8
        } else {
            (x >> j) & 1u8
        }),
        ((x ^ (1u8 << k)) >> j) & 1u8 == (if j == k {
            ((x >> j) & 1u8) ^ 1u8
        } else {
            (x >> j) & 1u8
        }),
        (x & (1u8 << k) == 0u8) <==> ((x >> k) & 1u8 == 0u8),
        (x >> j) & 1u8 == 0u8 || (x >> j) & 1u8 == 1u8,
        (0u8 >> j) & 1u8 == 0u8,
        (((x >> j) & 1u8) ^ 1u8 == 1u8) <==> !((x >> j) & 1u8 == 1u8),
{
}

proof fn lemma_cell_index(i: int, j: int, row: int, col: int, w: int)
    requires
        0 <= i,
        0 <= row,
        0 <= j < w,
        0 <= col < w,
        i != row || j != col,
    ensures
        i * w + j != row * w + col,
{
    if i < row {
        assert(i * w + w <= row * w) by (nonlinear_arith)
            requires
                i < row,
                0 <= w,
        ;
    } else if i > row {
        assert(row * w + w <= i * w) by (nonlinear_arith)
            requires
                row < i,
                0 <= w,
        ;
    }
}

proof fn lemma_cell_in_data(row: int, col: int, h: int, w: int)
    requires
        0 <= row < h,
        0 <= col < w,
    ensures
        0 <= row * w + col < h * w,
        (row * w + col) / 8 < (h * w + 7) / 8,
{
    assert(row * w + col < h * w) by (nonlinear_arith)
        requires
            0 <= row < h,
            0 <= col < w,
    ;
    assert(0 <= row * w) by (nonlinear_arith)
        requires
            0 <= row,
            0 <= w,
    ;
}

impl DenseBinaryMatrix {
    /// The stored bytes.
    pub closed spec fn spec_data(&self) -> Seq<u8> {
        self.data@
    }

    /// Rebuilds a matrix from its stored fields; `None` when the bytes do not hold exactly
    /// `height * width` bits, rounded up to whole bytes.
    pub fn from_parts(height: usize, width: usize, data: Vec<u8>) -> (r: Option<DenseBinaryMatrix>)
        ensures
            r is Some <==> (height * width <= usize::MAX && data@.len() == (height * width + 7)
                / 8),
            r matches Some(m) ==> {
                &&& m.inv()
                &&& m.spec_height() == height
                &&& m.spec_width() == width
                &&& m.spec_data() == data@
                &&& forall|i: int, j: int| #[trigger]
                    m.spec_bit(i, j) == (0 <= i < height && 0 <= j < width && byte_bit(
                        data@,
                        i * width + j,
                    ))
            },
    {
        let bits = match height.checked_mul(width) {
            Some(bits) => bits,
            None => {
                return None;
            },
        };
        let bytes = bits / 8 + if bits % 8 != 0 {
            1
        } else {
            0
        };
        if data.len() != bytes {
            return None;
        }
        Some(DenseBinaryMatrix { height, width, data })
    }

    /// The stored bytes, entry `(row, col)` at bit `row * width + col`.
    pub fn as_bytes(&self) -> (r: &[u8])
        ensures
            r@ == self.spec_data(),
    {
        self.data.as_slice()
    }

    /// The byte holding entry `(row, col)` and the mask of its bit.
    fn byte_index(&self, row: usize, col: usize) -> (r: (usize, u8))
        requires
            self.inv(),
            row < self.spec_height(),
            col < self.spec_width(),
        ensures
            r.0 == (row * self.spec_width() + col) / 8,
            r.0 < self.spec_data().len(),
            r.1 == 1u8 << (((row * self.spec_width() + col) % 8) as u8),
    {
        proof {
            lemma_cell_in_data(row as int, col as int, self.height as int, self.width as int);
        }
        let bit = row * self.width + col;
        (bit / 8, 1u8 << ((bit % 8) as u8))
    }
}

impl BinaryMatrix for DenseBinaryMatrix {
    closed spec fn spec_height(&self) -> nat {
        self.height as nat
    }

    closed spec fn spec_width(&self) -> nat {
        self.width as nat
    }

    closed spec fn spec_bit(&self, row: int, col: int) -> bool {
        &&& 0 <= row < self.height
        &&& 0 <= col < self.width
        &&& byte_bit(self.data@, row * self.width + col)
    }

    closed spec fn inv(&self) -> bool {
        &&& self.height * self.width <= usize::MAX
        &&& self.data@.len() == (self.height * self.width + 7) / 8
    }

    fn new(height: usize, width: usize) -> (r: DenseBinaryMatrix) {
        let bits = height * width;
        let bytes = bits / 8 + if bits % 8 != 0 {
            1
        } else {
            0
        };
        let data = vec![0u8; bytes];
        let r = DenseBinaryMatrix { height, width, data };
        proof {
            assert forall|i: int, j: int| !#[trigger] r.spec_bit(i, j) by {
                if 0 <= i < height && 0 <= j < width {
                    lemma_cell_in_data(i, j, height as int, width as int);
                    let b = i * width + j;
                    assert(r.data@[b / 8] == 0u8);
                    let k = (b % 8) as u8;
                    lemma_byte_ops(0, 0, k);
                }
            }
        }
        r
    }

    fn height(&self) -> (r: usize) {
        self.height
    }

    fn width(&self) -> (r: usize) {
        self.width
    }

    fn get(&self, row: usize, col: usize) -> (r: Octet) {
        let (byte, mask) = self.byte_index(row, col);
        proof {
            let b = row * self.width + col;
            lemma_byte_ops(self.data@[byte as int], (b % 8) as u8, (b % 8) as u8);
        }
        if self.data[byte] & mask == 0 {
            Octet::zero()
        } else {
            Octet::one()
        }
    }

    fn set(&mut self, row: usize, col: usize, value: bool) {
        let ghost old_self = *self;
        let (byte, mask) = self.byte_index(row, col);
        let current = self.data[byte];
        if value {
            self.data.set(byte, current | mask);
        } else {
            self.data.set(byte, current & !mask);
        }
        proof {
            let w = self.width as int;
            let b = row * w + col;
            assert forall|i: int, j: int| #[trigger]
                self.spec_bit(i, j) == if i == row && j == col {
                    value
                } else {
                    old_self.spec_bit(i, j)
                } by {
                if 0 <= i < self.height && 0 <= j < w {
                    let b2 = i * w + j;
                    lemma_cell_in_data(i, j, self.height as int, w);
                    if i == row && j == col {
                        lemma_byte_ops(current, (b % 8) as u8, (b % 8) as u8);
                    } else {
                        lemma_cell_index(i, j, row as int, col as int, w);
                        if b2 / 8 == b / 8 {
                            assert(b2 % 8 != b % 8);
                            lemma_byte_ops(current, (b % 8) as u8, (b2 % 8) as u8);
                        }
                    }
                }
            }
        }
    }

    fn toggle(&mut self, row: usize, col: usize) {
        let ghost old_self = *self;
        let (byte, mask) = self.byte_index(row, col);
        let current = self.data[byte];
        self.data.set(byte, current ^ mask);
        proof {
            let w = self.width as int;
            let b = row * w + col;
            assert forall|i: int, j: int| #[trigger]
                self.spec_bit(i, j) == if i == row && j == col {
                    !old_self.spec_bit(i, j)
                } else {
                    old_self.spec_bit(i, j)
                } by {
                if 0 <= i < self.height && 0 <= j < w {
                    let b2 = i * w + j;
                    lemma_cell_in_data(i, j, self.height as int, w);
                    if i == row && j == col {
                        lemma_byte_ops(current, (b % 8) as u8, (b % 8) as u8);
                    } else {
                        lemma_cell_index(i, j, row as int, col as int, w);
                        if b2 / 8 == b / 8 {
                            assert(b2 % 8 != b % 8);
                            lemma_byte_ops(current, (b % 8) as u8, (b2 % 8) as u8);
                        }
                    }
                }
            }
        }
    }
}

} // verus!
