//! A dense row-major matrix of GF(256) elements.

use crate::octet::Octet;
use crate::symbol_slab::lemma_block_in_bounds;
use vstd::prelude::*;

verus! {

/// A dense matrix of octets stored row by row.
#[derive(Debug, PartialEq, Eq)]
pub struct DenseOctetMatrix {
    height: usize,
    width: usize,
    data: Vec<Octet>,
}

impl DenseOctetMatrix {
    pub closed spec fn spec_height(&self) -> nat {
        self.height as nat
    }

    pub closed spec fn spec_width(&self) -> nat {
        self.width as nat
    }

    /// The entries in row-major order.
    pub closed spec fn spec_data(&self) -> Seq<Octet> {
        self.data@
    }

    /// The stored entries fill exactly `height * width` cells.
    pub open spec fn wf(&self) -> bool {
        self.spec_data().len() == self.spec_height() * self.spec_width()
    }

    /// The value at (`row`, `col`).
    pub open spec fn entry(&self, row: int, col: int) -> u8 {
        self.spec_data()[row * self.spec_width() + col]@
    }

    /// Row `row` as a sequence of octets.
    pub open spec fn spec_row(&self, row: int) -> Seq<Octet> {
        self.spec_data().subrange(
            row * self.spec_width(),
            row * self.spec_width() + self.spec_width(),
        )
    }

    pub proof fn lemma_cell_bounds(&self, row: int, col: int)
        requires
            self.wf(),
            0 <= row < self.spec_height(),
            0 <= col < self.spec_width(),
        ensures
            0 <= row * self.spec_width() + col < self.spec_data().len(),
            row * self.spec_width() + self.spec_width() <= self.spec_data().len(),
    {
        lemma_block_in_bounds(row, self.spec_height() as int, self.spec_width() as int);
    }
}

impl Clone for DenseOctetMatrix {
    fn clone(&self) -> (r: DenseOctetMatrix)
        ensures
            r.spec_height() == self.spec_height(),
            r.spec_width() == self.spec_width(),
            r.spec_data() == self.spec_data(),
    {
        DenseOctetMatrix { height: self.height, width: self.width, data: self.data.clone() }
    }
}

/// The storage of a matrix, built from its entries.
fn dense_octet_matrix_data_from_vec(data: Vec<Octet>) -> (r: Vec<Octet>)
    ensures
        r@ == data@,
{
    data
}

impl DenseOctetMatrix {
    /// The `height` x `width` zero matrix.
    pub fn new(height: usize, width: usize) -> (r: DenseOctetMatrix)
        requires
            height * width <= usize::MAX,
        ensures
            r.wf(),
            r.spec_height() == height,
            r.spec_width() == width,
            forall|i: int| 0 <= i < r.spec_data().len() ==> #[trigger] r.spec_data()[i]@ == 0,
    {
        let data = vec![Octet::zero(); height * width];
        DenseOctetMatrix { height, width, data: dense_octet_matrix_data_from_vec(data) }
    }

    /// A matrix over the given row-major entries.
    pub fn from_vec(height: usize, width: usize, data: Vec<Octet>) -> (r: DenseOctetMatrix)
        requires
            data@.len() == height * width,
        ensures
            r.wf(),
            r.spec_height() == height,
            r.spec_width() == width,
            r.spec_data() == data@,
    {
        DenseOctetMatrix { height, width, data: dense_octet_matrix_data_from_vec(data) }
    }

    pub fn height(&self) -> (r: usize)
        ensures
            r == self.spec_height(),
    {
        self.height
    }

    pub fn width(&self) -> (r: usize)
        ensures
            r == self.spec_width(),
    {
        self.width
    }

    /// The same matrix, ready to be cloned many times.
    pub fn into_shared_if_large(self) -> (r: DenseOctetMatrix)
        ensures
            r.spec_height() == self.spec_height(),
            r.spec_width() == self.spec_width(),
            r.spec_data() == self.spec_data(),
    {
        self
    }

    /// Row `row`.
    pub fn row(&self, row: usize) -> (r: &[Octet])
        requires
            self.wf(),
            row < self.spec_height(),
        ensures
            r@ == self.spec_row(row as int),
    {
        let _ = self.data.len();
        proof {
            lemma_block_in_bounds(row as int, self.spec_height() as int, self.spec_width() as int);
        }
        let start = row * self.width;
        &self.data.as_slice()[start..start + self.width]
    }

    /// Row `row`, writable in place.
    pub fn row_mut(&mut self, row: usize) -> (r: &mut [Octet])
        requires
            old(self).wf(),
            row < old(self).spec_height(),
        ensures
            r@ == old(self).spec_row(row as int),
            final(self).spec_height() == old(self).spec_height(),
            final(self).spec_width() == old(self).spec_width(),
            final(self).spec_data() == old(self).spec_data().subrange(
                0,
                row * old(self).spec_width(),
            ) + final(r)@ + old(self).spec_data().subrange(
                row * old(self).spec_width() + old(self).spec_width(),
                old(self).spec_data().len() as int,
            ),
    {
        let _ = self.data.len();
        proof {
            lemma_block_in_bounds(row as int, self.spec_height() as int, self.spec_width() as int);
        }
        let start = row * self.width;
        let end = start + self.width;
        let width = self.width;
        let data = self.data_mut();
        let (_, tail) = data.split_at_mut(start);
        let (r, _) = tail.split_at_mut(width);
        r
    }

    /// All entries in row-major order.
    pub fn as_slice(&self) -> (r: &[Octet])
        ensures
            r@ == self.spec_data(),
    {
        self.data.as_slice()
    }

    fn data_mut(&mut self) -> (r: &mut [Octet])
        ensures
            r@ == old(self).spec_data(),
            final(self).spec_data() == final(r)@,
            final(self).spec_height() == old(self).spec_height(),
            final(self).spec_width() == old(self).spec_width(),
    {
        self.data.as_mut_slice()
    }

    /// The entry at (`row`, `col`).
    pub fn get(&self, row: usize, col: usize) -> (r: Octet)
        requires
            self.wf(),
            row < self.spec_height(),
            col < self.spec_width(),
        ensures
            r@ == self.entry(row as int, col as int),
            r == self.spec_data()[row * self.spec_width() + col],
    {
        let _ = self.data.len();
        proof {
            self.lemma_cell_bounds(row as int, col as int);
        }
        self.data[row * self.width + col]
    }

    /// Sets the entry at (`row`, `col`).
    pub fn set(&mut self, row: usize, col: usize, value: Octet)
        requires
            old(self).wf(),
            row < old(self).spec_height(),
            col < old(self).spec_width(),
        ensures
            final(self).wf(),
            final(self).spec_height() == old(self).spec_height(),
            final(self).spec_width() == old(self).spec_width(),
            final(self).spec_data() == old(self).spec_data().update(
                row * old(self).spec_width() + col,
                value,
            ),
    {
        let _ = self.data.len();
        proof {
            self.lemma_cell_bounds(row as int, col as int);
        }
        let index = row * self.width + col;
        self.data.set(index, value);
    }
}

/// Rebuilds a matrix from its serialized fields, refusing data of the wrong length.
pub fn dense_octet_matrix_from_deserialized_parts(
    height: usize,
    width: usize,
    data: Vec<Octet>,
) -> (r: Result<DenseOctetMatrix, &'static str>)
    ensures
        match r {
            Ok(m) => data@.len() == height * width && m.wf() && m.spec_height() == height
                && m.spec_width() == width && m.spec_data() == data@,
            Err(e) => data@.len() != height * width && e@
                == "DenseOctetMatrix data length does not match dimensions"@,
        },
{
    let data_len = data.len();
    let expected_len = match height.checked_mul(width) {
        Some(n) => n,
        None => {
            return Err("DenseOctetMatrix data length does not match dimensions");
        },
    };
    if data_len != expected_len {
        return Err("DenseOctetMatrix data length does not match dimensions");
    }
    Ok(DenseOctetMatrix::from_vec(height, width, data))
}

} // verus!
