//! The combined system of binary rows and HDPC rows as one list of sparse coefficient rows:
//! the binary rows first, the HDPC rows last, with the received symbols put in the same
//! order. Among the received symbols the HDPC symbols follow the first `ldpc_rows` binary
//! symbols.

use crate::linear_system::{coefficient, eval_cols, lemma_eval_ext, row_value, row_view, solves};
use crate::operation_vector::uniform;
use crate::matrix::BinaryMatrix;
use crate::octet::Octet;
use crate::octet_matrix::DenseOctetMatrix;
use crate::pi_solver::{CoefficientRow, coefficient_col, copy_symbol, row_ok, rows_ok};
use crate::sparse_spec::{coeff, lemma_coeff_lookup};
use crate::symbol_slab::{SymbolSlab, lemma_symbol_len};
use vstd::prelude::*;

verus! {

/// The coefficient at (`r`, `c`) of the combined system: a binary row's bit as zero or
/// one, then an HDPC row's octet; zero outside the columns.
pub open spec fn hybrid_coefficient<M: BinaryMatrix>(
    matrix: &M,
    hdpc_rows: &DenseOctetMatrix,
    r: int,
    c: int,
) -> u8 {
    if !(0 <= c < matrix.spec_width()) {
        0u8
    } else if r < matrix.spec_height() {
        if matrix.spec_bit(r, c) {
            1u8
        } else {
            0u8
        }
    } else {
        hdpc_rows.entry(r - matrix.spec_height(), c)
    }
}

/// The received symbol that row `r` of the combined system stands for: the first `s`
/// binary rows keep their place, the later binary rows come after the `h` HDPC symbols,
/// and HDPC row `j` is received at `s + j`.
pub open spec fn hybrid_symbol_index(r: int, s: int, binary_height: int, h: int) -> int {
    if r < s {
        r
    } else if r < binary_height {
        r + h
    } else {
        s + (r - binary_height)
    }
}

/// A binary row as a sparse coefficient row of ones.
pub fn copy_binary_row<M: BinaryMatrix>(matrix: &M, row: usize) -> (r: CoefficientRow)
    requires
        matrix.inv(),
        row < matrix.spec_height(),
        matrix.spec_width() <= u16::MAX + 1,
    ensures
        row_ok(r@, matrix.spec_width()),
        forall|c: int| #[trigger] coeff(row_view(r@), c) == (if 0 <= c < matrix.spec_width() && matrix.spec_bit(
            row as int,
            c,
        ) {
            1u8
        } else {
            0u8
        }),
{
    let entries = matrix.visit_row_entries(row);
    let ghost width = matrix.spec_width();
    let mut result: CoefficientRow = Vec::new();
    let mut i: usize = 0;
    while i < entries.len()
        invariant
            i <= entries@.len(),
            width == matrix.spec_width(),
            width <= u16::MAX + 1,
            crate::matrix::lists_row(entries@, |c: int| matrix.spec_bit(row as int, c), width),
            result@.len() == i,
            forall|j: int| 0 <= j < i ==> (#[trigger] result@[j]).0 == entries@[j] && result@[j].1@ == 1,
        decreases entries@.len() - i,
    {
        assert(entries@[i as int] < width);
        result.push((coefficient_col(entries[i]), Octet::one()));
        i += 1;
    }
    proof {
        let v = row_view(result@);
        assert forall|a: int, b: int| 0 <= a < b < v.len() implies v[a].0 < v[b].0 by {
            assert(result@[a].0 == entries@[a] && result@[b].0 == entries@[b]);
        }
        assert forall|c: int| #[trigger] coeff(v, c) == (if 0 <= c < width && matrix.spec_bit(row as int, c) {
            1u8
        } else {
            0u8
        }) by {
            lemma_coeff_lookup(v, c);
            if 0 <= c < width && matrix.spec_bit(row as int, c) {
                let bits = |c2: int| matrix.spec_bit(row as int, c2);
                assert(bits(c));
                assert(entries@.contains(c as usize));
                let j = choose|j: int| 0 <= j < entries@.len() && entries@[j] == c as usize;
                assert(v[j].0 == c && v[j].1 == 1);
            } else {
                assert forall|j: int| 0 <= j < v.len() implies v[j].0 != c by {
                    assert(entries@[j] < width && matrix.spec_bit(row as int, entries@[j] as int));
                }
            }
        }
    }
    result
}

/// An HDPC row as a sparse coefficient row of its nonzero octets.
pub fn copy_octet_row(matrix: &DenseOctetMatrix, row: usize) -> (r: CoefficientRow)
    requires
        matrix.wf(),
        row < matrix.spec_height(),
        matrix.spec_width() <= u16::MAX + 1,
    ensures
        row_ok(r@, matrix.spec_width()),
        forall|c: int| #[trigger] coeff(row_view(r@), c) == (if 0 <= c < matrix.spec_width() {
            matrix.entry(row as int, c)
        } else {
            0u8
        }),
{
    let values = matrix.row(row);
    let ghost width = matrix.spec_width();
    proof {
        crate::symbol_slab::lemma_block_in_bounds(row as int, matrix.spec_height() as int, matrix.spec_width() as int);
    }
    assert(values@.len() == width);
    let mut result: CoefficientRow = Vec::new();
    let mut col: usize = 0;
    while col < values.len()
        invariant
            col <= values@.len(),
            values@.len() == width,
            width == matrix.spec_width(),
            width <= u16::MAX + 1,
            values@ == matrix.spec_row(row as int),
            forall|a: int, b: int| 0 <= a < b < result@.len() ==> result@[a].0 < result@[b].0,
            forall|j: int| 0 <= j < result@.len() ==> (#[trigger] result@[j]).0 < col && result@[j].1@ != 0
                && result@[j].1 == values@[result@[j].0 as int],
            forall|c: int| 0 <= c < col && values@[c]@ != 0 ==> exists|j: int|
                0 <= j < result@.len() && (#[trigger] result@[j]).0 == c,
        decreases values@.len() - col,
    {
        let value = values[col];
        if !value.is_zero() {
            let ghost before = result@;
            result.push((coefficient_col(col), value));
            proof {
                assert forall|c: int| 0 <= c < col + 1 && values@[c]@ != 0 implies exists|j: int|
                    0 <= j < result@.len() && (#[trigger] result@[j]).0 == c by {
                    if c == col {
                        assert(result@[before.len() as int].0 == c);
                    } else {
                        let j = choose|j: int| 0 <= j < before.len() && (#[trigger] before[j]).0 == c;
                        assert(result@[j] == before[j]);
                    }
                }
            }
        }
        col += 1;
    }
    proof {
        let v = row_view(result@);
        assert forall|a: int, b: int| 0 <= a < b < v.len() implies v[a].0 < v[b].0 by {}
        assert forall|c: int| #[trigger] coeff(v, c) == (if 0 <= c < width {
            matrix.entry(row as int, c)
        } else {
            0u8
        }) by {
            lemma_coeff_lookup(v, c);
            if 0 <= c < width {
                matrix.lemma_cell_bounds(row as int, c);
                assert(values@[c] == matrix.spec_data()[row * width + c]);
                if values@[c]@ != 0 {
                    let j = choose|j: int| 0 <= j < result@.len() && (#[trigger] result@[j]).0 == c;
                    assert(v[j].0 == c);
                } else {
                    assert forall|j: int| 0 <= j < v.len() implies v[j].0 != c by {}
                }
            } else {
                assert forall|j: int| 0 <= j < v.len() implies v[j].0 != c by {}
            }
        }
    }
    result
}


/// The combined system as coefficient rows, binary rows first and HDPC rows last, with the
/// received symbols reordered to match: the first `ldpc_rows` binary symbols, the other
/// binary symbols, then the HDPC symbols.
pub fn coefficient_rows_with_hdpc_last<M: BinaryMatrix>(
    matrix: &M,
    hdpc_rows: &DenseOctetMatrix,
    symbols: SymbolSlab,
    ldpc_rows: usize,
) -> (r: (Vec<CoefficientRow>, SymbolSlab))
    requires
        matrix.inv(),
        hdpc_rows.wf(),
        hdpc_rows.spec_width() == matrix.spec_width(),
        matrix.spec_width() <= u16::MAX + 1,
        ldpc_rows <= matrix.spec_height(),
        symbols.wf(),
        symbols.spec_len() == matrix.spec_height() + hdpc_rows.spec_height(),
    ensures
        r.0@.len() == matrix.spec_height() + hdpc_rows.spec_height(),
        rows_ok(r.0@, matrix.spec_width()),
        forall|i: int, c: int| 0 <= i < r.0@.len() ==> #[trigger] coefficient(r.0@, i, c) == hybrid_coefficient(
            matrix,
            hdpc_rows,
            i,
            c,
        ),
        r.1.wf(),
        r.1.spec_symbol_size() == symbols.spec_symbol_size(),
        r.1.spec_len() == r.0@.len(),
        forall|i: int| 0 <= i < r.1.spec_len() ==> #[trigger] r.1@[i] == symbols@[hybrid_symbol_index(
            i,
            ldpc_rows as int,
            matrix.spec_height() as int,
            hdpc_rows.spec_height() as int,
        )],
{
    let s = ldpc_rows;
    let binary_height = matrix.height();
    let h = hdpc_rows.height();
    let total_rows = symbols.len();
    let symbol_size = symbols.symbol_size();
    let total_bytes = symbols.as_bytes().len();
    proof {
        if total_rows > 0 {
            symbols.lemma_symbol_bounds(0);
        } else {
            assert(total_rows * symbol_size == 0) by (nonlinear_arith)
                requires
                    total_rows == 0,
            ;
        }
    }
    let ghost width = matrix.spec_width();
    let ghost size = symbol_size as nat;
    let mut rows: Vec<CoefficientRow> = Vec::new();
    let mut reordered = SymbolSlab::with_zeros(total_rows, symbol_size);
    let mut row: usize = 0;
    while row < binary_height
        invariant
            row <= binary_height,
            binary_height == matrix.spec_height(),
            h == hdpc_rows.spec_height(),
            total_rows == binary_height + h,
            s <= binary_height,
            matrix.inv(),
            width == matrix.spec_width(),
            width <= u16::MAX + 1,
            symbols.wf(),
            symbols.spec_len() == total_rows,
            symbols.spec_symbol_size() == size,
            reordered.wf(),
            reordered.spec_len() == total_rows,
            reordered.spec_symbol_size() == size,
            rows@.len() == row,
            forall|i: int| 0 <= i < row ==> row_ok(#[trigger] rows@[i]@, width),
            forall|i: int, c: int| 0 <= i < row ==> #[trigger] coefficient(rows@, i, c) == hybrid_coefficient(
                matrix,
                hdpc_rows,
                i,
                c,
            ),
            forall|i: int| 0 <= i < row ==> #[trigger] reordered@[i] == symbols@[hybrid_symbol_index(i, s as int, binary_height as int, h as int)],
        decreases binary_height - row,
    {
        let ghost rows_before = rows@;
        rows.push(copy_binary_row(matrix, row));
        let source_row = if row < s {
            row
        } else {
            row + h
        };
        proof {
            lemma_symbol_len(symbols, source_row as int);
        }
        let ghost before = reordered@;
        copy_symbol(&mut reordered, row, symbols.get(source_row));
        proof {
            assert forall|i: int, c: int| 0 <= i < row + 1 implies #[trigger] coefficient(rows@, i, c)
                == hybrid_coefficient(matrix, hdpc_rows, i, c) by {
                if i < row {
                    assert(rows@[i] == rows_before[i]);
                    assert(coefficient(rows_before, i, c) == hybrid_coefficient(matrix, hdpc_rows, i, c));
                }
            }
            assert forall|i: int| 0 <= i < row + 1 implies #[trigger] reordered@[i] == symbols@[hybrid_symbol_index(i, s as int, binary_height as int, h as int)] by {
                if i < row {
                    assert(reordered@[i] == before[i]);
                } else {
                    assert(hybrid_symbol_index(i, s as int, binary_height as int, h as int) == source_row);
                }
            }
            assert forall|i: int| 0 <= i < row + 1 implies row_ok(#[trigger] rows@[i]@, width) by {
                if i < row {
                    assert(rows@[i] == rows_before[i]);
                }
            }
        }
        row += 1;
    }
    let mut j: usize = 0;
    while j < h
        invariant
            j <= h,
            binary_height == matrix.spec_height(),
            h == hdpc_rows.spec_height(),
            total_rows == binary_height + h,
            s <= binary_height,
            hdpc_rows.wf(),
            hdpc_rows.spec_width() == width,
            width == matrix.spec_width(),
            width <= u16::MAX + 1,
            symbols.wf(),
            symbols.spec_len() == total_rows,
            symbols.spec_symbol_size() == size,
            reordered.wf(),
            reordered.spec_len() == total_rows,
            reordered.spec_symbol_size() == size,
            rows@.len() == binary_height + j,
            forall|i: int| 0 <= i < binary_height + j ==> row_ok(#[trigger] rows@[i]@, width),
            forall|i: int, c: int| 0 <= i < binary_height + j ==> #[trigger] coefficient(rows@, i, c)
                == hybrid_coefficient(matrix, hdpc_rows, i, c),
            forall|i: int| 0 <= i < binary_height + j ==> #[trigger] reordered@[i] == symbols@[hybrid_symbol_index(i, s as int, binary_height as int, h as int)],
        decreases h - j,
    {
        let ghost rows_before = rows@;
        rows.push(copy_octet_row(hdpc_rows, j));
        let dest = binary_height + j;
        let source_row = s + j;
        proof {
            lemma_symbol_len(symbols, source_row as int);
        }
        let ghost before = reordered@;
        copy_symbol(&mut reordered, dest, symbols.get(source_row));
        proof {
            assert forall|i: int, c: int| 0 <= i < binary_height + j + 1 implies #[trigger] coefficient(
                rows@,
                i,
                c,
            ) == hybrid_coefficient(matrix, hdpc_rows, i, c) by {
                if i < dest {
                    assert(rows@[i] == rows_before[i]);
                    assert(coefficient(rows_before, i, c) == hybrid_coefficient(matrix, hdpc_rows, i, c));
                }
            }
            assert forall|i: int| 0 <= i < binary_height + j + 1 implies #[trigger] reordered@[i] == symbols@[hybrid_symbol_index(i, s as int, binary_height as int, h as int)] by {
                if i < dest {
                    assert(reordered@[i] == before[i]);
                } else {
                    assert(hybrid_symbol_index(i, s as int, binary_height as int, h as int) == source_row);
                }
            }
            assert forall|i: int| 0 <= i < binary_height + j + 1 implies row_ok(#[trigger] rows@[i]@, width) by {
                if i < dest {
                    assert(rows@[i] == rows_before[i]);
                }
            }
        }
        j += 1;
    }
    (rows, reordered)
}


/// Byte `k` of row `r` of the combined system applied to the symbols `x`.
pub open spec fn hybrid_row_value<M: BinaryMatrix>(
    matrix: &M,
    hdpc_rows: &DenseOctetMatrix,
    r: int,
    x: Seq<Seq<u8>>,
    k: int,
) -> u8 {
    eval_cols(|c: int| hybrid_coefficient(matrix, hdpc_rows, r, c), x, k, matrix.spec_width())
}

/// `x` holds one symbol of `size` bytes per column and satisfies every row of the combined
/// system against the received symbol that row stands for.
pub open spec fn hybrid_solves<M: BinaryMatrix>(
    matrix: &M,
    hdpc_rows: &DenseOctetMatrix,
    symbols: Seq<Seq<u8>>,
    ldpc_rows: int,
    x: Seq<Seq<u8>>,
    size: nat,
) -> bool {
    &&& x.len() == matrix.spec_width()
    &&& uniform(x, size)
    &&& forall|r: int, k: int|
        0 <= r < matrix.spec_height() + hdpc_rows.spec_height() && 0 <= k < size ==> #[trigger] hybrid_row_value(matrix, hdpc_rows, r, x, k) == symbols[hybrid_symbol_index(
            r,
            ldpc_rows,
            matrix.spec_height() as int,
            hdpc_rows.spec_height() as int,
        )][k]
}

/// The coefficient rows and reordered symbols built with the HDPC rows last have exactly the
/// solutions of the combined system.
pub proof fn lemma_hdpc_last_solves<M: BinaryMatrix>(
    matrix: &M,
    hdpc_rows: &DenseOctetMatrix,
    symbols: Seq<Seq<u8>>,
    ldpc_rows: int,
    rows: Seq<Vec<(u16, Octet)>>,
    reordered: Seq<Seq<u8>>,
    size: nat,
)
    requires
        rows.len() == matrix.spec_height() + hdpc_rows.spec_height(),
        reordered.len() == rows.len(),
        forall|i: int, c: int| 0 <= i < rows.len() ==> #[trigger] coefficient(rows, i, c) == hybrid_coefficient(
            matrix,
            hdpc_rows,
            i,
            c,
        ),
        forall|i: int| 0 <= i < reordered.len() ==> #[trigger] reordered[i] == symbols[hybrid_symbol_index(
            i,
            ldpc_rows,
            matrix.spec_height() as int,
            hdpc_rows.spec_height() as int,
        )],
    ensures
        forall|x: Seq<Seq<u8>>| #[trigger] solves(rows, reordered, x, matrix.spec_width(), size) == hybrid_solves(
            matrix,
            hdpc_rows,
            symbols,
            ldpc_rows,
            x,
            size,
        ),
{
    let n = matrix.spec_width();
    assert forall|x: Seq<Seq<u8>>| #[trigger] solves(rows, reordered, x, n, size) == hybrid_solves(
        matrix,
        hdpc_rows,
        symbols,
        ldpc_rows,
        x,
        size,
    ) by {
        assert forall|r: int, k: int| 0 <= r < rows.len() && 0 <= k < size implies #[trigger] row_value(
            rows[r]@,
            x,
            k,
            n,
        ) == hybrid_row_value(matrix, hdpc_rows, r, x, k) by {
            assert forall|c: int| 0 <= c < n implies #[trigger] coeff(row_view(rows[r]@), c) == hybrid_coefficient(
                matrix,
                hdpc_rows,
                r,
                c,
            ) by {
                assert(coefficient(rows, r, c) == coeff(row_view(rows[r]@), c));
            }
            lemma_eval_ext(
                |c: int| coeff(row_view(rows[r]@), c),
                |c: int| hybrid_coefficient(matrix, hdpc_rows, r, c),
                x,
                k,
                n,
            );
        }
        if solves(rows, reordered, x, n, size) {
            assert forall|r: int, k: int|
                0 <= r < matrix.spec_height() + hdpc_rows.spec_height() && 0 <= k < size implies #[trigger] hybrid_row_value(matrix, hdpc_rows, r, x, k) == symbols[hybrid_symbol_index(
                r,
                ldpc_rows,
                matrix.spec_height() as int,
                hdpc_rows.spec_height() as int,
            )][k] by {
                assert(row_value(rows[r]@, x, k, n) == reordered[r][k]);
            }
        }
        if hybrid_solves(matrix, hdpc_rows, symbols, ldpc_rows, x, size) {
            assert forall|r: int, k: int| 0 <= r < rows.len() && 0 <= k < size implies #[trigger] row_value(
                rows[r]@,
                x,
                k,
                n,
            ) == reordered[r][k] by {
                assert(hybrid_row_value(matrix, hdpc_rows, r, x, k)
                    == symbols[hybrid_symbol_index(
                    r,
                    ldpc_rows,
                    matrix.spec_height() as int,
                    hdpc_rows.spec_height() as int,
                )][k]);
            }
        }
    }
}

} // verus!
