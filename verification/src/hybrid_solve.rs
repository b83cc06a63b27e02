//! Solving the binary rows and the HDPC rows of a decoding system together: the binary
//! rows are eliminated over GF(2), columns without a pivot stay free, and the HDPC rows,
//! with every pivot column projected out, fix the free columns.

use crate::binary_solve::{
    add_symbol,
    add_symbol_into,
    bit_coeff,
    bit_row_value,
    bit_solves,
    bit_full_rank,
    lemma_pivot_row_value,
    suffix_coeff,
    suffix_value,
    zero_symbols,
    first_one_is,
    lemma_bit_solves_add,
    lemma_row_added_view,
    lemma_uniform_slab,
    row_added,
    row_is_zero,
};
use crate::binary_solve::{binary_back_substitute, binary_back_substitute_free, binary_unpivoted_rows_consistent, no_pivots};
use crate::gf2::PackedBinaryRows;
use crate::hybrid_rows::{hybrid_coefficient, hybrid_row_value, hybrid_solves, hybrid_symbol_index};
use crate::matrix::{BinaryMatrix, packable};
use crate::pi_solver::{copy_symbol, hdpc_prefix, hdpc_rows_satisfied, hdpc_satisfied};
use crate::prefix_solve::prefix_bits;
use crate::linear_system::{lemma_eval_frame, lemma_triangular_agree_free, coefficient, eval_cols, lemma_eval_add, lemma_eval_ext, lemma_eval_scale, row_value, row_view, solves};
use crate::pi_solver::{CoefficientRow, coefficient_col, row_ok, rows_ok, solve_without_recording, symbol_is_zero};
use crate::sparse_spec::{coeff, lemma_coeff_lookup};
use crate::octet::{Octet, gf_mul_spec, lemma_gf_mul_identities};
use crate::octet_matrix::DenseOctetMatrix;
use crate::octets::{FusedAddAssignMulScalarFastPath, fused_add_seq};
use crate::operation_vector::uniform;
use crate::sparse_spec::{lemma_xor_basics, lemma_xor_regroup};
use crate::symbol_slab::{SymbolSlab, lemma_after_get_mut, lemma_symbol_len};
use vstd::prelude::*;

verus! {

/// Every column with a pivot has a pivot row whose first set column is that column, and
/// every pivot row is the pivot of some column.
pub open spec fn pivots_ok(rows: PackedBinaryRows, pivot_for_col: Seq<Option<usize>>, is_pivot: Seq<bool>, n: int) -> bool {
    &&& pivot_for_col.len() == rows.spec_width()
    &&& is_pivot.len() == rows.spec_height()
    &&& forall|c: int| 0 <= c < n ==> match #[trigger] pivot_for_col[c] {
        Some(p) => p < rows.spec_height() && is_pivot[p as int] && first_one_is(rows, p as int, c),
        None => true,
    }
    &&& forall|c: int| n <= c < rows.spec_width() ==> (#[trigger] pivot_for_col[c]) is None
    &&& forall|r: int| 0 <= r < rows.spec_height() && #[trigger] is_pivot[r] ==> exists|c: int|
        0 <= c < n && pivot_for_col[c] == Some(r as usize)
}

/// Gaussian elimination of the binary rows over GF(2), column by column: the first row
/// without a pivot that has the column set becomes its pivot and is added into every other
/// such row, symbols alike; a column that no such row has set stays free.
pub fn hybrid_binary_forward(
    rows: &mut PackedBinaryRows,
    symbols: &mut SymbolSlab,
    pivot_for_col: &mut Vec<Option<usize>>,
    is_pivot_row: &mut Vec<bool>,
)
    requires
        old(rows).wf(),
        old(symbols).wf(),
        old(symbols).spec_len() == old(rows).spec_height(),
        old(pivot_for_col)@.len() == old(rows).spec_width(),
        forall|c: int| 0 <= c < old(rows).spec_width() ==> (#[trigger] old(pivot_for_col)@[c]) is None,
        old(is_pivot_row)@.len() == old(rows).spec_height(),
        forall|r: int| 0 <= r < old(rows).spec_height() ==> !#[trigger] old(is_pivot_row)@[r],
    ensures
        final(rows).wf(),
        final(rows).spec_height() == old(rows).spec_height(),
        final(rows).spec_width() == old(rows).spec_width(),
        final(symbols).wf(),
        final(symbols).spec_symbol_size() == old(symbols).spec_symbol_size(),
        final(symbols).spec_len() == old(symbols).spec_len(),
        forall|x: Seq<Seq<u8>>| #[trigger] bit_solves(final(rows)@, final(symbols)@, x, old(rows).spec_width(), old(symbols).spec_symbol_size())
            == bit_solves(old(rows)@, old(symbols)@, x, old(rows).spec_width(), old(symbols).spec_symbol_size()),
        pivots_ok(*final(rows), final(pivot_for_col)@, final(is_pivot_row)@, old(rows).spec_width() as int),
        forall|r: int| 0 <= r < old(rows).spec_height() && !#[trigger] final(is_pivot_row)@[r] ==> row_is_zero(*final(rows), r),
        forall|x: Seq<Seq<u8>>| #[trigger] bit_solves(
            final(rows)@,
            zero_symbols(old(rows).spec_height(), old(symbols).spec_symbol_size()),
            x,
            old(rows).spec_width(),
            old(symbols).spec_symbol_size(),
        ) == bit_solves(
            old(rows)@,
            zero_symbols(old(rows).spec_height(), old(symbols).spec_symbol_size()),
            x,
            old(rows).spec_width(),
            old(symbols).spec_symbol_size(),
        ),
{
    let width = rows.width();
    let height = rows.height();
    let ghost size = symbols.spec_symbol_size();
    let ghost m0 = rows@;
    let ghost s0 = symbols@;
    let ghost zs = zero_symbols(height as nat, size);
    let mut col: usize = 0;
    while col < width
        invariant
            col <= width,
            width == rows.spec_width(),
            height == rows.spec_height(),
            rows.wf(),
            symbols.wf(),
            symbols.spec_symbol_size() == size,
            symbols.spec_len() == height,
            m0.len() == height,
            forall|x: Seq<Seq<u8>>| #[trigger] bit_solves(rows@, symbols@, x, width as nat, size)
                == bit_solves(m0, s0, x, width as nat, size),
            zs == zero_symbols(height as nat, size),
            forall|x: Seq<Seq<u8>>| #[trigger] bit_solves(rows@, zs, x, width as nat, size)
                == bit_solves(m0, zs, x, width as nat, size),
            pivots_ok(*rows, pivot_for_col@, is_pivot_row@, col as int),
            forall|r: int, c: int| 0 <= r < height && !is_pivot_row@[r] && 0 <= c < col ==> !#[trigger] rows.bit(r, c),
        decreases width - col,
    {
        let mut pivot: usize = 0;
        let mut found = false;
        while pivot < height && !found
            invariant
                pivot <= height,
                height == rows.spec_height(),
                width == rows.spec_width(),
                col < width,
                rows.wf(),
                is_pivot_row@.len() == height,
                found ==> pivot < height && !is_pivot_row@[pivot as int] && rows.bit(pivot as int, col as int),
                !found ==> forall|r: int| 0 <= r < pivot && !is_pivot_row@[r] ==> !#[trigger] rows.bit(r, col as int),
            decreases height - pivot + (if found { 0int } else { 1int }),
        {
            if !is_pivot_row[pivot] && rows.contains(pivot, col) {
                found = true;
            } else {
                pivot += 1;
            }
        }
        if found {
            let ghost pivots_before = pivot_for_col@;
            let ghost is_pivot_before = is_pivot_row@;
            pivot_for_col.set(col, Some(pivot));
            is_pivot_row.set(pivot, true);
            proof {
                assert(first_one_is(*rows, pivot as int, col as int));
                assert forall|c: int| 0 <= c < col + 1 implies match #[trigger] pivot_for_col@[c] {
                    Some(p) => p < height && is_pivot_row@[p as int] && first_one_is(*rows, p as int, c),
                    None => true,
                } by {
                    if c < col {
                        assert(pivot_for_col@[c] == pivots_before[c]);
                        if let Some(p) = pivots_before[c] {
                            assert(is_pivot_before[p as int]);
                        }
                    }
                }
                assert forall|r: int| 0 <= r < height && #[trigger] is_pivot_row@[r] implies exists|c: int|
                    0 <= c < col + 1 && pivot_for_col@[c] == Some(r as usize) by {
                    if r != pivot {
                        assert(is_pivot_before[r]);
                        let c = choose|c: int| 0 <= c < col && pivots_before[c] == Some(r as usize);
                        assert(pivot_for_col@[c] == Some(r as usize));
                    } else {
                        assert(pivot_for_col@[col as int] == Some(r as usize));
                    }
                }
            }
            let mut row: usize = 0;
            while row < height
                invariant
                    row <= height,
                    col < width,
                    width == rows.spec_width(),
                    height == rows.spec_height(),
                    pivot < height,
                    rows.wf(),
                    symbols.wf(),
                    symbols.spec_symbol_size() == size,
                    symbols.spec_len() == height,
                    m0.len() == height,
                    is_pivot_row@[pivot as int],
                    first_one_is(*rows, pivot as int, col as int),
                    forall|x: Seq<Seq<u8>>| #[trigger] bit_solves(rows@, symbols@, x, width as nat, size)
                        == bit_solves(m0, s0, x, width as nat, size),
                    zs == zero_symbols(height as nat, size),
                    forall|x: Seq<Seq<u8>>| #[trigger] bit_solves(rows@, zs, x, width as nat, size)
                        == bit_solves(m0, zs, x, width as nat, size),
                    pivots_ok(*rows, pivot_for_col@, is_pivot_row@, col + 1),
                    forall|r: int, c: int| 0 <= r < height && !is_pivot_row@[r] && 0 <= c < col ==> !#[trigger] rows.bit(r, c),
                    forall|r: int| 0 <= r < row && !is_pivot_row@[r] ==> !#[trigger] rows.bit(r, col as int),
                decreases height - row,
            {
                if !is_pivot_row[row] && rows.contains(row, col) {
                    let ghost before = *rows;
                    let ghost sym_before = symbols@;
                    rows.xor_suffix(row, pivot, col);
                    add_symbol_into(symbols, row, pivot);
                    proof {
                        assert(symbols@.len() == symbols.spec_len());
                        assert(sym_before.len() == height);
                        assert(row_added(before, *rows, row as int, pivot as int, col as int));
                        lemma_row_added_view(before, *rows, row as int, pivot as int, col as int);
                        lemma_uniform_slab(*symbols);
                        assert(uniform(sym_before, size)) by {
                            assert forall|k: int| 0 <= k < sym_before.len() implies #[trigger] sym_before[k].len() == size by {
                                if k != row {
                                    assert(symbols@[k] == sym_before[k]);
                                }
                                crate::symbol_slab::lemma_symbol_len(*symbols, k);
                            }
                        }
                        assert forall|x: Seq<Seq<u8>>| #[trigger] bit_solves(rows@, symbols@, x, width as nat, size)
                            == bit_solves(m0, s0, x, width as nat, size) by {
                            assert(bit_solves(before@, sym_before, x, width as nat, size)
                                == bit_solves(m0, s0, x, width as nat, size));
                            lemma_bit_solves_add(before@, sym_before, row as int, pivot as int, x, width as nat, size);
                        }
                        assert(add_symbol(zs, row as int, pivot as int) =~= zs) by {
                            assert(crate::octets::xor_seq(zs[row as int], zs[pivot as int]) =~= zs[row as int]) by {
                                lemma_xor_basics(0u8, 0u8, 0u8);
                            }
                        }
                        assert forall|x: Seq<Seq<u8>>| #[trigger] bit_solves(rows@, zs, x, width as nat, size)
                            == bit_solves(m0, zs, x, width as nat, size) by {
                            assert(bit_solves(before@, zs, x, width as nat, size) == bit_solves(m0, zs, x, width as nat, size));
                            lemma_bit_solves_add(before@, zs, row as int, pivot as int, x, width as nat, size);
                        }
                        assert forall|c: int| 0 <= c < width implies #[trigger] rows.bit(pivot as int, c) == before.bit(pivot as int, c) by {
                            assert(rows.bit(pivot as int, c) == before.xor_suffix_bit(row as int, pivot as int, col as int, pivot as int, c));
                        }
                        assert forall|c: int| 0 <= c < col + 1 implies match #[trigger] pivot_for_col@[c] {
                            Some(p) => p < height && is_pivot_row@[p as int] && first_one_is(*rows, p as int, c),
                            None => true,
                        } by {
                            if let Some(p) = pivot_for_col@[c] {
                                assert(first_one_is(before, p as int, c));
                                assert(p != row);
                                assert forall|c2: int| 0 <= c2 < width implies #[trigger] rows.bit(p as int, c2) == before.bit(p as int, c2) by {
                                    assert(rows.bit(p as int, c2) == before.xor_suffix_bit(row as int, pivot as int, col as int, p as int, c2));
                                }
                            }
                        }
                        assert forall|r: int, c: int| 0 <= r < height && !is_pivot_row@[r] && 0 <= c < col implies !#[trigger] rows.bit(r, c) by {
                            assert(rows.bit(r, c) == before.xor_suffix_bit(row as int, pivot as int, col as int, r, c));
                        }
                        assert forall|r: int| 0 <= r < row + 1 && !is_pivot_row@[r] implies !#[trigger] rows.bit(r, col as int) by {
                            assert(rows.bit(r, col as int) == before.xor_suffix_bit(row as int, pivot as int, col as int, r, col as int));
                            assert(before.bit(pivot as int, col as int));
                        }
                    }
                }
                row += 1;
            }
            proof {
                assert forall|r: int, c: int| 0 <= r < height && !is_pivot_row@[r] && 0 <= c < col + 1 implies !#[trigger] rows.bit(r, c) by {
                    if c == col {
                        assert(!rows.bit(r, col as int));
                    }
                }
            }
        } else {
            proof {
                assert forall|c: int| 0 <= c < col + 1 implies match #[trigger] pivot_for_col@[c] {
                    Some(p) => p < height && is_pivot_row@[p as int] && first_one_is(*rows, p as int, c),
                    None => true,
                } by {}
                assert forall|r: int, c: int| 0 <= r < height && !is_pivot_row@[r] && 0 <= c < col + 1 implies !#[trigger] rows.bit(r, c) by {
                    if c == col {
                        assert(!rows.bit(r, col as int));
                    }
                }
            }
        }
        col += 1;
    }
    proof {
        assert forall|r: int| 0 <= r < height && !#[trigger] is_pivot_row@[r] implies row_is_zero(*rows, r) by {}
    }
}


/// Byte `k` of row `j` of a dense coefficient matrix applied to the symbols `x`.
pub open spec fn dense_row_value(m: DenseOctetMatrix, j: int, x: Seq<Seq<u8>>, k: int) -> u8 {
    eval_cols(|c: int| m.entry(j, c), x, k, m.spec_width())
}

/// Distinct cells of a row-major matrix lie at distinct offsets.
proof fn lemma_cell_distinct(j: int, c: int, row: int, col: int, w: int)
    requires
        0 <= j,
        0 <= row,
        0 <= c < w,
        0 <= col < w,
        j != row || c != col,
    ensures
        j * w + c != row * w + col,
{
    if j < row {
        assert(j * w + w <= row * w) by (nonlinear_arith)
            requires
                j < row,
                0 <= w,
        ;
    } else if row < j {
        assert(row * w + w <= j * w) by (nonlinear_arith)
            requires
                row < j,
                0 <= w,
        ;
    }
}

/// Adds `factor` to the entries of row `j` at the listed columns.
fn toggle_dense_entries(coef: &mut DenseOctetMatrix, j: usize, entries: &Vec<usize>, factor: Octet)
    requires
        old(coef).wf(),
        j < old(coef).spec_height(),
        forall|t: int| 0 <= t < entries@.len() ==> #[trigger] entries@[t] < old(coef).spec_width(),
        forall|a: int, b: int| 0 <= a < b < entries@.len() ==> entries@[a] != entries@[b],
    ensures
        final(coef).wf(),
        final(coef).spec_height() == old(coef).spec_height(),
        final(coef).spec_width() == old(coef).spec_width(),
        forall|j2: int, c: int| 0 <= j2 < old(coef).spec_height() && 0 <= c < old(coef).spec_width() ==> #[trigger] final(coef).entry(j2, c)
            == if j2 == j && entries@.contains(c as usize) {
            old(coef).entry(j2, c) ^ factor@
        } else {
            old(coef).entry(j2, c)
        },
{
    let ghost c0 = *coef;
    let width_exec = coef.width();
    let ghost w = coef.spec_width() as int;
    let mut t: usize = 0;
    while t < entries.len()
        invariant
            t <= entries@.len(),
            coef.wf(),
            coef.spec_height() == c0.spec_height(),
            coef.spec_width() == c0.spec_width(),
            w == c0.spec_width(),
            w <= usize::MAX,
            j < c0.spec_height(),
            forall|t2: int| 0 <= t2 < entries@.len() ==> #[trigger] entries@[t2] < w,
            forall|a: int, b: int| 0 <= a < b < entries@.len() ==> entries@[a] != entries@[b],
            forall|j2: int, c: int| 0 <= j2 < c0.spec_height() && 0 <= c < w ==> #[trigger] coef.entry(j2, c)
                == if j2 == j && entries@.subrange(0, t as int).contains(c as usize) {
                c0.entry(j2, c) ^ factor@
            } else {
                c0.entry(j2, c)
            },
        decreases entries@.len() - t,
    {
        let e = entries[t];
        let ghost before = *coef;
        let v = coef.get(j, e);
        let nv = Octet::new(v.value() ^ factor.value());
        coef.set(j, e, nv);
        assert(coef.spec_data() == before.spec_data().update(j * w + e, nv));
        proof {
            assert forall|j2: int, c: int| 0 <= j2 < c0.spec_height() && 0 <= c < w implies #[trigger] coef.entry(j2, c)
                == if j2 == j && entries@.subrange(0, t + 1).contains(c as usize) {
                c0.entry(j2, c) ^ factor@
            } else {
                c0.entry(j2, c)
            } by {
                coef.lemma_cell_bounds(j2, c);
                if j2 == j && c == e {
                    assert(entries@.subrange(0, t + 1)[t as int] == e);
                    let sub0 = entries@.subrange(0, t as int);
                    assert(!sub0.contains(c as usize)) by {
                        if sub0.contains(c as usize) {
                            let a = choose|a: int| 0 <= a < sub0.len() && sub0[a] == c as usize;
                            assert(entries@[a] == entries@[t as int]);
                        }
                    }
                } else {
                    lemma_cell_distinct(j2, c, j as int, e as int, w);
                    before.lemma_cell_bounds(j2, c);
                    before.lemma_cell_bounds(j as int, e as int);
                    let idx = j2 * w + c;
                    assert(idx != j * w + e);
                    assert(0 <= idx < before.spec_data().len());
                    assert(before.spec_data().update(j * w + e, nv)[idx] == before.spec_data()[idx]);
                    assert(coef.spec_data()[idx] == before.spec_data()[idx]);
                    assert(coef.entry(j2, c) == before.entry(j2, c));
                    let sub0 = entries@.subrange(0, t as int);
                    let sub1 = entries@.subrange(0, t + 1);
                    assert(c != e ==> sub1.contains(c as usize) == sub0.contains(c as usize)) by {
                        if c != e {
                            assert((c as usize) as int == c);
                            if sub1.contains(c as usize) {
                                let a = choose|a: int| 0 <= a < sub1.len() && sub1[a] == c as usize;
                                assert(sub1[a] == entries@[a]);
                                if a == t {
                                    assert(entries@[t as int] == e);
                                } else {
                                    assert(sub0[a] == entries@[a]);
                                }
                            }
                            if sub0.contains(c as usize) {
                                let a = choose|a: int| 0 <= a < sub0.len() && sub0[a] == c as usize;
                                assert(sub0[a] == entries@[a]);
                                assert(sub1[a] == entries@[a]);
                            }
                        }
                    }
                }
            }
        }
        t += 1;
    }
    proof {
        assert(entries@.subrange(0, entries@.len() as int) =~= entries@);
    }
}


/// Every vector of symbols that solves the binary system gives each projected HDPC row, with
/// its symbol, the same sum as the original row with its symbol.
pub open spec fn projection_ok(
    coef: DenseOctetMatrix,
    t: Seq<Seq<u8>>,
    c0: DenseOctetMatrix,
    t0: Seq<Seq<u8>>,
    m: Seq<Seq<bool>>,
    b: Seq<Seq<u8>>,
    size: nat,
) -> bool {
    forall|x: Seq<Seq<u8>>, j: int, k: int|
        bit_solves(m, b, x, c0.spec_width(), size) && 0 <= j < c0.spec_height() && 0 <= k < size ==> #[trigger] dense_row_value(
            coef,
            j,
            x,
            k,
        ) ^ t[j][k] == dense_row_value(c0, j, x, k) ^ t0[j][k]
}

/// Adding `f` times binary row `p` into HDPC row `j`, and `f` times its symbol into the
/// row's symbol, keeps every row's sum with its symbol for the solutions of the binary system.
proof fn lemma_project_step(
    before: DenseOctetMatrix,
    after: DenseOctetMatrix,
    t_before: Seq<Seq<u8>>,
    t_after: Seq<Seq<u8>>,
    rows: PackedBinaryRows,
    b: Seq<Seq<u8>>,
    p: int,
    j: int,
    f: u8,
    size: nat,
)
    requires
        after.spec_width() == before.spec_width(),
        after.spec_height() == before.spec_height(),
        rows.spec_width() == before.spec_width(),
        0 <= p < rows.spec_height(),
        0 <= j < before.spec_height(),
        t_before.len() == before.spec_height(),
        t_before[j].len() == size,
        b[p].len() == size,
        forall|j2: int, c: int| 0 <= j2 < before.spec_height() && 0 <= c < before.spec_width() ==> #[trigger] after.entry(j2, c)
            == if j2 == j && rows.bit(p, c) {
            before.entry(j2, c) ^ f
        } else {
            before.entry(j2, c)
        },
        t_after == t_before.update(j, fused_add_seq(t_before[j], b[p], f)),
    ensures
        forall|x: Seq<Seq<u8>>, j2: int, k: int|
            bit_solves(rows@, b, x, before.spec_width(), size) && 0 <= j2 < before.spec_height() && 0 <= k < size ==> #[trigger] dense_row_value(
                after,
                j2,
                x,
                k,
            ) ^ t_after[j2][k] == dense_row_value(before, j2, x, k) ^ t_before[j2][k],
{
    let w = before.spec_width();
    assert forall|x: Seq<Seq<u8>>, j2: int, k: int|
        bit_solves(rows@, b, x, w, size) && 0 <= j2 < before.spec_height() && 0 <= k < size implies #[trigger] dense_row_value(
            after,
            j2,
            x,
            k,
        ) ^ t_after[j2][k] == dense_row_value(before, j2, x, k) ^ t_before[j2][k] by {
        let fa = |c: int| after.entry(j2, c);
        let fb = |c: int| before.entry(j2, c);
        if j2 != j {
            lemma_eval_ext(fa, fb, x, k, w);
        } else {
            let bitrow = |c: int| bit_coeff(rows@, p, c);
            let g = |c: int| if rows.bit(p, c) { f } else { 0u8 };
            assert forall|c: int| 0 <= c < w implies #[trigger] g(c) == gf_mul_spec(bitrow(c), f) by {
                assert(rows@[p][c] == rows.bit(p, c));
                lemma_gf_mul_identities(f);
            }
            assert forall|c: int| 0 <= c < w implies #[trigger] fa(c) == fb(c) ^ g(c) by {
                lemma_xor_basics(fb(c), 0, 0);
            }
            lemma_eval_add(fb, g, fa, x, k, w);
            lemma_eval_scale(bitrow, g, f, x, k, w);
            assert(bit_row_value(rows@, p, x, k, w) == b[p][k]);
            let e = eval_cols(fb, x, k, w);
            let gv = gf_mul_spec(f, b[p][k]);
            assert(t_after[j2][k] == t_before[j2][k] ^ gv);
            lemma_xor_regroup(e, gv, t_before[j2][k], gv);
        }
    }
}

/// Projects the pivot columns out of the HDPC rows: for each pivot column, in order, every
/// HDPC row with a nonzero coefficient there gets that coefficient times the pivot row added
/// in, and the same multiple of the pivot row's symbol added into its symbol.
fn project_hdpc_rows(
    coef: &mut DenseOctetMatrix,
    hdpc_symbols: &mut SymbolSlab,
    rows: &PackedBinaryRows,
    binary_symbols: &SymbolSlab,
    pivot_for_col: &Vec<Option<usize>>,
)
    requires
        old(coef).wf(),
        old(coef).spec_width() == rows.spec_width(),
        old(hdpc_symbols).wf(),
        old(hdpc_symbols).spec_len() == old(coef).spec_height(),
        rows.wf(),
        binary_symbols.wf(),
        binary_symbols.spec_len() == rows.spec_height(),
        binary_symbols.spec_symbol_size() == old(hdpc_symbols).spec_symbol_size(),
        pivot_for_col@.len() == rows.spec_width(),
        forall|c: int| 0 <= c < rows.spec_width() ==> match #[trigger] pivot_for_col@[c] {
            Some(p) => p < rows.spec_height() && first_one_is(*rows, p as int, c),
            None => true,
        },
    ensures
        final(coef).wf(),
        final(coef).spec_width() == old(coef).spec_width(),
        final(coef).spec_height() == old(coef).spec_height(),
        final(hdpc_symbols).wf(),
        final(hdpc_symbols).spec_len() == old(hdpc_symbols).spec_len(),
        final(hdpc_symbols).spec_symbol_size() == old(hdpc_symbols).spec_symbol_size(),
        forall|j: int, c: int| 0 <= j < old(coef).spec_height() && 0 <= c < rows.spec_width() && pivot_for_col@[c] is Some
            ==> #[trigger] final(coef).entry(j, c) == 0,
        projection_ok(
            *final(coef),
            final(hdpc_symbols)@,
            *old(coef),
            old(hdpc_symbols)@,
            rows@,
            binary_symbols@,
            binary_symbols.spec_symbol_size(),
        ),
{
    let width = rows.width();
    let h = coef.height();
    let ghost c0 = *coef;
    let ghost t0 = hdpc_symbols@;
    let ghost size = binary_symbols.spec_symbol_size();
    let fused_mul_path = FusedAddAssignMulScalarFastPath::new(binary_symbols.symbol_size());
    let mut col: usize = 0;
    while col < width
        invariant
            col <= width,
            width == rows.spec_width(),
            h == c0.spec_height(),
            rows.wf(),
            binary_symbols.wf(),
            binary_symbols.spec_len() == rows.spec_height(),
            binary_symbols.spec_symbol_size() == size,
            pivot_for_col@.len() == width,
            forall|c: int| 0 <= c < width ==> match #[trigger] pivot_for_col@[c] {
                Some(p) => p < rows.spec_height() && first_one_is(*rows, p as int, c),
                None => true,
            },
            coef.wf(),
            coef.spec_width() == width,
            coef.spec_height() == h,
            c0.spec_width() == width,
            hdpc_symbols.wf(),
            hdpc_symbols.spec_len() == h,
            hdpc_symbols.spec_symbol_size() == size,
            t0.len() == h,
            forall|j: int, c: int| 0 <= j < h && 0 <= c < col && pivot_for_col@[c] is Some
                ==> #[trigger] coef.entry(j, c) == 0,
            projection_ok(*coef, hdpc_symbols@, c0, t0, rows@, binary_symbols@, size),
        decreases width - col,
    {
        match pivot_for_col[col] {
            None => {},
            Some(pivot) => {
                let entries = rows.visit_ones_at_or_after(pivot, col);
                proof {
                    assert(first_one_is(*rows, pivot as int, col as int));
                    lemma_symbol_len(*binary_symbols, pivot as int);
                }
                let mut j: usize = 0;
                while j < h
                    invariant
                        j <= h,
                        col < width,
                        width == rows.spec_width(),
                        h == c0.spec_height(),
                        rows.wf(),
                        pivot < rows.spec_height(),
                        first_one_is(*rows, pivot as int, col as int),
                        pivot_for_col@[col as int] == Some(pivot),
                        binary_symbols.wf(),
                        binary_symbols.spec_len() == rows.spec_height(),
                        binary_symbols.spec_symbol_size() == size,
                        binary_symbols@[pivot as int].len() == size,
                        pivot_for_col@.len() == width,
                        forall|c: int| 0 <= c < width ==> match #[trigger] pivot_for_col@[c] {
                            Some(p) => p < rows.spec_height() && first_one_is(*rows, p as int, c),
                            None => true,
                        },
                        forall|t: int| 0 <= t < entries@.len() ==> col <= #[trigger] entries@[t] < width && rows.bit(
                            pivot as int,
                            entries@[t] as int,
                        ),
                        forall|a: int, b: int| 0 <= a < b < entries@.len() ==> entries@[a] < entries@[b],
                        forall|c: int| col <= c < width && #[trigger] rows.bit(pivot as int, c) ==> entries@.contains(c as usize),
                        coef.wf(),
                        coef.spec_width() == width,
                        coef.spec_height() == h,
                        c0.spec_width() == width,
                        hdpc_symbols.wf(),
                        hdpc_symbols.spec_len() == h,
                        hdpc_symbols.spec_symbol_size() == size,
                        t0.len() == h,
                        forall|j2: int, c: int| 0 <= j2 < h && 0 <= c < col && pivot_for_col@[c] is Some
                            ==> #[trigger] coef.entry(j2, c) == 0,
                        forall|j2: int| 0 <= j2 < j ==> #[trigger] coef.entry(j2, col as int) == 0,
                        projection_ok(*coef, hdpc_symbols@, c0, t0, rows@, binary_symbols@, size),
                    decreases h - j,
                {
                    let factor = coef.get(j, col);
                    if !factor.is_zero() {
                        let ghost coef_before = *coef;
                        let ghost t_before = hdpc_symbols@;
                        let ghost slab_before = *hdpc_symbols;
                        proof {
                            lemma_symbol_len(*hdpc_symbols, j as int);
                        }
                        let dest = hdpc_symbols.get_mut(j);
                        fused_mul_path.apply_nonzero(dest, binary_symbols.get(pivot), &factor);
                        proof {
                            lemma_after_get_mut(
                                slab_before,
                                *hdpc_symbols,
                                j as int,
                                fused_add_seq(t_before[j as int], binary_symbols@[pivot as int], factor@),
                            );
                        }
                        toggle_dense_entries(coef, j, &entries, factor);
                        proof {
                            assert forall|j2: int, c: int| 0 <= j2 < h && 0 <= c < width implies #[trigger] coef.entry(j2, c)
                                == if j2 == j && rows.bit(pivot as int, c) {
                                coef_before.entry(j2, c) ^ factor@
                            } else {
                                coef_before.entry(j2, c)
                            } by {
                                if rows.bit(pivot as int, c) {
                                    assert(c >= col);
                                    assert(entries@.contains(c as usize));
                                } else if entries@.contains(c as usize) {
                                    let t = choose|t: int| 0 <= t < entries@.len() && entries@[t] == c as usize;
                                    assert(rows.bit(pivot as int, entries@[t] as int));
                                }
                            }
                            lemma_project_step(
                                coef_before,
                                *coef,
                                t_before,
                                hdpc_symbols@,
                                *rows,
                                binary_symbols@,
                                pivot as int,
                                j as int,
                                factor@,
                                size,
                            );
                            assert forall|x: Seq<Seq<u8>>, j2: int, k: int|
                                bit_solves(rows@, binary_symbols@, x, c0.spec_width(), size) && 0 <= j2 < c0.spec_height() && 0 <= k < size implies #[trigger] dense_row_value(
                                *coef,
                                j2,
                                x,
                                k,
                            ) ^ hdpc_symbols@[j2][k] == dense_row_value(c0, j2, x, k) ^ t0[j2][k] by {
                                assert(dense_row_value(coef_before, j2, x, k) ^ t_before[j2][k] == dense_row_value(c0, j2, x, k) ^ t0[j2][k]);
                            }
                            assert(coef.entry(j as int, col as int) == 0) by {
                                assert(rows.bit(pivot as int, col as int));
                                lemma_xor_basics(factor@, factor@, 0);
                            }
                            assert forall|j2: int, c: int| 0 <= j2 < h && 0 <= c < col && pivot_for_col@[c] is Some
                                implies #[trigger] coef.entry(j2, c) == 0 by {
                                assert(!rows.bit(pivot as int, c));
                            }
                            assert forall|j2: int| 0 <= j2 < j implies #[trigger] coef.entry(j2, col as int) == 0 by {
                                assert(coef.entry(j2, col as int) == coef_before.entry(j2, col as int));
                            }
                        }
                    }
                    j += 1;
                }
            },
        }
        col += 1;
    }
}


/// The number of listed columns below `n`.
pub open spec fn count_below(free: Seq<usize>, n: int) -> nat
    decreases n,
{
    if n <= 0 {
        0
    } else {
        count_below(free, n - 1) + if free.contains((n - 1) as usize) {
            1nat
        } else {
            0nat
        }
    }
}

/// A combination whose coefficients vanish outside the listed columns equals the combination,
/// over the listed columns in order, of the symbols `z` that stand at those columns.
proof fn lemma_free_eval(
    g: spec_fn(int) -> u8,
    free: Seq<usize>,
    x: Seq<Seq<u8>>,
    z: Seq<Seq<u8>>,
    k: int,
    n: nat,
    w: nat,
)
    requires
        n <= w,
        w <= usize::MAX,
        forall|a: int, b: int| 0 <= a < b < free.len() ==> free[a] < free[b],
        forall|i: int| 0 <= i < free.len() ==> #[trigger] free[i] < w,
        forall|c: int| 0 <= c < w && #[trigger] g(c) != 0 ==> free.contains(c as usize),
        forall|i: int| 0 <= i < free.len() ==> #[trigger] x[free[i] as int][k] == z[i][k],
    ensures
        count_below(free, n as int) <= free.len(),
        forall|i: int| 0 <= i < count_below(free, n as int) ==> #[trigger] free[i] < n,
        forall|i: int| count_below(free, n as int) <= i < free.len() ==> #[trigger] free[i] >= n,
        eval_cols(g, x, k, n) == eval_cols(|i: int| g(free[i] as int), z, k, count_below(free, n as int)),
    decreases n,
{
    let gz = |i: int| g(free[i] as int);
    if n == 0 {
    } else {
        let m = (n - 1) as nat;
        lemma_free_eval(g, free, x, z, k, m, w);
        let cm = count_below(free, m as int);
        assert((m as usize) as int == m);
        if free.contains(m as usize) {
            let i0 = choose|i: int| 0 <= i < free.len() && free[i] == m as usize;
            assert(i0 >= cm);
            if i0 > cm {
                assert(free[cm as int] < free[i0]);
                assert(free[cm as int] >= m);
            }
            assert(i0 == cm);
            assert(count_below(free, n as int) == cm + 1);
            assert forall|i: int| 0 <= i < cm + 1 implies #[trigger] free[i] < n by {}
            assert forall|i: int| cm + 1 <= i < free.len() implies #[trigger] free[i] >= n by {
                assert(free[cm as int] < free[i]);
            }
            assert(gz(cm as int) == g(m as int));
            assert(z[cm as int][k] == x[m as int][k]);
        } else {
            assert(count_below(free, n as int) == cm);
            assert(g(m as int) == 0);
            lemma_gf_mul_identities(x[m as int][k]);
            lemma_xor_basics(eval_cols(g, x, k, m), 0, 0);
            assert forall|i: int| cm <= i < free.len() implies #[trigger] free[i] >= n by {
                if free[i] == m {
                    assert(free.contains(m as usize));
                }
            }
        }
    }
}


/// The free columns are listed in increasing order, each once, and are exactly the columns
/// without a pivot.
pub open spec fn free_cols_ok(free: Seq<usize>, pivot_for_col: Seq<Option<usize>>) -> bool {
    &&& forall|a: int, b: int| 0 <= a < b < free.len() ==> free[a] < free[b]
    &&& forall|i: int| 0 <= i < free.len() ==> #[trigger] free[i] < pivot_for_col.len() && pivot_for_col[free[i] as int] is None
    &&& forall|c: int| 0 <= c < pivot_for_col.len() && (#[trigger] pivot_for_col[c]) is None ==> free.contains(c as usize)
}

/// Byte `k` of row `j` of `coef` over the free columns, applied to the free values `z`.
pub open spec fn free_row_value(coef: DenseOctetMatrix, free: Seq<usize>, j: int, z: Seq<Seq<u8>>, k: int) -> u8 {
    eval_cols(|i: int| coef.entry(j, free[i] as int), z, k, free.len())
}

/// `z` holds one symbol of `size` bytes per free column and satisfies every row of `coef`
/// over the free columns against its symbol in `t`.
pub open spec fn free_system_solves(coef: DenseOctetMatrix, free: Seq<usize>, t: Seq<Seq<u8>>, z: Seq<Seq<u8>>, size: nat) -> bool {
    &&& z.len() == free.len()
    &&& uniform(z, size)
    &&& forall|j: int, k: int| 0 <= j < coef.spec_height() && 0 <= k < size ==> #[trigger] free_row_value(coef, free, j, z, k) == t[j][k]
}

/// The free system has exactly one solution.
pub open spec fn free_unique(coef: DenseOctetMatrix, free: Seq<usize>, t: Seq<Seq<u8>>, size: nat) -> bool {
    exists|z: Seq<Seq<u8>>|
        #![trigger free_system_solves(coef, free, t, z, size)]
        free_system_solves(coef, free, t, z, size) && forall|z2: Seq<Seq<u8>>|
            #![trigger free_system_solves(coef, free, t, z2, size)]
            free_system_solves(coef, free, t, z2, size) ==> z2 == z
}

/// Solves the projected HDPC rows for the free columns. With no free column every row must
/// be zero with a zero symbol. Otherwise every nonzero coefficient must lie in a free column,
/// and the rows over the free columns go to the sparse solver.
fn solve_hdpc_free_variables_dense(
    coef: &DenseOctetMatrix,
    hdpc_symbols: SymbolSlab,
    free_cols: &Vec<usize>,
) -> (r: Option<SymbolSlab>)
    requires
        coef.wf(),
        coef.spec_width() <= u16::MAX + 1,
        hdpc_symbols.wf(),
        hdpc_symbols.spec_len() == coef.spec_height(),
        forall|a: int, b: int| 0 <= a < b < free_cols@.len() ==> free_cols@[a] < free_cols@[b],
        forall|i: int| 0 <= i < free_cols@.len() ==> #[trigger] free_cols@[i] < coef.spec_width(),
    ensures
        r matches Some(z) ==> {
            &&& z.wf()
            &&& z.spec_symbol_size() == hdpc_symbols.spec_symbol_size()
            &&& z.spec_len() == free_cols@.len()
            &&& forall|j: int, c: int| 0 <= j < coef.spec_height() && 0 <= c < coef.spec_width() && #[trigger] coef.entry(j, c) != 0
                ==> free_cols@.contains(c as usize)
            &&& forall|j: int, k: int| 0 <= j < coef.spec_height() && 0 <= k < hdpc_symbols.spec_symbol_size()
                ==> #[trigger] free_row_value(*coef, free_cols@, j, z@, k) == hdpc_symbols@[j][k]
            &&& forall|z2: Seq<Seq<u8>>| #[trigger] free_system_solves(*coef, free_cols@, hdpc_symbols@, z2, hdpc_symbols.spec_symbol_size())
                ==> z2 == z@
        },
        r is None ==> (exists|j: int, c: int|
            0 <= j < coef.spec_height() && 0 <= c < coef.spec_width() && #[trigger] coef.entry(j, c) != 0
                && !free_cols@.contains(c as usize)) || !free_unique(
            *coef,
            free_cols@,
            hdpc_symbols@,
            hdpc_symbols.spec_symbol_size(),
        ),
{
    let h = hdpc_symbols.len();
    let width = coef.width();
    let f = free_cols.len();
    let ghost size = hdpc_symbols.spec_symbol_size();
    let ghost free = free_cols@;
    if f == 0 {
        let mut j: usize = 0;
        while j < h
            invariant
                j <= h,
                h == coef.spec_height(),
                width == coef.spec_width(),
                coef.wf(),
                hdpc_symbols.wf(),
                hdpc_symbols.spec_len() == h,
                forall|j2: int, c: int| 0 <= j2 < j && 0 <= c < width ==> #[trigger] coef.entry(j2, c) == 0,
                forall|j2: int| 0 <= j2 < j ==> crate::octets::all_zero(#[trigger] hdpc_symbols@[j2]),
                free == free_cols@,
                free.len() == 0,
                size == hdpc_symbols.spec_symbol_size(),
            decreases h - j,
        {
            let mut c: usize = 0;
            while c < width
                invariant
                    c <= width,
                    j < h,
                    h == coef.spec_height(),
                    width == coef.spec_width(),
                    coef.wf(),
                    forall|c2: int| 0 <= c2 < c ==> #[trigger] coef.entry(j as int, c2) == 0,
                    free == free_cols@,
                    free.len() == 0,
                decreases width - c,
            {
                if !coef.get(j, c).is_zero() {
                    proof {
                        assert(!free.contains(c as usize));
                        assert(coef.entry(j as int, c as int) != 0);
                    }
                    return None;
                }
                c += 1;
            }
            if !symbol_is_zero(hdpc_symbols.get(j)) {
                proof {
                    lemma_symbol_len(hdpc_symbols, j as int);
                    let k = choose|k: int| 0 <= k < hdpc_symbols@[j as int].len() && hdpc_symbols@[j as int][k] != 0;
                    assert forall|z2: Seq<Seq<u8>>| !#[trigger] free_system_solves(*coef, free, hdpc_symbols@, z2, size) by {
                        if free_system_solves(*coef, free, hdpc_symbols@, z2, size) {
                            assert(free_row_value(*coef, free, j as int, z2, k) == hdpc_symbols@[j as int][k]);
                        }
                    }
                }
                return None;
            }
            j += 1;
        }
        let z = SymbolSlab::with_zeros(0, hdpc_symbols.symbol_size());
        proof {
            assert forall|j: int, k: int| 0 <= j < h && 0 <= k < size implies #[trigger] free_row_value(*coef, free, j, z@, k)
                == hdpc_symbols@[j][k] by {
                assert(crate::octets::all_zero(hdpc_symbols@[j]));
                lemma_symbol_len(hdpc_symbols, j);
            }
            assert forall|z2: Seq<Seq<u8>>| #[trigger] free_system_solves(*coef, free, hdpc_symbols@, z2, size) implies z2 == z@ by {
                assert(z2 =~= z@);
            }
        }
        return Some(z);
    }
    let mut free_index_by_col: Vec<usize> = vec![usize::MAX; width];
    let mut i: usize = 0;
    while i < f
        invariant
            i <= f,
            f == free.len(),
            free == free_cols@,
            width == coef.spec_width(),
            free_index_by_col@.len() == width,
            forall|a: int, b: int| 0 <= a < b < free.len() ==> free[a] < free[b],
            forall|i2: int| 0 <= i2 < free.len() ==> #[trigger] free[i2] < width,
            forall|c: int| 0 <= c < width ==> (#[trigger] free_index_by_col@[c] == usize::MAX) || (
                free_index_by_col@[c] < i && free[free_index_by_col@[c] as int] == c),
            forall|i2: int| 0 <= i2 < i ==> #[trigger] free_index_by_col@[free[i2] as int] == i2,
        decreases f - i,
    {
        let ghost before = free_index_by_col@;
        free_index_by_col.set(free_cols[i], i);
        proof {
            assert forall|i2: int| 0 <= i2 < i + 1 implies #[trigger] free_index_by_col@[free[i2] as int] == i2 by {
                if i2 < i {
                    assert(free[i2] != free[i as int]);
                }
            }
        }
        i += 1;
    }
    proof {
        let fi = |i2: int| free[i2] as int;
        assert forall|a: int, b: int| 0 <= a < b < f implies #[trigger] fi(a) != #[trigger] fi(b) by {
            assert(free[a] < free[b]);
        }
        crate::binary_solve::lemma_injective_bound(fi, f as nat, width as nat);
    }
    let mut free_rows: Vec<CoefficientRow> = Vec::new();
    let mut j: usize = 0;
    while j < h
        invariant
            j <= h,
            h == coef.spec_height(),
            width == coef.spec_width(),
            width <= u16::MAX + 1,
            coef.wf(),
            f == free.len(),
            free == free_cols@,
            f <= width,
            free_index_by_col@.len() == width,
            forall|a: int, b: int| 0 <= a < b < free.len() ==> free[a] < free[b],
            forall|i2: int| 0 <= i2 < free.len() ==> #[trigger] free[i2] < width,
            forall|c: int| 0 <= c < width ==> (#[trigger] free_index_by_col@[c] == usize::MAX) || (
                free_index_by_col@[c] < f && free[free_index_by_col@[c] as int] == c),
            forall|i2: int| 0 <= i2 < f ==> #[trigger] free_index_by_col@[free[i2] as int] == i2,
            free_rows@.len() == j,
            forall|j2: int| 0 <= j2 < j ==> row_ok(#[trigger] free_rows@[j2]@, f as nat),
            forall|j2: int, i2: int| 0 <= j2 < j ==> #[trigger] coeff(row_view(free_rows@[j2]@), i2) == if 0 <= i2 < f {
                coef.entry(j2, free[i2] as int)
            } else {
                0u8
            },
            forall|j2: int, c: int| 0 <= j2 < j && 0 <= c < width && #[trigger] coef.entry(j2, c) != 0 ==> free.contains(c as usize),
        decreases h - j,
    {
        let mut free_row: CoefficientRow = Vec::new();
        let mut c: usize = 0;
        while c < width
            invariant
                c <= width,
                j < h,
                h == coef.spec_height(),
                width == coef.spec_width(),
                width <= u16::MAX + 1,
                coef.wf(),
                f == free.len(),
                f <= width,
                free_index_by_col@.len() == width,
                forall|a: int, b: int| 0 <= a < b < free.len() ==> free[a] < free[b],
                forall|i2: int| 0 <= i2 < free.len() ==> #[trigger] free[i2] < width,
                forall|c2: int| 0 <= c2 < width ==> (#[trigger] free_index_by_col@[c2] == usize::MAX) || (
                    free_index_by_col@[c2] < f && free[free_index_by_col@[c2] as int] == c2),
                forall|i2: int| 0 <= i2 < f ==> #[trigger] free_index_by_col@[free[i2] as int] == i2,
                forall|a: int, b: int| 0 <= a < b < free_row@.len() ==> free_row@[a].0 < free_row@[b].0,
                forall|t: int| 0 <= t < free_row@.len() ==> (#[trigger] free_row@[t]).0 < f && free[free_row@[t].0 as int] < c
                    && free_row@[t].1@ != 0 && free_row@[t].1@ == coef.entry(j as int, free[free_row@[t].0 as int] as int),
                forall|i2: int| 0 <= i2 < f && free[i2] < c && coef.entry(j as int, free[i2] as int) != 0 ==> exists|t: int|
                    0 <= t < free_row@.len() && (#[trigger] free_row@[t]).0 == i2,
                forall|c2: int| 0 <= c2 < c && #[trigger] coef.entry(j as int, c2) != 0 ==> free.contains(c2 as usize),
                free == free_cols@,
            decreases width - c,
        {
            let value = coef.get(j, c);
            if !value.is_zero() {
                let free_index = free_index_by_col[c];
                if free_index == usize::MAX {
                    proof {
                        assert(coef.entry(j as int, c as int) == value@);
                        if free.contains(c as usize) {
                            let i2 = choose|i2: int| 0 <= i2 < free.len() && free[i2] == c as usize;
                            assert(free_index_by_col@[free[i2] as int] == i2);
                        }
                        assert(coef.entry(j as int, c as int) != 0 && !free_cols@.contains(c as usize));
                    }
                    return None;
                }
                let ghost before = free_row@;
                proof {
                    if before.len() > 0 {
                        let last = before[before.len() - 1].0;
                        assert(free[last as int] < c);
                        assert(free[free_index as int] == c);
                        if last >= free_index {
                            if last > free_index {
                                assert(free[free_index as int] < free[last as int]);
                            }
                        }
                    }
                }
                free_row.push((coefficient_col(free_index), value));
                proof {
                    assert forall|a: int, b: int| 0 <= a < b < free_row@.len() implies free_row@[a].0 < free_row@[b].0 by {
                        if b == before.len() {
                            let last = before.len() - 1;
                            if a < last {
                                assert(before[a].0 < before[last].0);
                            }
                            assert(free[before[a].0 as int] < c);
                            assert(free[free_index as int] == c);
                            if before[a].0 >= free_index {
                                if before[a].0 > free_index {
                                    assert(free[free_index as int] < free[before[a].0 as int]);
                                }
                            }
                        }
                    }
                    assert forall|i2: int| 0 <= i2 < f && free[i2] < c + 1 && coef.entry(j as int, free[i2] as int) != 0 implies exists|t: int|
                        0 <= t < free_row@.len() && (#[trigger] free_row@[t]).0 == i2 by {
                        if free[i2] == c {
                            assert(free_index_by_col@[free[i2] as int] == i2);
                            assert(free_row@[before.len() as int].0 == i2);
                        } else {
                            let t = choose|t: int| 0 <= t < before.len() && (#[trigger] before[t]).0 == i2;
                            assert(free_row@[t] == before[t]);
                        }
                    }
                    assert(free.contains(c as usize)) by {
                        assert(free[free_index as int] == c);
                    }
                }
            } else {
                proof {
                    assert forall|i2: int| 0 <= i2 < f && free[i2] < c + 1 && coef.entry(j as int, free[i2] as int) != 0 implies exists|t: int|
                        0 <= t < free_row@.len() && (#[trigger] free_row@[t]).0 == i2 by {
                        if free[i2] == c {
                            assert(coef.entry(j as int, c as int) == value@);
                        }
                    }
                }
            }
            c += 1;
        }
        proof {
            let v = row_view(free_row@);
            assert forall|a: int, b: int| 0 <= a < b < v.len() implies v[a].0 < v[b].0 by {}
            assert forall|i2: int| #[trigger] coeff(v, i2) == if 0 <= i2 < f {
                coef.entry(j as int, free[i2] as int)
            } else {
                0u8
            } by {
                lemma_coeff_lookup(v, i2);
                if 0 <= i2 < f && coef.entry(j as int, free[i2] as int) != 0 {
                    let t = choose|t: int| 0 <= t < free_row@.len() && (#[trigger] free_row@[t]).0 == i2;
                    assert(v[t].0 == i2);
                } else if 0 <= i2 < f {
                    assert forall|t: int| 0 <= t < v.len() implies v[t].0 != i2 by {
                        assert(free_row@[t].1@ == coef.entry(j as int, free[free_row@[t].0 as int] as int));
                    }
                } else {
                    assert forall|t: int| 0 <= t < v.len() implies v[t].0 != i2 by {
                        assert(free_row@[t].0 < f);
                    }
                }
            }
        }
        let ghost rows_before = free_rows@;
        free_rows.push(free_row);
        proof {
            assert forall|j2: int, i2: int| 0 <= j2 < j + 1 implies #[trigger] coeff(row_view(free_rows@[j2]@), i2) == if 0 <= i2 < f {
                coef.entry(j2, free[i2] as int)
            } else {
                0u8
            } by {
                if j2 < j {
                    assert(free_rows@[j2] == rows_before[j2]);
                }
            }
            assert forall|j2: int| 0 <= j2 < j + 1 implies row_ok(#[trigger] free_rows@[j2]@, f as nat) by {
                if j2 < j {
                    assert(free_rows@[j2] == rows_before[j2]);
                }
            }
        }
        j += 1;
    }
    let ghost t = hdpc_symbols@;
    proof {
        assert forall|z2: Seq<Seq<u8>>| #[trigger] solves(free_rows@, t, z2, f as nat, size) == free_system_solves(*coef, free, t, z2, size) by {
            assert forall|jj: int, k: int| 0 <= jj < h && 0 <= k < size implies #[trigger] row_value(free_rows@[jj]@, z2, k, f as nat)
                == free_row_value(*coef, free, jj, z2, k) by {
                lemma_eval_ext(
                    |i2: int| coeff(row_view(free_rows@[jj]@), i2),
                    |i2: int| coef.entry(jj, free[i2] as int),
                    z2,
                    k,
                    f as nat,
                );
            }
            if solves(free_rows@, t, z2, f as nat, size) {
                assert forall|jj: int, k: int| 0 <= jj < coef.spec_height() && 0 <= k < size implies #[trigger] free_row_value(*coef, free, jj, z2, k)
                    == t[jj][k] by {
                    assert(row_value(free_rows@[jj]@, z2, k, f as nat) == t[jj][k]);
                }
            }
            if free_system_solves(*coef, free, t, z2, size) {
                assert forall|jj: int, k: int| 0 <= jj < free_rows@.len() && 0 <= k < size implies #[trigger] row_value(free_rows@[jj]@, z2, k, f as nat)
                    == t[jj][k] by {
                    assert(free_row_value(*coef, free, jj, z2, k) == t[jj][k]);
                }
            }
        }
    }
    let (decoded, _) = solve_without_recording(free_rows, f, hdpc_symbols);
    match decoded {
        None => {
            proof {
                if free_unique(*coef, free, t, size) {
                    let z0 = choose|z: Seq<Seq<u8>>|
                        #![trigger free_system_solves(*coef, free, t, z, size)]
                        free_system_solves(*coef, free, t, z, size) && forall|z2: Seq<Seq<u8>>|
                            #![trigger free_system_solves(*coef, free, t, z2, size)]
                            free_system_solves(*coef, free, t, z2, size) ==> z2 == z;
                    assert(solves(free_rows@, t, z0, f as nat, size));
                    assert forall|y0: Seq<Seq<u8>>| #[trigger] solves(free_rows@, t, y0, f as nat, size) implies y0 == z0 by {
                        assert(free_system_solves(*coef, free, t, y0, size));
                    }
                    assert(crate::linear_system::unique_solution(free_rows@, t, f as nat, size));
                }
            }
            None
        },
        Some(z) => {
            proof {
                assert forall|j: int, k: int| 0 <= j < h && 0 <= k < size implies #[trigger] free_row_value(
                    *coef,
                    free,
                    j,
                    z@,
                    k,
                ) == t[j][k] by {
                    assert(row_value(free_rows@[j]@, z@, k, f as nat) == t[j][k]);
                    lemma_eval_ext(
                        |i2: int| coeff(row_view(free_rows@[j]@), i2),
                        |i2: int| coef.entry(j, free[i2] as int),
                        z@,
                        k,
                        f as nat,
                    );
                }
                assert forall|z2: Seq<Seq<u8>>| #[trigger] free_system_solves(*coef, free, t, z2, size) implies z2 == z@ by {
                    assert forall|jj: int, k: int| 0 <= jj < free_rows@.len() && 0 <= k < size implies #[trigger] row_value(
                        free_rows@[jj]@,
                        z2,
                        k,
                        f as nat,
                    ) == t[jj][k] by {
                        assert(free_row_value(*coef, free, jj, z2, k) == t[jj][k]);
                        lemma_eval_ext(
                            |i2: int| coeff(row_view(free_rows@[jj]@), i2),
                            |i2: int| coef.entry(jj, free[i2] as int),
                            z2,
                            k,
                            f as nat,
                        );
                    }
                    assert(solves(free_rows@, t, z2, f as nat, size));
                    assert(solves(free_rows@, t, z@, f as nat, size));
                    let x0 = choose|x0: Seq<Seq<u8>>|
                        #![trigger solves(free_rows@, t, x0, f as nat, size)]
                        solves(free_rows@, t, x0, f as nat, size) && forall|y0: Seq<Seq<u8>>|
                            #![trigger solves(free_rows@, t, y0, f as nat, size)]
                            solves(free_rows@, t, y0, f as nat, size) ==> y0 == x0;
                }
            }
            Some(z)
        },
    }
}


/// The combined system has exactly one solution.
pub open spec fn hybrid_unique_solution<M: BinaryMatrix>(
    matrix: &M,
    hdpc_rows: &DenseOctetMatrix,
    symbols: Seq<Seq<u8>>,
    ldpc_rows: int,
    size: nat,
) -> bool {
    exists|x: Seq<Seq<u8>>|
        #![trigger hybrid_solves(matrix, hdpc_rows, symbols, ldpc_rows, x, size)]
        hybrid_solves(matrix, hdpc_rows, symbols, ldpc_rows, x, size) && forall|y: Seq<Seq<u8>>|
            #![trigger hybrid_solves(matrix, hdpc_rows, symbols, ldpc_rows, y, size)]
            hybrid_solves(matrix, hdpc_rows, symbols, ldpc_rows, y, size) ==> y == x
}

/// A solution of the combined system solves its binary rows.
proof fn lemma_hybrid_binary_rows<M: BinaryMatrix>(
    matrix: &M,
    hdpc_rows: &DenseOctetMatrix,
    symbols: Seq<Seq<u8>>,
    s: int,
    m0: Seq<Seq<bool>>,
    b0: Seq<Seq<u8>>,
    size: nat,
    y: Seq<Seq<u8>>,
)
    requires
        m0.len() == matrix.spec_height(),
        b0.len() == matrix.spec_height(),
        forall|i: int, c: int| 0 <= i < matrix.spec_height() && 0 <= c < matrix.spec_width() ==> #[trigger] bit_coeff(m0, i, c)
            == hybrid_coefficient(matrix, hdpc_rows, i, c),
        forall|i: int| 0 <= i < matrix.spec_height() ==> #[trigger] b0[i] == symbols[hybrid_symbol_index(
            i,
            s,
            matrix.spec_height() as int,
            hdpc_rows.spec_height() as int,
        )],
        hybrid_solves(matrix, hdpc_rows, symbols, s, y, size),
    ensures
        bit_solves(m0, b0, y, matrix.spec_width(), size),
{
    let w = matrix.spec_width();
    let bh = matrix.spec_height();
    let h = hdpc_rows.spec_height();
    assert forall|r: int, k: int| 0 <= r < bh && 0 <= k < size implies #[trigger] bit_row_value(m0, r, y, k, w) == b0[r][k] by {
        assert(hybrid_row_value(matrix, hdpc_rows, r, y, k) == symbols[hybrid_symbol_index(r, s, bh as int, h as int)][k]);
        lemma_eval_ext(|c: int| hybrid_coefficient(matrix, hdpc_rows, r, c), |c: int| bit_coeff(m0, r, c), y, k, w);
    }
}

/// `x` holds one symbol of `size` bytes per column and satisfies every binary row of the
/// combined system against the received symbol that row stands for.
pub open spec fn hybrid_binary_solves<M: BinaryMatrix>(
    matrix: &M,
    hdpc_rows: &DenseOctetMatrix,
    symbols: Seq<Seq<u8>>,
    ldpc_rows: int,
    x: Seq<Seq<u8>>,
    size: nat,
) -> bool {
    &&& x.len() == matrix.spec_width()
    &&& uniform(x, size)
    &&& forall|r: int, k: int|
        0 <= r < matrix.spec_height() && 0 <= k < size ==> #[trigger] hybrid_row_value(matrix, hdpc_rows, r, x, k)
            == symbols[hybrid_symbol_index(r, ldpc_rows, matrix.spec_height() as int, hdpc_rows.spec_height() as int)][k]
}

/// Solves the binary rows together with the HDPC rows. The received symbols hold the first
/// `num_ldpc` binary symbols, then the HDPC symbols, then the other binary symbols. The
/// binary rows are eliminated over GF(2); a row left without a pivot must be empty with a
/// zero symbol. When there are more rows than columns and no column is free, the binary
/// solution is taken and the HDPC rows are checked to vanish on it. Otherwise the pivot
/// columns are projected out of the HDPC rows, the free columns are solved from them (which
/// fails whenever the free columns outnumber the HDPC rows, as they cannot then be fixed
/// uniquely), and back substitution fills in the rest.
///
/// The result is `None` only when the combined system has no unique solution, or in the one
/// case where the binary rows alone fix every column of an overdetermined system and some
/// received HDPC symbol is nonzero: the HDPC rows are then checked against zero.
pub fn try_hybrid_binary_hdpc_solve<M: BinaryMatrix>(
    matrix: &M,
    hdpc_rows: &DenseOctetMatrix,
    symbols: &SymbolSlab,
    num_ldpc: usize,
) -> (r: Option<SymbolSlab>)
    requires
        matrix.inv(),
        hdpc_rows.wf(),
        hdpc_rows.spec_width() == matrix.spec_width(),
        matrix.spec_width() <= u16::MAX + 1,
        num_ldpc <= matrix.spec_height(),
        packable(matrix.spec_height(), matrix.spec_width()),
        symbols.wf(),
        symbols.spec_len() == matrix.spec_height() + hdpc_rows.spec_height(),
        matrix.spec_width() * symbols.spec_symbol_size() <= usize::MAX,
    ensures
        r matches Some(x) ==> {
            &&& x.wf()
            &&& x.spec_symbol_size() == symbols.spec_symbol_size()
            &&& x.spec_len() == matrix.spec_width()
            &&& hybrid_binary_solves(matrix, hdpc_rows, symbols@, num_ldpc as int, x@, symbols.spec_symbol_size())
            &&& hybrid_solves(matrix, hdpc_rows, symbols@, num_ldpc as int, x@, symbols.spec_symbol_size()) || (
                matrix.spec_height() + hdpc_rows.spec_height() > matrix.spec_width() && hdpc_satisfied(
                *hdpc_rows,
                x@,
                symbols.spec_symbol_size(),
            ))
            &&& forall|y: Seq<Seq<u8>>| #[trigger] hybrid_solves(matrix, hdpc_rows, symbols@, num_ldpc as int, y, symbols.spec_symbol_size())
                ==> y == x@
        },
        r is None ==> !hybrid_unique_solution(matrix, hdpc_rows, symbols@, num_ldpc as int, symbols.spec_symbol_size()) || (
            matrix.spec_height() + hdpc_rows.spec_height() > matrix.spec_width() && bit_full_rank(
                prefix_bits(matrix, matrix.spec_height()),
                matrix.spec_width(),
                symbols.spec_symbol_size(),
            ) && exists|j: int|
                0 <= j < hdpc_rows.spec_height() && !crate::octets::all_zero(#[trigger] symbols@[num_ldpc + j])),
{
    let s = num_ldpc;
    let h = hdpc_rows.height();
    let width = matrix.width();
    let binary_height = matrix.height();
    let symbol_size = symbols.symbol_size();
    let total = symbols.len();
    let total_bytes = symbols.as_bytes().len();
    let ghost size = symbol_size as nat;
    proof {
        if total > 0 {
            symbols.lemma_symbol_bounds(0);
        }
        assert(binary_height * symbol_size <= total * symbol_size) by (nonlinear_arith)
            requires
                binary_height <= total,
        ;
        assert(h * symbol_size <= total * symbol_size) by (nonlinear_arith)
            requires
                h <= total,
        ;
        assert(total * symbol_size <= usize::MAX) by {
            if total == 0 {
                assert(total * symbol_size == 0) by (nonlinear_arith)
                    requires
                        total == 0,
                ;
            }
        }
        lemma_uniform_slab(*symbols);
    }
    let mut binary_symbols = SymbolSlab::with_zeros(binary_height, symbol_size);
    let mut r: usize = 0;
    while r < binary_height
        invariant
            r <= binary_height,
            binary_height == matrix.spec_height(),
            total == binary_height + h,
            h == hdpc_rows.spec_height(),
            s <= binary_height,
            symbols.wf(),
            symbols.spec_len() == total,
            symbols.spec_symbol_size() == size,
            uniform(symbols@, size),
            binary_symbols.wf(),
            binary_symbols.spec_len() == binary_height,
            binary_symbols.spec_symbol_size() == size,
            forall|i: int| 0 <= i < r ==> #[trigger] binary_symbols@[i] == symbols@[hybrid_symbol_index(
                i,
                s as int,
                binary_height as int,
                h as int,
            )],
        decreases binary_height - r,
    {
        let src = if r < s {
            r
        } else {
            r + h
        };
        let ghost before = binary_symbols@;
        copy_symbol(&mut binary_symbols, r, symbols.get(src));
        proof {
            assert forall|i: int| 0 <= i < r + 1 implies #[trigger] binary_symbols@[i] == symbols@[hybrid_symbol_index(
                i,
                s as int,
                binary_height as int,
                h as int,
            )] by {
                if i < r {
                    assert(binary_symbols@[i] == before[i]);
                }
            }
        }
        r += 1;
    }
    let ghost b0 = binary_symbols@;
    let mut rows = matrix.packed_rows();
    let ghost m0 = rows@;
    proof {
        assert forall|i: int, c: int| 0 <= i < binary_height && 0 <= c < width implies #[trigger] bit_coeff(m0, i, c)
            == hybrid_coefficient(matrix, hdpc_rows, i, c) by {
            assert(m0[i][c] == rows.bit(i, c));
        }
    }
    let mut pivot_for_col = no_pivots(width);
    let mut is_pivot_row: Vec<bool> = vec![false; binary_height];
    hybrid_binary_forward(&mut rows, &mut binary_symbols, &mut pivot_for_col, &mut is_pivot_row);
    if !binary_unpivoted_rows_consistent(&rows, &binary_symbols, &is_pivot_row) {
        proof {
            let i = choose|i: int| 0 <= i < binary_height && !is_pivot_row@[i] && !(row_is_zero(rows, i) && crate::octets::all_zero(binary_symbols@[i]));
            assert(row_is_zero(rows, i));
            lemma_symbol_len(binary_symbols, i);
            let k = choose|k: int| 0 <= k < binary_symbols@[i].len() && binary_symbols@[i][k] != 0;
            assert forall|c2: int| 0 <= c2 < width implies !#[trigger] rows@[i][c2] by {
                assert(rows@[i][c2] == rows.bit(i, c2));
            }
            crate::binary_solve::lemma_bit_inconsistent(rows@, binary_symbols@, i, k, width as nat, size);
            if hybrid_unique_solution(matrix, hdpc_rows, symbols@, s as int, size) {
                let x = choose|x: Seq<Seq<u8>>|
                    #![trigger hybrid_solves(matrix, hdpc_rows, symbols@, s as int, x, size)]
                    hybrid_solves(matrix, hdpc_rows, symbols@, s as int, x, size) && forall|y: Seq<Seq<u8>>|
                        #![trigger hybrid_solves(matrix, hdpc_rows, symbols@, s as int, y, size)]
                        hybrid_solves(matrix, hdpc_rows, symbols@, s as int, y, size) ==> y == x;
                lemma_hybrid_binary_rows(matrix, hdpc_rows, symbols@, s as int, m0, b0, size, x);
                assert(bit_solves(rows@, binary_symbols@, x, width as nat, size));
            }
        }
        return None;
    }
    let mut free_cols: Vec<usize> = Vec::new();
    let mut c: usize = 0;
    while c < width
        invariant
            c <= width,
            width == rows.spec_width(),
            pivot_for_col@.len() == width,
            forall|a: int, b: int| 0 <= a < b < free_cols@.len() ==> free_cols@[a] < free_cols@[b],
            forall|i: int| 0 <= i < free_cols@.len() ==> #[trigger] free_cols@[i] < c && pivot_for_col@[free_cols@[i] as int] is None,
            forall|c2: int| 0 <= c2 < c && (#[trigger] pivot_for_col@[c2]) is None ==> free_cols@.contains(c2 as usize),
        decreases width - c,
    {
        if pivot_for_col[c].is_none() {
            let ghost before = free_cols@;
            free_cols.push(c);
            proof {
                assert forall|c2: int| 0 <= c2 < c + 1 && (#[trigger] pivot_for_col@[c2]) is None implies free_cols@.contains(c2 as usize) by {
                    if c2 == c {
                        assert(free_cols@[before.len() as int] == c);
                    } else {
                        let i = choose|i: int| 0 <= i < before.len() && before[i] == c2 as usize;
                        assert(free_cols@[i] == before[i]);
                    }
                }
            }
        }
        c += 1;
    }
    proof {
        lemma_uniform_slab(binary_symbols);
    }
    let overdetermined = binary_height + h > width;
    if overdetermined && free_cols.len() == 0 {
        proof {
            assert forall|c2: int| 0 <= c2 < width implies (#[trigger] pivot_for_col@[c2]) is Some by {
                if pivot_for_col@[c2] is None {
                    assert(free_cols@.contains(c2 as usize));
                }
            }
        }
        let decoded = binary_back_substitute(&rows, &binary_symbols, &pivot_for_col, width);
        proof {
            lemma_uniform_slab(decoded);
            lemma_binary_part(matrix, hdpc_rows, symbols@, s as int, rows, binary_symbols@, m0, b0, pivot_for_col@, is_pivot_row@, decoded@, size);
        }
        if hdpc_rows_satisfied(&decoded, hdpc_rows) {
            proof {
                assert forall|y: Seq<Seq<u8>>| #[trigger] hybrid_solves(matrix, hdpc_rows, symbols@, s as int, y, size) implies y
                    == decoded@ by {
                    assert forall|rr: int, k: int| 0 <= rr < binary_height && 0 <= k < size implies #[trigger] bit_row_value(m0, rr, y, k, width as nat)
                        == b0[rr][k] by {
                        assert(hybrid_row_value(matrix, hdpc_rows, rr, y, k) == symbols@[hybrid_symbol_index(
                            rr,
                            s as int,
                            binary_height as int,
                            h as int,
                        )][k]);
                        lemma_eval_ext(
                            |cc: int| hybrid_coefficient(matrix, hdpc_rows, rr, cc),
                            |cc: int| bit_coeff(m0, rr, cc),
                            y,
                            k,
                            width as nat,
                        );
                    }
                    assert(bit_solves(m0, b0, y, width as nat, size));
                    assert(bit_solves(rows@, binary_symbols@, y, width as nat, size));
                    crate::binary_solve::lemma_bit_pivots_unique(rows, pivot_for_col@, binary_symbols@, decoded@, y, size);
                }
            }
            return Some(decoded);
        }
        proof {
            let zs = zero_symbols(binary_height as nat, size);
            crate::binary_solve::lemma_bit_pivots_full_rank(rows, pivot_for_col@, size);
            crate::binary_solve::lemma_bit_unique_transfer(rows@, zs, m0, zs, width as nat, size);
            assert(m0 =~= prefix_bits(matrix, binary_height as nat)) by {
                assert forall|i: int| 0 <= i < binary_height implies #[trigger] m0[i] =~= prefix_bits(matrix, binary_height as nat)[i] by {
                    assert forall|c2: int| 0 <= c2 < width implies m0[i][c2] == matrix.spec_bit(i, c2) by {
                        assert(bit_coeff(m0, i, c2) == hybrid_coefficient(matrix, hdpc_rows, i, c2));
                    }
                }
            }
            if hybrid_unique_solution(matrix, hdpc_rows, symbols@, s as int, size) && forall|jj: int|
                0 <= jj < h ==> crate::octets::all_zero(#[trigger] symbols@[s + jj]) {
                let x = choose|x: Seq<Seq<u8>>|
                    #![trigger hybrid_solves(matrix, hdpc_rows, symbols@, s as int, x, size)]
                    hybrid_solves(matrix, hdpc_rows, symbols@, s as int, x, size) && forall|y: Seq<Seq<u8>>|
                        #![trigger hybrid_solves(matrix, hdpc_rows, symbols@, s as int, y, size)]
                        hybrid_solves(matrix, hdpc_rows, symbols@, s as int, y, size) ==> y == x;
                lemma_hybrid_binary_rows(matrix, hdpc_rows, symbols@, s as int, m0, b0, size, x);
                assert(bit_solves(rows@, binary_symbols@, x, width as nat, size));
                crate::binary_solve::lemma_bit_pivots_unique(rows, pivot_for_col@, binary_symbols@, decoded@, x, size);
                assert forall|ii: int, k: int| 0 <= ii < h && 0 <= k < size implies #[trigger] hdpc_prefix(
                    *hdpc_rows,
                    ii,
                    decoded@,
                    k,
                    hdpc_rows.spec_width(),
                ) == 0 by {
                    let rr = binary_height + ii;
                    assert(hybrid_row_value(matrix, hdpc_rows, rr, x, k) == symbols@[hybrid_symbol_index(
                        rr,
                        s as int,
                        binary_height as int,
                        h as int,
                    )][k]);
                    assert(hybrid_symbol_index(rr, s as int, binary_height as int, h as int) == s + ii);
                    assert(crate::octets::all_zero(symbols@[s + ii]));
                    lemma_symbol_len(*symbols, s + ii);
                    lemma_eval_ext(
                        |c2: int| hybrid_coefficient(matrix, hdpc_rows, rr, c2),
                        |c2: int| hdpc_rows.entry(ii, c2),
                        x,
                        k,
                        width as nat,
                    );
                }
                assert(hdpc_satisfied(*hdpc_rows, decoded@, size));
            }
        }
        return None;
    }
    let mut hdpc_symbols = SymbolSlab::with_zeros(h, symbol_size);
    let mut j: usize = 0;
    while j < h
        invariant
            j <= h,
            binary_height == matrix.spec_height(),
            total == binary_height + h,
            h == hdpc_rows.spec_height(),
            s <= binary_height,
            symbols.wf(),
            symbols.spec_len() == total,
            symbols.spec_symbol_size() == size,
            uniform(symbols@, size),
            hdpc_symbols.wf(),
            hdpc_symbols.spec_len() == h,
            hdpc_symbols.spec_symbol_size() == size,
            forall|i: int| 0 <= i < j ==> #[trigger] hdpc_symbols@[i] == symbols@[s + i],
        decreases h - j,
    {
        let ghost before = hdpc_symbols@;
        copy_symbol(&mut hdpc_symbols, j, symbols.get(s + j));
        proof {
            assert forall|i: int| 0 <= i < j + 1 implies #[trigger] hdpc_symbols@[i] == symbols@[s + i] by {
                if i < j {
                    assert(hdpc_symbols@[i] == before[i]);
                }
            }
        }
        j += 1;
    }
    let ghost t0 = hdpc_symbols@;
    let mut coef = hdpc_rows.clone();
    let ghost c0 = coef;
    project_hdpc_rows(&mut coef, &mut hdpc_symbols, &rows, &binary_symbols, &pivot_for_col);
    let ghost t1 = hdpc_symbols@;
    proof {
        assert(free_cols_ok(free_cols@, pivot_for_col@));
        assert forall|jj: int, cc: int| 0 <= jj < h && 0 <= cc < width implies #[trigger] c0.entry(jj, cc) == hdpc_rows.entry(jj, cc) by {}
        assert forall|jj: int, cc: int| 0 <= jj < coef.spec_height() && 0 <= cc < coef.spec_width() && #[trigger] coef.entry(jj, cc) != 0
            implies free_cols@.contains(cc as usize) by {
            if pivot_for_col@[cc] is Some {
                assert(coef.entry(jj, cc) == 0);
            }
        }
    }
    let free_values = match solve_hdpc_free_variables_dense(&coef, hdpc_symbols, &free_cols) {
        Some(z) => z,
        None => {
            proof {
                if hybrid_unique_solution(matrix, hdpc_rows, symbols@, s as int, size) {
                    let x = choose|x: Seq<Seq<u8>>|
                        #![trigger hybrid_solves(matrix, hdpc_rows, symbols@, s as int, x, size)]
                        hybrid_solves(matrix, hdpc_rows, symbols@, s as int, x, size) && forall|y: Seq<Seq<u8>>|
                            #![trigger hybrid_solves(matrix, hdpc_rows, symbols@, s as int, y, size)]
                            hybrid_solves(matrix, hdpc_rows, symbols@, s as int, y, size) ==> y == x;
                    let free = free_cols@;
                    let z2 = Seq::new(free.len(), |i2: int| x[free[i2] as int]);
                    lemma_restrict_free(matrix, hdpc_rows, symbols@, s as int, rows, binary_symbols@, m0, b0, free, coef, c0, t0, t1, size, x);
                    assert forall|z3: Seq<Seq<u8>>| #[trigger] free_system_solves(coef, free, t1, z3, size) implies z3 == z2 by {
                        lemma_extension_solves(matrix, hdpc_rows, symbols@, s as int, rows, binary_symbols@, m0, b0, pivot_for_col@, is_pivot_row@, free, coef, c0, t0, t1, size, z3);
                        let y = extend_free(rows, pivot_for_col@, binary_symbols@, free, z3, size, 0);
                        assert(y == x);
                        assert forall|i2: int| 0 <= i2 < z3.len() implies z3[i2] == z2[i2] by {
                            assert(y[free[i2] as int] == z3[i2]);
                        }
                        assert(z3 =~= z2);
                    }
                    assert(free_unique(coef, free, t1, size));
                }
            }
            return None;
        },
    };
    let mut decoded = SymbolSlab::with_zeros(width, symbol_size);
    let f = free_cols.len();
    let mut i: usize = 0;
    while i < f
        invariant
            i <= f,
            f == free_cols@.len(),
            width == rows.spec_width(),
            forall|a: int, b: int| 0 <= a < b < free_cols@.len() ==> free_cols@[a] < free_cols@[b],
            forall|i2: int| 0 <= i2 < free_cols@.len() ==> #[trigger] free_cols@[i2] < width,
            free_values.wf(),
            free_values.spec_len() == f,
            free_values.spec_symbol_size() == size,
            decoded.wf(),
            decoded.spec_len() == width,
            decoded.spec_symbol_size() == size,
            forall|i2: int| 0 <= i2 < i ==> #[trigger] decoded@[free_cols@[i2] as int] == free_values@[i2],
        decreases f - i,
    {
        proof {
            lemma_symbol_len(free_values, i as int);
        }
        let ghost before = decoded@;
        copy_symbol(&mut decoded, free_cols[i], free_values.get(i));
        proof {
            assert forall|i2: int| 0 <= i2 < i + 1 implies #[trigger] decoded@[free_cols@[i2] as int] == free_values@[i2] by {
                if i2 < i {
                    assert(free_cols@[i2] != free_cols@[i as int]);
                    assert(decoded@[free_cols@[i2] as int] == before[free_cols@[i2] as int]);
                }
            }
        }
        i += 1;
    }
    let ghost init = decoded@;
    let decoded = binary_back_substitute_free(&rows, &binary_symbols, &pivot_for_col, decoded);
    proof {
        lemma_uniform_slab(decoded);
        lemma_uniform_slab(free_values);
        lemma_binary_part(matrix, hdpc_rows, symbols@, s as int, rows, binary_symbols@, m0, b0, pivot_for_col@, is_pivot_row@, decoded@, size);
        assert forall|jj: int, k: int| 0 <= jj < h && 0 <= k < size implies #[trigger] dense_row_value(*hdpc_rows, jj, decoded@, k)
            == symbols@[s + jj][k] by {
            let g = |cc: int| coef.entry(jj, cc);
            assert forall|cc: int| 0 <= cc < width && #[trigger] g(cc) != 0 implies free_cols@.contains(cc as usize) by {}
            assert forall|i2: int| 0 <= i2 < free_cols@.len() implies #[trigger] decoded@[free_cols@[i2] as int][k] == free_values@[i2][k] by {
                let cc = free_cols@[i2] as int;
                assert(pivot_for_col@[cc] is None);
                assert(decoded@[cc] == init[cc]);
            }
            lemma_free_eval(g, free_cols@, decoded@, free_values@, k, width as nat, width as nat);
            assert(count_below(free_cols@, width as int) == f) by {
                if count_below(free_cols@, width as int) < f {
                    assert(free_cols@[count_below(free_cols@, width as int) as int] >= width);
                }
            }
            assert(free_row_value(coef, free_cols@, jj, free_values@, k) == t1[jj][k]);
            lemma_eval_ext(
                |i2: int| g(free_cols@[i2] as int),
                |i2: int| coef.entry(jj, free_cols@[i2] as int),
                free_values@,
                k,
                f as nat,
            );
            lemma_eval_ext(g, |cc: int| coef.entry(jj, cc), decoded@, k, width as nat);
            assert(dense_row_value(coef, jj, decoded@, k) == t1[jj][k]);
            assert(bit_solves(rows@, binary_symbols@, decoded@, c0.spec_width(), size));
            assert(dense_row_value(coef, jj, decoded@, k) ^ t1[jj][k] == dense_row_value(c0, jj, decoded@, k) ^ t0[jj][k]);
            assert forall|cc: int| 0 <= cc < width implies #[trigger] c0.entry(jj, cc) == hdpc_rows.entry(jj, cc) by {}
            lemma_eval_ext(|cc: int| c0.entry(jj, cc), |cc: int| hdpc_rows.entry(jj, cc), decoded@, k, width as nat);
            lemma_xor_basics(t1[jj][k], t1[jj][k], 0);
            lemma_xor_basics(dense_row_value(*hdpc_rows, jj, decoded@, k), t0[jj][k], 0);
        }
        assert forall|rr: int, k: int| 0 <= rr < binary_height + h && 0 <= k < size implies #[trigger] hybrid_row_value(
            matrix,
            hdpc_rows,
            rr,
            decoded@,
            k,
        ) == symbols@[hybrid_symbol_index(rr, s as int, binary_height as int, h as int)][k] by {
            if rr >= binary_height {
                let jj = rr - binary_height;
                assert(dense_row_value(*hdpc_rows, jj, decoded@, k) == symbols@[s + jj][k]);
                lemma_eval_ext(
                    |cc: int| hybrid_coefficient(matrix, hdpc_rows, rr, cc),
                    |cc: int| hdpc_rows.entry(jj, cc),
                    decoded@,
                    k,
                    width as nat,
                );
            } else {
                assert(hybrid_binary_solves(matrix, hdpc_rows, symbols@, s as int, decoded@, size));
            }
        }
        assert(free_cols_ok(free_cols@, pivot_for_col@));
        assert forall|jj: int, cc: int| 0 <= jj < h && 0 <= cc < width implies #[trigger] c0.entry(jj, cc) == hdpc_rows.entry(jj, cc) by {}
        assert forall|i2: int| 0 <= i2 < free_cols@.len() implies #[trigger] decoded@[free_cols@[i2] as int] == free_values@[i2] by {
            let cc = free_cols@[i2] as int;
            assert(pivot_for_col@[cc] is None);
            assert(decoded@[cc] == init[cc]);
        }
        assert forall|y: Seq<Seq<u8>>| #[trigger] hybrid_solves(matrix, hdpc_rows, symbols@, s as int, y, size) implies y
            == decoded@ by {
            lemma_hybrid_general_unique(
                matrix,
                hdpc_rows,
                symbols@,
                s as int,
                rows,
                binary_symbols@,
                m0,
                b0,
                pivot_for_col@,
                free_cols@,
                coef,
                c0,
                t0,
                t1,
                free_values@,
                decoded@,
                size,
                y,
            );
        }
    }
    Some(decoded)
}

/// The decoded symbols solve the eliminated binary system, so they solve the binary rows of
/// the combined system against their received symbols.
proof fn lemma_binary_part<M: BinaryMatrix>(
    matrix: &M,
    hdpc_rows: &DenseOctetMatrix,
    symbols: Seq<Seq<u8>>,
    s: int,
    rows: PackedBinaryRows,
    b: Seq<Seq<u8>>,
    m0: Seq<Seq<bool>>,
    b0: Seq<Seq<u8>>,
    pivot_for_col: Seq<Option<usize>>,
    is_pivot: Seq<bool>,
    x: Seq<Seq<u8>>,
    size: nat,
)
    requires
        rows.spec_height() == matrix.spec_height(),
        rows.spec_height() <= usize::MAX,
        rows.spec_width() == matrix.spec_width(),
        b.len() == rows.spec_height(),
        m0.len() == rows.spec_height(),
        x.len() == rows.spec_width(),
        uniform(x, size),
        uniform(b, size),
        pivots_ok(rows, pivot_for_col, is_pivot, rows.spec_width() as int),
        forall|r: int| 0 <= r < rows.spec_height() && !#[trigger] is_pivot[r] ==> row_is_zero(rows, r)
            && crate::octets::all_zero(b[r]),
        forall|c: int, k: int| 0 <= c < rows.spec_width() && 0 <= k < size && pivot_for_col[c] is Some
            ==> #[trigger] bit_row_value(rows@, pivot_for_col[c]->0 as int, x, k, rows.spec_width()) == b[pivot_for_col[c]->0 as int][k],
        forall|y: Seq<Seq<u8>>| #[trigger] bit_solves(rows@, b, y, rows.spec_width(), size) == bit_solves(m0, b0, y, rows.spec_width(), size),
        forall|i: int, c: int| 0 <= i < rows.spec_height() && 0 <= c < rows.spec_width() ==> #[trigger] bit_coeff(m0, i, c)
            == hybrid_coefficient(matrix, hdpc_rows, i, c),
        forall|i: int| 0 <= i < rows.spec_height() ==> #[trigger] b0[i] == symbols[hybrid_symbol_index(
            i,
            s,
            matrix.spec_height() as int,
            hdpc_rows.spec_height() as int,
        )],
    ensures
        bit_solves(rows@, b, x, rows.spec_width(), size),
        hybrid_binary_solves(matrix, hdpc_rows, symbols, s, x, size),
{
    let w = rows.spec_width();
    assert forall|i: int, k: int| 0 <= i < rows.spec_height() && 0 <= k < size implies #[trigger] bit_row_value(rows@, i, x, k, w)
        == b[i][k] by {
        if is_pivot[i] {
            let c = choose|c: int| 0 <= c < w && pivot_for_col[c] == Some(i as usize);
            assert(pivot_for_col[c] is Some);
            assert(pivot_for_col[c]->0 as int == i);
            assert(bit_row_value(rows@, pivot_for_col[c]->0 as int, x, k, w) == b[pivot_for_col[c]->0 as int][k]);
            assert(bit_row_value(rows@, i, x, k, w) == b[i][k]);
        } else {
            assert(row_is_zero(rows, i));
            assert(crate::octets::all_zero(b[i]));
            assert(b[i].len() == size);
            assert(b[i][k] == 0u8);
            assert forall|c: int| 0 <= c < w implies #[trigger] bit_coeff(rows@, i, c) == 0 by {
                assert(rows@[i][c] == rows.bit(i, c));
            }
            crate::linear_system::lemma_eval_zero(|c: int| bit_coeff(rows@, i, c), x, k, w);
            assert(bit_row_value(rows@, i, x, k, w) == 0u8);
        }
    }
    assert(bit_solves(rows@, b, x, w, size));
    assert(bit_solves(m0, b0, x, w, size));
    assert forall|r: int, k: int| 0 <= r < matrix.spec_height() && 0 <= k < size implies #[trigger] hybrid_row_value(
        matrix,
        hdpc_rows,
        r,
        x,
        k,
    ) == symbols[hybrid_symbol_index(r, s, matrix.spec_height() as int, hdpc_rows.spec_height() as int)][k] by {
        assert(bit_row_value(m0, r, x, k, w) == b0[r][k]);
        lemma_eval_ext(
            |c: int| hybrid_coefficient(matrix, hdpc_rows, r, c),
            |c: int| bit_coeff(m0, r, c),
            x,
            k,
            w,
        );
    }
}


/// Any solution of the combined system agrees with the decoded one: it solves the binary
/// system, so the projected HDPC rows give its free columns as a solution of the free system,
/// which is the one found; the pivot columns then follow from the echelon rows.
proof fn lemma_hybrid_general_unique<M: BinaryMatrix>(
    matrix: &M,
    hdpc_rows: &DenseOctetMatrix,
    symbols: Seq<Seq<u8>>,
    s: int,
    rows: PackedBinaryRows,
    b: Seq<Seq<u8>>,
    m0: Seq<Seq<bool>>,
    b0: Seq<Seq<u8>>,
    pivot_for_col: Seq<Option<usize>>,
    free: Seq<usize>,
    coef: DenseOctetMatrix,
    c0: DenseOctetMatrix,
    t0: Seq<Seq<u8>>,
    t1: Seq<Seq<u8>>,
    z: Seq<Seq<u8>>,
    x: Seq<Seq<u8>>,
    size: nat,
    y: Seq<Seq<u8>>,
)
    requires
        rows.spec_height() == matrix.spec_height(),
        rows.spec_width() == matrix.spec_width(),
        rows.spec_width() <= usize::MAX,
        m0.len() == rows.spec_height(),
        b0.len() == rows.spec_height(),
        hybrid_solves(matrix, hdpc_rows, symbols, s, y, size),
        0 <= s <= matrix.spec_height(),
        x.len() == rows.spec_width(),
        uniform(x, size),
        forall|i: int, c: int| 0 <= i < rows.spec_height() && 0 <= c < rows.spec_width() ==> #[trigger] bit_coeff(m0, i, c)
            == hybrid_coefficient(matrix, hdpc_rows, i, c),
        forall|i: int| 0 <= i < rows.spec_height() ==> #[trigger] b0[i] == symbols[hybrid_symbol_index(
            i,
            s,
            matrix.spec_height() as int,
            hdpc_rows.spec_height() as int,
        )],
        forall|v: Seq<Seq<u8>>| #[trigger] bit_solves(rows@, b, v, rows.spec_width(), size) == bit_solves(m0, b0, v, rows.spec_width(), size),
        pivot_for_col.len() == rows.spec_width(),
        forall|c: int| 0 <= c < rows.spec_width() ==> match #[trigger] pivot_for_col[c] {
            Some(p) => p < rows.spec_height() && first_one_is(rows, p as int, c),
            None => true,
        },
        forall|c: int, k: int| 0 <= c < rows.spec_width() && 0 <= k < size && pivot_for_col[c] is Some
            ==> #[trigger] bit_row_value(rows@, pivot_for_col[c]->0 as int, x, k, rows.spec_width()) == b[pivot_for_col[c]->0 as int][k],
        free_cols_ok(free, pivot_for_col),
        forall|i: int| 0 <= i < free.len() ==> #[trigger] x[free[i] as int] == z[i],
        c0.spec_width() == rows.spec_width(),
        c0.spec_height() == hdpc_rows.spec_height(),
        coef.spec_height() == hdpc_rows.spec_height(),
        coef.spec_width() == rows.spec_width(),
        forall|j: int, c: int| 0 <= j < hdpc_rows.spec_height() && 0 <= c < rows.spec_width() ==> #[trigger] c0.entry(j, c)
            == hdpc_rows.entry(j, c),
        forall|j: int| 0 <= j < hdpc_rows.spec_height() ==> #[trigger] t0[j] == symbols[s + j],
        projection_ok(coef, t1, c0, t0, rows@, b, size),
        forall|j: int, c: int| 0 <= j < coef.spec_height() && 0 <= c < coef.spec_width() && #[trigger] coef.entry(j, c) != 0
            ==> free.contains(c as usize),
        forall|z2: Seq<Seq<u8>>| #[trigger] free_system_solves(coef, free, t1, z2, size) ==> z2 == z,
    ensures
        y == x,
{
    let w = rows.spec_width();
    let bh = matrix.spec_height();
    let h = hdpc_rows.spec_height();
    assert forall|r: int, k: int| 0 <= r < bh && 0 <= k < size implies #[trigger] bit_row_value(m0, r, y, k, w) == b0[r][k] by {
        assert(hybrid_row_value(matrix, hdpc_rows, r, y, k) == symbols[hybrid_symbol_index(r, s, bh as int, h as int)][k]);
        lemma_eval_ext(|c: int| hybrid_coefficient(matrix, hdpc_rows, r, c), |c: int| bit_coeff(m0, r, c), y, k, w);
    }
    assert(bit_solves(m0, b0, y, w, size));
    assert(bit_solves(rows@, b, y, w, size));
    let z2 = Seq::new(free.len(), |i: int| y[free[i] as int]);
    assert forall|j: int, k: int| 0 <= j < coef.spec_height() && 0 <= k < size implies #[trigger] free_row_value(coef, free, j, z2, k)
        == t1[j][k] by {
        assert(hybrid_row_value(matrix, hdpc_rows, bh + j, y, k) == symbols[hybrid_symbol_index(bh + j, s, bh as int, h as int)][k]);
        assert(hybrid_symbol_index(bh + j, s, bh as int, h as int) == s + j);
        assert(t0[j] == symbols[s + j]);
        assert forall|c: int| 0 <= c < w implies #[trigger] hybrid_coefficient(matrix, hdpc_rows, bh + j, c) == c0.entry(j, c) by {
            assert(c0.entry(j, c) == hdpc_rows.entry(j, c));
        }
        lemma_eval_ext(|c: int| hybrid_coefficient(matrix, hdpc_rows, bh + j, c), |c: int| c0.entry(j, c), y, k, w);
        assert(hybrid_row_value(matrix, hdpc_rows, bh + j, y, k) == eval_cols(|c: int| c0.entry(j, c), y, k, w));
        assert(dense_row_value(c0, j, y, k) == t0[j][k]);
        assert(dense_row_value(coef, j, y, k) ^ t1[j][k] == dense_row_value(c0, j, y, k) ^ t0[j][k]);
        lemma_xor_basics(dense_row_value(coef, j, y, k), t1[j][k], 0);
        lemma_xor_basics(t0[j][k], t0[j][k], 0);
        assert(dense_row_value(coef, j, y, k) == t1[j][k]) by {
            lemma_xor_regroup(dense_row_value(coef, j, y, k), t1[j][k], t0[j][k], t0[j][k]);
        }
        let g = |c: int| coef.entry(j, c);
        assert forall|i: int| 0 <= i < free.len() implies #[trigger] y[free[i] as int][k] == z2[i][k] by {}
        lemma_free_eval(g, free, y, z2, k, w, w);
        assert(count_below(free, w as int) == free.len()) by {
            if count_below(free, w as int) < free.len() {
                assert(free[count_below(free, w as int) as int] >= w);
            }
        }
        lemma_eval_ext(g, |c: int| coef.entry(j, c), y, k, w);
        lemma_eval_ext(|i: int| g(free[i] as int), |i: int| coef.entry(j, free[i] as int), z2, k, free.len());
    }
    assert(uniform(z2, size)) by {
        assert forall|i: int| 0 <= i < z2.len() implies #[trigger] z2[i].len() == size by {
            assert(y[free[i] as int].len() == size);
        }
    }
    assert(free_system_solves(coef, free, t1, z2, size));
    assert(z2 == z);
    let fs = |c: int| (|c2: int| bit_coeff(rows@, pivot_for_col[c]->0 as int, c2));
    let is_free = |c: int| pivot_for_col[c] is None;
    assert forall|c: int| 0 <= c < w && !is_free(c) implies #[trigger] fs(c)(c) != 0 by {
        let p = pivot_for_col[c]->0 as int;
        assert(first_one_is(rows, p, c));
        assert(rows@[p][c] == rows.bit(p, c));
    }
    assert forall|c: int, c2: int| 0 <= c2 < c < w && !is_free(c) implies #[trigger] fs(c)(c2) == 0 by {
        let p = pivot_for_col[c]->0 as int;
        assert(first_one_is(rows, p, c));
        assert(rows@[p][c2] == rows.bit(p, c2));
    }
    assert forall|c: int, k: int| 0 <= c < w && 0 <= k < size implies #[trigger] x[c][k] == y[c][k] by {
        assert forall|c3: int| 0 <= c3 < w && #[trigger] is_free(c3) implies x[c3][k] == y[c3][k] by {
            assert(free.contains(c3 as usize));
            let i = choose|i: int| 0 <= i < free.len() && free[i] == c3 as usize;
            assert(x[free[i] as int] == z[i]);
            assert(z2[i] == y[free[i] as int]);
        }
        assert forall|c3: int| 0 <= c3 < w && !is_free(c3) implies #[trigger] eval_cols(fs(c3), x, k, w) == eval_cols(fs(c3), y, k, w) by {
            let p = pivot_for_col[c3]->0 as int;
            assert(bit_row_value(rows@, pivot_for_col[c3]->0 as int, x, k, w) == b[p][k]);
            assert(bit_row_value(rows@, p, y, k, w) == b[p][k]);
            lemma_eval_ext(fs(c3), |c2: int| bit_coeff(rows@, p, c2), x, k, w);
            lemma_eval_ext(fs(c3), |c2: int| bit_coeff(rows@, p, c2), y, k, w);
        }
        lemma_triangular_agree_free(fs, is_free, x, y, k, w, 0);
    }
    assert forall|c: int| 0 <= c < w implies #[trigger] x[c] =~= y[c] by {
        assert(x[c].len() == size && y[c].len() == size);
        assert forall|k: int| 0 <= k < size implies x[c][k] == y[c][k] by {}
    }
    assert(x =~= y);
}


/// The position of column `c` among the free columns.
pub open spec fn free_pos(free: Seq<usize>, c: int) -> int {
    choose|i: int| 0 <= i < free.len() && free[i] as int == c
}

/// The vector that puts the free values `z` at the free columns and fills the pivot columns
/// by back substitution, from column `c` on (earlier columns zero).
pub open spec fn extend_free(
    rows: PackedBinaryRows,
    piv: Seq<Option<usize>>,
    b: Seq<Seq<u8>>,
    free: Seq<usize>,
    z: Seq<Seq<u8>>,
    size: nat,
    c: int,
) -> Seq<Seq<u8>>
    decreases rows.spec_width() - c,
{
    if c >= rows.spec_width() || c < 0 {
        Seq::new(rows.spec_width(), |i: int| Seq::new(size, |k: int| 0u8))
    } else {
        let t = extend_free(rows, piv, b, free, z, size, c + 1);
        let v = match piv[c] {
            None => z[free_pos(free, c)],
            Some(p) => Seq::new(size, |k: int| b[p as int][k] ^ suffix_value(rows, p as int, c + 1, t, k)),
        };
        t.update(c, v)
    }
}

/// From column `c` on, the extension holds the free values at the free columns and the back
/// substituted values at the pivot columns.
proof fn lemma_extend_free(
    rows: PackedBinaryRows,
    piv: Seq<Option<usize>>,
    b: Seq<Seq<u8>>,
    free: Seq<usize>,
    z: Seq<Seq<u8>>,
    size: nat,
    c: int,
)
    requires
        0 <= c <= rows.spec_width(),
        rows.spec_width() <= usize::MAX,
        piv.len() == rows.spec_width(),
        free_cols_ok(free, piv),
        z.len() == free.len(),
        uniform(z, size),
        forall|cc: int| 0 <= cc < rows.spec_width() ==> match #[trigger] piv[cc] {
            Some(p) => p < b.len() && b[p as int].len() == size,
            None => true,
        },
    ensures
        extend_free(rows, piv, b, free, z, size, c).len() == rows.spec_width(),
        uniform(extend_free(rows, piv, b, free, z, size, c), size),
        forall|i: int| 0 <= i < free.len() && c <= free[i] ==> #[trigger] extend_free(rows, piv, b, free, z, size, c)[free[i] as int] == z[i],
        forall|cc: int, k: int| c <= cc < rows.spec_width() && 0 <= k < size && piv[cc] is Some ==> #[trigger] extend_free(
            rows,
            piv,
            b,
            free,
            z,
            size,
            c,
        )[cc][k] == b[piv[cc]->0 as int][k] ^ suffix_value(
            rows,
            piv[cc]->0 as int,
            cc + 1,
            extend_free(rows, piv, b, free, z, size, c),
            k,
        ),
    decreases rows.spec_width() - c,
{
    let w = rows.spec_width();
    let e = extend_free(rows, piv, b, free, z, size, c);
    if c == w {
        assert forall|kk: int| 0 <= kk < e.len() implies #[trigger] e[kk].len() == size by {}
    } else {
        lemma_extend_free(rows, piv, b, free, z, size, c + 1);
        let t = extend_free(rows, piv, b, free, z, size, c + 1);
        assert(e == t.update(c, e[c]));
        assert forall|kk: int| 0 <= kk < e.len() implies #[trigger] e[kk].len() == size by {
            if kk == c {
                match piv[c] {
                    None => {
                        assert(free.contains(c as usize));
                        let i = free_pos(free, c);
                        assert(0 <= i < free.len() && free[i] as int == c);
                        assert(z[i].len() == size);
                    },
                    Some(p) => {},
                }
            }
        }
        assert forall|i: int| 0 <= i < free.len() && c <= free[i] implies #[trigger] e[free[i] as int] == z[i] by {
            if free[i] as int == c {
                assert(piv[c] is None);
                assert(free.contains(c as usize));
                let i0 = free_pos(free, c);
                assert(0 <= i0 < free.len() && free[i0] as int == c);
                if i0 != i {
                    if i0 < i {
                        assert(free[i0] < free[i]);
                    } else {
                        assert(free[i] < free[i0]);
                    }
                }
            }
        }
        assert forall|cc: int, k: int| c <= cc < w && 0 <= k < size && piv[cc] is Some implies #[trigger] e[cc][k] == b[piv[cc]->0 as int][k]
            ^ suffix_value(rows, piv[cc]->0 as int, cc + 1, e, k) by {
            let p = piv[cc]->0 as int;
            let f = |j: int| suffix_coeff(rows, p, cc + 1, j);
            assert forall|j: int| 0 <= j < w && #[trigger] f(j) != 0 implies t[j][k] == e[j][k] by {}
            lemma_eval_frame(f, t, e, k, w);
            if cc > c {
                assert(e[cc] == t[cc]);
            }
        }
    }
}


/// A solution of the combined system solves the eliminated binary rows, and its values at the
/// free columns solve the free system.
proof fn lemma_restrict_free<M: BinaryMatrix>(
    matrix: &M,
    hdpc_rows: &DenseOctetMatrix,
    symbols: Seq<Seq<u8>>,
    s: int,
    rows: PackedBinaryRows,
    b: Seq<Seq<u8>>,
    m0: Seq<Seq<bool>>,
    b0: Seq<Seq<u8>>,
    free: Seq<usize>,
    coef: DenseOctetMatrix,
    c0: DenseOctetMatrix,
    t0: Seq<Seq<u8>>,
    t1: Seq<Seq<u8>>,
    size: nat,
    y: Seq<Seq<u8>>,
)
    requires
        rows.spec_height() == matrix.spec_height(),
        rows.spec_width() == matrix.spec_width(),
        rows.spec_width() <= usize::MAX,
        rows.spec_height() <= usize::MAX,
        m0.len() == rows.spec_height(),
        b0.len() == rows.spec_height(),
        b.len() == rows.spec_height(),
        0 <= s <= matrix.spec_height(),
        forall|i: int, c: int| 0 <= i < rows.spec_height() && 0 <= c < rows.spec_width() ==> #[trigger] bit_coeff(m0, i, c)
            == hybrid_coefficient(matrix, hdpc_rows, i, c),
        forall|i: int| 0 <= i < rows.spec_height() ==> #[trigger] b0[i] == symbols[hybrid_symbol_index(
            i,
            s,
            matrix.spec_height() as int,
            hdpc_rows.spec_height() as int,
        )],
        forall|v: Seq<Seq<u8>>| #[trigger] bit_solves(rows@, b, v, rows.spec_width(), size) == bit_solves(m0, b0, v, rows.spec_width(), size),
        forall|a: int, bb: int| 0 <= a < bb < free.len() ==> free[a] < free[bb],
        forall|i: int| 0 <= i < free.len() ==> #[trigger] free[i] < rows.spec_width(),
        c0.spec_width() == rows.spec_width(),
        c0.spec_height() == hdpc_rows.spec_height(),
        coef.spec_height() == hdpc_rows.spec_height(),
        coef.spec_width() == rows.spec_width(),
        forall|j: int, c: int| 0 <= j < hdpc_rows.spec_height() && 0 <= c < rows.spec_width() ==> #[trigger] c0.entry(j, c)
            == hdpc_rows.entry(j, c),
        forall|j: int| 0 <= j < hdpc_rows.spec_height() ==> #[trigger] t0[j] == symbols[s + j],
        projection_ok(coef, t1, c0, t0, rows@, b, size),
        forall|j: int, c: int| 0 <= j < coef.spec_height() && 0 <= c < coef.spec_width() && #[trigger] coef.entry(j, c) != 0
            ==> free.contains(c as usize),
        hybrid_solves(matrix, hdpc_rows, symbols, s, y, size),
    ensures
        bit_solves(rows@, b, y, rows.spec_width(), size),
        free_system_solves(coef, free, t1, Seq::new(free.len(), |i: int| y[free[i] as int]), size),
{
    let w = rows.spec_width();
    let bh = matrix.spec_height();
    let h = hdpc_rows.spec_height();
    assert forall|r: int, k: int| 0 <= r < bh && 0 <= k < size implies #[trigger] bit_row_value(m0, r, y, k, w) == b0[r][k] by {
        assert(hybrid_row_value(matrix, hdpc_rows, r, y, k) == symbols[hybrid_symbol_index(r, s, bh as int, h as int)][k]);
        lemma_eval_ext(|c: int| hybrid_coefficient(matrix, hdpc_rows, r, c), |c: int| bit_coeff(m0, r, c), y, k, w);
    }
    assert(bit_solves(m0, b0, y, w, size));
    assert(bit_solves(rows@, b, y, w, size));
    let z2 = Seq::new(free.len(), |i: int| y[free[i] as int]);
    assert forall|j: int, k: int| 0 <= j < coef.spec_height() && 0 <= k < size implies #[trigger] free_row_value(coef, free, j, z2, k)
        == t1[j][k] by {
        assert(hybrid_row_value(matrix, hdpc_rows, bh + j, y, k) == symbols[hybrid_symbol_index(bh + j, s, bh as int, h as int)][k]);
        assert(hybrid_symbol_index(bh + j, s, bh as int, h as int) == s + j);
        assert(t0[j] == symbols[s + j]);
        assert forall|c: int| 0 <= c < w implies #[trigger] hybrid_coefficient(matrix, hdpc_rows, bh + j, c) == c0.entry(j, c) by {
            assert(c0.entry(j, c) == hdpc_rows.entry(j, c));
        }
        lemma_eval_ext(|c: int| hybrid_coefficient(matrix, hdpc_rows, bh + j, c), |c: int| c0.entry(j, c), y, k, w);
        assert(hybrid_row_value(matrix, hdpc_rows, bh + j, y, k) == eval_cols(|c: int| c0.entry(j, c), y, k, w));
        assert(dense_row_value(c0, j, y, k) == t0[j][k]);
        assert(dense_row_value(coef, j, y, k) ^ t1[j][k] == dense_row_value(c0, j, y, k) ^ t0[j][k]);
        assert(dense_row_value(coef, j, y, k) == t1[j][k]) by {
            lemma_xor_regroup(dense_row_value(coef, j, y, k), t1[j][k], t0[j][k], t0[j][k]);
            lemma_xor_basics(t0[j][k], t0[j][k], 0);
            lemma_xor_basics(dense_row_value(coef, j, y, k), t1[j][k], 0);
        }
        let g = |c: int| coef.entry(j, c);
        assert forall|i: int| 0 <= i < free.len() implies #[trigger] y[free[i] as int][k] == z2[i][k] by {}
        lemma_free_eval(g, free, y, z2, k, w, w);
        assert(count_below(free, w as int) == free.len()) by {
            if count_below(free, w as int) < free.len() {
                assert(free[count_below(free, w as int) as int] >= w);
            }
        }
        lemma_eval_ext(g, |c: int| coef.entry(j, c), y, k, w);
        lemma_eval_ext(|i: int| g(free[i] as int), |i: int| coef.entry(j, free[i] as int), z2, k, free.len());
    }
    assert(uniform(z2, size)) by {
        assert forall|i: int| 0 <= i < z2.len() implies #[trigger] z2[i].len() == size by {
            assert(y[free[i] as int].len() == size);
        }
    }
}

/// Any solution `z` of the free system, extended by back substitution, solves the combined
/// system and keeps `z` at the free columns.
proof fn lemma_extension_solves<M: BinaryMatrix>(
    matrix: &M,
    hdpc_rows: &DenseOctetMatrix,
    symbols: Seq<Seq<u8>>,
    s: int,
    rows: PackedBinaryRows,
    b: Seq<Seq<u8>>,
    m0: Seq<Seq<bool>>,
    b0: Seq<Seq<u8>>,
    piv: Seq<Option<usize>>,
    is_pivot: Seq<bool>,
    free: Seq<usize>,
    coef: DenseOctetMatrix,
    c0: DenseOctetMatrix,
    t0: Seq<Seq<u8>>,
    t1: Seq<Seq<u8>>,
    size: nat,
    z: Seq<Seq<u8>>,
)
    requires
        rows.spec_height() == matrix.spec_height(),
        rows.spec_width() == matrix.spec_width(),
        rows.spec_width() <= usize::MAX,
        rows.spec_height() <= usize::MAX,
        m0.len() == rows.spec_height(),
        b0.len() == rows.spec_height(),
        b.len() == rows.spec_height(),
        0 <= s <= matrix.spec_height(),
        forall|i: int, c: int| 0 <= i < rows.spec_height() && 0 <= c < rows.spec_width() ==> #[trigger] bit_coeff(m0, i, c)
            == hybrid_coefficient(matrix, hdpc_rows, i, c),
        forall|i: int| 0 <= i < rows.spec_height() ==> #[trigger] b0[i] == symbols[hybrid_symbol_index(
            i,
            s,
            matrix.spec_height() as int,
            hdpc_rows.spec_height() as int,
        )],
        forall|v: Seq<Seq<u8>>| #[trigger] bit_solves(rows@, b, v, rows.spec_width(), size) == bit_solves(m0, b0, v, rows.spec_width(), size),
        forall|a: int, bb: int| 0 <= a < bb < free.len() ==> free[a] < free[bb],
        forall|i: int| 0 <= i < free.len() ==> #[trigger] free[i] < rows.spec_width(),
        c0.spec_width() == rows.spec_width(),
        c0.spec_height() == hdpc_rows.spec_height(),
        coef.spec_height() == hdpc_rows.spec_height(),
        coef.spec_width() == rows.spec_width(),
        forall|j: int, c: int| 0 <= j < hdpc_rows.spec_height() && 0 <= c < rows.spec_width() ==> #[trigger] c0.entry(j, c)
            == hdpc_rows.entry(j, c),
        forall|j: int| 0 <= j < hdpc_rows.spec_height() ==> #[trigger] t0[j] == symbols[s + j],
        projection_ok(coef, t1, c0, t0, rows@, b, size),
        forall|j: int, c: int| 0 <= j < coef.spec_height() && 0 <= c < coef.spec_width() && #[trigger] coef.entry(j, c) != 0
            ==> free.contains(c as usize),
        uniform(b, size),
        pivots_ok(rows, piv, is_pivot, rows.spec_width() as int),
        forall|r: int| 0 <= r < rows.spec_height() && !#[trigger] is_pivot[r] ==> row_is_zero(rows, r)
            && crate::octets::all_zero(b[r]),
        free_cols_ok(free, piv),
        free_system_solves(coef, free, t1, z, size),
    ensures
        hybrid_solves(matrix, hdpc_rows, symbols, s, extend_free(rows, piv, b, free, z, size, 0), size),
        forall|i: int| 0 <= i < free.len() ==> #[trigger] extend_free(rows, piv, b, free, z, size, 0)[free[i] as int] == z[i],
{
    let w = rows.spec_width();
    let bh = matrix.spec_height();
    let h = hdpc_rows.spec_height();
    let y = extend_free(rows, piv, b, free, z, size, 0);
    assert forall|cc: int| 0 <= cc < w implies match #[trigger] piv[cc] {
        Some(p) => p < b.len() && b[p as int].len() == size,
        None => true,
    } by {
        if let Some(p) = piv[cc] {
            assert(p < rows.spec_height());
        }
    }
    lemma_extend_free(rows, piv, b, free, z, size, 0);
    assert forall|c: int, k: int| 0 <= c < w && 0 <= k < size && piv[c] is Some implies #[trigger] bit_row_value(
        rows@,
        piv[c]->0 as int,
        y,
        k,
        w,
    ) == b[piv[c]->0 as int][k] by {
        let p = piv[c]->0 as int;
        assert(first_one_is(rows, p, c));
        lemma_pivot_row_value(rows, p, c, y, k);
        let a = b[p][k];
        let sv = suffix_value(rows, p, c + 1, y, k);
        assert(y[c][k] == a ^ sv);
        lemma_xor_basics(a, sv, sv);
    }
    lemma_binary_part(matrix, hdpc_rows, symbols, s, rows, b, m0, b0, piv, is_pivot, y, size);
    assert forall|rr: int, k: int| 0 <= rr < bh + h && 0 <= k < size implies #[trigger] hybrid_row_value(matrix, hdpc_rows, rr, y, k)
        == symbols[hybrid_symbol_index(rr, s, bh as int, h as int)][k] by {
        if rr >= bh {
            let j = rr - bh;
            let g = |c: int| coef.entry(j, c);
            assert forall|i: int| 0 <= i < free.len() implies #[trigger] y[free[i] as int][k] == z[i][k] by {}
            lemma_free_eval(g, free, y, z, k, w, w);
            assert(count_below(free, w as int) == free.len()) by {
                if count_below(free, w as int) < free.len() {
                    assert(free[count_below(free, w as int) as int] >= w);
                }
            }
            lemma_eval_ext(g, |c: int| coef.entry(j, c), y, k, w);
            lemma_eval_ext(|i: int| g(free[i] as int), |i: int| coef.entry(j, free[i] as int), z, k, free.len());
            assert(free_row_value(coef, free, j, z, k) == t1[j][k]);
            assert(dense_row_value(coef, j, y, k) == t1[j][k]);
            assert(dense_row_value(coef, j, y, k) ^ t1[j][k] == dense_row_value(c0, j, y, k) ^ t0[j][k]);
            assert(dense_row_value(c0, j, y, k) == t0[j][k]) by {
                lemma_xor_regroup(dense_row_value(c0, j, y, k), t0[j][k], t1[j][k], t1[j][k]);
                lemma_xor_basics(t1[j][k], t1[j][k], 0);
                lemma_xor_basics(dense_row_value(c0, j, y, k), t0[j][k], 0);
                lemma_xor_basics(t1[j][k], t1[j][k], 0);
            }
            assert(hybrid_symbol_index(rr, s, bh as int, h as int) == s + j);
            assert(t0[j] == symbols[s + j]);
            assert forall|c: int| 0 <= c < w implies #[trigger] hybrid_coefficient(matrix, hdpc_rows, rr, c) == c0.entry(j, c) by {
                assert(c0.entry(j, c) == hdpc_rows.entry(j, c));
            }
            lemma_eval_ext(|c: int| hybrid_coefficient(matrix, hdpc_rows, rr, c), |c: int| c0.entry(j, c), y, k, w);
        }
    }
}

} // verus!
