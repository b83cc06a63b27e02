//! Solving the first rows of an overdetermined binary system on their own: the rows after
//! the prefix are set aside with their symbols, and when the prefix turns out rank deficient
//! the symbols are put back as they came.

use crate::binary_solve::{
    binary_check_and_back_substitute,
    binary_forward_eliminate,
    bit_full_rank,
    bit_solves,
    bit_unique_solution,
    lemma_bit_pivots_full_rank,
    lemma_bit_unique_transfer,
    zero_symbols,
    first_one_is,
    lemma_uniform_slab,
    no_pivots,
    restore_binary_forward_symbols,
    row_is_zero,
};
use crate::gf2::PackedBinaryRows;
use crate::matrix::{BinaryMatrix, first_ones_of, packable};
use crate::pi_solver::CoefficientColumn;
use crate::symbol_slab::{SymbolSlab, lemma_same_symbols_same_bytes};
use vstd::prelude::*;

verus! {

/// From this width on, the prefix is eliminated with buckets ordered by row weight.
pub const OVERDETERMINED_NO_HDPC_PREFIX_METADATA_MIN_WIDTH: usize = 20_000;

/// The first `height` rows of a binary matrix, as rows of bits.
pub open spec fn prefix_bits<M: BinaryMatrix>(matrix: &M, height: nat) -> Seq<Seq<bool>> {
    Seq::new(height, |r: int| Seq::new(matrix.spec_width(), |c: int| matrix.spec_bit(r, c)))
}

/// The outcome of solving a prefix of rows.
pub enum FullRankBinaryPrefixSolve {
    /// Every column found a pivot and the rows without one agree: the solution, and the
    /// symbols of the rows after the prefix, handed back.
    Decoded { decoded: SymbolSlab, suffix_bytes: Vec<u8> },
    /// Some column found no pivot: the prefix symbols as they came, followed by the bytes
    /// of the rows after the prefix.
    RankDeficient { restored_symbols: SymbolSlab },
    /// A row without a pivot has a nonzero symbol: the prefix has no solution.
    Failed,
}

/// The first set column of each packed row, if any.
fn first_ones_of_rows(rows: &PackedBinaryRows) -> (r: Vec<Option<usize>>)
    requires
        rows.wf(),
    ensures
        r@.len() == rows.spec_height(),
        forall|i: int| 0 <= i < rows.spec_height() ==> match #[trigger] r@[i] {
            Some(c) => first_one_is(*rows, i, c as int),
            None => row_is_zero(*rows, i),
        },
{
    let height = rows.height();
    let mut first_ones: Vec<Option<usize>> = Vec::new();
    let mut row: usize = 0;
    while row < height
        invariant
            row <= height,
            height == rows.spec_height(),
            rows.wf(),
            first_ones@.len() == row,
            forall|i: int| 0 <= i < row ==> match #[trigger] first_ones@[i] {
                Some(c) => first_one_is(*rows, i, c as int),
                None => row_is_zero(*rows, i),
            },
        decreases height - row,
    {
        first_ones.push(rows.first_one_at_or_after(row, 0));
        row += 1;
    }
    first_ones
}

/// Solves the first `prefix_height` rows of `matrix` against `symbols`, whose bytes are
/// those rows' symbols; `suffix_bytes` holds the symbols of the later rows and is handed
/// back untouched. The forward pass records its symbol additions so that, when a column
/// finds no pivot, they are undone in reverse and the symbols come back as they were.
pub fn solve_full_rank_binary_prefix_owned<M: BinaryMatrix>(
    matrix: &M,
    prefix_height: usize,
    symbols: SymbolSlab,
    suffix_bytes: Vec<u8>,
    symbol_size: usize,
) -> (r: FullRankBinaryPrefixSolve)
    requires
        matrix.inv(),
        prefix_height <= matrix.spec_height(),
        prefix_height <= u16::MAX + 1,
        matrix.spec_width() <= u16::MAX + 1,
        packable(prefix_height as nat, matrix.spec_width()),
        symbols.wf(),
        symbols.spec_symbol_size() == symbol_size,
        symbols.spec_len() == prefix_height,
        suffix_bytes@.len() % symbol_size as nat == 0,
        symbols.spec_bytes().len() + suffix_bytes@.len() <= usize::MAX,
    ensures
        match r {
            FullRankBinaryPrefixSolve::Decoded { decoded, suffix_bytes: rest } => {
                &&& rest@ == suffix_bytes@
                &&& decoded.wf()
                &&& decoded.spec_symbol_size() == symbol_size
                &&& bit_solves(
                    prefix_bits(matrix, prefix_height as nat),
                    symbols@,
                    decoded@,
                    matrix.spec_width(),
                    symbol_size as nat,
                )
                &&& bit_unique_solution(
                    prefix_bits(matrix, prefix_height as nat),
                    symbols@,
                    matrix.spec_width(),
                    symbol_size as nat,
                )
                &&& bit_full_rank(prefix_bits(matrix, prefix_height as nat), matrix.spec_width(), symbol_size as nat)
            },
            FullRankBinaryPrefixSolve::RankDeficient { restored_symbols } => {
                &&& restored_symbols.wf()
                &&& restored_symbols.spec_symbol_size() == symbol_size
                &&& restored_symbols.spec_bytes() == symbols.spec_bytes() + suffix_bytes@
                &&& !bit_unique_solution(
                    prefix_bits(matrix, prefix_height as nat),
                    symbols@,
                    matrix.spec_width(),
                    symbol_size as nat,
                )
                &&& !bit_full_rank(prefix_bits(matrix, prefix_height as nat), matrix.spec_width(), symbol_size as nat)
            },
            FullRankBinaryPrefixSolve::Failed => {
                &&& forall|x: Seq<Seq<u8>>|
                    !#[trigger] bit_solves(
                        prefix_bits(matrix, prefix_height as nat),
                        symbols@,
                        x,
                        matrix.spec_width(),
                        symbol_size as nat,
                    )
                &&& bit_full_rank(prefix_bits(matrix, prefix_height as nat), matrix.spec_width(), symbol_size as nat)
            },
        },
{
    let width = matrix.width();
    let ghost size = symbol_size as nat;
    let ghost pbits = prefix_bits(matrix, prefix_height as nat);
    let use_weighted_buckets = width >= OVERDETERMINED_NO_HDPC_PREFIX_METADATA_MIN_WIDTH;
    let (mut rows, mut row_weights, first_ones) = if use_weighted_buckets {
        let (rows, row_weights, first_ones) = matrix.packed_row_prefix_with_row_weights_and_first_ones(
            prefix_height,
        );
        proof {
            assert(first_ones_of(rows, first_ones@));
            assert forall|i: int| 0 <= i < rows.spec_height() implies match #[trigger] first_ones@[i] {
                Some(c) => first_one_is(rows, i, c as int),
                None => row_is_zero(rows, i),
            } by {
                assert(first_ones@[i] == first_ones@[i]);
            }
        }
        (rows, row_weights, first_ones)
    } else {
        let rows = matrix.packed_row_prefix(prefix_height);
        let first_ones = first_ones_of_rows(&rows);
        (rows, Vec::new(), first_ones)
    };
    proof {
        assert forall|i: int| 0 <= i < prefix_height implies #[trigger] rows@[i] =~= pbits[i] by {
            assert forall|c: int| 0 <= c < width implies rows@[i][c] == pbits[i][c] by {
                assert(rows.bit(i, c) == matrix.spec_bit(i, c));
            }
        }
        assert(rows@ =~= pbits);
    }
    let ghost orig = symbols;
    let mut symbols = symbols;
    let mut pivot_for_col = no_pivots(width);
    let mut is_pivot_row: Vec<bool> = vec![false; prefix_height];
    let mut forward_ranges: Vec<(usize, usize)> = Vec::new();
    let mut forward_entries: Vec<CoefficientColumn> = Vec::new();
    let found = binary_forward_eliminate(
        &mut rows,
        &mut symbols,
        &mut row_weights,
        &first_ones,
        use_weighted_buckets,
        &mut pivot_for_col,
        &mut is_pivot_row,
        true,
        &mut forward_ranges,
        &mut forward_entries,
    );
    if !found {
        proof {
            lemma_uniform_slab(orig);
        }
        restore_binary_forward_symbols(
            &mut symbols,
            &pivot_for_col,
            &forward_ranges,
            &forward_entries,
            Ghost(orig@),
        );
        proof {
            lemma_same_symbols_same_bytes(symbols, orig);
        }
        let mut bytes = symbols.into_bytes();
        bytes.extend_from_slice(suffix_bytes.as_slice());
        proof {
            let a = orig.spec_bytes().len() as int;
            let b = suffix_bytes@.len() as int;
            let s = symbol_size as int;
            assert(bytes@ =~= orig.spec_bytes() + suffix_bytes@);
            vstd::arithmetic::div_mod::lemma_fundamental_div_mod(a, s);
            vstd::arithmetic::div_mod::lemma_fundamental_div_mod(b, s);
            assert(a + b == (a / s + b / s) * s) by (nonlinear_arith)
                requires
                    a == s * (a / s) + a % s,
                    b == s * (b / s) + b % s,
                    a % s == 0,
                    b % s == 0,
            ;
            vstd::arithmetic::div_mod::lemma_mod_multiples_basic(a / s + b / s, s);
        }
        return FullRankBinaryPrefixSolve::RankDeficient {
            restored_symbols: SymbolSlab::from_bytes(bytes, symbol_size),
        };
    }
    proof {
        let zs = zero_symbols(prefix_height as nat, size);
        lemma_bit_pivots_full_rank(rows, pivot_for_col@, size);
        lemma_bit_unique_transfer(rows@, zs, pbits, zs, width as nat, size);
    }
    match binary_check_and_back_substitute(&rows, &symbols, &pivot_for_col, &is_pivot_row) {
        Some(decoded) => {
            proof {
                assert(bit_solves(rows@, symbols@, decoded@, width as nat, size));
                assert(bit_solves(pbits, orig@, decoded@, width as nat, size));
                lemma_bit_unique_transfer(rows@, symbols@, pbits, orig@, width as nat, size);
            }
            FullRankBinaryPrefixSolve::Decoded { decoded, suffix_bytes }
        },
        None => {
            proof {
                assert forall|x: Seq<Seq<u8>>| !#[trigger] bit_solves(pbits, orig@, x, width as nat, size) by {
                    assert(!bit_solves(rows@, symbols@, x, width as nat, size));
                }
            }
            FullRankBinaryPrefixSolve::Failed
        },
    }
}

} // verus!
