//! Solving a binary system `rows * x = symbols`: every coefficient is zero or one, so a
//! row applied to the symbols is the sum (XOR) of the symbols at its set columns.

use crate::gf2::{PackedBinaryRows, toggle_count};
use crate::pi_solver::{CoefficientColumn, coefficient_col, coefficient_col_index, copy_symbol, symbol_is_zero};
use crate::operation_vector::SymbolOps;
use crate::linear_system::{lemma_eval_add_symbols, lemma_eval_frame, lemma_eval_zero_terms};
use crate::octet::gf_mul_spec;
use crate::row_buckets::{
    DECODE_SMALL_WEIGHT_BINARY_BUCKET_MAX,
    NO_BUCKET_ROW,
    bucket_rows,
    has_bucket,
    lemma_bucket_rows,
    pop_lightest_binary_row_bucket,
    pop_lightest_weighted_binary_row_bucket,
    pop_row_bucket,
    pop_weighted_binary_row_bucket,
    popped,
    popped_lightest,
    push_row_bucket,
    push_weighted_binary_row_bucket,
    weighted_pushed,
    SmallWeightBinaryBuckets,
    SmallWeightBucketMask,
    is_bucket,
    lemma_bucket_frame,
    lemma_push_bucket,
    lemma_unlink_bucket,
};
use crate::linear_system::{eval_cols, lemma_eval_add, lemma_eval_ext, lemma_eval_single, lemma_eval_zero, lemma_triangular_agree};
use crate::octet::lemma_gf_mul_identities;
use crate::octets::{add_assign, all_zero, bytes_are_zero, xor_seq};
use crate::operation_vector::uniform;
use crate::sparse_spec::lemma_xor_basics;
use crate::symbol_slab::{SymbolSlab, lemma_after_get_disjoint_mut, lemma_symbol_len};
use vstd::prelude::*;

verus! {

/// The coefficient, zero or one, of column `c` in row `i` of a bit matrix.
pub open spec fn bit_coeff(m: Seq<Seq<bool>>, i: int, c: int) -> u8 {
    if 0 <= c < m[i].len() && m[i][c] {
        1u8
    } else {
        0u8
    }
}

/// Byte `k` of row `i` applied to the symbols `x`, over the columns below `n`.
pub open spec fn bit_row_value(m: Seq<Seq<bool>>, i: int, x: Seq<Seq<u8>>, k: int, n: nat) -> u8 {
    eval_cols(|c: int| bit_coeff(m, i, c), x, k, n)
}

/// `x` holds `n` symbols of `size` bytes that satisfy every row of the bit matrix `m`.
pub open spec fn bit_solves(m: Seq<Seq<bool>>, rhs: Seq<Seq<u8>>, x: Seq<Seq<u8>>, n: nat, size: nat) -> bool {
    &&& x.len() == n
    &&& uniform(x, size)
    &&& forall|i: int, k: int|
        0 <= i < m.len() && 0 <= k < size ==> #[trigger] bit_row_value(m, i, x, k, n) == rhs[i][k]
}

/// Symbol `dest` plus symbol `src`, the others unchanged.
pub open spec fn add_symbol(s: Seq<Seq<u8>>, dest: int, src: int) -> Seq<Seq<u8>> {
    s.update(dest, xor_seq(s[dest], s[src]))
}

/// Index `i` is one of the listed ones.
pub open spec fn listed(l: Seq<usize>, i: int) -> bool {
    exists|t: int| 0 <= t < l.len() && l[t] as int == i
}

/// Every listed destination plus symbol `src`, the others unchanged.
pub open spec fn add_to_dests(s: Seq<Seq<u8>>, src: int, dests: Seq<usize>) -> Seq<Seq<u8>> {
    Seq::new(
        s.len(),
        |i: int|
            if listed(dests, i) {
                xor_seq(s[i], s[src])
            } else {
                s[i]
            },
    )
}

/// Byte `k` of the sum of the listed symbols.
pub open spec fn sources_sum(x: Seq<Seq<u8>>, sources: Seq<usize>, k: int) -> u8
    decreases sources.len(),
{
    if sources.len() == 0 {
        0u8
    } else {
        sources_sum(x, sources.drop_last(), k) ^ x[sources.last() as int][k]
    }
}

/// Symbol `dest` plus the sum of the listed symbols, the others unchanged.
pub open spec fn add_sources(s: Seq<Seq<u8>>, dest: int, sources: Seq<usize>) -> Seq<Seq<u8>> {
    s.update(dest, Seq::new(s[dest].len(), |k: int| s[dest][k] ^ sources_sum(s, sources, k)))
}

/// The sum over a list only reads the listed symbols.
pub proof fn lemma_sources_sum_frame(x: Seq<Seq<u8>>, y: Seq<Seq<u8>>, sources: Seq<usize>, k: int)
    requires
        forall|i: int| 0 <= i < sources.len() ==> x[#[trigger] sources[i] as int][k] == y[sources[i] as int][k],
    ensures
        sources_sum(x, sources, k) == sources_sum(y, sources, k),
    decreases sources.len(),
{
    if sources.len() > 0 {
        let d = sources.drop_last();
        assert forall|i: int| 0 <= i < d.len() implies x[#[trigger] d[i] as int][k] == y[d[i] as int][k] by {
            assert(d[i] == sources[i]);
        }
        lemma_sources_sum_frame(x, y, d, k);
        assert(sources.last() == sources[sources.len() - 1]);
    }
}

/// The sum over a list of distinct columns is the combination with coefficient one at the
/// listed columns.
pub proof fn lemma_sources_sum_eval(x: Seq<Seq<u8>>, sources: Seq<usize>, k: int, n: nat)
    requires
        forall|i: int| 0 <= i < sources.len() ==> #[trigger] sources[i] < n,
        forall|i: int, j: int| 0 <= i < j < sources.len() ==> sources[i] != sources[j],
    ensures
        sources_sum(x, sources, k) == eval_cols(
            |c: int|
                if listed(sources, c) {
                    1u8
                } else {
                    0u8
                },
            x,
            k,
            n,
        ),
    decreases sources.len(),
{
    let f = |c: int|
        if listed(sources, c) {
            1u8
        } else {
            0u8
        };
    if sources.len() == 0 {
        lemma_eval_zero(f, x, k, n);
    } else {
        let d = sources.drop_last();
        let last = sources.last();
        assert forall|i: int| 0 <= i < d.len() implies #[trigger] d[i] < n by {
            assert(d[i] == sources[i]);
        }
        assert forall|i: int, j: int| 0 <= i < j < d.len() implies d[i] != d[j] by {
            assert(d[i] == sources[i] && d[j] == sources[j]);
        }
        lemma_sources_sum_eval(x, d, k, n);
        let g = |c: int|
            if listed(d, c) {
                1u8
            } else {
                0u8
            };
        let single = |c: int|
            if c == last as int {
                1u8
            } else {
                0u8
            };
        assert(last == sources[sources.len() - 1]);
        assert forall|c: int| 0 <= c < n implies #[trigger] f(c) == g(c) ^ single(c) by {
            if listed(d, c) {
                let i = choose|i: int| 0 <= i < d.len() && d[i] as int == c;
                assert(sources[i] == d[i]);
                assert(listed(sources, c));
                assert(sources[i] != sources[sources.len() - 1]);
                assert(c != last as int);
            } else if c == last as int {
                assert(listed(sources, c));
            } else if listed(sources, c) {
                let i = choose|i: int| 0 <= i < sources.len() && sources[i] as int == c;
                if i < sources.len() - 1 {
                    assert(d[i] == sources[i]);
                }
            }
            lemma_xor_basics(1, 0, 0);
            lemma_xor_basics(0, 0, 0);
        }
        lemma_eval_add(g, single, f, x, k, n);
        lemma_eval_single(last as int, 1u8, x, k, n);
        lemma_gf_mul_identities(x[last as int][k]);
    }
}

/// A sum over a list extended by one entry adds that entry's symbol.
proof fn lemma_sources_sum_push(x: Seq<Seq<u8>>, sources: Seq<usize>, s: usize, k: int)
    ensures
        sources_sum(x, sources.push(s), k) == sources_sum(x, sources, k) ^ x[s as int][k],
{
    assert(sources.push(s).drop_last() =~= sources);
}

/// A sum over two lists one after the other is the sum of the two sums.
proof fn lemma_sources_sum_concat(x: Seq<Seq<u8>>, a: Seq<usize>, b: Seq<usize>, k: int)
    ensures
        sources_sum(x, a + b, k) == sources_sum(x, a, k) ^ sources_sum(x, b, k),
    decreases b.len(),
{
    if b.len() == 0 {
        assert(a + b =~= a);
        lemma_xor_basics(sources_sum(x, a, k), 0, 0);
    } else {
        let bd = b.drop_last();
        assert((a + b).drop_last() =~= a + bd);
        assert((a + b).last() == b.last());
        lemma_sources_sum_concat(x, a, bd, k);
        lemma_xor_basics(sources_sum(x, a, k), sources_sum(x, bd, k), x[b.last() as int][k]);
    }
}

/// `dest += src` on two distinct symbols.
pub(crate) fn add_symbol_into(symbols: &mut SymbolSlab, dest: usize, src: usize)
    requires
        old(symbols).wf(),
        dest < old(symbols).spec_len(),
        src < old(symbols).spec_len(),
        dest != src,
    ensures
        final(symbols).wf(),
        final(symbols).spec_symbol_size() == old(symbols).spec_symbol_size(),
        final(symbols)@ == add_symbol(old(symbols)@, dest as int, src as int),
{
    let ghost s0 = *symbols;
    proof {
        lemma_symbol_len(s0, dest as int);
        lemma_symbol_len(s0, src as int);
    }
    let (src_symbol, dest_symbol) = symbols.get_disjoint_mut(src, dest);
    add_assign(dest_symbol, src_symbol);
    proof {
        let x = s0@[dest as int];
        let y = s0@[src as int];
        lemma_after_get_disjoint_mut(s0, *symbols, src as int, y, dest as int, xor_seq(x, y));
        assert(s0@.update(src as int, y) =~= s0@);
    }
}

/// Adds symbol `src` into every listed destination; with `CHECK_ZERO_SOURCE`, a zero source
/// is noticed first and nothing is written.
pub fn addassign_symbol_row_batch<const CHECK_ZERO_SOURCE: bool>(
    symbols: &mut SymbolSlab,
    src: usize,
    dests: &Vec<usize>,
)
    requires
        old(symbols).wf(),
        src < old(symbols).spec_len(),
        forall|i: int| 0 <= i < dests@.len() ==> #[trigger] dests@[i] < old(symbols).spec_len()
            && dests@[i] != src,
        forall|i: int, j: int| 0 <= i < j < dests@.len() ==> dests@[i] != dests@[j],
    ensures
        final(symbols).wf(),
        final(symbols).spec_symbol_size() == old(symbols).spec_symbol_size(),
        final(symbols)@ == add_to_dests(old(symbols)@, src as int, dests@),
{
    let ghost s0 = symbols@;
    proof {
        lemma_symbol_len(*symbols, src as int);
    }
    if dests.len() == 0 {
        assert(add_to_dests(s0, src as int, dests@) =~= s0);
        return;
    }
    if CHECK_ZERO_SOURCE && bytes_are_zero(symbols.get(src)) {
        proof {
            assert forall|i: int| 0 <= i < s0.len() implies #[trigger] add_to_dests(
                s0,
                src as int,
                dests@,
            )[i] == s0[i] by {
                lemma_symbol_len(*symbols, i);
                assert forall|b: int| 0 <= b < s0[i].len() implies xor_seq(s0[i], s0[src as int])[b]
                    == s0[i][b] by {
                    assert(s0[src as int][b] == 0);
                    lemma_xor_basics(s0[i][b], 0, 0);
                }
                assert(xor_seq(s0[i], s0[src as int]) =~= s0[i]);
            }
            assert(add_to_dests(s0, src as int, dests@) =~= s0);
        }
        return;
    }
    let mut j: usize = 0;
    while j < dests.len()
        invariant
            j <= dests@.len(),
            symbols.wf(),
            symbols.spec_symbol_size() == old(symbols).spec_symbol_size(),
            s0 == old(symbols)@,
            symbols.spec_len() == s0.len(),
            src < s0.len(),
            forall|i: int| 0 <= i < dests@.len() ==> #[trigger] dests@[i] < s0.len() && dests@[i] != src,
            forall|i: int, i2: int| 0 <= i < i2 < dests@.len() ==> dests@[i] != dests@[i2],
            symbols@ == add_to_dests(s0, src as int, dests@.subrange(0, j as int)),
        decreases dests@.len() - j,
    {
        let dest = dests[j];
        let ghost before = symbols@;
        add_symbol_into(symbols, dest, src);
        proof {
            let done = dests@.subrange(0, j as int);
            let done2 = dests@.subrange(0, j + 1);
            assert(!listed(done, src as int)) by {
                if listed(done, src as int) {
                    let i = choose|i: int| 0 <= i < done.len() && done[i] as int == src as int;
                    assert(dests@[i] == src);
                }
            }
            assert(!listed(done, dest as int)) by {
                if listed(done, dest as int) {
                    let i = choose|i: int| 0 <= i < done.len() && done[i] as int == dest as int;
                    assert(dests@[i] == dests@[j as int]);
                }
            }
            assert(before[src as int] == s0[src as int]);
            assert(before[dest as int] == s0[dest as int]);
            assert forall|i: int| 0 <= i < s0.len() implies #[trigger] symbols@[i] == add_to_dests(
                s0,
                src as int,
                done2,
            )[i] by {
                assert(listed(done2, i) == (listed(done, i) || i == dest as int)) by {
                    if listed(done2, i) {
                        let t = choose|t: int| 0 <= t < done2.len() && done2[t] as int == i;
                        if t < j {
                            assert(done[t] == done2[t]);
                        }
                    }
                    if listed(done, i) {
                        let t = choose|t: int| 0 <= t < done.len() && done[t] as int == i;
                        assert(done2[t] == done[t]);
                    }
                    if i == dest as int {
                        assert(done2[j as int] == dest);
                    }
                }
            }
            assert(symbols@ =~= add_to_dests(s0, src as int, done2));
        }
        j += 1;
    }
    proof {
        assert(dests@.subrange(0, dests@.len() as int) =~= dests@);
    }
}

/// Where binary row `row` keeps its symbol when `h` other symbols follow the first `s`:
/// rows before `s` keep their place, later rows move up by `h`.
pub open spec fn mapped_row(row: int, s: int, h: int) -> int {
    if row < s {
        row
    } else {
        row + h
    }
}

/// The symbol positions of the listed binary rows.
pub open spec fn mapped_rows(rows: Seq<CoefficientColumn>, s: int, h: int) -> Seq<usize> {
    Seq::new(rows.len(), |j: int| mapped_row(rows[j] as int, s, h) as usize)
}

/// The symbol position of binary row `row`.
pub fn mapped_binary_symbol_row(row: usize, s: usize, h: usize) -> (r: usize)
    requires
        mapped_row(row as int, s as int, h as int) <= usize::MAX,
    ensures
        r == mapped_row(row as int, s as int, h as int),
{
    if row < s {
        row
    } else {
        row + h
    }
}

/// Adds the symbol of binary row `src` into the symbols of the binary rows in `dests`, each
/// row found at its mapped position.
pub fn addassign_mapped_binary_symbol_batch(
    symbols: &mut SymbolSlab,
    src: usize,
    dests: &Vec<CoefficientColumn>,
    s: usize,
    h: usize,
)
    requires
        old(symbols).wf(),
        mapped_row(src as int, s as int, h as int) <= usize::MAX,
        dests@.len() > 0 ==> mapped_row(src as int, s as int, h as int) < old(symbols).spec_len(),
        forall|i: int| 0 <= i < dests@.len() ==> mapped_row(#[trigger] dests@[i] as int, s as int, h as int)
            < old(symbols).spec_len() && dests@[i] != src,
        forall|i: int, j: int| 0 <= i < j < dests@.len() ==> dests@[i] != dests@[j],
    ensures
        final(symbols).wf(),
        final(symbols).spec_symbol_size() == old(symbols).spec_symbol_size(),
        final(symbols)@ == add_to_dests(
            old(symbols)@,
            mapped_row(src as int, s as int, h as int),
            mapped_rows(dests@, s as int, h as int),
        ),
{
    let len = symbols.len();
    let src_row = mapped_binary_symbol_row(src, s, h);
    if dests.len() == 0 {
        proof {
            assert(add_to_dests(symbols@, src_row as int, mapped_rows(dests@, s as int, h as int)) =~= symbols@);
        }
        return;
    }
    let mut mapped: Vec<usize> = Vec::new();
    let mut i: usize = 0;
    while i < dests.len()
        invariant
            i <= dests@.len(),
            len == symbols.spec_len(),
            mapped@.len() == i,
            forall|i2: int| 0 <= i2 < dests@.len() ==> mapped_row(#[trigger] dests@[i2] as int, s as int, h as int)
                < len,
            forall|j: int| 0 <= j < i ==> #[trigger] mapped@[j] == mapped_row(dests@[j] as int, s as int, h as int),
        decreases dests@.len() - i,
    {
        let row = coefficient_col_index(dests[i]);
        mapped.push(mapped_binary_symbol_row(row, s, h));
        i += 1;
    }
    proof {
        assert(mapped@ =~= mapped_rows(dests@, s as int, h as int));
        assert forall|a: int, b: int| 0 <= a < b < mapped@.len() implies mapped@[a] != mapped@[b] by {
            assert(dests@[a] != dests@[b]);
        }
        assert forall|a: int| 0 <= a < mapped@.len() implies #[trigger] mapped@[a] < symbols.spec_len()
            && mapped@[a] != src_row by {
            assert(dests@[a] != src);
        }
    }
    addassign_symbol_row_batch::<true>(symbols, src_row, &mapped);
}

/// Adds the listed symbols into symbol `dest`, which is not among them.
pub fn addassign_symbol_source_batch(symbols: &mut SymbolSlab, dest: usize, sources: &Vec<usize>)
    requires
        old(symbols).wf(),
        dest < old(symbols).spec_len(),
        forall|i: int| 0 <= i < sources@.len() ==> #[trigger] sources@[i] < old(symbols).spec_len()
            && sources@[i] != dest,
    ensures
        final(symbols).wf(),
        final(symbols).spec_symbol_size() == old(symbols).spec_symbol_size(),
        final(symbols)@ == add_sources(old(symbols)@, dest as int, sources@),
{
    let ghost s0 = symbols@;
    let ghost slab0 = *symbols;
    proof {
        lemma_symbol_len(*symbols, dest as int);
    }
    proof {
        assert forall|k: int| 0 <= k < s0[dest as int].len() implies s0[dest as int][k] ^ sources_sum(
            s0,
            sources@.subrange(0, 0),
            k,
        ) == s0[dest as int][k] by {
            lemma_xor_basics(s0[dest as int][k], 0, 0);
        }
        assert(Seq::new(s0[dest as int].len(), |k: int| s0[dest as int][k] ^ sources_sum(
            s0,
            sources@.subrange(0, 0),
            k,
        )) =~= s0[dest as int]);
        assert(s0.update(dest as int, s0[dest as int]) =~= s0);
    }
    let mut j: usize = 0;
    while j < sources.len()
        invariant
            j <= sources@.len(),
            symbols.wf(),
            symbols.spec_symbol_size() == old(symbols).spec_symbol_size(),
            s0 == old(symbols)@,
            slab0 == *old(symbols),
            slab0.wf(),
            s0 == slab0@,
            symbols.spec_len() == s0.len(),
            dest < s0.len(),
            forall|i: int| 0 <= i < sources@.len() ==> #[trigger] sources@[i] < s0.len()
                && sources@[i] != dest,
            symbols@ == add_sources(s0, dest as int, sources@.subrange(0, j as int)),
        decreases sources@.len() - j,
    {
        let src = sources[j];
        let ghost before = symbols@;
        add_symbol_into(symbols, dest, src);
        proof {
            let done = sources@.subrange(0, j as int);
            let done2 = sources@.subrange(0, j + 1);
            assert(done2 =~= done.push(src));
            assert(before[src as int] == s0[src as int]);
            lemma_symbol_len(slab0, src as int);
            assert(before[dest as int] =~= Seq::new(s0[dest as int].len(), |k: int| s0[dest as int][k] ^ sources_sum(s0, done, k)));
            assert forall|k: int| 0 <= k < s0[dest as int].len() implies #[trigger] symbols@[dest as int][k]
                == s0[dest as int][k] ^ sources_sum(s0, done2, k) by {
                lemma_sources_sum_push(s0, done, src, k);
                lemma_xor_basics(s0[dest as int][k], sources_sum(s0, done, k), s0[src as int][k]);
            }
            let nd = Seq::new(s0[dest as int].len(), |k: int| s0[dest as int][k] ^ sources_sum(s0, done2, k));
            assert(symbols@[dest as int] =~= nd);
            assert forall|i: int| 0 <= i < s0.len() implies #[trigger] symbols@[i] == add_sources(s0, dest as int, done2)[i] by {}
            assert(symbols@ =~= add_sources(s0, dest as int, done2));
        }
        j += 1;
    }
    proof {
        assert(sources@.subrange(0, sources@.len() as int) =~= sources@);
    }
}

} // verus!

verus! {

/// The coefficient of column `c` in row `row` counted only at or after `start`.
pub open spec fn suffix_coeff(rows: PackedBinaryRows, row: int, start: int, c: int) -> u8 {
    if start <= c && rows.bit(row, c) {
        1u8
    } else {
        0u8
    }
}

/// Byte `k` of the sum of the symbols at the set columns of row `row` at or after `start`.
pub open spec fn suffix_value(rows: PackedBinaryRows, row: int, start: int, x: Seq<Seq<u8>>, k: int) -> u8 {
    eval_cols(|c: int| suffix_coeff(rows, row, start, c), x, k, rows.spec_width())
}

/// Adds into symbol `dest` of `decoded` the symbols at the set columns of row `row` at or
/// after `start_col`; `dest` comes before `start_col`, so it is not among them.
pub fn addassign_packed_row_sources_to_symbol(
    rows: &PackedBinaryRows,
    row: usize,
    start_col: usize,
    decoded: &mut SymbolSlab,
    dest: usize,
)
    requires
        rows.wf(),
        row < rows.spec_height(),
        old(decoded).wf(),
        old(decoded).spec_len() == rows.spec_width(),
        dest < start_col,
        dest < old(decoded).spec_len(),
    ensures
        final(decoded).wf(),
        final(decoded).spec_symbol_size() == old(decoded).spec_symbol_size(),
        final(decoded)@ == old(decoded)@.update(
            dest as int,
            Seq::new(
                old(decoded)@[dest as int].len(),
                |k: int| old(decoded)@[dest as int][k] ^ suffix_value(*rows, row as int, start_col as int, old(decoded)@, k),
            ),
        ),
{
    let ghost d0 = decoded@;
    let width = rows.width();
    let ones = rows.visit_ones_at_or_after(row, start_col);
    addassign_symbol_source_batch(decoded, dest, &ones);
    proof {
        let n = rows.spec_width();
        assert forall|i: int, j: int| 0 <= i < j < ones@.len() implies ones@[i] != ones@[j] by {}
        assert forall|k: int| 0 <= k < d0[dest as int].len() implies #[trigger] sources_sum(d0, ones@, k)
            == suffix_value(*rows, row as int, start_col as int, d0, k) by {
            lemma_sources_sum_eval(d0, ones@, k, n);
            let f = |c: int|
                if listed(ones@, c) {
                    1u8
                } else {
                    0u8
                };
            let g = |c: int| suffix_coeff(*rows, row as int, start_col as int, c);
            assert forall|c: int| 0 <= c < n implies #[trigger] f(c) == g(c) by {
                if listed(ones@, c) {
                    let t = choose|t: int| 0 <= t < ones@.len() && ones@[t] as int == c;
                    assert(start_col <= ones@[t] && rows.bit(row as int, ones@[t] as int));
                }
                if start_col <= c && rows.bit(row as int, c) {
                    assert(ones@.contains(c as usize));
                    let t = choose|t: int| 0 <= t < ones@.len() && ones@[t] == c as usize;
                    assert(c < width);
                    assert(ones@[t] as int == c);
                    assert(listed(ones@, c));
                }
            }
            lemma_eval_ext(f, g, d0, k, n);
        }
        let a = Seq::new(d0[dest as int].len(), |k: int| d0[dest as int][k] ^ sources_sum(d0, ones@, k));
        let b = Seq::new(d0[dest as int].len(), |k: int| d0[dest as int][k] ^ suffix_value(*rows, row as int, start_col as int, d0, k));
        assert(a =~= b);
    }
}

} // verus!

verus! {

/// Row `dest` of `after` is row `dest` of `before` plus the columns of row `src` at or after
/// `col`; every other row is unchanged.
pub open spec fn row_added(before: PackedBinaryRows, after: PackedBinaryRows, dest: int, src: int, col: int) -> bool {
    &&& after.wf()
    &&& after.spec_height() == before.spec_height()
    &&& after.spec_width() == before.spec_width()
    &&& forall|r: int, c: int|
        0 <= r < before.spec_height() && 0 <= c < before.spec_width() ==> #[trigger] after.bit(r, c)
            == before.xor_suffix_bit(dest, src, col, r, c)
}

/// `cols` lists, in increasing order, exactly the set columns of row `r`.
pub open spec fn lists_row(cols: Seq<u16>, rows: PackedBinaryRows, r: int) -> bool {
    &&& forall|i: int, j: int| 0 <= i < j < cols.len() ==> cols[i] < cols[j]
    &&& forall|i: int| 0 <= i < cols.len() ==> #[trigger] cols[i] < rows.spec_width() && rows.bit(r, cols[i] as int)
    &&& forall|c: int| 0 <= c < rows.spec_width() && #[trigger] rows.bit(r, c) ==> exists|i: int|
        0 <= i < cols.len() && cols[i] as int == c
}

/// The set columns of rows with few ones, listed once and reused until the row changes.
pub struct SmallBinaryRowCache {
    cols: Vec<Vec<CoefficientColumn>>,
    valid: Vec<bool>,
}

impl SmallBinaryRowCache {
    pub closed spec fn spec_len(&self) -> nat {
        self.valid@.len()
    }

    pub closed spec fn spec_valid(&self, r: int) -> bool {
        self.valid@[r]
    }

    pub closed spec fn spec_cols(&self, r: int) -> Seq<u16> {
        self.cols@[r]@
    }

    /// Every listing still marked valid lists its row of `rows`.
    pub open spec fn lists(&self, rows: PackedBinaryRows) -> bool {
        forall|r: int| 0 <= r < self.spec_len() && #[trigger] self.spec_valid(r) ==> lists_row(self.spec_cols(r), rows, r)
    }

    pub closed spec fn wf(&self) -> bool {
        self.cols@.len() == self.valid@.len()
    }

    /// A cache for `height` rows, none listed yet.
    pub fn new(height: usize) -> (r: SmallBinaryRowCache)
        ensures
            r.wf(),
            r.spec_len() == height,
            forall|i: int| 0 <= i < height ==> !#[trigger] r.spec_valid(i),
    {
        let mut cols: Vec<Vec<CoefficientColumn>> = Vec::new();
        let mut valid: Vec<bool> = Vec::new();
        let mut i: usize = 0;
        while i < height
            invariant
                i <= height,
                cols@.len() == i,
                valid@.len() == i,
                forall|j: int| 0 <= j < i ==> !#[trigger] valid@[j],
            decreases height - i,
        {
            cols.push(Vec::new());
            valid.push(false);
            i += 1;
        }
        SmallBinaryRowCache { cols, valid }
    }

    /// Lists row `row`, which has no set column before `start_col`, unless already listed.
    pub fn fill(&mut self, rows: &PackedBinaryRows, row: usize, start_col: usize)
        requires
            old(self).wf(),
            old(self).lists(*rows),
            rows.wf(),
            row < rows.spec_height(),
            row < old(self).spec_len(),
            rows.spec_width() <= u16::MAX + 1,
            forall|c: int| 0 <= c < start_col ==> !#[trigger] rows.bit(row as int, c),
        ensures
            final(self).wf(),
            final(self).lists(*rows),
            final(self).spec_len() == old(self).spec_len(),
            final(self).spec_valid(row as int),
            forall|r: int| 0 <= r < old(self).spec_len() && r != row ==> #[trigger] final(self).spec_valid(r)
                == old(self).spec_valid(r) && final(self).spec_cols(r) == old(self).spec_cols(r),
    {
        if self.valid[row] {
            return;
        }
        let width = rows.width();
        let ones = rows.visit_ones_at_or_after(row, start_col);
        let mut cols: Vec<CoefficientColumn> = Vec::new();
        let mut i: usize = 0;
        while i < ones.len()
            invariant
                i <= ones@.len(),
                cols@.len() == i,
                width == rows.spec_width(),
                width <= u16::MAX + 1,
                forall|j: int| 0 <= j < ones@.len() ==> start_col <= #[trigger] ones@[j] < width,
                forall|j: int| 0 <= j < i ==> #[trigger] cols@[j] as int == ones@[j] as int,
            decreases ones@.len() - i,
        {
            cols.push(coefficient_col(ones[i]));
            i += 1;
        }
        let ghost old_self = *self;
        self.cols.set(row, cols);
        self.valid.set(row, true);
        proof {
            let l = self.spec_cols(row as int);
            assert(l == cols@);
            assert forall|c: int| 0 <= c < rows.spec_width() && #[trigger] rows.bit(row as int, c) implies exists|i: int|
                0 <= i < l.len() && l[i] as int == c by {
                assert(c >= start_col);
                assert(ones@.contains(c as usize));
                let t = choose|t: int| 0 <= t < ones@.len() && ones@[t] == c as usize;
                assert(l[t] as int == c);
            }
            assert(lists_row(l, *rows, row as int));
            assert forall|r: int| 0 <= r < self.spec_len() && #[trigger] self.spec_valid(r) implies lists_row(
                self.spec_cols(r),
                *rows,
                r,
            ) by {
                if r != row {
                    assert(old_self.spec_valid(r));
                }
            }
        }
    }

    /// The listing of row `row`.
    pub fn get(&self, row: usize) -> (r: &Vec<CoefficientColumn>)
        requires
            row < self.spec_len(),
            self.wf(),
        ensures
            r@ == self.spec_cols(row as int),
    {
        &self.cols[row]
    }

    /// Forgets the listing of row `row`, which is about to change.
    pub fn invalidate(&mut self, row: usize)
        requires
            old(self).wf(),
            row < old(self).spec_len(),
        ensures
            final(self).wf(),
            final(self).spec_len() == old(self).spec_len(),
            !final(self).spec_valid(row as int),
            forall|r: int| 0 <= r < old(self).spec_len() && r != row ==> #[trigger] final(self).spec_valid(r)
                == old(self).spec_valid(r) && final(self).spec_cols(r) == old(self).spec_cols(r),
    {
        self.valid.set(row, false);
    }
}

/// A column listed once in an increasing list is toggled once; one not listed, never.
proof fn lemma_toggle_count_listed(cols: Seq<u16>, c: int)
    requires
        forall|i: int, j: int| 0 <= i < j < cols.len() ==> cols[i] < cols[j],
    ensures
        toggle_count(cols, c) == (if exists|i: int| 0 <= i < cols.len() && cols[i] as int == c {
            1nat
        } else {
            0nat
        }),
    decreases cols.len(),
{
    if cols.len() > 0 {
        let d = cols.drop_last();
        assert forall|i: int, j: int| 0 <= i < j < d.len() implies d[i] < d[j] by {
            assert(d[i] == cols[i] && d[j] == cols[j]);
        }
        lemma_toggle_count_listed(d, c);
        let last = cols.last();
        assert(last == cols[cols.len() - 1]);
        if exists|i: int| 0 <= i < d.len() && d[i] as int == c {
            let i = choose|i: int| 0 <= i < d.len() && d[i] as int == c;
            assert(cols[i] == d[i]);
            assert(cols[i] < last);
        }
        if exists|i: int| 0 <= i < cols.len() && cols[i] as int == c {
            let i = choose|i: int| 0 <= i < cols.len() && cols[i] as int == c;
            if i < cols.len() - 1 {
                assert(d[i] == cols[i]);
            }
        }
    }
}

/// Adds pivot row `pivot`, whose first one is at `col`, into row `row` from `col` on,
/// keeping `row_weights[row]` as the row's number of ones from `col` on and the cache of
/// listings; returns the row's first one from `col` on. A light pivot is added column by
/// column from its cached listing.
pub fn eliminate_weighted_binary_row<const SMALL_WEIGHT_MAX: usize>(
    rows: &mut PackedBinaryRows,
    row_weights: &mut Vec<u32>,
    small_row_cache: &mut SmallBinaryRowCache,
    row: usize,
    pivot: usize,
    col: usize,
    pivot_weight: u32,
) -> (r: Option<usize>)
    requires
        old(rows).wf(),
        row < old(rows).spec_height(),
        pivot < old(rows).spec_height(),
        row != pivot,
        col < old(rows).spec_width(),
        old(rows).spec_width() <= u16::MAX + 1,
        old(rows).bit(pivot as int, col as int),
        forall|c: int| 0 <= c < col ==> !#[trigger] old(rows).bit(pivot as int, c),
        row < old(row_weights)@.len(),
        old(row_weights)@[row as int] == old(rows).ones(row as int, col as int, old(rows).spec_width() as int),
        old(small_row_cache).wf(),
        old(small_row_cache).spec_len() == old(rows).spec_height(),
        old(small_row_cache).lists(*old(rows)),
    ensures
        row_added(*old(rows), *final(rows), row as int, pivot as int, col as int),
        final(row_weights)@ == old(row_weights)@.update(
            row as int,
            final(rows).ones(row as int, col as int, final(rows).spec_width() as int) as u32,
        ),
        final(rows).ones(row as int, col as int, final(rows).spec_width() as int) <= u32::MAX,
        final(small_row_cache).wf(),
        final(small_row_cache).spec_len() == old(small_row_cache).spec_len(),
        final(small_row_cache).lists(*final(rows)),
        match r {
            None => forall|c: int|
                col <= c < final(rows).spec_width() ==> !#[trigger] final(rows).bit(row as int, c),
            Some(c) => col <= c < final(rows).spec_width() && final(rows).bit(row as int, c as int)
                && forall|c2: int| col <= c2 < c ==> !#[trigger] final(rows).bit(row as int, c2),
        },
{
    let ghost r0 = *rows;
    let ghost cache0 = *small_row_cache;
    let width = rows.width();
    if (pivot_weight as usize) <= SMALL_WEIGHT_MAX {
        small_row_cache.fill(rows, pivot, col);
        let pivot_entries = small_row_cache.get(pivot);
        let ghost cols = pivot_entries@;
        proof {
            assert(lists_row(cols, r0, pivot as int));
            let i0 = choose|i: int| 0 <= i < cols.len() && cols[i] as int == col;
            assert(cols.len() > 0);
            if i0 > 0 {
                assert(cols[0] < cols[i0]);
                assert(r0.bit(pivot as int, cols[0] as int));
            }
            assert(cols[0] as int == col);
            assert forall|i: int| 0 <= i < cols.len() implies cols[0] <= #[trigger] cols[i] by {
                if i > 0 {
                    assert(cols[0] < cols[i]);
                }
            }
        }
        let weight = row_weights[row];
        let (weight, next_col) = rows.xor_u16_columns_update_weight_and_first_one(
            row,
            pivot_entries.as_slice(),
            weight,
        );
        row_weights.set(row, weight);
        let ghost cache1 = *small_row_cache;
        small_row_cache.invalidate(row);
        proof {
            assert forall|r: int, c: int|
                0 <= r < r0.spec_height() && 0 <= c < r0.spec_width() implies #[trigger] rows.bit(r, c)
                    == r0.xor_suffix_bit(row as int, pivot as int, col as int, r, c) by {
                if r == row {
                    lemma_toggle_count_listed(cols, c);
                    if exists|i: int| 0 <= i < cols.len() && cols[i] as int == c {
                        let i = choose|i: int| 0 <= i < cols.len() && cols[i] as int == c;
                        assert(r0.bit(pivot as int, c));
                        if c < col {
                            assert(!r0.bit(pivot as int, c));
                        }
                    } else {
                        if c >= col && r0.bit(pivot as int, c) {
                            assert(exists|i: int| 0 <= i < cols.len() && cols[i] as int == c);
                        }
                    }
                }
            }
            assert forall|r: int| 0 <= r < small_row_cache.spec_len() && #[trigger] small_row_cache.spec_valid(r)
                implies lists_row(small_row_cache.spec_cols(r), *rows, r) by {
                assert(r != row);
                assert(cache1.spec_valid(r));
                let l = small_row_cache.spec_cols(r);
                assert(lists_row(l, r0, r));
                assert forall|c: int| 0 <= c < r0.spec_width() implies #[trigger] rows.bit(r, c) == r0.bit(r, c) by {
                    assert(rows.bit(r, c) == r0.xor_suffix_bit(row as int, pivot as int, col as int, r, c));
                }
            }
        }
        return next_col;
    }
    let (weight, next_col) = rows.xor_suffix_count_ones_and_first_one(row, pivot, col);
    row_weights.set(row, weight);
    small_row_cache.invalidate(row);
    proof {
        assert forall|r: int| 0 <= r < small_row_cache.spec_len() && #[trigger] small_row_cache.spec_valid(r)
            implies lists_row(small_row_cache.spec_cols(r), *rows, r) by {
            assert(r != row);
            assert(cache0.spec_valid(r));
            let l = small_row_cache.spec_cols(r);
            assert(lists_row(l, r0, r));
            assert forall|c: int| 0 <= c < r0.spec_width() implies #[trigger] rows.bit(r, c) == r0.bit(r, c) by {
                assert(c < r0.spec_words_per_row() * 64) by {
                    assert(r0.spec_words_per_row() == (r0.spec_width() + 63) / 64);
                }
            }
        }
        assert forall|r: int, c: int|
            0 <= r < r0.spec_height() && 0 <= c < r0.spec_width() implies #[trigger] rows.bit(r, c)
                == r0.xor_suffix_bit(row as int, pivot as int, col as int, r, c) by {
            assert(c < r0.spec_words_per_row() * 64) by {
                assert(r0.spec_words_per_row() == (r0.spec_width() + 63) / 64);
            }
        }
    }
    next_col
}

} // verus!

verus! {

/// Row `a` of the bit matrix replaced by its sum with row `p`.
pub open spec fn add_bit_row(m: Seq<Seq<bool>>, a: int, p: int) -> Seq<Seq<bool>> {
    m.update(a, Seq::new(m[a].len(), |c: int| m[a][c] != m[p][c]))
}

/// Adding one row into another, and its symbol into the other's, keeps the solutions.
pub proof fn lemma_bit_solves_add(
    m: Seq<Seq<bool>>,
    s: Seq<Seq<u8>>,
    a: int,
    p: int,
    x: Seq<Seq<u8>>,
    n: nat,
    size: nat,
)
    requires
        m.len() == s.len(),
        0 <= a < m.len(),
        0 <= p < m.len(),
        a != p,
        uniform(s, size),
        forall|i: int| 0 <= i < m.len() ==> (#[trigger] m[i]).len() == n,
    ensures
        bit_solves(m, s, x, n, size) <==> bit_solves(add_bit_row(m, a, p), add_symbol(s, a, p), x, n, size),
{
    let m2 = add_bit_row(m, a, p);
    let s2 = add_symbol(s, a, p);
    let fa = |c: int| bit_coeff(m, a, c);
    let fp = |c: int| bit_coeff(m, p, c);
    let f2 = |c: int| bit_coeff(m2, a, c);
    assert forall|c: int| 0 <= c < n implies #[trigger] f2(c) == fa(c) ^ fp(c) by {
        lemma_xor_basics(1, 1, 0);
        lemma_xor_basics(1, 0, 0);
        lemma_xor_basics(0, 0, 0);
    }
    assert forall|k: int| 0 <= k < size implies #[trigger] bit_row_value(m2, a, x, k, n) == bit_row_value(m, a, x, k, n)
        ^ bit_row_value(m, p, x, k, n) by {
        lemma_eval_add(fa, fp, f2, x, k, n);
    }
    if bit_solves(m, s, x, n, size) {
        assert forall|i: int, k: int| 0 <= i < m2.len() && 0 <= k < size implies #[trigger] bit_row_value(m2, i, x, k, n)
            == s2[i][k] by {
            if i == a {
                assert(bit_row_value(m, a, x, k, n) == s[a][k]);
                assert(bit_row_value(m, p, x, k, n) == s[p][k]);
                assert(s[a].len() == size && s[p].len() == size);
            } else {
                assert(m2[i] == m[i]);
                lemma_eval_ext(|c: int| bit_coeff(m2, i, c), |c: int| bit_coeff(m, i, c), x, k, n);
                assert(bit_row_value(m, i, x, k, n) == s[i][k]);
            }
        }
    }
    if bit_solves(m2, s2, x, n, size) {
        assert forall|i: int, k: int| 0 <= i < m.len() && 0 <= k < size implies #[trigger] bit_row_value(m, i, x, k, n)
            == s[i][k] by {
            assert(m2[p] == m[p]);
            lemma_eval_ext(|c: int| bit_coeff(m2, p, c), |c: int| bit_coeff(m, p, c), x, k, n);
            assert(bit_row_value(m2, p, x, k, n) == s2[p][k]);
            if i == a {
                assert(bit_row_value(m2, a, x, k, n) == s2[a][k]);
                assert(s[a].len() == size && s[p].len() == size);
                lemma_xor_basics(bit_row_value(m, a, x, k, n), s[p][k], 0);
                lemma_xor_basics(s[a][k], s[p][k], 0);
            } else {
                assert(m2[i] == m[i]);
                lemma_eval_ext(|c: int| bit_coeff(m2, i, c), |c: int| bit_coeff(m, i, c), x, k, n);
                assert(bit_row_value(m2, i, x, k, n) == s2[i][k]);
            }
        }
    }
}

/// The view of rows after adding pivot row `p`, which has no set column before `col`, into
/// row `a` from `col` on: row `a` replaced by the sum of the two rows.
pub proof fn lemma_row_added_view(before: PackedBinaryRows, after: PackedBinaryRows, a: int, p: int, col: int)
    requires
        row_added(before, after, a, p, col),
        0 <= a < before.spec_height(),
        0 <= p < before.spec_height(),
        forall|c: int| 0 <= c < col ==> !#[trigger] before.bit(p, c),
    ensures
        after@ == add_bit_row(before@, a, p),
{
    let m = before@;
    let m2 = add_bit_row(m, a, p);
    assert forall|r: int| 0 <= r < m.len() implies #[trigger] after@[r] == m2[r] by {
        assert forall|c: int| 0 <= c < before.spec_width() implies #[trigger] after@[r][c] == m2[r][c] by {
            assert(after.bit(r, c) == before.xor_suffix_bit(a, p, col, r, c));
        }
        assert(after@[r] =~= m2[r]);
    }
    assert(after@ =~= m2);
}

/// Pending additions of symbol `src` into the listed destinations, then one more.
pub proof fn lemma_add_to_dests_push(s: Seq<Seq<u8>>, src: int, dests: Seq<usize>, d: usize)
    requires
        0 <= src < s.len(),
        0 <= d < s.len(),
        d as int != src,
        !listed(dests, d as int),
        !listed(dests, src),
    ensures
        add_to_dests(s, src, dests.push(d)) == add_symbol(add_to_dests(s, src, dests), d as int, src),
{
    let a = add_to_dests(s, src, dests.push(d));
    let b = add_symbol(add_to_dests(s, src, dests), d as int, src);
    assert forall|i: int| 0 <= i < s.len() implies #[trigger] a[i] == b[i] by {
        assert(listed(dests.push(d), i) == (listed(dests, i) || i == d as int)) by {
            if listed(dests.push(d), i) {
                let t = choose|t: int| 0 <= t < dests.push(d).len() && dests.push(d)[t] as int == i;
                if t < dests.len() {
                    assert(dests[t] == dests.push(d)[t]);
                }
            }
            if listed(dests, i) {
                let t = choose|t: int| 0 <= t < dests.len() && dests[t] as int == i;
                assert(dests.push(d)[t] == dests[t]);
            }
            if i == d as int {
                assert(dests.push(d)[dests.len() as int] == d);
            }
        }
    }
    assert(a =~= b);
}

/// With nothing listed, nothing is added.
pub proof fn lemma_add_to_dests_empty(s: Seq<Seq<u8>>, src: int)
    ensures
        add_to_dests(s, src, Seq::<usize>::empty()) == s,
{
    assert(add_to_dests(s, src, Seq::<usize>::empty()) =~= s);
}

/// An injective map from `n` values into `h` values needs `n <= h`.
pub proof fn lemma_injective_bound(f: spec_fn(int) -> int, n: nat, h: nat)
    requires
        forall|i: int| 0 <= i < n ==> 0 <= #[trigger] f(i) < h,
        forall|i: int, j: int| 0 <= i < j < n ==> #[trigger] f(i) != #[trigger] f(j),
    ensures
        n <= h,
    decreases n,
{
    if n > 0 {
        let last = f(n - 1);
        assert(f(0) < h);
        let g = |i: int|
            if f(i) == h - 1 {
                last
            } else {
                f(i)
            };
        assert forall|i: int| 0 <= i < n - 1 implies 0 <= #[trigger] g(i) < h - 1 by {
            if f(i) == h - 1 {
                assert(f(i) != f(n - 1));
            }
        }
        assert forall|i: int, j: int| 0 <= i < j < n - 1 implies #[trigger] g(i) != #[trigger] g(j) by {
            assert(f(i) != f(j));
            assert(f(i) != f(n - 1));
            assert(f(j) != f(n - 1));
        }
        lemma_injective_bound(g, (n - 1) as nat, (h - 1) as nat);
    }
}

} // verus!

verus! {

/// The rows of bucket `(c, b)`: the general bucket of column `c` when `b` is negative, else
/// the small bucket of column `c` for weight `b + 1`.
pub open spec fn lst(lists: Map<(int, int), Seq<usize>>, c: int, b: int) -> Seq<usize> {
    lists[(c, b)]
}

/// The first row of bucket `(c, b)`.
pub open spec fn list_head<Mask: SmallWeightBucketMask>(
    heads: Seq<usize>,
    small: SmallWeightBinaryBuckets<Mask>,
    c: int,
    b: int,
) -> usize {
    if b < 0 {
        heads[c]
    } else {
        small.spec_head(b, c)
    }
}

/// `(c, b)` names a bucket: a general one for a column below `width`, or a small one.
pub open spec fn key_ok<Mask: SmallWeightBucketMask>(
    small: SmallWeightBinaryBuckets<Mask>,
    width: nat,
    c: int,
    b: int,
) -> bool {
    &&& 0 <= c < width
    &&& b == -1 || (0 <= b < small.spec_small_weight_max() && c < small.spec_width())
}

/// The links hold the buckets `lists`, and `home` says for each row which bucket holds it,
/// `(-1, -1)` for none: every row is in at most one bucket.
pub open spec fn lists_ok<Mask: SmallWeightBucketMask>(
    lists: Map<(int, int), Seq<usize>>,
    heads: Seq<usize>,
    small: SmallWeightBinaryBuckets<Mask>,
    next: Seq<usize>,
    home: Seq<(int, int)>,
    width: nat,
) -> bool {
    &&& heads.len() == width
    &&& next.len() == home.len()
    &&& next.len() <= usize::MAX
    &&& forall|c: int, b: int|
        key_ok(small, width, c, b) ==> is_bucket(
            next,
            list_head(heads, small, c, b),
            #[trigger] lst(lists, c, b),
        )
    &&& forall|c: int, b: int, i: int|
        key_ok(small, width, c, b) && 0 <= i < lst(lists, c, b).len() ==> home[#[trigger] lst(
            lists,
            c,
            b,
        )[i] as int] == (c, b)
    &&& forall|r: int|
        0 <= r < home.len() && (#[trigger] home[r]).0 >= 0 ==> key_ok(small, width, home[r].0, home[r].1)
            && lst(lists, home[r].0, home[r].1).contains(r as usize)
    &&& forall|r: int| 0 <= r < home.len() && (#[trigger] home[r]).0 < 0 ==> home[r] == (-1int, -1int)
}

/// Buckets that hold nothing.
pub proof fn lemma_lists_empty<Mask: SmallWeightBucketMask>(
    heads: Seq<usize>,
    small: SmallWeightBinaryBuckets<Mask>,
    next: Seq<usize>,
    width: nat,
)
    requires
        heads.len() == width,
        next.len() <= usize::MAX,
        forall|c: int| 0 <= c < width ==> #[trigger] heads[c] == NO_BUCKET_ROW,
        forall|b: int, c: int|
            0 <= b < small.spec_small_weight_max() && 0 <= c < small.spec_width() ==> #[trigger] small.spec_head(b, c)
                == NO_BUCKET_ROW,
    ensures
        lists_ok(
            Map::total(|k: (int, int)| Seq::<usize>::empty()),
            heads,
            small,
            next,
            Seq::new(next.len(), |r: int| (-1int, -1int)),
            width,
        ),
{
    let lists = Map::total(|k: (int, int)| Seq::<usize>::empty());
    assert forall|c: int, b: int| key_ok(small, width, c, b) implies is_bucket(
        next,
        list_head(heads, small, c, b),
        #[trigger] lst(lists, c, b),
    ) by {
        assert(lst(lists, c, b) =~= Seq::<usize>::empty());
    }
}

/// Taking the row at position `k` out of bucket `(c, b)`: the row goes to no bucket, and
/// every other bucket keeps its rows.
#[verifier::spinoff_prover]
#[verifier::rlimit(30)]
pub proof fn lemma_lists_unlink<Mask: SmallWeightBucketMask>(
    lists: Map<(int, int), Seq<usize>>,
    heads: Seq<usize>,
    small: SmallWeightBinaryBuckets<Mask>,
    next: Seq<usize>,
    home: Seq<(int, int)>,
    width: nat,
    c: int,
    b: int,
    k: int,
    heads2: Seq<usize>,
    small2: SmallWeightBinaryBuckets<Mask>,
    next2: Seq<usize>,
)
    requires
        lists_ok(lists, heads, small, next, home, width),
        key_ok(small, width, c, b),
        0 <= k < lst(lists, c, b).len(),
        next2 == (if k == 0 {
            next
        } else {
            next.update(lst(lists, c, b)[k - 1] as int, next[lst(lists, c, b)[k] as int])
        }).update(lst(lists, c, b)[k] as int, NO_BUCKET_ROW),
        list_head(heads2, small2, c, b) == (if k == 0 {
            next[lst(lists, c, b)[k] as int]
        } else {
            list_head(heads, small, c, b)
        }),
        heads2.len() == heads.len(),
        small2.spec_small_weight_max() == small.spec_small_weight_max(),
        small2.spec_width() == small.spec_width(),
        forall|c2: int, b2: int|
            key_ok(small, width, c2, b2) && (c2 != c || b2 != b) ==> #[trigger] list_head(heads2, small2, c2, b2)
                == list_head(heads, small, c2, b2),
    ensures
        lists_ok(
            lists.insert((c, b), lst(lists, c, b).remove(k)),
            heads2,
            small2,
            next2,
            home.update(lst(lists, c, b)[k] as int, (-1int, -1int)),
            width,
        ),
{
    let l = lst(lists, c, b);
    let row = l[k];
    let lists2 = lists.insert((c, b), l.remove(k));
    let home2 = home.update(row as int, (-1int, -1int));
    lemma_unlink_bucket(next, list_head(heads, small, c, b), l, k);
    assert forall|c2: int, b2: int| key_ok(small2, width, c2, b2) implies is_bucket(
        next2,
        list_head(heads2, small2, c2, b2),
        #[trigger] lst(lists2, c2, b2),
    ) by {
        if c2 != c || b2 != b {
            let l2 = lst(lists, c2, b2);
            assert(lst(lists2, c2, b2) == l2);
            assert forall|i: int| 0 <= i < l2.len() implies next2[#[trigger] l2[i] as int] == next[l2[i] as int] by {
                assert(home[l2[i] as int] == (c2, b2));
                assert(home[row as int] == (c, b));
                if k > 0 {
                    assert(home[l[k - 1] as int] == (c, b));
                }
            }
            lemma_bucket_frame(next, next2, list_head(heads, small, c2, b2), l2);
        }
    }
    assert forall|c2: int, b2: int, i: int|
        key_ok(small2, width, c2, b2) && 0 <= i < lst(lists2, c2, b2).len() implies home2[#[trigger] lst(
        lists2,
        c2,
        b2,
    )[i] as int] == (c2, b2) by {
        if c2 == c && b2 == b {
            let m = l.remove(k);
            let j = if i < k {
                i
            } else {
                i + 1
            };
            assert(m[i] == l[j]);
            assert(l[j] != l[k]);
        } else {
            let l2 = lst(lists, c2, b2);
            assert(home[l2[i] as int] == (c2, b2));
            assert(home[row as int] == (c, b));
        }
    }
    assert forall|r: int| 0 <= r < home2.len() && (#[trigger] home2[r]).0 >= 0 implies key_ok(
        small2,
        width,
        home2[r].0,
        home2[r].1,
    ) && lst(lists2, home2[r].0, home2[r].1).contains(r as usize) by {
        assert(r != row);
        assert(home2[r] == home[r]);
        if home[r] == (c, b) {
            let i = choose|i: int| 0 <= i < l.len() && l[i] == r as usize;
            assert(l[i] as int == r);
            assert(i != k);
            let m = l.remove(k);
            let j = if i < k {
                i
            } else {
                i - 1
            };
            assert(m[j] == l[i]);
        }
    }
}

/// Pushing a row that is in no bucket onto the front of bucket `(c, b)`.
pub proof fn lemma_lists_push<Mask: SmallWeightBucketMask>(
    lists: Map<(int, int), Seq<usize>>,
    heads: Seq<usize>,
    small: SmallWeightBinaryBuckets<Mask>,
    next: Seq<usize>,
    home: Seq<(int, int)>,
    width: nat,
    c: int,
    b: int,
    row: usize,
    heads2: Seq<usize>,
    small2: SmallWeightBinaryBuckets<Mask>,
    next2: Seq<usize>,
)
    requires
        lists_ok(lists, heads, small, next, home, width),
        key_ok(small, width, c, b),
        row < home.len(),
        home[row as int] == (-1int, -1int),
        next2 == next.update(row as int, list_head(heads, small, c, b)),
        list_head(heads2, small2, c, b) == row,
        heads2.len() == heads.len(),
        small2.spec_small_weight_max() == small.spec_small_weight_max(),
        small2.spec_width() == small.spec_width(),
        forall|c2: int, b2: int|
            key_ok(small, width, c2, b2) && (c2 != c || b2 != b) ==> #[trigger] list_head(heads2, small2, c2, b2)
                == list_head(heads, small, c2, b2),
    ensures
        lists_ok(
            lists.insert((c, b), seq![row] + lst(lists, c, b)),
            heads2,
            small2,
            next2,
            home.update(row as int, (c, b)),
            width,
        ),
{
    let l = lst(lists, c, b);
    let lists2 = lists.insert((c, b), seq![row] + l);
    let home2 = home.update(row as int, (c, b));
    assert(!l.contains(row)) by {
        if l.contains(row) {
            let i = choose|i: int| 0 <= i < l.len() && l[i] == row;
            assert(home[l[i] as int] == (c, b));
        }
    }
    lemma_push_bucket(next, list_head(heads, small, c, b), l, row);
    assert forall|c2: int, b2: int| key_ok(small2, width, c2, b2) implies is_bucket(
        next2,
        list_head(heads2, small2, c2, b2),
        #[trigger] lst(lists2, c2, b2),
    ) by {
        if c2 != c || b2 != b {
            let l2 = lst(lists, c2, b2);
            assert forall|i: int| 0 <= i < l2.len() implies next2[#[trigger] l2[i] as int] == next[l2[i] as int] by {
                assert(home[l2[i] as int] == (c2, b2));
            }
            lemma_bucket_frame(next, next2, list_head(heads, small, c2, b2), l2);
        }
    }
    assert forall|c2: int, b2: int, i: int|
        key_ok(small2, width, c2, b2) && 0 <= i < lst(lists2, c2, b2).len() implies home2[#[trigger] lst(
        lists2,
        c2,
        b2,
    )[i] as int] == (c2, b2) by {
        if c2 == c && b2 == b {
            if i > 0 {
                assert((seq![row] + l)[i] == l[i - 1]);
                assert(home[l[i - 1] as int] == (c, b));
            }
        } else {
            let l2 = lst(lists, c2, b2);
            assert(home[l2[i] as int] == (c2, b2));
        }
    }
    assert forall|r: int| 0 <= r < home2.len() && (#[trigger] home2[r]).0 >= 0 implies key_ok(
        small2,
        width,
        home2[r].0,
        home2[r].1,
    ) && lst(lists2, home2[r].0, home2[r].1).contains(r as usize) by {
        if r == row as int {
            assert((seq![row] + l)[0] == row);
        } else if home[r] == (c, b) {
            let i = choose|i: int| 0 <= i < l.len() && l[i] == r as usize;
            assert((seq![row] + l)[i + 1] == l[i]);
        }
    }
}

} // verus!

verus! {

/// From this width on, rows are kept in weighted buckets while solving.
pub const LARGE_BINARY_WEIGHTED_BUCKET_MIN_WIDTH: usize = 4_096;

/// From this width on, the symbol additions of one pivot are applied together.
pub const BINARY_FORWARD_SYMBOL_BATCH_MIN_WIDTH: usize = 512;

/// The first set column of row `r` is `c`.
pub open spec fn first_one_is(rows: PackedBinaryRows, r: int, c: int) -> bool {
    &&& 0 <= c < rows.spec_width()
    &&& rows.bit(r, c)
    &&& forall|c2: int| 0 <= c2 < c ==> !#[trigger] rows.bit(r, c2)
}

/// Row `r` has no set column.
pub open spec fn row_is_zero(rows: PackedBinaryRows, r: int) -> bool {
    forall|c: int| 0 <= c < rows.spec_width() ==> !#[trigger] rows.bit(r, c)
}

/// A set column in a range makes the count of the range positive.
proof fn lemma_ones_pos(rows: PackedBinaryRows, r: int, c: int, lo: int, hi: int)
    requires
        lo <= c < hi,
        rows.bit(r, c),
    ensures
        rows.ones(r, lo, hi) >= 1,
{
    rows.lemma_ones_split(r, lo, c, hi);
    rows.lemma_ones_split(r, c, c + 1, hi);
    assert(rows.ones(r, c, c + 1) == rows.ones(r, c, c) + 1);
}

/// Without set columns before `col`, counting from zero or from `col` agrees.
proof fn lemma_ones_from(rows: PackedBinaryRows, r: int, col: int, w: int)
    requires
        0 <= col <= w,
        forall|c: int| 0 <= c < col ==> !#[trigger] rows.bit(r, c),
    ensures
        rows.ones(r, 0, w) == rows.ones(r, col, w),
{
    rows.lemma_ones_split(r, 0, col, w);
    rows.lemma_ones_zero(r, 0, col);
}

/// How many of the first `n` rows are in a bucket of column `col`.
pub open spec fn count_at(home: Seq<(int, int)>, col: int, n: int) -> nat
    decreases n,
{
    if n <= 0 {
        0
    } else {
        count_at(home, col, n - 1) + if home[n - 1].0 == col {
            1nat
        } else {
            0nat
        }
    }
}

/// Moving a row out of column `col` lowers the count by one.
proof fn lemma_count_at_move(home: Seq<(int, int)>, col: int, n: int, i: int, key: (int, int))
    requires
        0 <= i < n <= home.len(),
        home[i].0 == col,
        key.0 != col,
    ensures
        count_at(home.update(i, key), col, n) + 1 == count_at(home, col, n),
    decreases n,
{
    if n - 1 > i {
        lemma_count_at_move(home, col, n - 1, i, key);
    } else {
        lemma_count_at_same(home, home.update(i, key), col, i);
    }
}

/// Counts over rows whose buckets agree are equal.
proof fn lemma_count_at_same(a: Seq<(int, int)>, b: Seq<(int, int)>, col: int, n: int)
    requires
        n <= a.len(),
        n <= b.len(),
        forall|j: int| 0 <= j < n ==> a[j] == b[j],
    ensures
        count_at(a, col, n) == count_at(b, col, n),
    decreases n,
{
    if n > 0 {
        lemma_count_at_same(a, b, col, n - 1);
    }
}

/// What forward elimination keeps true with the pivots of the first `npiv` columns chosen
/// and every row outside the pivots clear of the columns before `col`.
pub open spec fn forward_inv(
    rows: PackedBinaryRows,
    weights: Seq<u32>,
    weighted: bool,
    lists: Map<(int, int), Seq<usize>>,
    heads: Seq<usize>,
    small: SmallWeightBinaryBuckets<u16>,
    next: Seq<usize>,
    home: Seq<(int, int)>,
    pivot_for_col: Seq<Option<usize>>,
    is_pivot: Seq<bool>,
    pcol: Seq<int>,
    col: int,
    npiv: int,
) -> bool {
    let h = rows.spec_height();
    let w = rows.spec_width();
    &&& rows.wf()
    &&& w <= u16::MAX + 1
    &&& home.len() == h
    &&& is_pivot.len() == h
    &&& pcol.len() == h
    &&& pivot_for_col.len() == w
    &&& lists_ok(lists, heads, small, next, home, w)
    &&& small.wf()
    &&& small.spec_small_weight_max() == DECODE_SMALL_WEIGHT_BINARY_BUCKET_MAX
    &&& small.spec_width() == (if weighted {
        w
    } else {
        0
    })
    &&& weighted ==> weights.len() == h
    &&& 0 <= col <= npiv <= w
    &&& npiv <= col + 1
    &&& forall|r: int|
        0 <= r < h && (#[trigger] home[r]).0 >= 0 ==> {
            &&& col <= home[r].0
            &&& first_one_is(rows, r, home[r].0)
            &&& !is_pivot[r]
            &&& weighted && home[r].1 >= 0 ==> weights[r] == home[r].1 + 1
            &&& weighted && home[r].1 < 0 ==> weights[r] > DECODE_SMALL_WEIGHT_BINARY_BUCKET_MAX
        }
    &&& forall|r: int| 0 <= r < h && (#[trigger] home[r]).0 < 0 && !is_pivot[r] ==> row_is_zero(rows, r)
    &&& forall|r: int, c: int| 0 <= r < h && !is_pivot[r] && 0 <= c < col ==> !#[trigger] rows.bit(r, c)
    &&& weighted ==> forall|r: int|
        0 <= r < h && !is_pivot[r] ==> #[trigger] weights[r] == rows.ones(r, 0, w as int)
    &&& forall|c: int|
        0 <= c < npiv ==> (#[trigger] pivot_for_col[c]) is Some && {
            let p = pivot_for_col[c]->0 as int;
            &&& p < h
            &&& is_pivot[p]
            &&& home[p] == (-1int, -1int)
            &&& pcol[p] == c
            &&& first_one_is(rows, p, c)
        }
    &&& forall|c: int| npiv <= c < w ==> (#[trigger] pivot_for_col[c]) is None
    &&& forall|r: int|
        0 <= r < h && #[trigger] is_pivot[r] ==> 0 <= pcol[r] < npiv && pivot_for_col[pcol[r]] == Some(
            r as usize,
        )
}

} // verus!

verus! {

/// The bucket a row with first set column `c` and `weight` ones goes to.
pub open spec fn bucket_key(weighted: bool, c: int, weight: u32) -> (int, int) {
    if weighted && 1 <= weight <= DECODE_SMALL_WEIGHT_BINARY_BUCKET_MAX {
        (c, weight - 1)
    } else {
        (c, -1int)
    }
}

/// Puts every row that has a set column into the bucket of its first one.
fn push_initial_binary_buckets(
    first_ones: &Vec<Option<usize>>,
    row_weights: &Vec<u32>,
    use_weighted_buckets: bool,
    bucket_heads: &mut Vec<usize>,
    small_weight_buckets: &mut SmallWeightBinaryBuckets<u16>,
    next_in_bucket: &mut Vec<usize>,
    Ghost(width): Ghost<nat>,
) -> (r: Ghost<(Map<(int, int), Seq<usize>>, Seq<(int, int)>)>)
    requires
        old(bucket_heads)@.len() == width,
        forall|c: int| 0 <= c < width ==> #[trigger] old(bucket_heads)@[c] == NO_BUCKET_ROW,
        old(small_weight_buckets).wf(),
        forall|b: int, c: int|
            0 <= b < old(small_weight_buckets).spec_small_weight_max() && 0 <= c < old(
                small_weight_buckets,
            ).spec_width() ==> #[trigger] old(small_weight_buckets).spec_head(b, c) == NO_BUCKET_ROW,
        old(small_weight_buckets).spec_small_weight_max() == DECODE_SMALL_WEIGHT_BINARY_BUCKET_MAX,
        old(small_weight_buckets).spec_width() == (if use_weighted_buckets {
            width
        } else {
            0
        }),
        old(next_in_bucket)@.len() == first_ones@.len(),
        use_weighted_buckets ==> row_weights@.len() == first_ones@.len(),
        forall|r: int| 0 <= r < first_ones@.len() ==> match #[trigger] first_ones@[r] {
            Some(c) => c < width && (use_weighted_buckets ==> row_weights@[r] >= 1),
            None => true,
        },
    ensures
        final(small_weight_buckets).wf(),
        final(small_weight_buckets).spec_small_weight_max() == DECODE_SMALL_WEIGHT_BINARY_BUCKET_MAX,
        final(small_weight_buckets).spec_width() == old(small_weight_buckets).spec_width(),
        lists_ok(
            r@.0,
            final(bucket_heads)@,
            *final(small_weight_buckets),
            final(next_in_bucket)@,
            r@.1,
            width,
        ),
        r@.1.len() == first_ones@.len(),
        forall|i: int| 0 <= i < first_ones@.len() ==> #[trigger] r@.1[i] == match first_ones@[i] {
            Some(c) => bucket_key(use_weighted_buckets, c as int, row_weights@[i]),
            None => (-1int, -1int),
        },
{
    let height = first_ones.len();
    let ghost mut lists = Map::total(|k: (int, int)| Seq::<usize>::empty());
    let ghost mut home = Seq::new(height as nat, |r: int| (-1int, -1int));
    proof {
        lemma_lists_empty(bucket_heads@, *small_weight_buckets, next_in_bucket@, width);
    }
    let mut row: usize = 0;
    while row < height
        invariant
            height == first_ones@.len(),
            row <= height,
            small_weight_buckets.wf(),
            small_weight_buckets.spec_small_weight_max() == DECODE_SMALL_WEIGHT_BINARY_BUCKET_MAX,
            small_weight_buckets.spec_width() == (if use_weighted_buckets {
                width
            } else {
                0
            }),
            bucket_heads@.len() == width,
            next_in_bucket@.len() == height,
            use_weighted_buckets ==> row_weights@.len() == height,
            forall|r: int| 0 <= r < height ==> match #[trigger] first_ones@[r] {
                Some(c) => c < width && (use_weighted_buckets ==> row_weights@[r] >= 1),
                None => true,
            },
            lists_ok(lists, bucket_heads@, *small_weight_buckets, next_in_bucket@, home, width),
            home.len() == height,
            forall|i: int| 0 <= i < row ==> #[trigger] home[i] == match first_ones@[i] {
                Some(c) => bucket_key(use_weighted_buckets, c as int, row_weights@[i]),
                None => (-1int, -1int),
            },
            forall|i: int| row <= i < height ==> #[trigger] home[i] == (-1int, -1int),
        decreases height - row,
    {
        if let Some(col) = first_ones[row] {
            let ghost heads0 = bucket_heads@;
            let ghost small0 = *small_weight_buckets;
            let ghost next0 = next_in_bucket@;
            if use_weighted_buckets {
                push_weighted_binary_row_bucket(
                    row_weights,
                    bucket_heads,
                    small_weight_buckets,
                    next_in_bucket,
                    col,
                    row,
                );
            } else {
                push_row_bucket(bucket_heads, next_in_bucket, col, row);
            }
            proof {
                let key = if use_weighted_buckets {
                    bucket_key(true, col as int, row_weights@[row as int])
                } else {
                    (col as int, -1int)
                };
                assert(key_ok(small0, width, key.0, key.1));
                assert forall|c2: int, b2: int|
                    key_ok(small0, width, c2, b2) && (c2 != key.0 || b2 != key.1) implies #[trigger] list_head(
                    bucket_heads@,
                    *small_weight_buckets,
                    c2,
                    b2,
                ) == list_head(heads0, small0, c2, b2) by {}
                lemma_lists_push(
                    lists,
                    heads0,
                    small0,
                    next0,
                    home,
                    width,
                    key.0,
                    key.1,
                    row,
                    bucket_heads@,
                    *small_weight_buckets,
                    next_in_bucket@,
                );
                lists = lists.insert(key, seq![row] + lst(lists, key.0, key.1));
                home = home.update(row as int, key);
            }
        }
        row += 1;
    }
    Ghost((lists, home))
}

} // verus!

verus! {

/// Every symbol of a well-formed slab has the slab's symbol size.
pub(crate) proof fn lemma_uniform_slab(s: SymbolSlab)
    requires
        s.wf(),
    ensures
        uniform(s@, s.spec_symbol_size()),
{
    assert forall|k: int| 0 <= k < s@.len() implies #[trigger] s@[k].len() == s.spec_symbol_size() by {
        lemma_symbol_len(s, k);
    }
}

/// Symbols with pending additions keep the symbol size.
proof fn lemma_uniform_dests(s: Seq<Seq<u8>>, src: int, dests: Seq<usize>, size: nat)
    requires
        uniform(s, size),
        0 <= src < s.len(),
    ensures
        uniform(add_to_dests(s, src, dests), size),
{
    let t = add_to_dests(s, src, dests);
    assert forall|k: int| 0 <= k < t.len() implies #[trigger] t[k].len() == size by {
        assert(s[k].len() == size);
    }
}

/// Takes the pivot of column `col`, the lightest row of its buckets, out of them; the
/// ghost buckets follow.
fn pop_binary_pivot(
    rows: &PackedBinaryRows,
    row_weights: &Vec<u32>,
    use_weighted_buckets: bool,
    bucket_heads: &mut Vec<usize>,
    small_weight_buckets: &mut SmallWeightBinaryBuckets<u16>,
    next_in_bucket: &mut Vec<usize>,
    col: usize,
    Ghost(lists): Ghost<Map<(int, int), Seq<usize>>>,
    Ghost(home): Ghost<Seq<(int, int)>>,
) -> (r: (Option<usize>, Ghost<(Map<(int, int), Seq<usize>>, Seq<(int, int)>)>))
    requires
        rows.wf(),
        rows.spec_width() <= u16::MAX + 1,
        col < rows.spec_width(),
        home.len() == rows.spec_height(),
        lists_ok(lists, old(bucket_heads)@, *old(small_weight_buckets), old(next_in_bucket)@, home, rows.spec_width()),
        old(small_weight_buckets).wf(),
        old(small_weight_buckets).spec_small_weight_max() == DECODE_SMALL_WEIGHT_BINARY_BUCKET_MAX,
        old(small_weight_buckets).spec_width() == (if use_weighted_buckets {
            rows.spec_width()
        } else {
            0
        }),
        use_weighted_buckets ==> row_weights@.len() == rows.spec_height(),
        forall|r: int|
            0 <= r < rows.spec_height() && (#[trigger] home[r]).0 == col ==> first_one_is(*rows, r, col as int)
                && (use_weighted_buckets && home[r].1 < 0 ==> row_weights@[r] > DECODE_SMALL_WEIGHT_BINARY_BUCKET_MAX),
    ensures
        final(small_weight_buckets).wf(),
        final(small_weight_buckets).spec_small_weight_max() == DECODE_SMALL_WEIGHT_BINARY_BUCKET_MAX,
        final(small_weight_buckets).spec_width() == old(small_weight_buckets).spec_width(),
        lists_ok(r.1@.0, final(bucket_heads)@, *final(small_weight_buckets), final(next_in_bucket)@, r.1@.1, rows.spec_width()),
        r.1@.1.len() == home.len(),
        r.0 is None ==> r.1@.1 == home && forall|i: int| 0 <= i < home.len() ==> (#[trigger] home[i]).0 != col,
        r.0 matches Some(p) ==> p < home.len() && home[p as int].0 == col && r.1@.1 == home.update(p as int, (-1int, -1int)),
{
    let ghost heads0 = bucket_heads@;
    let ghost small0 = *small_weight_buckets;
    let ghost next0 = next_in_bucket@;
    let ghost w = rows.spec_width();
    let ghost lg = lst(lists, col as int, -1);
    proof {
        assert(key_ok(small0, w, col as int, -1));
        assert(is_bucket(next0, heads0[col as int], lg));
        lemma_bucket_rows(next0, heads0[col as int], lg);
        assert forall|i: int| 0 <= i < lg.len() implies home[#[trigger] lg[i] as int] == (col as int, -1int) by {}
    }
    let pivot = if use_weighted_buckets {
        proof {
            assert forall|b: int| 0 <= b < small0.spec_small_weight_max() implies #[trigger] small0.spec_head(
                b,
                col as int,
            ) == NO_BUCKET_ROW || small0.spec_head(b, col as int) < next0.len() by {
                assert(key_ok(small0, w, col as int, b));
                assert(is_bucket(next0, list_head(heads0, small0, col as int, b), lst(lists, col as int, b)));
                if lst(lists, col as int, b).len() > 0 {
                    assert(lst(lists, col as int, b)[0] < next0.len());
                }
            }
        }
        pop_lightest_weighted_binary_row_bucket(
            row_weights,
            bucket_heads,
            small_weight_buckets,
            next_in_bucket,
            col,
        )
    } else {
        proof {
            assert forall|i: int| 0 <= i < lg.len() implies #[trigger] lg[i] < rows.spec_height() && rows.ones(
                lg[i] as int,
                col as int,
                rows.spec_width() as int,
            ) >= 1 by {
                assert(home[lg[i] as int] == (col as int, -1int));
                lemma_ones_pos(*rows, lg[i] as int, col as int, col as int, rows.spec_width() as int);
            }
        }
        pop_lightest_binary_row_bucket(rows, bucket_heads, next_in_bucket, col)
    };
    let ghost mut lists2 = lists;
    let ghost mut home2 = home;
    proof {
        let any_small = exists|b: int|
            0 <= b < small0.spec_small_weight_max() && #[trigger] small0.spec_head(b, col as int)
                != NO_BUCKET_ROW;
        if use_weighted_buckets && any_small {
            let b = choose|b: int|
                0 <= b < small0.spec_small_weight_max() && small0.spec_head(b, col as int) != NO_BUCKET_ROW
                    && (forall|b2: int| 0 <= b2 < b ==> #[trigger] small0.spec_head(b2, col as int) == NO_BUCKET_ROW)
                    && #[trigger] popped(
                    small0,
                    next0,
                    col as int,
                    b,
                    pivot,
                    *small_weight_buckets,
                    next_in_bucket@,
                );
            let l = lst(lists, col as int, b);
            assert(key_ok(small0, w, col as int, b));
            assert(is_bucket(next0, small0.spec_head(b, col as int), l));
            assert(l.len() > 0);
            assert forall|c2: int, b2: int|
                key_ok(small0, w, c2, b2) && (c2 != col || b2 != b) implies #[trigger] list_head(
                bucket_heads@,
                *small_weight_buckets,
                c2,
                b2,
            ) == list_head(heads0, small0, c2, b2) by {}
            lemma_lists_unlink(
                lists,
                heads0,
                small0,
                next0,
                home,
                w,
                col as int,
                b,
                0,
                bucket_heads@,
                *small_weight_buckets,
                next_in_bucket@,
            );
            assert(home[l[0] as int] == (col as int, b));
            lists2 = lists.insert((col as int, b), l.remove(0));
            home2 = home.update(l[0] as int, (-1int, -1int));
        } else {
            if use_weighted_buckets {
                assert forall|b: int| 0 <= b < small0.spec_small_weight_max() implies #[trigger] small0.spec_head(
                    b,
                    col as int,
                ) == NO_BUCKET_ROW by {}
            }
            assert(*small_weight_buckets == small0);
            match pivot {
                None => {
                    assert(lg.len() == 0);
                    assert forall|i: int| 0 <= i < home.len() implies (#[trigger] home[i]).0 != col by {
                        if home[i].0 == col {
                            let b = home[i].1;
                            assert(key_ok(small0, w, col as int, b));
                            assert(lst(lists, col as int, b).contains(i as usize));
                            if b >= 0 {
                                assert(use_weighted_buckets);
                                assert(is_bucket(next0, small0.spec_head(b, col as int), lst(lists, col as int, b)));
                                assert(lst(lists, col as int, b)[0] != NO_BUCKET_ROW);
                            }
                        }
                    }
                },
                Some(p) => {
                    let k = choose|k: int|
                        #![trigger lg[k]]
                        0 <= k < lg.len() && lg[k] == p && crate::row_buckets::unlinked(
                            heads0,
                            next0,
                            col as int,
                            lg,
                            k,
                            bucket_heads@,
                            next_in_bucket@,
                        );
                    assert forall|c2: int, b2: int|
                        key_ok(small0, w, c2, b2) && (c2 != col || b2 != -1) implies #[trigger] list_head(
                        bucket_heads@,
                        *small_weight_buckets,
                        c2,
                        b2,
                    ) == list_head(heads0, small0, c2, b2) by {}
                    lemma_lists_unlink(
                        lists,
                        heads0,
                        small0,
                        next0,
                        home,
                        w,
                        col as int,
                        -1,
                        k,
                        bucket_heads@,
                        *small_weight_buckets,
                        next_in_bucket@,
                    );
                    lists2 = lists.insert((col as int, -1int), lg.remove(k));
                    home2 = home.update(lg[k] as int, (-1int, -1int));
                },
            }
        }
    }
    (pivot, Ghost((lists2, home2)))
}

} // verus!

verus! {

/// Takes some row out of the buckets of column `col`; the ghost buckets follow.
fn pop_binary_row(
    use_weighted_buckets: bool,
    bucket_heads: &mut Vec<usize>,
    small_weight_buckets: &mut SmallWeightBinaryBuckets<u16>,
    next_in_bucket: &mut Vec<usize>,
    col: usize,
    Ghost(width): Ghost<nat>,
    Ghost(lists): Ghost<Map<(int, int), Seq<usize>>>,
    Ghost(home): Ghost<Seq<(int, int)>>,
) -> (r: (Option<usize>, Ghost<(Map<(int, int), Seq<usize>>, Seq<(int, int)>)>))
    requires
        col < width,
        lists_ok(lists, old(bucket_heads)@, *old(small_weight_buckets), old(next_in_bucket)@, home, width),
        old(small_weight_buckets).wf(),
        old(small_weight_buckets).spec_small_weight_max() == DECODE_SMALL_WEIGHT_BINARY_BUCKET_MAX,
        old(small_weight_buckets).spec_width() == (if use_weighted_buckets {
            width
        } else {
            0
        }),
    ensures
        final(small_weight_buckets).wf(),
        final(small_weight_buckets).spec_small_weight_max() == DECODE_SMALL_WEIGHT_BINARY_BUCKET_MAX,
        final(small_weight_buckets).spec_width() == old(small_weight_buckets).spec_width(),
        lists_ok(r.1@.0, final(bucket_heads)@, *final(small_weight_buckets), final(next_in_bucket)@, r.1@.1, width),
        r.1@.1.len() == home.len(),
        r.0 is None ==> r.1@.1 == home && forall|i: int| 0 <= i < home.len() ==> (#[trigger] home[i]).0 != col,
        r.0 matches Some(p) ==> p < home.len() && home[p as int].0 == col && r.1@.1 == home.update(p as int, (-1int, -1int)),
{
    let ghost heads0 = bucket_heads@;
    let ghost small0 = *small_weight_buckets;
    let ghost next0 = next_in_bucket@;
    let ghost w = width;
    let ghost lg = lst(lists, col as int, -1);
    proof {
        assert(key_ok(small0, w, col as int, -1));
        assert(is_bucket(next0, heads0[col as int], lg));
        if lg.len() > 0 {
            assert(lg[0] < next0.len());
        }
    }
    let row = if use_weighted_buckets {
        proof {
            assert forall|b: int| 0 <= b < small0.spec_small_weight_max() implies #[trigger] small0.spec_head(
                b,
                col as int,
            ) == NO_BUCKET_ROW || small0.spec_head(b, col as int) < next0.len() by {
                assert(key_ok(small0, w, col as int, b));
                assert(is_bucket(next0, list_head(heads0, small0, col as int, b), lst(lists, col as int, b)));
                if lst(lists, col as int, b).len() > 0 {
                    assert(lst(lists, col as int, b)[0] < next0.len());
                }
            }
        }
        pop_weighted_binary_row_bucket(bucket_heads, small_weight_buckets, next_in_bucket, col)
    } else {
        pop_row_bucket(bucket_heads, next_in_bucket, col)
    };
    let ghost mut lists2 = lists;
    let ghost mut home2 = home;
    proof {
        let any_small = exists|b: int|
            0 <= b < small0.spec_small_weight_max() && #[trigger] small0.spec_head(b, col as int)
                != NO_BUCKET_ROW;
        if use_weighted_buckets && any_small {
            let b = choose|b: int|
                0 <= b < small0.spec_small_weight_max() && small0.spec_head(b, col as int) != NO_BUCKET_ROW
                    && (forall|b2: int| 0 <= b2 < b ==> #[trigger] small0.spec_head(b2, col as int) == NO_BUCKET_ROW)
                    && #[trigger] popped(
                    small0,
                    next0,
                    col as int,
                    b,
                    row,
                    *small_weight_buckets,
                    next_in_bucket@,
                );
            let l = lst(lists, col as int, b);
            assert(key_ok(small0, w, col as int, b));
            assert(is_bucket(next0, small0.spec_head(b, col as int), l));
            assert(l.len() > 0);
            assert forall|c2: int, b2: int|
                key_ok(small0, w, c2, b2) && (c2 != col || b2 != b) implies #[trigger] list_head(
                bucket_heads@,
                *small_weight_buckets,
                c2,
                b2,
            ) == list_head(heads0, small0, c2, b2) by {}
            lemma_lists_unlink(
                lists,
                heads0,
                small0,
                next0,
                home,
                w,
                col as int,
                b,
                0,
                bucket_heads@,
                *small_weight_buckets,
                next_in_bucket@,
            );
            assert(home[l[0] as int] == (col as int, b));
            lists2 = lists.insert((col as int, b), l.remove(0));
            home2 = home.update(l[0] as int, (-1int, -1int));
        } else {
            if use_weighted_buckets {
                assert forall|b: int| 0 <= b < small0.spec_small_weight_max() implies #[trigger] small0.spec_head(
                    b,
                    col as int,
                ) == NO_BUCKET_ROW by {}
            }
            assert(*small_weight_buckets == small0);
            match row {
                None => {
                    assert(lg.len() == 0) by {
                        if lg.len() > 0 {
                            assert(lg[0] != NO_BUCKET_ROW);
                        }
                    }
                    assert forall|i: int| 0 <= i < home.len() implies (#[trigger] home[i]).0 != col by {
                        if home[i].0 == col {
                            let b = home[i].1;
                            assert(key_ok(small0, w, col as int, b));
                            assert(lst(lists, col as int, b).contains(i as usize));
                            if b >= 0 {
                                assert(use_weighted_buckets);
                                assert(is_bucket(next0, small0.spec_head(b, col as int), lst(lists, col as int, b)));
                                assert(lst(lists, col as int, b)[0] != NO_BUCKET_ROW);
                            }
                        }
                    }
                },
                Some(p) => {
                    assert(lg.len() > 0 && lg[0] == p);
                    assert forall|c2: int, b2: int|
                        key_ok(small0, w, c2, b2) && (c2 != col || b2 != -1) implies #[trigger] list_head(
                        bucket_heads@,
                        *small_weight_buckets,
                        c2,
                        b2,
                    ) == list_head(heads0, small0, c2, b2) by {}
                    lemma_lists_unlink(
                        lists,
                        heads0,
                        small0,
                        next0,
                        home,
                        w,
                        col as int,
                        -1,
                        0,
                        bucket_heads@,
                        *small_weight_buckets,
                        next_in_bucket@,
                    );
                    assert(home[lg[0] as int] == (col as int, -1int));
                    lists2 = lists.insert((col as int, -1int), lg.remove(0));
                    home2 = home.update(lg[0] as int, (-1int, -1int));
                },
            }
        }
    }
    (row, Ghost((lists2, home2)))
}

} // verus!

verus! {

/// Adds the pivot row of column `col` into `row`, taken out of the buckets of `col`, and
/// puts `row` into the bucket of its new first one, if it has one.
fn eliminate_binary_row(
    rows: &mut PackedBinaryRows,
    row_weights: &mut Vec<u32>,
    small_row_cache: &mut SmallBinaryRowCache,
    use_weighted_buckets: bool,
    bucket_heads: &mut Vec<usize>,
    small_weight_buckets: &mut SmallWeightBinaryBuckets<u16>,
    next_in_bucket: &mut Vec<usize>,
    row: usize,
    pivot: usize,
    col: usize,
    pivot_weight: u32,
    Ghost(lists): Ghost<Map<(int, int), Seq<usize>>>,
    Ghost(home): Ghost<Seq<(int, int)>>,
) -> (r: Ghost<(Map<(int, int), Seq<usize>>, Seq<(int, int)>)>)
    requires
        old(rows).wf(),
        old(rows).spec_width() <= u16::MAX + 1,
        row < old(rows).spec_height(),
        pivot < old(rows).spec_height(),
        row != pivot,
        col < old(rows).spec_width(),
        first_one_is(*old(rows), pivot as int, col as int),
        first_one_is(*old(rows), row as int, col as int),
        home.len() == old(rows).spec_height(),
        home[row as int] == (-1int, -1int),
        lists_ok(lists, old(bucket_heads)@, *old(small_weight_buckets), old(next_in_bucket)@, home, old(rows).spec_width()),
        old(small_weight_buckets).wf(),
        old(small_weight_buckets).spec_small_weight_max() == DECODE_SMALL_WEIGHT_BINARY_BUCKET_MAX,
        old(small_weight_buckets).spec_width() == (if use_weighted_buckets {
            old(rows).spec_width()
        } else {
            0
        }),
        use_weighted_buckets ==> {
            &&& old(row_weights)@.len() == old(rows).spec_height()
            &&& old(row_weights)@[row as int] == old(rows).ones(row as int, 0, old(rows).spec_width() as int)
            &&& old(small_row_cache).wf()
            &&& old(small_row_cache).spec_len() == old(rows).spec_height()
            &&& old(small_row_cache).lists(*old(rows))
        },
    ensures
        row_added(*old(rows), *final(rows), row as int, pivot as int, col as int),
        final(small_weight_buckets).wf(),
        final(small_weight_buckets).spec_small_weight_max() == DECODE_SMALL_WEIGHT_BINARY_BUCKET_MAX,
        final(small_weight_buckets).spec_width() == old(small_weight_buckets).spec_width(),
        use_weighted_buckets ==> {
            &&& final(row_weights)@ == old(row_weights)@.update(
                row as int,
                final(rows).ones(row as int, 0, final(rows).spec_width() as int) as u32,
            )
            &&& final(rows).ones(row as int, 0, final(rows).spec_width() as int) <= u32::MAX
            &&& final(small_row_cache).wf()
            &&& final(small_row_cache).spec_len() == old(small_row_cache).spec_len()
            &&& final(small_row_cache).lists(*final(rows))
        },
        !use_weighted_buckets ==> final(row_weights)@ == old(row_weights)@,
        lists_ok(r@.0, final(bucket_heads)@, *final(small_weight_buckets), final(next_in_bucket)@, r@.1, old(rows).spec_width()),
        r@.1 == home.update(row as int, r@.1[row as int]),
        r@.1[row as int].0 < 0 ==> r@.1[row as int] == (-1int, -1int) && row_is_zero(*final(rows), row as int),
        r@.1[row as int].0 >= 0 ==> {
            let key = r@.1[row as int];
            &&& col < key.0
            &&& first_one_is(*final(rows), row as int, key.0)
            &&& use_weighted_buckets && key.1 >= 0 ==> final(row_weights)@[row as int] == key.1 + 1
            &&& use_weighted_buckets && key.1 < 0 ==> final(row_weights)@[row as int] > DECODE_SMALL_WEIGHT_BINARY_BUCKET_MAX
            &&& !use_weighted_buckets ==> key.1 == -1
        },
{
    let ghost r0 = *rows;
    let ghost w = r0.spec_width();
    let next_col = if use_weighted_buckets {
        proof {
            lemma_ones_from(r0, row as int, col as int, w as int);
        }
        let next_col = eliminate_weighted_binary_row::<DECODE_SMALL_WEIGHT_BINARY_BUCKET_MAX>(
            rows,
            row_weights,
            small_row_cache,
            row,
            pivot,
            col,
            pivot_weight,
        );
        next_col
    } else {
        rows.xor_suffix(row, pivot, col);
        proof {
            assert forall|r: int, c: int|
                0 <= r < r0.spec_height() && 0 <= c < r0.spec_width() implies #[trigger] rows.bit(r, c)
                    == r0.xor_suffix_bit(row as int, pivot as int, col as int, r, c) by {
                assert(c < r0.spec_words_per_row() * 64) by {
                    assert(r0.spec_words_per_row() == (r0.spec_width() + 63) / 64);
                }
            }
        }
        rows.first_one_at_or_after(row, col + 1)
    };
    proof {
        assert forall|c: int| 0 <= c <= col implies !#[trigger] rows.bit(row as int, c) by {
            assert(rows.bit(row as int, c) == r0.xor_suffix_bit(row as int, pivot as int, col as int, row as int, c));
        }
        if use_weighted_buckets {
            lemma_ones_from(*rows, row as int, col as int, w as int);
        }
    }
    let ghost mut lists2 = lists;
    let ghost mut home2 = home;
    match next_col {
        Some(nc) => {
            let ghost heads0 = bucket_heads@;
            let ghost small0 = *small_weight_buckets;
            let ghost next0 = next_in_bucket@;
            proof {
                assert(nc != col);
                assert(first_one_is(*rows, row as int, nc as int));
            }
            if use_weighted_buckets {
                push_weighted_binary_row_bucket(
                    row_weights,
                    bucket_heads,
                    small_weight_buckets,
                    next_in_bucket,
                    nc,
                    row,
                );
            } else {
                push_row_bucket(bucket_heads, next_in_bucket, nc, row);
            }
            proof {
                let key = if use_weighted_buckets {
                    bucket_key(true, nc as int, row_weights@[row as int])
                } else {
                    (nc as int, -1int)
                };
                if use_weighted_buckets {
                    lemma_ones_pos(*rows, row as int, nc as int, 0, w as int);
                }
                assert(key_ok(small0, w, key.0, key.1));
                assert forall|c2: int, b2: int|
                    key_ok(small0, w, c2, b2) && (c2 != key.0 || b2 != key.1) implies #[trigger] list_head(
                    bucket_heads@,
                    *small_weight_buckets,
                    c2,
                    b2,
                ) == list_head(heads0, small0, c2, b2) by {}
                lemma_lists_push(
                    lists,
                    heads0,
                    small0,
                    next0,
                    home,
                    w,
                    key.0,
                    key.1,
                    row,
                    bucket_heads@,
                    *small_weight_buckets,
                    next_in_bucket@,
                );
                lists2 = lists.insert(key, seq![row] + lst(lists, key.0, key.1));
                home2 = home.update(row as int, key);
            }
        },
        None => {
            proof {
                assert(home.update(row as int, home[row as int]) =~= home);
            }
        },
    }
    Ghost((lists2, home2))
}

} // verus!

verus! {

/// Eliminating a row of the buckets of column `col` with its pivot keeps `forward_inv`.
proof fn lemma_forward_after_row(
    rows0: PackedBinaryRows,
    rows1: PackedBinaryRows,
    weights0: Seq<u32>,
    weights1: Seq<u32>,
    weighted: bool,
    lists0: Map<(int, int), Seq<usize>>,
    heads0: Seq<usize>,
    small0: SmallWeightBinaryBuckets<u16>,
    next0: Seq<usize>,
    home0: Seq<(int, int)>,
    lists1: Map<(int, int), Seq<usize>>,
    heads1: Seq<usize>,
    small1: SmallWeightBinaryBuckets<u16>,
    next1: Seq<usize>,
    home1: Seq<(int, int)>,
    pivot_for_col: Seq<Option<usize>>,
    is_pivot: Seq<bool>,
    pcol: Seq<int>,
    col: int,
    row: int,
)
    requires
        forward_inv(rows0, weights0, weighted, lists0, heads0, small0, next0, home0, pivot_for_col, is_pivot, pcol, col, col + 1),
        0 <= row < rows0.spec_height(),
        home0[row].0 == col,
        row_added(rows0, rows1, row, pivot_for_col[col]->0 as int, col),
        small1.wf(),
        small1.spec_small_weight_max() == DECODE_SMALL_WEIGHT_BINARY_BUCKET_MAX,
        small1.spec_width() == small0.spec_width(),
        weighted ==> weights1 == weights0.update(row, rows1.ones(row, 0, rows1.spec_width() as int) as u32)
            && rows1.ones(row, 0, rows1.spec_width() as int) <= u32::MAX,
        !weighted ==> weights1 == weights0,
        lists_ok(lists1, heads1, small1, next1, home1, rows0.spec_width()),
        home1 == home0.update(row, home1[row]),
        home1[row].0 < 0 ==> home1[row] == (-1int, -1int) && row_is_zero(rows1, row),
        home1[row].0 >= 0 ==> {
            let key = home1[row];
            &&& col < key.0
            &&& first_one_is(rows1, row, key.0)
            &&& weighted && key.1 >= 0 ==> weights1[row] == key.1 + 1
            &&& weighted && key.1 < 0 ==> weights1[row] > DECODE_SMALL_WEIGHT_BINARY_BUCKET_MAX
            &&& !weighted ==> key.1 == -1
        },
    ensures
        forward_inv(rows1, weights1, weighted, lists1, heads1, small1, next1, home1, pivot_for_col, is_pivot, pcol, col, col + 1),
{
    let h = rows0.spec_height();
    let w = rows0.spec_width();
    let p = pivot_for_col[col]->0 as int;
    assert(!is_pivot[row]);
    assert forall|r: int, c: int| 0 <= r < h && r != row && 0 <= c < w implies #[trigger] rows1.bit(r, c) == rows0.bit(r, c) by {
        assert(rows1.bit(r, c) == rows0.xor_suffix_bit(row, p, col, r, c));
    }
    assert forall|r: int| 0 <= r < h && (#[trigger] home1[r]).0 >= 0 implies {
        &&& col <= home1[r].0
        &&& first_one_is(rows1, r, home1[r].0)
        &&& !is_pivot[r]
        &&& weighted && home1[r].1 >= 0 ==> weights1[r] == home1[r].1 + 1
        &&& weighted && home1[r].1 < 0 ==> weights1[r] > DECODE_SMALL_WEIGHT_BINARY_BUCKET_MAX
    } by {
        if r != row {
            assert(home1[r] == home0[r]);
            assert(first_one_is(rows0, r, home0[r].0));
            assert(rows1.bit(r, home0[r].0) == rows0.bit(r, home0[r].0));
            assert forall|c2: int| 0 <= c2 < home0[r].0 implies !#[trigger] rows1.bit(r, c2) by {
                assert(rows1.bit(r, c2) == rows0.bit(r, c2));
            }
        }
    }
    assert forall|r: int| 0 <= r < h && (#[trigger] home1[r]).0 < 0 && !is_pivot[r] implies row_is_zero(rows1, r) by {
        if r != row {
            assert(home1[r] == home0[r]);
            assert(row_is_zero(rows0, r));
            assert forall|c: int| 0 <= c < w implies !#[trigger] rows1.bit(r, c) by {
                assert(rows1.bit(r, c) == rows0.bit(r, c));
            }
        }
    }
    assert forall|r: int, c: int| 0 <= r < h && !is_pivot[r] && 0 <= c < col implies !#[trigger] rows1.bit(r, c) by {
        if r != row {
            assert(rows1.bit(r, c) == rows0.bit(r, c));
            assert(!rows0.bit(r, c));
        } else {
            assert(rows1.bit(r, c) == rows0.xor_suffix_bit(row, p, col, r, c));
            assert(!rows0.bit(row, c));
        }
    }
    if weighted {
        assert forall|r: int| 0 <= r < h && !is_pivot[r] implies #[trigger] weights1[r] == rows1.ones(r, 0, w as int) by {
            if r != row {
                assert(weights0[r] == rows0.ones(r, 0, w as int));
                assert forall|c: int| 0 <= c < w implies #[trigger] rows1.bit(r, c) == rows0.bit(r, c) by {}
                rows1.lemma_ones_frame(&rows0, r, 0, w as int);
            }
        }
    }
    assert forall|c: int| 0 <= c < col + 1 implies (#[trigger] pivot_for_col[c]) is Some && {
        let q = pivot_for_col[c]->0 as int;
        &&& q < h
        &&& is_pivot[q]
        &&& home1[q] == (-1int, -1int)
        &&& pcol[q] == c
        &&& first_one_is(rows1, q, c)
    } by {
        let q = pivot_for_col[c]->0 as int;
        assert(is_pivot[q]);
        assert(q != row);
        assert(home1[q] == home0[q]);
        assert(rows1.bit(q, c) == rows0.bit(q, c));
        assert forall|c2: int| 0 <= c2 < c implies !#[trigger] rows1.bit(q, c2) by {
            assert(rows1.bit(q, c2) == rows0.bit(q, c2));
        }
    }
}

} // verus!

verus! {

/// Forward elimination over bit rows: for every column the lightest row of its buckets
/// becomes the pivot and is added into every other row of those buckets, which move on to
/// the buckets of their new first ones; symbols follow the rows. Without a pivot for some
/// column it stops and returns false.
pub(crate) fn binary_forward_eliminate(
    rows: &mut PackedBinaryRows,
    symbols: &mut SymbolSlab,
    row_weights: &mut Vec<u32>,
    first_ones: &Vec<Option<usize>>,
    use_weighted_buckets: bool,
    pivot_for_col: &mut Vec<Option<usize>>,
    is_pivot_row: &mut Vec<bool>,
    record: bool,
    forward_ranges: &mut Vec<(usize, usize)>,
    forward_entries: &mut Vec<CoefficientColumn>,
) -> (found: bool)
    requires
        old(forward_ranges)@.len() == 0,
        old(forward_entries)@.len() == 0,
        record ==> old(rows).spec_height() <= u16::MAX + 1,
        old(rows).wf(),
        old(rows).spec_width() <= u16::MAX + 1,
        old(symbols).wf(),
        old(symbols).spec_len() == old(rows).spec_height(),
        first_ones@.len() == old(rows).spec_height(),
        forall|r: int| 0 <= r < old(rows).spec_height() ==> match #[trigger] first_ones@[r] {
            Some(c) => first_one_is(*old(rows), r, c as int),
            None => row_is_zero(*old(rows), r),
        },
        use_weighted_buckets ==> old(row_weights)@.len() == old(rows).spec_height() && forall|r: int|
            0 <= r < old(rows).spec_height() ==> #[trigger] old(row_weights)@[r] == old(rows).ones(
                r,
                0,
                old(rows).spec_width() as int,
            ),
        old(pivot_for_col)@.len() == old(rows).spec_width(),
        forall|c: int| 0 <= c < old(rows).spec_width() ==> (#[trigger] old(pivot_for_col)@[c]) is None,
        old(is_pivot_row)@.len() == old(rows).spec_height(),
        forall|r: int| 0 <= r < old(rows).spec_height() ==> !#[trigger] old(is_pivot_row)@[r],
    ensures
        record ==> recorded_ok(
            final(pivot_for_col)@,
            final(forward_ranges)@,
            final(forward_entries)@,
            final(forward_ranges)@.len(),
            old(symbols).spec_len(),
        ) && final(symbols)@ == replay_forward(
            old(symbols)@,
            final(pivot_for_col)@,
            final(forward_ranges)@,
            final(forward_entries)@,
            final(forward_ranges)@.len(),
        ),
        final(rows).wf(),
        final(rows).spec_height() == old(rows).spec_height(),
        final(rows).spec_width() == old(rows).spec_width(),
        final(symbols).wf(),
        final(symbols).spec_symbol_size() == old(symbols).spec_symbol_size(),
        final(symbols).spec_len() == old(symbols).spec_len(),
        final(pivot_for_col)@.len() == old(rows).spec_width(),
        final(is_pivot_row)@.len() == old(rows).spec_height(),
        forall|x: Seq<Seq<u8>>| #[trigger] bit_solves(final(rows)@, final(symbols)@, x, old(rows).spec_width(), old(symbols).spec_symbol_size())
            == bit_solves(old(rows)@, old(symbols)@, x, old(rows).spec_width(), old(symbols).spec_symbol_size()),
        found ==> forall|c: int| 0 <= c < old(rows).spec_width() ==> (#[trigger] final(pivot_for_col)@[c]) is Some && {
            let p = final(pivot_for_col)@[c]->0 as int;
            &&& p < old(rows).spec_height()
            &&& final(is_pivot_row)@[p]
            &&& first_one_is(*final(rows), p, c)
        },
        found ==> forall|r: int| 0 <= r < old(rows).spec_height() && #[trigger] final(is_pivot_row)@[r] ==> exists|c: int|
            0 <= c < old(rows).spec_width() && final(pivot_for_col)@[c] == Some(r as usize),
        found ==> forall|r: int| 0 <= r < old(rows).spec_height() && !#[trigger] final(is_pivot_row)@[r] ==> row_is_zero(*final(rows), r),
        !found ==> !bit_unique_solution(old(rows)@, old(symbols)@, old(rows).spec_width(), old(symbols).spec_symbol_size()),
        !found ==> !bit_full_rank(old(rows)@, old(rows).spec_width(), old(symbols).spec_symbol_size()),
        forall|x: Seq<Seq<u8>>| #[trigger] bit_solves(
            final(rows)@,
            zero_symbols(old(rows).spec_height(), old(symbols).spec_symbol_size()),
            x,
            old(rows).spec_width(),
            old(symbols).spec_symbol_size(),
        ) == bit_solves(
            old(rows)@,
            zero_symbols(old(rows).spec_height(), old(symbols).spec_symbol_size()),
            x,
            old(rows).spec_width(),
            old(symbols).spec_symbol_size(),
        ),
{
    let width = rows.width();
    let height = rows.height();
    let ghost size = symbols.spec_symbol_size();
    let ghost zs = zero_symbols(height as nat, size);
    let ghost m0 = rows@;
    let ghost s0 = symbols@;
    let batch_forward_symbols = width >= BINARY_FORWARD_SYMBOL_BATCH_MIN_WIDTH;
    let mut bucket_heads: Vec<usize> = vec![NO_BUCKET_ROW; width];
    let mut small_weight_buckets = SmallWeightBinaryBuckets::<u16>::new(
        if use_weighted_buckets {
            width
        } else {
            0
        },
        DECODE_SMALL_WEIGHT_BINARY_BUCKET_MAX,
    );
    let mut small_row_cache = SmallBinaryRowCache::new(
        if use_weighted_buckets {
            height
        } else {
            0
        },
    );
    let mut next_in_bucket: Vec<usize> = vec![NO_BUCKET_ROW; height];
    proof {
        assert forall|r: int| 0 <= r < first_ones@.len() implies match #[trigger] first_ones@[r] {
            Some(c) => c < width && (use_weighted_buckets ==> row_weights@[r] >= 1),
            None => true,
        } by {
            if let Some(c) = first_ones@[r] {
                if use_weighted_buckets {
                    lemma_ones_pos(*rows, r, c as int, 0, width as int);
                }
            }
        }
    }
    let ghost_state = push_initial_binary_buckets(
        first_ones,
        row_weights,
        use_weighted_buckets,
        &mut bucket_heads,
        &mut small_weight_buckets,
        &mut next_in_bucket,
        Ghost(width as nat),
    );
    let ghost mut lists = ghost_state@.0;
    let ghost mut home = ghost_state@.1;
    let ghost mut pcol = Seq::new(height as nat, |r: int| 0int);
    proof {
        lemma_uniform_slab(*symbols);
        assert forall|r: int| 0 <= r < height && (#[trigger] home[r]).0 >= 0 implies {
            &&& 0 <= home[r].0
            &&& first_one_is(*rows, r, home[r].0)
            &&& !is_pivot_row@[r]
            &&& use_weighted_buckets && home[r].1 >= 0 ==> row_weights@[r] == home[r].1 + 1
            &&& use_weighted_buckets && home[r].1 < 0 ==> row_weights@[r] > DECODE_SMALL_WEIGHT_BINARY_BUCKET_MAX
        } by {
            assert(first_ones@[r] is Some);
        }
        assert forall|r: int| 0 <= r < height && (#[trigger] home[r]).0 < 0 && !is_pivot_row@[r] implies row_is_zero(*rows, r) by {
            if first_ones@[r] is Some {
                assert(home[r].0 >= 0);
            }
        }
    }
    let mut forward_symbol_dests: Vec<usize> = Vec::new();
    let mut col: usize = 0;
    while col < width
        invariant
            width == rows.spec_width(),
            height == rows.spec_height(),
            rows.spec_width() == old(rows).spec_width(),
            rows.spec_height() == old(rows).spec_height(),
            m0 == old(rows)@,
            s0 == old(symbols)@,
            size == old(symbols).spec_symbol_size(),
            old(symbols).spec_len() == height,
            forward_inv(
                *rows,
                row_weights@,
                use_weighted_buckets,
                lists,
                bucket_heads@,
                small_weight_buckets,
                next_in_bucket@,
                home,
                pivot_for_col@,
                is_pivot_row@,
                pcol,
                col as int,
                col as int,
            ),
            use_weighted_buckets ==> small_row_cache.wf() && small_row_cache.spec_len() == height
                && small_row_cache.lists(*rows),
            symbols.wf(),
            symbols.spec_symbol_size() == size,
            symbols.spec_len() == height,
            uniform(symbols@, size),
            !batch_forward_symbols ==> forward_symbol_dests@.len() == 0,
            forall|x: Seq<Seq<u8>>| #[trigger] bit_solves(rows@, zs, x, width as nat, size) == bit_solves(m0, zs, x, width as nat, size),
            zs == zero_symbols(height as nat, size),
            forall|x: Seq<Seq<u8>>| #[trigger] bit_solves(rows@, symbols@, x, width as nat, size) == bit_solves(
                m0,
                s0,
                x,
                width as nat,
                size,
            ),
            record ==> height <= u16::MAX + 1,
            record ==> forward_ranges@.len() == col,
            record ==> forall|c: int| 0 <= c < col ==> (#[trigger] forward_ranges@[c]).1 <= forward_entries@.len(),
            record ==> recorded_ok(pivot_for_col@, forward_ranges@, forward_entries@, col as nat, height as nat),
            record ==> symbols@ == replay_forward(s0, pivot_for_col@, forward_ranges@, forward_entries@, col as nat),
            !record ==> forward_ranges@.len() == 0,
        decreases width - col,
    {
        let popped_pivot = pop_binary_pivot(
            rows,
            row_weights,
            use_weighted_buckets,
            &mut bucket_heads,
            &mut small_weight_buckets,
            &mut next_in_bucket,
            col,
            Ghost(lists),
            Ghost(home),
        );
        let ghost home_before = home;
        proof {
            lists = popped_pivot.1@.0;
            home = popped_pivot.1@.1;
        }
        let pivot = match popped_pivot.0 {
            None => {
                proof {
                    assert forall|r: int, c: int| 0 <= r < height && !is_pivot_row@[r] && 0 <= c <= col implies !#[trigger] rows.bit(r, c) by {
                        if c == col {
                            if home[r].0 >= 0 {
                                assert(first_one_is(*rows, r, home[r].0));
                            } else {
                                assert(row_is_zero(*rows, r));
                            }
                        }
                    }
                    lemma_bit_null(*rows, symbols@, pivot_for_col@, is_pivot_row@, pcol, col as int, size);
                    lemma_bit_unique_transfer(rows@, symbols@, m0, s0, width as nat, size);
                    lemma_bit_null(*rows, zs, pivot_for_col@, is_pivot_row@, pcol, col as int, size);
                    lemma_bit_unique_transfer(rows@, zs, m0, zs, width as nat, size);
                }
                return false;
            },
            Some(pivot) => pivot,
        };
        let ghost pivots_before = pivot_for_col@;
        pivot_for_col.set(col, Some(pivot));
        is_pivot_row.set(pivot, true);
        proof {
            pcol = pcol.update(pivot as int, col as int);
            assert(first_one_is(*rows, pivot as int, col as int));
            assert forall|r: int| 0 <= r < height && (#[trigger] home[r]).0 < 0 && !is_pivot_row@[r] implies row_is_zero(*rows, r) by {
                assert(r != pivot);
                assert(home[r] == home_before[r]);
            }
        }
        let pivot_weight = if use_weighted_buckets {
            row_weights[pivot]
        } else {
            0
        };
        if batch_forward_symbols {
            forward_symbol_dests.clear();
        }
        let dest_start = forward_entries.len();
        let ghost sym_start = symbols@;
        let ghost entries_start = forward_entries@;
        let ghost mut cur: Seq<usize> = Seq::empty();
        proof {
            assert(forward_symbol_dests@ =~= Seq::<usize>::empty());
            lemma_add_to_dests_empty(symbols@, pivot as int);
            if record {
                assert forall|c: int| 0 <= c < col implies (#[trigger] forward_ranges@[c]).0 <= forward_ranges@[c].1 <= forward_entries@.len() by {
                    assert(pivots_before[c] is Some);
                }
                lemma_replay_frame(s0, pivots_before, forward_ranges@, forward_entries@, pivot_for_col@, forward_ranges@, forward_entries@, col as nat);
                assert(listed_rows(forward_entries@, dest_start as int, forward_entries@.len() as int) =~= cur);
                assert(forward_entries@.subrange(0, dest_start as int) =~= entries_start);
                assert forall|c: int| 0 <= c < col implies {
                    let d = listed_rows(entries_start, forward_ranges@[c].0 as int, forward_ranges@[c].1 as int);
                    &&& (#[trigger] pivot_for_col@[c]) is Some
                    &&& pivot_for_col@[c]->0 < height
                    &&& forward_ranges@[c].0 <= forward_ranges@[c].1 <= entries_start.len()
                    &&& forall|i: int| 0 <= i < d.len() ==> #[trigger] d[i] < height && d[i] != pivot_for_col@[c]->0
                    &&& forall|i: int, j: int| 0 <= i < j < d.len() ==> d[i] != d[j]
                } by {
                    assert(pivot_for_col@[c] == pivots_before[c]);
                }
            }
        }
        loop
            invariant
                width == rows.spec_width(),
                height == rows.spec_height(),
                rows.spec_width() == old(rows).spec_width(),
                rows.spec_height() == old(rows).spec_height(),
                m0 == old(rows)@,
                s0 == old(symbols)@,
                size == old(symbols).spec_symbol_size(),
                col < width,
                pivot < height,
                pivot_for_col@[col as int] == Some(pivot),
                forward_inv(
                    *rows,
                    row_weights@,
                    use_weighted_buckets,
                    lists,
                    bucket_heads@,
                    small_weight_buckets,
                    next_in_bucket@,
                    home,
                    pivot_for_col@,
                    is_pivot_row@,
                    pcol,
                    col as int,
                    col + 1,
                ),
                use_weighted_buckets ==> small_row_cache.wf() && small_row_cache.spec_len() == height
                    && small_row_cache.lists(*rows),
                symbols.wf(),
                symbols.spec_symbol_size() == size,
                symbols.spec_len() == height,
                uniform(symbols@, size),
                !batch_forward_symbols ==> forward_symbol_dests@.len() == 0,
                forall|i: int| 0 <= i < forward_symbol_dests@.len() ==> {
                    let d = #[trigger] forward_symbol_dests@[i] as int;
                    &&& d < height
                    &&& !is_pivot_row@[d]
                    &&& home[d].0 != col
                },
                forall|i: int, j: int| 0 <= i < j < forward_symbol_dests@.len() ==> forward_symbol_dests@[i]
                    != forward_symbol_dests@[j],
                forall|x: Seq<Seq<u8>>| #[trigger] bit_solves(rows@, zs, x, width as nat, size) == bit_solves(m0, zs, x, width as nat, size),
                zs == zero_symbols(height as nat, size),
                forall|x: Seq<Seq<u8>>| #[trigger] bit_solves(
                    rows@,
                    add_to_dests(symbols@, pivot as int, forward_symbol_dests@),
                    x,
                    width as nat,
                    size,
                ) == bit_solves(m0, s0, x, width as nat, size),
                record ==> height <= u16::MAX + 1,
                record ==> forward_ranges@.len() == col,
                record ==> dest_start <= forward_entries@.len(),
                record ==> forward_entries@.subrange(0, dest_start as int) == entries_start,
                record ==> dest_start == entries_start.len(),
                record ==> listed_rows(forward_entries@, dest_start as int, forward_entries@.len() as int) == cur,
                record && batch_forward_symbols ==> symbols@ == sym_start && forward_symbol_dests@ == cur,
                record && !batch_forward_symbols ==> symbols@ == add_to_dests(sym_start, pivot as int, cur),
                record ==> recorded_ok(pivot_for_col@, forward_ranges@, entries_start, col as nat, height as nat),
                record ==> forall|c: int| 0 <= c < col ==> (#[trigger] forward_ranges@[c]).1 <= entries_start.len(),
                record ==> sym_start == replay_forward(s0, pivot_for_col@, forward_ranges@, entries_start, col as nat),
                forall|i: int| 0 <= i < cur.len() ==> {
                    let d = #[trigger] cur[i] as int;
                    &&& d < height
                    &&& !is_pivot_row@[d]
                    &&& home[d].0 != col
                },
                forall|i: int, j: int| 0 <= i < j < cur.len() ==> cur[i] != cur[j],
                !record ==> forward_ranges@.len() == 0,
            ensures
                width == rows.spec_width(),
                height == rows.spec_height(),
                forward_inv(
                    *rows,
                    row_weights@,
                    use_weighted_buckets,
                    lists,
                    bucket_heads@,
                    small_weight_buckets,
                    next_in_bucket@,
                    home,
                    pivot_for_col@,
                    is_pivot_row@,
                    pcol,
                    col as int,
                    col + 1,
                ),
                forall|i: int| 0 <= i < height ==> (#[trigger] home[i]).0 != col,
                use_weighted_buckets ==> small_row_cache.wf() && small_row_cache.spec_len() == height
                    && small_row_cache.lists(*rows),
                symbols.wf(),
                symbols.spec_symbol_size() == size,
                symbols.spec_len() == height,
                uniform(symbols@, size),
                !batch_forward_symbols ==> forward_symbol_dests@.len() == 0,
                forall|i: int| 0 <= i < forward_symbol_dests@.len() ==> {
                    let d = #[trigger] forward_symbol_dests@[i] as int;
                    &&& d < height
                    &&& !is_pivot_row@[d]
                },
                forall|i: int, j: int| 0 <= i < j < forward_symbol_dests@.len() ==> forward_symbol_dests@[i]
                    != forward_symbol_dests@[j],
                forall|x: Seq<Seq<u8>>| #[trigger] bit_solves(rows@, zs, x, width as nat, size) == bit_solves(m0, zs, x, width as nat, size),
                zs == zero_symbols(height as nat, size),
                forall|x: Seq<Seq<u8>>| #[trigger] bit_solves(
                    rows@,
                    add_to_dests(symbols@, pivot as int, forward_symbol_dests@),
                    x,
                    width as nat,
                    size,
                ) == bit_solves(m0, s0, x, width as nat, size),
                record ==> forward_ranges@.len() == col,
                record ==> dest_start <= forward_entries@.len(),
                record ==> forward_entries@.subrange(0, dest_start as int) == entries_start,
                record ==> dest_start == entries_start.len(),
                record ==> listed_rows(forward_entries@, dest_start as int, forward_entries@.len() as int) == cur,
                record && batch_forward_symbols ==> symbols@ == sym_start && forward_symbol_dests@ == cur,
                record && !batch_forward_symbols ==> symbols@ == add_to_dests(sym_start, pivot as int, cur),
                record ==> recorded_ok(pivot_for_col@, forward_ranges@, entries_start, col as nat, height as nat),
                record ==> forall|c: int| 0 <= c < col ==> (#[trigger] forward_ranges@[c]).1 <= entries_start.len(),
                record ==> sym_start == replay_forward(s0, pivot_for_col@, forward_ranges@, entries_start, col as nat),
                forall|i: int| 0 <= i < cur.len() ==> {
                    let d = #[trigger] cur[i] as int;
                    &&& d < height
                    &&& !is_pivot_row@[d]
                },
                forall|i: int, j: int| 0 <= i < j < cur.len() ==> cur[i] != cur[j],
                !record ==> forward_ranges@.len() == 0,
            decreases count_at(home, col as int, height as int),
        {
            let ghost home_a = home;
            let ghost lists_a = lists;
            let ghost heads_a = bucket_heads@;
            let ghost small_a = small_weight_buckets;
            let ghost next_a = next_in_bucket@;
            let ghost rows_a = *rows;
            let ghost weights_a = row_weights@;
            let popped_row = pop_binary_row(
                use_weighted_buckets,
                &mut bucket_heads,
                &mut small_weight_buckets,
                &mut next_in_bucket,
                col,
                Ghost(width as nat),
                Ghost(lists),
                Ghost(home),
            );
            proof {
                lists = popped_row.1@.0;
                home = popped_row.1@.1;
            }
            let row = match popped_row.0 {
                None => {
                    break;
                },
                Some(row) => row,
            };
            proof {
                assert(home_a[row as int].0 == col);
                assert(first_one_is(*rows, row as int, col as int));
                assert(!is_pivot_row@[row as int]);
                assert(row != pivot);
                if use_weighted_buckets {
                    assert(row_weights@[row as int] == rows.ones(row as int, 0, width as int));
                }
            }
            let ghost_after = eliminate_binary_row(
                rows,
                row_weights,
                &mut small_row_cache,
                use_weighted_buckets,
                &mut bucket_heads,
                &mut small_weight_buckets,
                &mut next_in_bucket,
                row,
                pivot,
                col,
                pivot_weight,
                Ghost(lists),
                Ghost(home),
            );
            proof {
                assert(ghost_after@.1 =~= home_a.update(row as int, ghost_after@.1[row as int]));
                lemma_forward_after_row(
                    rows_a,
                    *rows,
                    weights_a,
                    row_weights@,
                    use_weighted_buckets,
                    lists_a,
                    heads_a,
                    small_a,
                    next_a,
                    home_a,
                    ghost_after@.0,
                    bucket_heads@,
                    small_weight_buckets,
                    next_in_bucket@,
                    ghost_after@.1,
                    pivot_for_col@,
                    is_pivot_row@,
                    pcol,
                    col as int,
                    row as int,
                );
                lists = ghost_after@.0;
                home = ghost_after@.1;
                lemma_row_added_view(rows_a, *rows, row as int, pivot as int, col as int);
                assert(add_symbol(zs, row as int, pivot as int) =~= zs) by {
                    assert(xor_seq(zs[row as int], zs[pivot as int]) =~= zs[row as int]) by {
                        lemma_xor_basics(0u8, 0u8, 0u8);
                    }
                }
                assert forall|x: Seq<Seq<u8>>| #[trigger] bit_solves(rows@, zs, x, width as nat, size) == bit_solves(
                    m0,
                    zs,
                    x,
                    width as nat,
                    size,
                ) by {
                    assert(bit_solves(rows_a@, zs, x, width as nat, size) == bit_solves(m0, zs, x, width as nat, size));
                    lemma_bit_solves_add(rows_a@, zs, row as int, pivot as int, x, width as nat, size);
                }
                lemma_count_at_move(home_a, col as int, height as int, row as int, home[row as int]);
                assert(home == home_a.update(row as int, home[row as int]));
            }
            let ghost pend_a = add_to_dests(symbols@, pivot as int, forward_symbol_dests@);
            let ghost dests_a = forward_symbol_dests@;
            let ghost cur_a = cur;
            let ghost sym_a = symbols@;
            let ghost entries_a = forward_entries@;
            if record {
                forward_entries.push(coefficient_col(row));
            }
            proof {
                cur = cur.push(row);
                if record {
                    assert(listed_rows(forward_entries@, dest_start as int, forward_entries@.len() as int) =~= cur);
                    assert(forward_entries@.subrange(0, dest_start as int) =~= entries_a.subrange(0, dest_start as int));
                }
                assert(!listed(cur_a, row as int)) by {
                    if listed(cur_a, row as int) {
                        let t = choose|t: int| 0 <= t < cur_a.len() && cur_a[t] as int == row as int;
                        assert(home_a[cur_a[t] as int].0 != col);
                    }
                }
                assert(!listed(cur_a, pivot as int)) by {
                    if listed(cur_a, pivot as int) {
                        let t = choose|t: int| 0 <= t < cur_a.len() && cur_a[t] as int == pivot as int;
                        assert(!is_pivot_row@[cur_a[t] as int]);
                    }
                }
            }
            if batch_forward_symbols {
                forward_symbol_dests.push(row);
                proof {
                    assert(!listed(dests_a, row as int)) by {
                        if listed(dests_a, row as int) {
                            let t = choose|t: int| 0 <= t < dests_a.len() && dests_a[t] as int == row as int;
                            assert(home_a[dests_a[t] as int].0 != col);
                        }
                    }
                    assert(!listed(dests_a, pivot as int)) by {
                        if listed(dests_a, pivot as int) {
                            let t = choose|t: int| 0 <= t < dests_a.len() && dests_a[t] as int == pivot as int;
                            assert(!is_pivot_row@[dests_a[t] as int]);
                        }
                    }
                    lemma_add_to_dests_push(symbols@, pivot as int, dests_a, row);
                }
            } else {
                add_symbol_into(symbols, row, pivot);
                proof {
                    lemma_add_to_dests_empty(symbols@, pivot as int);
                    lemma_add_to_dests_empty(add_symbol(pend_a, row as int, pivot as int), pivot as int);
                    if record {
                        lemma_add_to_dests_push(sym_start, pivot as int, cur_a, row);
                    }
                }
            }
            proof {
                assert(symbols@.len() == symbols.spec_len());
                lemma_uniform_slab(*symbols);
                lemma_uniform_dests(symbols@, pivot as int, forward_symbol_dests@, size);
                lemma_uniform_dests(pend_a, pivot as int, Seq::<usize>::empty(), size);
                assert(uniform(pend_a, size)) by {
                    lemma_uniform_dests(symbols@, pivot as int, dests_a, size);
                }
                assert forall|x: Seq<Seq<u8>>| #[trigger] bit_solves(
                    rows@,
                    add_to_dests(symbols@, pivot as int, forward_symbol_dests@),
                    x,
                    width as nat,
                    size,
                ) == bit_solves(m0, s0, x, width as nat, size) by {
                    assert(bit_solves(rows_a@, pend_a, x, width as nat, size) == bit_solves(m0, s0, x, width as nat, size));
                    lemma_bit_solves_add(rows_a@, pend_a, row as int, pivot as int, x, width as nat, size);
                }
                assert forall|i: int| 0 <= i < forward_symbol_dests@.len() implies {
                    let d = #[trigger] forward_symbol_dests@[i] as int;
                    &&& d < height
                    &&& !is_pivot_row@[d]
                    &&& home[d].0 != col
                } by {
                    if i < dests_a.len() {
                        assert(forward_symbol_dests@[i] == dests_a[i]);
                    }
                }
                assert forall|i: int, j: int| 0 <= i < j < forward_symbol_dests@.len() implies forward_symbol_dests@[i]
                    != forward_symbol_dests@[j] by {
                    if j == dests_a.len() {
                        assert(home_a[dests_a[i] as int].0 != col);
                    }
                }
                assert forall|i: int| 0 <= i < cur.len() implies {
                    let d = #[trigger] cur[i] as int;
                    &&& d < height
                    &&& !is_pivot_row@[d]
                    &&& home[d].0 != col
                } by {
                    if i < cur_a.len() {
                        assert(cur[i] == cur_a[i]);
                    }
                }
                assert forall|i: int, j: int| 0 <= i < j < cur.len() implies cur[i] != cur[j] by {
                    if j == cur_a.len() {
                        assert(home_a[cur_a[i] as int].0 != col);
                    }
                }
            }
        }
        let ghost pend = add_to_dests(symbols@, pivot as int, forward_symbol_dests@);
        if batch_forward_symbols {
            addassign_symbol_row_batch::<true>(symbols, pivot, &forward_symbol_dests);
        }
        let ghost ranges_before = forward_ranges@;
        if record {
            let dest_end = forward_entries.len();
            forward_ranges.push((dest_start, dest_end));
        }
        proof {
            if record {
                lemma_record_column(
                    s0,
                    pivot_for_col@,
                    ranges_before,
                    entries_start,
                    forward_ranges@,
                    forward_entries@,
                    col as nat,
                    sym_start,
                    pivot,
                    cur,
                    height as nat,
                );
            }
        }
        proof {
            assert(symbols@.len() == symbols.spec_len());
            if !batch_forward_symbols {
                assert(forward_symbol_dests@ =~= Seq::<usize>::empty());
                lemma_add_to_dests_empty(symbols@, pivot as int);
            }
            assert(symbols@ == pend);
            assert forall|x: Seq<Seq<u8>>| #[trigger] bit_solves(rows@, symbols@, x, width as nat, size) == bit_solves(
                m0,
                s0,
                x,
                width as nat,
                size,
            ) by {
                assert(bit_solves(rows@, pend, x, width as nat, size) == bit_solves(m0, s0, x, width as nat, size));
            }
            lemma_uniform_slab(*symbols);
            assert forall|r: int, c: int| 0 <= r < height && !is_pivot_row@[r] && 0 <= c < col + 1 implies !#[trigger] rows.bit(r, c) by {
                if c == col {
                    if home[r].0 >= 0 {
                        assert(first_one_is(*rows, r, home[r].0));
                    } else {
                        assert(row_is_zero(*rows, r));
                    }
                }
            }
        }
        col += 1;
    }
    proof {
        assert forall|r: int| 0 <= r < height && #[trigger] is_pivot_row@[r] implies exists|c: int|
            0 <= c < width && pivot_for_col@[c] == Some(r as usize) by {
            assert(pivot_for_col@[pcol[r]] == Some(r as usize));
        }
        assert forall|r: int| 0 <= r < height && !#[trigger] is_pivot_row@[r] implies row_is_zero(*rows, r) by {
            assert forall|c: int| 0 <= c < width implies !#[trigger] rows.bit(r, c) by {}
        }
    }
    true
}

} // verus!

verus! {

/// A pivot row with first one at `c` applied to the symbols: symbol `c` plus the symbols of
/// its later set columns.
pub(crate) proof fn lemma_pivot_row_value(rows: PackedBinaryRows, p: int, c: int, x: Seq<Seq<u8>>, k: int)
    requires
        0 <= p < rows.spec_height(),
        first_one_is(rows, p, c),
        x.len() == rows.spec_width(),
    ensures
        bit_row_value(rows@, p, x, k, rows.spec_width()) == x[c][k] ^ suffix_value(rows, p, c + 1, x, k),
{
    let w = rows.spec_width();
    let m = rows@;
    let f = |j: int| bit_coeff(m, p, j);
    let single = |j: int|
        if j == c {
            1u8
        } else {
            0u8
        };
    let g = |j: int| suffix_coeff(rows, p, c + 1, j);
    assert forall|j: int| 0 <= j < w implies #[trigger] f(j) == single(j) ^ g(j) by {
        assert(m[p][j] == rows.bit(p, j));
        lemma_xor_basics(1, 0, 0);
        lemma_xor_basics(0, 0, 0);
        lemma_xor_basics(0, 1, 0);
    }
    lemma_eval_add(single, g, f, x, k, w);
    lemma_eval_single(c, 1u8, x, k, w);
    lemma_gf_mul_identities(x[c][k]);
}

/// Back substitution over the pivots, last column first: each decoded symbol is its pivot
/// row's symbol plus the decoded symbols of the pivot row's later set columns.
pub(crate) fn binary_back_substitute(
    rows: &PackedBinaryRows,
    symbols: &SymbolSlab,
    pivot_for_col: &Vec<Option<usize>>,
    width: usize,
) -> (decoded: SymbolSlab)
    requires
        rows.wf(),
        width == rows.spec_width(),
        symbols.wf(),
        symbols.spec_len() == rows.spec_height(),
        pivot_for_col@.len() == width,
        width * symbols.spec_symbol_size() <= usize::MAX,
        forall|c: int| 0 <= c < width ==> (#[trigger] pivot_for_col@[c]) is Some && {
            let p = pivot_for_col@[c]->0 as int;
            &&& p < rows.spec_height()
            &&& first_one_is(*rows, p, c)
        },
    ensures
        decoded.wf(),
        decoded.spec_symbol_size() == symbols.spec_symbol_size(),
        decoded.spec_len() == width,
        forall|c: int, k: int| 0 <= c < width && 0 <= k < symbols.spec_symbol_size() ==> #[trigger] bit_row_value(
            rows@,
            pivot_for_col@[c]->0 as int,
            decoded@,
            k,
            width as nat,
        ) == symbols@[pivot_for_col@[c]->0 as int][k],
{
    let ghost size = symbols.spec_symbol_size();
    let mut decoded = SymbolSlab::with_zeros(width, symbols.symbol_size());
    let mut i: usize = width;
    while i > 0
        invariant
            i <= width,
            rows.wf(),
            width == rows.spec_width(),
            symbols.wf(),
            symbols.spec_len() == rows.spec_height(),
            pivot_for_col@.len() == width,
            size == symbols.spec_symbol_size(),
            forall|c: int| 0 <= c < width ==> (#[trigger] pivot_for_col@[c]) is Some && {
                let p = pivot_for_col@[c]->0 as int;
                &&& p < rows.spec_height()
                &&& first_one_is(*rows, p, c)
            },
            decoded.wf(),
            decoded.spec_symbol_size() == size,
            decoded.spec_len() == width,
            forall|c: int, k: int| i <= c < width && 0 <= k < size ==> #[trigger] decoded@[c][k] == symbols@[pivot_for_col@[c]->0 as int][k]
                ^ suffix_value(*rows, pivot_for_col@[c]->0 as int, c + 1, decoded@, k),
        decreases i,
    {
        let col = i - 1;
        let pivot = pivot_for_col[col].unwrap();
        proof {
            lemma_symbol_len(*symbols, pivot as int);
        }
        let ghost d0 = decoded@;
        copy_symbol(&mut decoded, col, symbols.get(pivot));
        let ghost d1 = decoded@;
        addassign_packed_row_sources_to_symbol(rows, pivot, col + 1, &mut decoded, col);
        proof {
            let d2 = decoded@;
            assert(d2.len() == width && d1.len() == width);
            assert forall|c: int, k: int| i - 1 <= c < width && 0 <= k < size implies #[trigger] d2[c][k]
                == symbols@[pivot_for_col@[c]->0 as int][k] ^ suffix_value(
                *rows,
                pivot_for_col@[c]->0 as int,
                c + 1,
                d2,
                k,
            ) by {
                let p = pivot_for_col@[c]->0 as int;
                let f = |j: int| suffix_coeff(*rows, p, c + 1, j);
                if c == col {
                    assert forall|j: int| 0 <= j < width && #[trigger] f(j) != 0 implies d1[j][k] == d2[j][k] by {}
                    lemma_eval_frame(f, d1, d2, k, width as nat);
                    assert(d1[col as int] == symbols@[pivot as int]);
                    lemma_symbol_len(*symbols, pivot as int);
                } else {
                    assert forall|j: int| 0 <= j < width && #[trigger] f(j) != 0 implies d0[j][k] == d2[j][k] by {}
                    lemma_eval_frame(f, d0, d2, k, width as nat);
                    assert(d2[c] == d0[c]);
                }
            }
        }
        i = col;
    }
    proof {
        assert forall|c: int, k: int| 0 <= c < width && 0 <= k < size implies #[trigger] bit_row_value(
            rows@,
            pivot_for_col@[c]->0 as int,
            decoded@,
            k,
            width as nat,
        ) == symbols@[pivot_for_col@[c]->0 as int][k] by {
            let p = pivot_for_col@[c]->0 as int;
            lemma_pivot_row_value(*rows, p, c, decoded@, k);
            let a = symbols@[p][k];
            let b = suffix_value(*rows, p, c + 1, decoded@, k);
            lemma_xor_basics(a, b, b);
        }
    }
    decoded
}

/// Back substitution when some columns have no pivot: `decoded` comes in with the values of
/// the free columns, which stay; every pivot column, last first, gets its pivot row's symbol
/// plus the values of the later columns that row has set.
pub(crate) fn binary_back_substitute_free(
    rows: &PackedBinaryRows,
    symbols: &SymbolSlab,
    pivot_for_col: &Vec<Option<usize>>,
    decoded: SymbolSlab,
) -> (r: SymbolSlab)
    requires
        rows.wf(),
        symbols.wf(),
        symbols.spec_len() == rows.spec_height(),
        pivot_for_col@.len() == rows.spec_width(),
        decoded.wf(),
        decoded.spec_len() == rows.spec_width(),
        decoded.spec_symbol_size() == symbols.spec_symbol_size(),
        forall|c: int| 0 <= c < rows.spec_width() ==> match #[trigger] pivot_for_col@[c] {
            Some(p) => p < rows.spec_height() && first_one_is(*rows, p as int, c),
            None => true,
        },
    ensures
        r.wf(),
        r.spec_symbol_size() == symbols.spec_symbol_size(),
        r.spec_len() == rows.spec_width(),
        forall|c: int| 0 <= c < rows.spec_width() && (#[trigger] pivot_for_col@[c]) is None ==> r@[c] == decoded@[c],
        forall|c: int, k: int| 0 <= c < rows.spec_width() && 0 <= k < symbols.spec_symbol_size()
            && pivot_for_col@[c] is Some ==> #[trigger] bit_row_value(
            rows@,
            pivot_for_col@[c]->0 as int,
            r@,
            k,
            rows.spec_width(),
        ) == symbols@[pivot_for_col@[c]->0 as int][k],
{
    let width = rows.width();
    let ghost size = symbols.spec_symbol_size();
    let ghost init = decoded@;
    let mut decoded = decoded;
    let mut i: usize = width;
    while i > 0
        invariant
            i <= width,
            rows.wf(),
            width == rows.spec_width(),
            symbols.wf(),
            symbols.spec_len() == rows.spec_height(),
            pivot_for_col@.len() == width,
            size == symbols.spec_symbol_size(),
            forall|c: int| 0 <= c < width ==> match #[trigger] pivot_for_col@[c] {
                Some(p) => p < rows.spec_height() && first_one_is(*rows, p as int, c),
                None => true,
            },
            decoded.wf(),
            decoded.spec_symbol_size() == size,
            decoded.spec_len() == width,
            forall|c: int| 0 <= c < width && (#[trigger] pivot_for_col@[c]) is None ==> decoded@[c] == init[c],
            forall|c: int| 0 <= c < i ==> #[trigger] decoded@[c] == init[c],
            forall|c: int, k: int| i <= c < width && 0 <= k < size && pivot_for_col@[c] is Some
                ==> #[trigger] decoded@[c][k] == symbols@[pivot_for_col@[c]->0 as int][k] ^ suffix_value(
                *rows,
                pivot_for_col@[c]->0 as int,
                c + 1,
                decoded@,
                k,
            ),
        decreases i,
    {
        let col = i - 1;
        match pivot_for_col[col] {
            None => {},
            Some(pivot) => {
                proof {
                    lemma_symbol_len(*symbols, pivot as int);
                }
                let ghost d0 = decoded@;
                copy_symbol(&mut decoded, col, symbols.get(pivot));
                let ghost d1 = decoded@;
                addassign_packed_row_sources_to_symbol(rows, pivot, col + 1, &mut decoded, col);
                proof {
                    let d2 = decoded@;
                    assert(d2.len() == width && d1.len() == width);
                    assert forall|c: int, k: int| i - 1 <= c < width && 0 <= k < size && pivot_for_col@[c] is Some
                        implies #[trigger] d2[c][k] == symbols@[pivot_for_col@[c]->0 as int][k] ^ suffix_value(
                        *rows,
                        pivot_for_col@[c]->0 as int,
                        c + 1,
                        d2,
                        k,
                    ) by {
                        let p = pivot_for_col@[c]->0 as int;
                        let f = |j: int| suffix_coeff(*rows, p, c + 1, j);
                        if c == col {
                            assert forall|j: int| 0 <= j < width && #[trigger] f(j) != 0 implies d1[j][k] == d2[j][k] by {}
                            lemma_eval_frame(f, d1, d2, k, width as nat);
                            assert(d1[col as int] == symbols@[pivot as int]);
                            lemma_symbol_len(*symbols, pivot as int);
                        } else {
                            assert forall|j: int| 0 <= j < width && #[trigger] f(j) != 0 implies d0[j][k] == d2[j][k] by {}
                            lemma_eval_frame(f, d0, d2, k, width as nat);
                            assert(d2[c] == d0[c]);
                        }
                    }
                }
            },
        }
        i = col;
    }
    proof {
        assert forall|c: int, k: int| 0 <= c < width && 0 <= k < size && pivot_for_col@[c] is Some
            implies #[trigger] bit_row_value(
            rows@,
            pivot_for_col@[c]->0 as int,
            decoded@,
            k,
            width as nat,
        ) == symbols@[pivot_for_col@[c]->0 as int][k] by {
            let p = pivot_for_col@[c]->0 as int;
            lemma_pivot_row_value(*rows, p, c, decoded@, k);
            let a = symbols@[p][k];
            let b = suffix_value(*rows, p, c + 1, decoded@, k);
            lemma_xor_basics(a, b, b);
        }
    }
    decoded
}

/// Whether every row that is not a pivot row is empty with a zero symbol.
pub(crate) fn binary_unpivoted_rows_consistent(rows: &PackedBinaryRows, symbols: &SymbolSlab, is_pivot_row: &Vec<bool>) -> (r: bool)
    requires
        rows.wf(),
        symbols.wf(),
        symbols.spec_len() == rows.spec_height(),
        is_pivot_row@.len() == rows.spec_height(),
    ensures
        r == forall|row: int| 0 <= row < rows.spec_height() && !#[trigger] is_pivot_row@[row] ==> row_is_zero(*rows, row)
            && all_zero(symbols@[row]),
{
    let height = rows.height();
    let mut row: usize = 0;
    while row < height
        invariant
            row <= height,
            height == rows.spec_height(),
            rows.wf(),
            symbols.wf(),
            symbols.spec_len() == height,
            is_pivot_row@.len() == height,
            forall|j: int| 0 <= j < row && !#[trigger] is_pivot_row@[j] ==> row_is_zero(*rows, j) && all_zero(symbols@[j]),
        decreases height - row,
    {
        if !is_pivot_row[row] && (!rows.is_zero(row) || !symbol_is_zero(symbols.get(row))) {
            return false;
        }
        row += 1;
    }
    true
}

/// After a forward pass that gave every column a pivot: checks that the rows without a pivot
/// are empty with zero symbols, then back-substitutes. `None` when some such row has a nonzero
/// symbol, and then no symbols solve the system.
pub(crate) fn binary_check_and_back_substitute(
    rows: &PackedBinaryRows,
    symbols: &SymbolSlab,
    pivot_for_col: &Vec<Option<usize>>,
    is_pivot_row: &Vec<bool>,
) -> (r: Option<SymbolSlab>)
    requires
        rows.wf(),
        symbols.wf(),
        symbols.spec_len() == rows.spec_height(),
        pivot_for_col@.len() == rows.spec_width(),
        is_pivot_row@.len() == rows.spec_height(),
        forall|c: int| 0 <= c < rows.spec_width() ==> (#[trigger] pivot_for_col@[c]) is Some && {
            let p = pivot_for_col@[c]->0 as int;
            &&& p < rows.spec_height()
            &&& is_pivot_row@[p]
            &&& first_one_is(*rows, p, c)
        },
        forall|r: int| 0 <= r < rows.spec_height() && #[trigger] is_pivot_row@[r] ==> exists|c: int|
            0 <= c < rows.spec_width() && pivot_for_col@[c] == Some(r as usize),
        forall|r: int| 0 <= r < rows.spec_height() && !#[trigger] is_pivot_row@[r] ==> row_is_zero(*rows, r),
    ensures
        r matches Some(d) ==> d.wf() && d.spec_symbol_size() == symbols.spec_symbol_size() && bit_solves(
            rows@,
            symbols@,
            d@,
            rows.spec_width(),
            symbols.spec_symbol_size(),
        ) && bit_unique_solution(rows@, symbols@, rows.spec_width(), symbols.spec_symbol_size()),
        r is None ==> forall|x: Seq<Seq<u8>>| !#[trigger] bit_solves(rows@, symbols@, x, rows.spec_width(), symbols.spec_symbol_size()),
{
    let width = rows.width();
    let height = rows.height();
    let ghost size = symbols.spec_symbol_size();
    if !binary_unpivoted_rows_consistent(rows, symbols, is_pivot_row) {
        proof {
            let i = choose|i: int| 0 <= i < height && !is_pivot_row@[i] && !(row_is_zero(*rows, i) && all_zero(symbols@[i]));
            assert(row_is_zero(*rows, i));
            let k = choose|k: int| 0 <= k < symbols@[i].len() && symbols@[i][k] != 0;
            lemma_symbol_len(*symbols, i);
            assert forall|c: int| 0 <= c < width implies !#[trigger] rows@[i][c] by {
                assert(rows@[i][c] == rows.bit(i, c));
            }
            lemma_bit_inconsistent(rows@, symbols@, i, k, width as nat, size);
        }
        return None;
    }
    let total_bytes = symbols.as_bytes().len();
    proof {
        let f = |c: int| pivot_for_col@[c]->0 as int;
        assert forall|i: int, j: int| 0 <= i < j < width implies #[trigger] f(i) != #[trigger] f(j) by {
            if f(i) == f(j) {
                assert(first_one_is(*rows, f(i), i));
                assert(first_one_is(*rows, f(j), j));
                assert(!rows.bit(f(j), i));
            }
        }
        lemma_injective_bound(f, width as nat, height as nat);
        assert(width * size <= height * size) by (nonlinear_arith)
            requires
                width <= height,
        ;
        assert(height * size == total_bytes) by {
            vstd::arithmetic::div_mod::lemma_fundamental_div_mod(total_bytes as int, size as int);
            assert(total_bytes as int == size * (total_bytes as int / size as int) + total_bytes as int % size as int);
            assert(height * size == size * height) by (nonlinear_arith);
        }
    }
    let decoded = binary_back_substitute(rows, symbols, pivot_for_col, width);
    proof {
        lemma_uniform_slab(decoded);
        assert forall|i: int, k: int| 0 <= i < height && 0 <= k < size implies #[trigger] bit_row_value(
            rows@,
            i,
            decoded@,
            k,
            width as nat,
        ) == symbols@[i][k] by {
            if is_pivot_row@[i] {
                let c = choose|c: int| 0 <= c < width && pivot_for_col@[c] == Some(i as usize);
                assert(bit_row_value(rows@, pivot_for_col@[c]->0 as int, decoded@, k, width as nat)
                    == symbols@[pivot_for_col@[c]->0 as int][k]);
            } else {
                assert(row_is_zero(*rows, i) && all_zero(symbols@[i]));
                lemma_symbol_len(*symbols, i);
                assert forall|c: int| 0 <= c < width implies #[trigger] bit_coeff(rows@, i, c) == 0 by {
                    assert(rows@[i][c] == rows.bit(i, c));
                }
                lemma_eval_zero(|c: int| bit_coeff(rows@, i, c), decoded@, k, width as nat);
            }
        }
        assert(bit_solves(rows@, symbols@, decoded@, width as nat, size));
        lemma_bit_pivots_unique_solution(*rows, pivot_for_col@, symbols@, decoded@, size);
    }
    Some(decoded)
}

/// `n` empty slots.
pub(crate) fn no_pivots(n: usize) -> (r: Vec<Option<usize>>)
    ensures
        r@.len() == n,
        forall|i: int| 0 <= i < n ==> (#[trigger] r@[i]) is None,
{
    let mut r: Vec<Option<usize>> = Vec::new();
    let mut i: usize = 0;
    while i < n
        invariant
            i <= n,
            r@.len() == i,
            forall|j: int| 0 <= j < i ==> (#[trigger] r@[j]) is None,
        decreases n - i,
    {
        r.push(None);
        i += 1;
    }
    r
}

/// Solves the bit rows times `width` intermediate symbols equal `symbols`, given each row's
/// first set column and, with weighted buckets, its number of set columns: forward
/// elimination, a check that the rows without a pivot are empty with zero symbols, and back
/// substitution. No symbol operations are recorded.
pub fn solve_binary_with_initial_metadata(
    rows: PackedBinaryRows,
    symbols: SymbolSlab,
    row_weights: Vec<u32>,
    first_ones: Vec<Option<usize>>,
    use_weighted_buckets: bool,
) -> (r: (Option<SymbolSlab>, Option<Vec<SymbolOps>>))
    requires
        rows.wf(),
        rows.spec_width() <= u16::MAX + 1,
        symbols.wf(),
        symbols.spec_len() == rows.spec_height(),
        first_ones@.len() == rows.spec_height(),
        forall|r: int| 0 <= r < rows.spec_height() ==> match #[trigger] first_ones@[r] {
            Some(c) => first_one_is(rows, r, c as int),
            None => row_is_zero(rows, r),
        },
        use_weighted_buckets ==> row_weights@.len() == rows.spec_height() && forall|r: int|
            0 <= r < rows.spec_height() ==> #[trigger] row_weights@[r] == rows.ones(r, 0, rows.spec_width() as int),
    ensures
        r.1 is None,
        r.0 matches Some(d) ==> d.wf() && d.spec_symbol_size() == symbols.spec_symbol_size() && bit_solves(
            rows@,
            symbols@,
            d@,
            rows.spec_width(),
            symbols.spec_symbol_size(),
        ),
        r.0 is None ==> !bit_unique_solution(rows@, symbols@, rows.spec_width(), symbols.spec_symbol_size()),
        r.0 is Some ==> bit_unique_solution(rows@, symbols@, rows.spec_width(), symbols.spec_symbol_size()),
{
    let width = rows.width();
    let height = rows.height();
    let ghost m0 = rows@;
    let ghost s0 = symbols@;
    let ghost size = symbols.spec_symbol_size();
    let mut rows = rows;
    let mut symbols = symbols;
    let mut row_weights = row_weights;
    let mut pivot_for_col = no_pivots(width);
    let mut is_pivot_row: Vec<bool> = vec![false; height];
    let mut forward_ranges: Vec<(usize, usize)> = Vec::new();
    let mut forward_entries: Vec<CoefficientColumn> = Vec::new();
    let found = binary_forward_eliminate(
        &mut rows,
        &mut symbols,
        &mut row_weights,
        &first_ones,
        use_weighted_buckets,
        &mut pivot_for_col,
        &mut is_pivot_row,
        false,
        &mut forward_ranges,
        &mut forward_entries,
    );
    if !found {
        return (None, None);
    }
    let decoded = binary_check_and_back_substitute(&rows, &symbols, &pivot_for_col, &is_pivot_row);
    match decoded {
        Some(d) => {
            proof {
                assert(bit_solves(m0, s0, d@, width as nat, size));
                lemma_bit_unique_transfer(rows@, symbols@, m0, s0, width as nat, size);
            }
            (Some(d), None)
        },
        None => {
            proof {
                lemma_bit_unique_transfer(rows@, symbols@, m0, s0, width as nat, size);
            }
            (None, None)
        },
    }
}

} // verus!

verus! {

/// Solves with the metadata computed here: each row's first set column and, for wide
/// systems, its number of set columns.
pub fn solve_binary(rows: PackedBinaryRows, symbols: SymbolSlab) -> (r: (Option<SymbolSlab>, Option<Vec<SymbolOps>>))
    requires
        rows.wf(),
        rows.spec_width() <= u16::MAX + 1,
        symbols.wf(),
        symbols.spec_len() == rows.spec_height(),
    ensures
        r.1 is None,
        r.0 matches Some(d) ==> d.wf() && d.spec_symbol_size() == symbols.spec_symbol_size() && bit_solves(
            rows@,
            symbols@,
            d@,
            rows.spec_width(),
            symbols.spec_symbol_size(),
        ),
        r.0 is None ==> !bit_unique_solution(rows@, symbols@, rows.spec_width(), symbols.spec_symbol_size()),
        r.0 is Some ==> bit_unique_solution(rows@, symbols@, rows.spec_width(), symbols.spec_symbol_size()),
{
    let width = rows.width();
    let height = rows.height();
    let use_weighted_buckets = width >= LARGE_BINARY_WEIGHTED_BUCKET_MIN_WIDTH;
    let mut row_weights: Vec<u32> = Vec::new();
    if use_weighted_buckets {
        let mut row: usize = 0;
        while row < height
            invariant
                row <= height,
                height == rows.spec_height(),
                width == rows.spec_width(),
                width <= u16::MAX + 1,
                rows.wf(),
                row_weights@.len() == row,
                forall|r: int| 0 <= r < row ==> #[trigger] row_weights@[r] == rows.ones(r, 0, width as int),
            decreases height - row,
        {
            row_weights.push(rows.weight_at_or_after(row, 0));
            row += 1;
        }
    }
    let mut first_ones: Vec<Option<usize>> = Vec::new();
    let mut row: usize = 0;
    while row < height
        invariant
            row <= height,
            height == rows.spec_height(),
            rows.wf(),
            first_ones@.len() == row,
            forall|r: int| 0 <= r < row ==> match #[trigger] first_ones@[r] {
                Some(c) => first_one_is(rows, r, c as int),
                None => row_is_zero(rows, r),
            },
        decreases height - row,
    {
        first_ones.push(rows.first_one_at_or_after(row, 0));
        row += 1;
    }
    solve_binary_with_initial_metadata(rows, symbols, row_weights, first_ones, use_weighted_buckets)
}

/// Solves with weighted buckets, given each row's number of set columns and first one.
pub fn solve_binary_with_weighted_metadata(
    rows: PackedBinaryRows,
    symbols: SymbolSlab,
    row_weights: Vec<u32>,
    first_ones: Vec<Option<usize>>,
) -> (r: (Option<SymbolSlab>, Option<Vec<SymbolOps>>))
    requires
        rows.wf(),
        rows.spec_width() <= u16::MAX + 1,
        symbols.wf(),
        symbols.spec_len() == rows.spec_height(),
        first_ones@.len() == rows.spec_height(),
        forall|r: int| 0 <= r < rows.spec_height() ==> match #[trigger] first_ones@[r] {
            Some(c) => first_one_is(rows, r, c as int),
            None => row_is_zero(rows, r),
        },
        row_weights@.len() == rows.spec_height(),
        forall|r: int| 0 <= r < rows.spec_height() ==> #[trigger] row_weights@[r] == rows.ones(r, 0, rows.spec_width() as int),
    ensures
        r.1 is None,
        r.0 matches Some(d) ==> d.wf() && d.spec_symbol_size() == symbols.spec_symbol_size() && bit_solves(
            rows@,
            symbols@,
            d@,
            rows.spec_width(),
            symbols.spec_symbol_size(),
        ),
        r.0 is None ==> !bit_unique_solution(rows@, symbols@, rows.spec_width(), symbols.spec_symbol_size()),
        r.0 is Some ==> bit_unique_solution(rows@, symbols@, rows.spec_width(), symbols.spec_symbol_size()),
{
    solve_binary_with_initial_metadata(rows, symbols, row_weights, first_ones, true)
}

} // verus!

verus! {

/// `len` symbols of `size` zero bytes.
pub open spec fn zero_symbols(len: nat, size: nat) -> Seq<Seq<u8>> {
    Seq::new(len, |i: int| Seq::new(size, |k: int| 0u8))
}

/// The bit matrix has full column rank over its first `n` columns: with zero symbols on
/// every row, the only solution is zero.
pub open spec fn bit_full_rank(m: Seq<Seq<bool>>, n: nat, size: nat) -> bool {
    bit_unique_solution(m, zero_symbols(m.len(), size), n, size)
}

/// The bit system has exactly one solution of `n` symbols of `size` bytes.
pub open spec fn bit_unique_solution(m: Seq<Seq<bool>>, rhs: Seq<Seq<u8>>, n: nat, size: nat) -> bool {
    exists|x: Seq<Seq<u8>>|
        #![trigger bit_solves(m, rhs, x, n, size)]
        bit_solves(m, rhs, x, n, size) && forall|y: Seq<Seq<u8>>|
            #![trigger bit_solves(m, rhs, y, n, size)]
            bit_solves(m, rhs, y, n, size) ==> y == x
}

/// With a pivot row for every column, whose first set column is that column, the bit
/// system has at most one solution.
pub proof fn lemma_bit_pivots_unique(
    rows: PackedBinaryRows,
    piv: Seq<Option<usize>>,
    rhs: Seq<Seq<u8>>,
    x: Seq<Seq<u8>>,
    y: Seq<Seq<u8>>,
    size: nat,
)
    requires
        piv.len() == rows.spec_width(),
        forall|c: int| 0 <= c < rows.spec_width() ==> (#[trigger] piv[c]) is Some && piv[c]->0 < rows.spec_height()
            && first_one_is(rows, piv[c]->0 as int, c),
        bit_solves(rows@, rhs, x, rows.spec_width(), size),
        bit_solves(rows@, rhs, y, rows.spec_width(), size),
    ensures
        x == y,
{
    let n = rows.spec_width();
    let m = rows@;
    let fs = |c: int| (|c2: int| bit_coeff(m, piv[c]->0 as int, c2));
    assert forall|c: int| 0 <= c < n implies #[trigger] fs(c)(c) != 0 by {
        let p = piv[c]->0 as int;
        assert(first_one_is(rows, p, c));
        assert(m[p][c] == rows.bit(p, c));
    }
    assert forall|c: int, c2: int| 0 <= c2 < c < n implies #[trigger] fs(c)(c2) == 0 by {
        let p = piv[c]->0 as int;
        assert(first_one_is(rows, p, c));
        assert(m[p][c2] == rows.bit(p, c2));
    }
    assert forall|c: int, k: int| 0 <= c < n && 0 <= k < size implies #[trigger] eval_cols(fs(c), x, k, n)
        == eval_cols(fs(c), y, k, n) by {
        let p = piv[c]->0 as int;
        assert(bit_row_value(m, p, x, k, n) == rhs[p][k]);
        assert(bit_row_value(m, p, y, k, n) == rhs[p][k]);
        lemma_eval_ext(fs(c), |c2: int| bit_coeff(m, p, c2), x, k, n);
        lemma_eval_ext(fs(c), |c2: int| bit_coeff(m, p, c2), y, k, n);
    }
    lemma_triangular_agree(fs, x, y, n, size);
    assert forall|c: int| 0 <= c < n implies #[trigger] x[c] =~= y[c] by {
        assert(x[c].len() == size && y[c].len() == size);
        assert forall|k: int| 0 <= k < size implies x[c][k] == y[c][k] by {}
    }
    assert(x =~= y);
}

/// With a pivot row for every column, a solution of the bit system is its only one.
pub proof fn lemma_bit_pivots_unique_solution(
    rows: PackedBinaryRows,
    piv: Seq<Option<usize>>,
    rhs: Seq<Seq<u8>>,
    x: Seq<Seq<u8>>,
    size: nat,
)
    requires
        piv.len() == rows.spec_width(),
        forall|c: int| 0 <= c < rows.spec_width() ==> (#[trigger] piv[c]) is Some && piv[c]->0 < rows.spec_height()
            && first_one_is(rows, piv[c]->0 as int, c),
        bit_solves(rows@, rhs, x, rows.spec_width(), size),
    ensures
        bit_unique_solution(rows@, rhs, rows.spec_width(), size),
{
    assert forall|y: Seq<Seq<u8>>| #[trigger] bit_solves(rows@, rhs, y, rows.spec_width(), size) implies y == x by {
        lemma_bit_pivots_unique(rows, piv, rhs, x, y, size);
    }
}

/// With a pivot row for every column, whose first set column is that column, the bit
/// matrix has full column rank.
pub proof fn lemma_bit_pivots_full_rank(rows: PackedBinaryRows, piv: Seq<Option<usize>>, size: nat)
    requires
        piv.len() == rows.spec_width(),
        forall|c: int| 0 <= c < rows.spec_width() ==> (#[trigger] piv[c]) is Some && piv[c]->0 < rows.spec_height()
            && first_one_is(rows, piv[c]->0 as int, c),
    ensures
        bit_full_rank(rows@, rows.spec_width(), size),
{
    let n = rows.spec_width();
    let zs = zero_symbols(rows@.len(), size);
    let x0 = zero_symbols(n, size);
    assert forall|i: int, k: int| 0 <= i < rows@.len() && 0 <= k < size implies #[trigger] bit_row_value(
        rows@,
        i,
        x0,
        k,
        n,
    ) == zs[i][k] by {
        let f = |c: int| bit_coeff(rows@, i, c);
        assert forall|c: int| 0 <= c < n implies #[trigger] gf_mul_spec(f(c), x0[c][k]) == 0 by {
            lemma_gf_mul_identities(f(c));
        }
        crate::linear_system::lemma_eval_zero_terms(f, x0, k, n);
    }
    assert(bit_solves(rows@, zs, x0, n, size));
    lemma_bit_pivots_unique_solution(rows, piv, zs, x0, size);
}

/// Coordinate `i` of a vector that the triangular rows `a(i, _)`, `i < col`, send to zero:
/// one at `col`, zero after it, and before it what row `i` needs to cancel.
pub open spec fn tri_null_coord(a: spec_fn(int, int) -> u8, col: int, i: int) -> u8
    decreases col - i, 1int,
{
    if i >= col {
        if i == col {
            1u8
        } else {
            0u8
        }
    } else {
        tri_null_partial(a, col, i, col + 1)
    }
}

/// The sum over columns `c` with `i < c < m` of `a(i, c)` times `tri_null_coord` at `c`.
pub open spec fn tri_null_partial(a: spec_fn(int, int) -> u8, col: int, i: int, m: int) -> u8
    decreases col - i, 0int, m - i,
{
    if i >= col || m <= i + 1 || m > col + 1 {
        0u8
    } else {
        tri_null_partial(a, col, i, m - 1) ^ gf_mul_spec(a(i, m - 1), tri_null_coord(a, col, m - 1))
    }
}

/// Row `i` of a unit upper triangle applied to the null vector, up to column `m`.
pub(crate) proof fn lemma_tri_null_prefix(a: spec_fn(int, int) -> u8, col: int, i: int, w: Seq<Seq<u8>>, k: int, m: int)
    requires
        0 <= i < col,
        i + 1 <= m <= col + 1,
        col < w.len(),
        a(i, i) == 1,
        forall|c: int| 0 <= c < i ==> #[trigger] a(i, c) == 0,
        forall|c: int| 0 <= c < w.len() ==> #[trigger] w[c][k] == tri_null_coord(a, col, c),
    ensures
        eval_cols(|c: int| a(i, c), w, k, m as nat) == tri_null_coord(a, col, i) ^ tri_null_partial(a, col, i, m),
    decreases m,
{
    let f = |c: int| a(i, c);
    if m == i + 1 {
        assert forall|c: int| 0 <= c < i implies #[trigger] gf_mul_spec(f(c), w[c][k]) == 0 by {
            assert(a(i, c) == 0);
            lemma_gf_mul_identities(w[c][k]);
        }
        lemma_eval_zero_terms(f, w, k, i as nat);
        lemma_gf_mul_identities(w[i][k]);
        lemma_xor_basics(w[i][k], 0, 0);
        lemma_xor_basics(0, w[i][k], 0);
    } else {
        lemma_tri_null_prefix(a, col, i, w, k, m - 1);
        let x = tri_null_coord(a, col, i);
        let p = tri_null_partial(a, col, i, m - 1);
        let t = gf_mul_spec(a(i, m - 1), tri_null_coord(a, col, m - 1));
        assert(w[m - 1][k] == tri_null_coord(a, col, m - 1));
        lemma_xor_basics(x, p, t);
    }
}

/// Extending a combination over columns after `col`, where the null vector is zero.
pub(crate) proof fn lemma_tri_null_tail(
    f: spec_fn(int) -> u8,
    w: Seq<Seq<u8>>,
    k: int,
    lo: int,
    m: int,
    a: spec_fn(int, int) -> u8,
    col: int,
)
    requires
        0 <= col,
        lo == col + 1,
        lo <= m <= w.len(),
        forall|c: int| 0 <= c < w.len() ==> #[trigger] w[c][k] == tri_null_coord(a, col, c),
        eval_cols(f, w, k, lo as nat) == 0,
    ensures
        eval_cols(f, w, k, m as nat) == 0,
    decreases m - lo,
{
    if m > lo {
        lemma_tri_null_tail(f, w, k, lo, m - 1, a, col);
        assert(w[m - 1][k] == tri_null_coord(a, col, m - 1));
        lemma_gf_mul_identities(f(m - 1));
        lemma_xor_basics(0, 0, 0);
    }
}

/// With pivot rows for the columns before `col` and no other row touching the columns up to
/// `col`, every solution has a second one: the system has no unique solution.
proof fn lemma_bit_null(
    rows: PackedBinaryRows,
    rhs: Seq<Seq<u8>>,
    piv: Seq<Option<usize>>,
    is_pivot: Seq<bool>,
    pcol: Seq<int>,
    col: int,
    size: nat,
)
    requires
        0 <= col < rows.spec_width(),
        rows.spec_height() <= usize::MAX,
        size > 0,
        piv.len() == rows.spec_width(),
        is_pivot.len() == rows.spec_height(),
        pcol.len() == rows.spec_height(),
        forall|c: int| 0 <= c < col ==> (#[trigger] piv[c]) is Some && piv[c]->0 < rows.spec_height()
            && first_one_is(rows, piv[c]->0 as int, c),
        forall|r: int| 0 <= r < rows.spec_height() && #[trigger] is_pivot[r] ==> 0 <= pcol[r] < col && piv[pcol[r]]
            == Some(r as usize),
        forall|r: int, c: int| 0 <= r < rows.spec_height() && !is_pivot[r] && 0 <= c <= col ==> !#[trigger] rows.bit(r, c),
    ensures
        !bit_unique_solution(rows@, rhs, rows.spec_width(), size),
{
    let n = rows.spec_width();
    let m = rows@;
    let a = |i: int, c: int| bit_coeff(m, piv[i]->0 as int, c);
    if bit_unique_solution(m, rhs, n, size) {
        let x = choose|x: Seq<Seq<u8>>|
            #![trigger bit_solves(m, rhs, x, n, size)]
            bit_solves(m, rhs, x, n, size) && forall|y: Seq<Seq<u8>>|
                #![trigger bit_solves(m, rhs, y, n, size)]
                bit_solves(m, rhs, y, n, size) ==> y == x;
        let w = Seq::new(n, |c: int| Seq::new(size, |kk: int| tri_null_coord(a, col, c)));
        let y = Seq::new(n, |c: int| Seq::new(size, |kk: int| x[c][kk] ^ tri_null_coord(a, col, c)));
        assert forall|i: int, k: int| 0 <= i < m.len() && 0 <= k < size implies #[trigger] bit_row_value(
            m,
            i,
            y,
            k,
            n,
        ) == rhs[i][k] by {
            let f = |c: int| bit_coeff(m, i, c);
            assert forall|c: int| 0 <= c < n implies #[trigger] w[c][k] == tri_null_coord(a, col, c) by {}
            assert forall|c: int| 0 <= c < n implies #[trigger] y[c][k] == x[c][k] ^ w[c][k] by {}
            if is_pivot[i] {
                let pi = pcol[i];
                assert(piv[pi] == Some(i as usize));
                assert(piv[pi]->0 as int == i);
                assert(first_one_is(rows, i, pi));
                assert(a(pi, pi) == 1) by {
                    assert(m[i][pi] == rows.bit(i, pi));
                }
                assert forall|c: int| 0 <= c < pi implies #[trigger] a(pi, c) == 0 by {
                    assert(m[i][c] == rows.bit(i, c));
                }
                lemma_tri_null_prefix(a, col, pi, w, k, col + 1);
                lemma_xor_basics(tri_null_coord(a, col, pi), 0, 0);
                let g = |c: int| a(pi, c);
                assert forall|c: int| 0 <= c < n implies #[trigger] g(c) == f(c) by {}
                lemma_eval_ext(g, f, w, k, (col + 1) as nat);
                lemma_tri_null_tail(f, w, k, col + 1, n as int, a, col);
            } else {
                assert forall|c: int| 0 <= c < n implies #[trigger] gf_mul_spec(f(c), w[c][k]) == 0 by {
                    if c <= col {
                        assert(!rows.bit(i, c));
                        assert(m[i][c] == rows.bit(i, c));
                        lemma_gf_mul_identities(w[c][k]);
                    } else {
                        lemma_gf_mul_identities(f(c));
                    }
                }
                lemma_eval_zero_terms(f, w, k, n);
            }
            lemma_eval_add_symbols(f, x, w, y, k, n);
            assert(bit_row_value(m, i, x, k, n) == rhs[i][k]);
            lemma_xor_basics(rhs[i][k], 0, 0);
        }
        assert forall|c: int| 0 <= c < y.len() implies #[trigger] y[c].len() == size by {}
        assert(bit_solves(m, rhs, y, n, size));
        assert(y[col][0] == x[col][0] ^ 1u8);
        lemma_xor_basics(x[col][0], 1u8, 0);
        assert(y[col] != x[col]);
    }
}

/// A row with no set column and a nonzero symbol leaves no solution at all.
pub(crate) proof fn lemma_bit_inconsistent(m: Seq<Seq<bool>>, rhs: Seq<Seq<u8>>, i: int, k: int, n: nat, size: nat)
    requires
        0 <= i < m.len(),
        0 <= k < size,
        forall|c: int| 0 <= c < n ==> !#[trigger] m[i][c],
        rhs[i][k] != 0,
    ensures
        forall|x: Seq<Seq<u8>>| !#[trigger] bit_solves(m, rhs, x, n, size),
        !bit_unique_solution(m, rhs, n, size),
{
    assert forall|x: Seq<Seq<u8>>| !#[trigger] bit_solves(m, rhs, x, n, size) by {
        if bit_solves(m, rhs, x, n, size) {
            let f = |c: int| bit_coeff(m, i, c);
            assert forall|c: int| 0 <= c < n implies #[trigger] f(c) == 0 by {}
            lemma_eval_zero(f, x, k, n);
            assert(bit_row_value(m, i, x, k, n) == rhs[i][k]);
        }
    }
}

} // verus!

verus! {

/// Systems with the same solutions have a unique solution together.
pub(crate) proof fn lemma_bit_unique_transfer(
    m1: Seq<Seq<bool>>,
    s1: Seq<Seq<u8>>,
    m2: Seq<Seq<bool>>,
    s2: Seq<Seq<u8>>,
    n: nat,
    size: nat,
)
    requires
        forall|x: Seq<Seq<u8>>| #[trigger] bit_solves(m1, s1, x, n, size) == bit_solves(m2, s2, x, n, size),
    ensures
        bit_unique_solution(m1, s1, n, size) == bit_unique_solution(m2, s2, n, size),
{
    if bit_unique_solution(m1, s1, n, size) {
        let x = choose|x: Seq<Seq<u8>>|
            #![trigger bit_solves(m1, s1, x, n, size)]
            bit_solves(m1, s1, x, n, size) && forall|y: Seq<Seq<u8>>|
                #![trigger bit_solves(m1, s1, y, n, size)]
                bit_solves(m1, s1, y, n, size) ==> y == x;
        assert(bit_solves(m2, s2, x, n, size));
        assert forall|y: Seq<Seq<u8>>| #[trigger] bit_solves(m2, s2, y, n, size) implies y == x by {
            assert(bit_solves(m1, s1, y, n, size));
        }
    }
    if bit_unique_solution(m2, s2, n, size) {
        let x = choose|x: Seq<Seq<u8>>|
            #![trigger bit_solves(m2, s2, x, n, size)]
            bit_solves(m2, s2, x, n, size) && forall|y: Seq<Seq<u8>>|
                #![trigger bit_solves(m2, s2, y, n, size)]
                bit_solves(m2, s2, y, n, size) ==> y == x;
        assert(bit_solves(m1, s1, x, n, size));
        assert forall|y: Seq<Seq<u8>>| #[trigger] bit_solves(m1, s1, y, n, size) implies y == x by {
            assert(bit_solves(m2, s2, y, n, size));
        }
    }
}

} // verus!

verus! {

/// When a bit system has a unique solution, any two solutions of it are the same symbols,
/// whichever bucket strategy found them.
pub proof fn lemma_bit_unique_solution_agrees(
    m: Seq<Seq<bool>>,
    rhs: Seq<Seq<u8>>,
    x: Seq<Seq<u8>>,
    y: Seq<Seq<u8>>,
    n: nat,
    size: nat,
)
    requires
        bit_unique_solution(m, rhs, n, size),
        bit_solves(m, rhs, x, n, size),
        bit_solves(m, rhs, y, n, size),
    ensures
        x == y,
{
}

} // verus!

verus! {

/// The rows listed in `entries[lo..hi]`.
pub open spec fn listed_rows(entries: Seq<u16>, lo: int, hi: int) -> Seq<usize> {
    entries.subrange(lo, hi).map_values(|e: u16| e as usize)
}

/// The symbols after the recorded additions of the first `n` columns: for column `c`, the
/// symbol of its pivot row added into each row listed in its range of `entries`.
pub open spec fn replay_forward(
    s: Seq<Seq<u8>>,
    pivots: Seq<Option<usize>>,
    ranges: Seq<(usize, usize)>,
    entries: Seq<u16>,
    n: nat,
) -> Seq<Seq<u8>>
    decreases n,
{
    if n == 0 {
        s
    } else {
        add_to_dests(
            replay_forward(s, pivots, ranges, entries, (n - 1) as nat),
            pivots[n - 1]->0 as int,
            listed_rows(entries, ranges[n - 1].0 as int, ranges[n - 1].1 as int),
        )
    }
}

/// The recorded additions of the first `n` columns are well formed for `len` symbols: each
/// column has a pivot, its range lies in `entries`, and it lists distinct rows other than
/// the pivot.
pub open spec fn recorded_ok(
    pivots: Seq<Option<usize>>,
    ranges: Seq<(usize, usize)>,
    entries: Seq<u16>,
    n: nat,
    len: nat,
) -> bool {
    &&& n <= ranges.len()
    &&& n <= pivots.len()
    &&& forall|c: int|
        0 <= c < n ==> {
            let d = listed_rows(entries, ranges[c].0 as int, ranges[c].1 as int);
            &&& (#[trigger] pivots[c]) is Some
            &&& pivots[c]->0 < len
            &&& ranges[c].0 <= ranges[c].1 <= entries.len()
            &&& forall|i: int| 0 <= i < d.len() ==> #[trigger] d[i] < len && d[i] != pivots[c]->0
            &&& forall|i: int, j: int| 0 <= i < j < d.len() ==> d[i] != d[j]
        }
}

/// Replaying reads only the pivots and ranges of the replayed columns and the entries in
/// their ranges.
pub proof fn lemma_replay_frame(
    s: Seq<Seq<u8>>,
    p1: Seq<Option<usize>>,
    r1: Seq<(usize, usize)>,
    e1: Seq<u16>,
    p2: Seq<Option<usize>>,
    r2: Seq<(usize, usize)>,
    e2: Seq<u16>,
    n: nat,
)
    requires
        forall|c: int| 0 <= c < n ==> #[trigger] p1[c] == p2[c],
        forall|c: int| 0 <= c < n ==> #[trigger] r1[c] == r2[c],
        forall|c: int| 0 <= c < n ==> (#[trigger] r1[c]).0 <= r1[c].1 <= e1.len() && r1[c].1 <= e2.len(),
        forall|i: int| 0 <= i < e1.len() && i < e2.len() ==> #[trigger] e1[i] == e2[i],
    ensures
        replay_forward(s, p1, r1, e1, n) == replay_forward(s, p2, r2, e2, n),
    decreases n,
{
    if n > 0 {
        lemma_replay_frame(s, p1, r1, e1, p2, r2, e2, (n - 1) as nat);
        let c = n - 1;
        assert(p1[c] == p2[c] && r1[c] == r2[c]);
        assert(listed_rows(e1, r1[c].0 as int, r1[c].1 as int) =~= listed_rows(
            e2,
            r2[c].0 as int,
            r2[c].1 as int,
        ));
    }
}

/// Adding a symbol into listed rows twice leaves the symbols as they were.
pub proof fn lemma_add_to_dests_twice(s: Seq<Seq<u8>>, src: int, dests: Seq<usize>, size: nat)
    requires
        uniform(s, size),
        0 <= src < s.len(),
        !listed(dests, src),
    ensures
        add_to_dests(add_to_dests(s, src, dests), src, dests) == s,
{
    let t = add_to_dests(s, src, dests);
    let u = add_to_dests(t, src, dests);
    assert(t[src] == s[src]);
    assert forall|i: int| 0 <= i < s.len() implies #[trigger] u[i] == s[i] by {
        if listed(dests, i) {
            assert(s[i].len() == size && s[src].len() == size);
            assert forall|b: int| 0 <= b < s[i].len() implies u[i][b] == s[i][b] by {
                lemma_xor_basics(s[i][b], s[src][b], 0);
            }
            assert(u[i] =~= s[i]);
        }
    }
    assert(u =~= s);
}

/// Replaying keeps every symbol `size` bytes long.
proof fn lemma_replay_uniform(
    s: Seq<Seq<u8>>,
    pivots: Seq<Option<usize>>,
    ranges: Seq<(usize, usize)>,
    entries: Seq<u16>,
    n: nat,
    size: nat,
)
    requires
        uniform(s, size),
        recorded_ok(pivots, ranges, entries, n, s.len()),
    ensures
        uniform(replay_forward(s, pivots, ranges, entries, n), size),
        replay_forward(s, pivots, ranges, entries, n).len() == s.len(),
    decreases n,
{
    if n > 0 {
        lemma_replay_uniform(s, pivots, ranges, entries, (n - 1) as nat, size);
        assert(pivots[n - 1] is Some);
        lemma_uniform_dests(
            replay_forward(s, pivots, ranges, entries, (n - 1) as nat),
            pivots[n - 1]->0 as int,
            listed_rows(entries, ranges[n - 1].0 as int, ranges[n - 1].1 as int),
            size,
        );
    }
}

/// Undoes the recorded forward symbol additions, last column first and within a column
/// last row first, bringing back the symbols as they were before elimination.
pub(crate) fn restore_binary_forward_symbols(
    symbols: &mut SymbolSlab,
    pivot_for_col: &Vec<Option<usize>>,
    forward_ranges: &Vec<(usize, usize)>,
    forward_entries: &Vec<CoefficientColumn>,
    Ghost(original): Ghost<Seq<Seq<u8>>>,
)
    requires
        old(symbols).wf(),
        original.len() == old(symbols).spec_len(),
        uniform(original, old(symbols).spec_symbol_size()),
        recorded_ok(pivot_for_col@, forward_ranges@, forward_entries@, forward_ranges@.len(), original.len()),
        old(symbols)@ == replay_forward(original, pivot_for_col@, forward_ranges@, forward_entries@, forward_ranges@.len()),
    ensures
        final(symbols).wf(),
        final(symbols).spec_symbol_size() == old(symbols).spec_symbol_size(),
        final(symbols)@ == original,
{
    let ghost size = symbols.spec_symbol_size();
    let mut col = forward_ranges.len();
    while col > 0
        invariant
            col <= forward_ranges@.len(),
            symbols.wf(),
            symbols.spec_symbol_size() == size,
            original.len() == symbols.spec_len(),
            uniform(original, size),
            recorded_ok(pivot_for_col@, forward_ranges@, forward_entries@, forward_ranges@.len(), original.len()),
            symbols@ == replay_forward(original, pivot_for_col@, forward_ranges@, forward_entries@, col as nat),
        decreases col,
    {
        col -= 1;
        let pivot = pivot_for_col[col].unwrap();
        let (start, end) = forward_ranges[col];
        let ghost before = replay_forward(original, pivot_for_col@, forward_ranges@, forward_entries@, col as nat);
        let ghost d = listed_rows(forward_entries@, start as int, end as int);
        proof {
            assert(recorded_ok(pivot_for_col@, forward_ranges@, forward_entries@, col as nat, original.len()));
            lemma_replay_uniform(original, pivot_for_col@, forward_ranges@, forward_entries@, col as nat, size);
            assert(!listed(d, pivot as int)) by {
                if listed(d, pivot as int) {
                    let t = choose|t: int| 0 <= t < d.len() && d[t] as int == pivot as int;
                    assert(d[t] != pivot_for_col@[col as int]->0);
                }
            }
            assert(d.len() == end - start);
            assert(d.subrange(0, end - start) =~= d);
            assert(symbols@ == add_to_dests(before, pivot as int, d));
        }
        let mut j = end;
        while j > start
            invariant
                start <= j <= end,
                end <= forward_entries@.len(),
                d == listed_rows(forward_entries@, start as int, end as int),
                symbols.wf(),
                symbols.spec_symbol_size() == size,
                original.len() == symbols.spec_len(),
                uniform(before, size),
                before.len() == original.len(),
                pivot < original.len(),
                !listed(d, pivot as int),
                forall|i: int| 0 <= i < d.len() ==> #[trigger] d[i] < original.len() && d[i] != pivot,
                forall|i: int, i2: int| 0 <= i < i2 < d.len() ==> d[i] != d[i2],
                symbols@ == add_to_dests(before, pivot as int, d.subrange(0, j - start)),
            decreases j - start,
        {
            j -= 1;
            let row = coefficient_col_index(forward_entries[j]);
            let ghost part = d.subrange(0, j - start);
            proof {
                assert(d[j - start] == row);
                assert(d.subrange(0, j + 1 - start) =~= part.push(row));
                assert(!listed(part, row as int)) by {
                    if listed(part, row as int) {
                        let t = choose|t: int| 0 <= t < part.len() && part[t] as int == row as int;
                        assert(d[t] == d[j - start]);
                    }
                }
                assert(!listed(part, pivot as int)) by {
                    if listed(part, pivot as int) {
                        let t = choose|t: int| 0 <= t < part.len() && part[t] as int == pivot as int;
                        assert(d[t] == part[t]);
                    }
                }
                lemma_add_to_dests_push(before, pivot as int, part, row);
            }
            add_symbol_into(symbols, row, pivot);
            proof {
                let t = add_to_dests(before, pivot as int, part);
                lemma_uniform_dests(before, pivot as int, part, size);
                assert(t[pivot as int] == before[pivot as int]);
                assert(t[row as int].len() == size && t[pivot as int].len() == size);
                let once = add_symbol(t, row as int, pivot as int);
                let twice = add_symbol(once, row as int, pivot as int);
                assert(twice[row as int] =~= t[row as int]) by {
                    assert forall|b: int| 0 <= b < size implies twice[row as int][b] == t[row as int][b] by {
                        lemma_xor_basics(t[row as int][b], t[pivot as int][b], 0);
                    }
                }
                assert(twice =~= t);
                assert(symbols@.len() == symbols.spec_len());
            }
        }
        proof {
            assert(d.subrange(0, 0) =~= Seq::<usize>::empty());
            lemma_add_to_dests_empty(before, pivot as int);
        }
    }
}

} // verus!

verus! {

/// Recording a column's additions: its range follows the earlier ones and lists the rows
/// the pivot symbol went into, and replaying one column more gives the symbols after it.
proof fn lemma_record_column(
    s0: Seq<Seq<u8>>,
    pivots: Seq<Option<usize>>,
    ranges_before: Seq<(usize, usize)>,
    entries_start: Seq<u16>,
    ranges: Seq<(usize, usize)>,
    entries: Seq<u16>,
    col: nat,
    sym_start: Seq<Seq<u8>>,
    pivot: usize,
    cur: Seq<usize>,
    height: nat,
)
    requires
        recorded_ok(pivots, ranges_before, entries_start, col, height),
        ranges_before.len() == col,
        forall|c: int| 0 <= c < col ==> (#[trigger] ranges_before[c]).1 <= entries_start.len(),
        ranges == ranges_before.push((entries_start.len() as usize, entries.len() as usize)),
        entries.len() <= usize::MAX,
        entries_start.len() <= entries.len(),
        entries.subrange(0, entries_start.len() as int) == entries_start,
        listed_rows(entries, entries_start.len() as int, entries.len() as int) == cur,
        pivots.len() > col,
        pivots[col as int] == Some(pivot),
        pivot < height,
        forall|i: int| 0 <= i < cur.len() ==> #[trigger] cur[i] < height && cur[i] != pivot,
        forall|i: int, j: int| 0 <= i < j < cur.len() ==> cur[i] != cur[j],
        sym_start == replay_forward(s0, pivots, ranges_before, entries_start, col),
    ensures
        recorded_ok(pivots, ranges, entries, col + 1, height),
        replay_forward(s0, pivots, ranges, entries, col + 1) == add_to_dests(sym_start, pivot as int, cur),
        forall|c: int| 0 <= c < col + 1 ==> (#[trigger] ranges[c]).1 <= entries.len(),
{
    assert forall|i: int| 0 <= i < entries_start.len() && i < entries.len() implies #[trigger] entries_start[i] == entries[i] by {
        assert(entries.subrange(0, entries_start.len() as int)[i] == entries[i]);
    }
    assert forall|c: int| 0 <= c < col implies (#[trigger] ranges_before[c]).0 <= ranges_before[c].1 <= entries_start.len()
        && ranges_before[c].1 <= entries.len() by {
        assert(pivots[c] is Some);
    }
    assert forall|c: int| 0 <= c < col implies #[trigger] ranges_before[c] == ranges[c] by {}
    lemma_replay_frame(s0, pivots, ranges_before, entries_start, pivots, ranges, entries, col);
    assert(ranges[col as int] == (entries_start.len() as usize, entries.len() as usize));
    assert forall|c: int| 0 <= c < col + 1 implies {
        let d = listed_rows(entries, ranges[c].0 as int, ranges[c].1 as int);
        &&& (#[trigger] pivots[c]) is Some
        &&& pivots[c]->0 < height
        &&& ranges[c].0 <= ranges[c].1 <= entries.len()
        &&& forall|i: int| 0 <= i < d.len() ==> #[trigger] d[i] < height && d[i] != pivots[c]->0
        &&& forall|i: int, j: int| 0 <= i < j < d.len() ==> d[i] != d[j]
    } by {
        if c < col {
            assert(ranges[c] == ranges_before[c]);
            let d0 = listed_rows(entries_start, ranges_before[c].0 as int, ranges_before[c].1 as int);
            let d = listed_rows(entries, ranges[c].0 as int, ranges[c].1 as int);
            assert(d =~= d0);
        }
    }
}

} // verus!
