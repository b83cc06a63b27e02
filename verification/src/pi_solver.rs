//! Gaussian elimination over GF(256) on sparse coefficient rows, with the right-hand
//! side symbols updated alongside and, on request, every symbol operation recorded.

use crate::linear_system::{
    coefficient,
    lemma_solves_elim,
    lemma_solves_identity,
    lemma_solves_scale,
    lemma_solves_swap,
    lemma_solves_elim_back,
    lemma_solves_scale_back,
    lemma_solves_swap_back,
    lemma_inconsistent_row,
    lemma_no_unique_solution,
    row_view,
    solves,
    unique_solution,
};
use crate::octet::{
    Octet,
    gf_mul_spec,
    lemma_gf_mul_commutative,
    lemma_gf_mul_distributive_left,
    lemma_gf_mul_identities,
    lemma_gf_mul_nonzero,
};
use crate::octets::{
    all_zero,
    bytes_are_zero,
    fused_add_seq,
    fused_addassign_mul_scalar,
    mulassign_scalar,
    scale_seq,
};
use crate::operation_vector::{
    SymbolOps,
    batch_effect,
    batch_valid,
    fused_add_symbols,
    lemma_batch_zero_source,
    op_effect,
    op_valid,
    ops_effect,
    uniform,
};
use crate::sparse_spec::{
    all_at_or_above,
    all_below,
    canonical,
    coeff,
    entry_coeff,
    lemma_coeff_absent,
    lemma_coeff_concat,
    lemma_coeff_lookup,
    lemma_coeff_push,
    lemma_xor_basics,
    nonzero_values,
    strictly_sorted,
};
use crate::symbol_slab::{
    SymbolSlab,
    lemma_after_get_disjoint_mut,
    lemma_after_get_mut,
    lemma_symbol_len,
};
use vstd::prelude::*;
use crate::sparse_spec::lemma_xor_regroup;

verus! {

/// A column index of a coefficient row.
pub type CoefficientColumn = u16;

/// A sparse row of GF(256) coefficients, sorted by column, without stored zeros.
pub type CoefficientRow = Vec<(u16, Octet)>;

/// Below this width the scanning solver picks the first usable pivot instead of the
/// lightest one.
pub const LIGHTEST_PIVOT_MIN_WIDTH: usize = 64;

/// From this width on the solver that does not record keeps rows in buckets by leading column.
pub const COEFFICIENT_BUCKET_SOLVER_MIN_WIDTH: usize = 512;

/// The largest number of intermediate symbols of any source block allowed by RFC 6330
/// (56403 source symbols, 907 LDPC and 16 HDPC symbols).
pub const MAX_SUPPORTED_INTERMEDIATE_SYMBOLS: u32 = 57326;

/// From this width on a recording solve only eliminates below the pivots and
/// back-substitutes at the end.
pub const TRIANGULAR_RECORDING_MIN_WIDTH: usize = 57327;

/// A coefficient row is canonical and all its columns are below `width`.
pub open spec fn row_ok(r: Seq<(u16, Octet)>, width: nat) -> bool {
    &&& canonical(row_view(r))
    &&& forall|i: int| 0 <= i < r.len() ==> (#[trigger] r[i]).0 < width
}

/// Every row is canonical with columns below `width`.
pub open spec fn rows_ok(rows: Seq<Vec<(u16, Octet)>>, width: nat) -> bool {
    forall|i: int| 0 <= i < rows.len() ==> row_ok(#[trigger] rows[i]@, width)
}

/// The column of a coefficient row entry.
pub fn coefficient_col(col: usize) -> (r: CoefficientColumn)
    requires
        col <= u16::MAX,
    ensures
        r == col,
{
    col as u16
}

/// The index of a coefficient column.
pub fn coefficient_col_index(col: CoefficientColumn) -> (r: usize)
    ensures
        r == col,
{
    col as usize
}

/// Whether the solver records the symbol operations it performs.
#[derive(Clone, Copy, Debug, PartialEq, Eq, Structural)]
pub enum OperationRecording {
    Record,
    Skip,
}

impl OperationRecording {
    /// An empty operation list when recording, none otherwise.
    pub fn new_ops(self) -> (r: Option<Vec<SymbolOps>>)
        ensures
            r matches Some(v) ==> v@.len() == 0,
            r is Some <==> self is Record,
    {
        match self {
            OperationRecording::Record => Some(Vec::new()),
            OperationRecording::Skip => None,
        }
    }
}

/// The first index whose column is at least `start` (columns sorted).
fn row_partition_point(row: &CoefficientRow, start: u16) -> (p: usize)
    requires
        strictly_sorted(row_view(row@)),
    ensures
        p <= row@.len(),
        forall|i: int| 0 <= i < p ==> (#[trigger] row@[i]).0 < start,
        forall|i: int| p <= i < row@.len() ==> (#[trigger] row@[i]).0 >= start,
{
    let ghost v = row_view(row@);
    let mut lo: usize = 0;
    let mut hi: usize = row.len();
    while lo < hi
        invariant
            lo <= hi <= row@.len(),
            v == row_view(row@),
            strictly_sorted(v),
            forall|i: int| 0 <= i < lo ==> (#[trigger] row@[i]).0 < start,
            forall|i: int| hi <= i < row@.len() ==> (#[trigger] row@[i]).0 >= start,
        decreases hi - lo,
    {
        let mid = lo + (hi - lo) / 2;
        if row[mid].0 < start {
            proof {
                assert forall|i: int| 0 <= i <= mid implies (#[trigger] row@[i]).0 < start by {
                    if i < mid {
                        assert(v[i].0 < v[mid as int].0);
                    }
                }
            }
            lo = mid + 1;
        } else {
            proof {
                assert forall|i: int| mid <= i < row@.len() implies (#[trigger] row@[i]).0
                    >= start by {
                    if i > mid {
                        assert(v[mid as int].0 < v[i].0);
                    }
                }
            }
            hi = mid;
        }
    }
    lo
}

/// Whether every byte of a symbol is zero.
pub fn symbol_is_zero(symbol: &[u8]) -> (r: bool)
    ensures
        r == all_zero(symbol@),
{
    bytes_are_zero(symbol)
}

/// The coefficient of column `col`, zero where the row has no entry.
pub fn coefficient_at(row: &CoefficientRow, col: usize) -> (r: Octet)
    requires
        canonical(row_view(row@)),
        col <= u16::MAX,
    ensures
        r@ == coeff(row_view(row@), col as int),
{
    let ghost v = row_view(row@);
    proof {
        lemma_coeff_lookup(v, col as int);
    }
    let col = coefficient_col(col);
    let n = row.len();
    if n == 0 {
        return Octet::zero();
    }
    let (first_col, first_value) = row[0];
    if first_col == col {
        proof {
            assert(v[0].0 == col);
        }
        return first_value;
    }
    if first_col > col || row[n - 1].0 < col {
        proof {
            assert(v[0].0 == first_col);
            assert(v[n - 1].0 == row@[n - 1].0);
            assert forall|i: int| 0 <= i < v.len() implies v[i].0 != col by {
                assert(v[i].0 == row@[i].0);
                assert(v.len() == n);
                if first_col > col {
                    if i > 0 {
                        assert(v[0].0 < v[i].0);
                    }
                } else {
                    assert(row@[n - 1].0 < col);
                    if i < n - 1 {
                        assert(v[i].0 < v[n - 1].0);
                    }
                }
            }
        }
        return Octet::zero();
    }
    let index = row_partition_point(row, col);
    if index < n && row[index].0 == col {
        proof {
            assert(v[index as int].0 == col);
        }
        row[index].1
    } else {
        proof {
            assert forall|i: int| 0 <= i < v.len() implies v[i].0 != col by {
                assert(row@[i].0 == v[i].0);
                if i > index {
                    assert(v[index as int].0 < v[i].0);
                    assert(row@[index as int].0 == v[index as int].0);
                }
            }
        }
        Octet::zero()
    }
}

/// Looks up `value` in a multiplication table.
fn multiply_with_table(value: Octet, table: &Vec<u8>, scalar: Ghost<u8>) -> (r: Octet)
    requires
        table@.len() == 256,
        forall|v: int| 0 <= v < 256 ==> table@[v] == gf_mul_spec(scalar@, v as u8),
    ensures
        r@ == gf_mul_spec(scalar@, value@),
{
    Octet::new(table[value.value() as usize])
}

/// Multiplies every coefficient at or after `start_col` by `scalar`.
pub fn scale_matrix_row(row: &mut CoefficientRow, start_col: usize, scalar: Octet)
    requires
        canonical(row_view(old(row)@)),
        start_col <= u16::MAX,
        scalar@ != 0,
    ensures
        canonical(row_view(final(row)@)),
        final(row)@.len() == old(row)@.len(),
        forall|i: int| 0 <= i < old(row)@.len() ==> (#[trigger] final(row)@[i]).0 == old(row)@[i].0,
        forall|c: int| #[trigger]
            coeff(row_view(final(row)@), c) == if c < start_col {
                coeff(row_view(old(row)@), c)
            } else {
                gf_mul_spec(coeff(row_view(old(row)@), c), scalar@)
            },
{
    let ghost old_v = row_view(row@);
    let ghost old_row = row@;
    let start_col = coefficient_col(start_col);
    let n = row.len();
    let start = if n > 0 && row[0].0 >= start_col {
        proof {
            assert forall|i: int| 0 <= i < n implies (#[trigger] row@[i]).0 >= start_col by {
                if i > 0 {
                    assert(old_v[0].0 < old_v[i].0);
                }
            }
        }
        0
    } else {
        row_partition_point(row, start_col)
    };
    let table = scalar.mul_table();
    let mut i = start;
    while i < n
        invariant
            start <= i <= n,
            n == row@.len(),
            n == old_row.len(),
            scalar@ != 0,
            table@.len() == 256,
            forall|v: int| 0 <= v < 256 ==> table@[v] == gf_mul_spec(scalar@, v as u8),
            forall|j: int| 0 <= j < n ==> (#[trigger] row@[j]).0 == old_row[j].0,
            forall|j: int| 0 <= j < start ==> #[trigger] row@[j] == old_row[j],
            forall|j: int|
                start <= j < i ==> (#[trigger] row@[j]).1@ == gf_mul_spec(old_row[j].1@, scalar@),
            forall|j: int| i <= j < n ==> #[trigger] row@[j] == old_row[j],
            old_v == row_view(old_row),
            canonical(old_v),
            forall|j: int| 0 <= j < start ==> (#[trigger] old_row[j]).0 < start_col,
            forall|j: int| start <= j < n ==> (#[trigger] old_row[j]).0 >= start_col,
        decreases n - i,
    {
        let (c, v) = row[i];
        let scaled = multiply_with_table(v, &table, Ghost(scalar@));
        proof {
            lemma_gf_mul_commutative(scalar@, v@);
        }
        row.set(i, (c, scaled));
        i += 1;
    }
    proof {
        let new_v = row_view(row@);
        assert forall|j: int| 0 <= j < n implies #[trigger] new_v[j].1 != 0 by {
            if j >= start {
                lemma_gf_mul_nonzero(old_v[j].1, scalar@);
            }
        }
        assert(canonical(new_v)) by {
            assert forall|a: int, b: int| 0 <= a < b < new_v.len() implies new_v[a].0
                < new_v[b].0 by {
                assert(new_v[a].0 == old_v[a].0 && new_v[b].0 == old_v[b].0);
            }
        }
        assert forall|c: int| #[trigger]
            coeff(new_v, c) == if c < start_col {
                coeff(old_v, c)
            } else {
                gf_mul_spec(coeff(old_v, c), scalar@)
            } by {
            lemma_coeff_lookup(old_v, c);
            lemma_coeff_lookup(new_v, c);
            lemma_gf_mul_identities(scalar@);
            if forall|j: int| 0 <= j < n ==> old_v[j].0 != c {
                assert forall|j: int| 0 <= j < n implies new_v[j].0 != c by {
                    assert(new_v[j].0 == old_v[j].0);
                }
            } else {
                let j = choose|j: int| 0 <= j < n && old_v[j].0 == c;
                assert(new_v[j].0 == c);
            }
        }
    }
}

/// A canonical row has all its columns below `w` exactly when every coefficient from `w`
/// on is zero.
pub proof fn lemma_row_bound(r: Seq<(u16, Octet)>, w: int)
    requires
        canonical(row_view(r)),
    ensures
        (forall|i: int| 0 <= i < r.len() ==> (#[trigger] r[i]).0 < w) <==> (forall|c: int|
            c >= w ==> #[trigger] coeff(row_view(r), c) == 0),
{
    let v = row_view(r);
    if forall|i: int| 0 <= i < r.len() ==> (#[trigger] r[i]).0 < w {
        assert forall|c: int| c >= w implies #[trigger] coeff(v, c) == 0 by {
            assert forall|i: int| 0 <= i < v.len() implies v[i].0 != c by {
                assert(r[i].0 < w);
            }
            lemma_coeff_absent(v, c);
        }
    }
    if forall|c: int| c >= w ==> #[trigger] coeff(v, c) == 0 {
        assert forall|i: int| 0 <= i < r.len() implies (#[trigger] r[i]).0 < w by {
            let c = v[i].0;
            lemma_coeff_lookup(v, c);
            if c >= w {
                assert(coeff(v, c) == 0);
            }
        }
    }
}

proof fn lemma_split_coeff(s: Seq<(int, u8)>, p: int, col: int)
    requires
        0 <= p <= s.len(),
    ensures
        coeff(s, col) == coeff(s.subrange(0, p), col) ^ coeff(s.subrange(p, s.len() as int), col),
{
    assert(s =~= s.subrange(0, p) + s.subrange(p, s.len() as int));
    lemma_coeff_concat(s.subrange(0, p), s.subrange(p, s.len() as int), col);
}

proof fn lemma_scaled_entry(e: (int, u8), scalar: u8, c: int)
    ensures
        gf_mul_spec(entry_coeff(e, c), scalar) == entry_coeff((e.0, gf_mul_spec(e.1, scalar)), c),
{
    lemma_gf_mul_identities(scalar);
}

proof fn lemma_xor_swap(a: u8, b: u8, e: u8)
    ensures
        (a ^ b) ^ e == (a ^ e) ^ b,
{
    lemma_xor_regroup(a, e, b, 0);
}

proof fn lemma_push_sorted(m: Seq<(int, u8)>, e: (int, u8))
    requires
        strictly_sorted(m),
        m.len() > 0 ==> m.last().0 < e.0,
    ensures
        strictly_sorted(m.push(e)),
{
    let mm = m.push(e);
    assert forall|a: int, b: int| 0 <= a < b < mm.len() implies mm[a].0 < mm[b].0 by {
        if b == mm.len() - 1 && a < b {
            assert(m[a].0 <= m.last().0);
        }
    }
}

/// Adds `scalar` times the coefficients of `src` at or after `start_col` into `dest`,
/// merging through `scratch`.
pub fn add_scaled_matrix_row(
    dest: &mut CoefficientRow,
    src: &CoefficientRow,
    start_col: usize,
    scalar: Octet,
    scratch: &mut CoefficientRow,
)
    requires
        canonical(row_view(old(dest)@)),
        canonical(row_view(src@)),
        start_col <= u16::MAX,
    ensures
        canonical(row_view(final(dest)@)),
        forall|c: int| #[trigger]
            coeff(row_view(final(dest)@), c) == coeff(row_view(old(dest)@), c) ^ (if c
                >= start_col {
                gf_mul_spec(coeff(row_view(src@), c), scalar@)
            } else {
                0u8
            }),
{
    let ghost d = row_view(dest@);
    let ghost sv = row_view(src@);
    if scalar.is_zero() {
        proof {
            assert forall|c: int| #[trigger] coeff(row_view(dest@), c) == coeff(d, c) ^ (if c
                >= start_col {
                gf_mul_spec(coeff(sv, c), scalar@)
            } else {
                0u8
            }) by {
                lemma_gf_mul_identities(coeff(sv, c));
                lemma_xor_basics(coeff(d, c), 0, 0);
            }
        }
        return ;
    }
    let start = coefficient_col(start_col);
    let table = scalar.mul_table();
    let dlen = dest.len();
    let slen = src.len();
    scratch.clear();
    let mut di: usize = 0;
    let mut si = if slen > 0 && src[0].0 >= start {
        proof {
            assert forall|i: int| 0 <= i < slen implies (#[trigger] src@[i]).0 >= start by {
                if i > 0 {
                    assert(sv[0].0 < sv[i].0);
                }
            }
        }
        0
    } else {
        row_partition_point(src, start)
    };
    let ghost si0 = si;
    proof {
        assert(row_view(scratch@) =~= Seq::<(int, u8)>::empty());
        assert forall|c: int| #[trigger] coeff(row_view(scratch@), c) == coeff(d.subrange(0, 0), c)
            ^ gf_mul_spec(coeff(sv.subrange(si0 as int, si0 as int), c), scalar@) by {
            assert(d.subrange(0, 0) =~= Seq::<(int, u8)>::empty());
            assert(sv.subrange(si0 as int, si0 as int) =~= Seq::<(int, u8)>::empty());
            lemma_gf_mul_identities(scalar@);
            lemma_xor_basics(0, 0, 0);
        }
    }
    while di < dlen || si < slen
        invariant
            d == row_view(dest@),
            sv == row_view(src@),
            dlen == d.len(),
            slen == sv.len(),
            canonical(d),
            canonical(sv),
            scalar@ != 0,
            table@.len() == 256,
            forall|v: int| 0 <= v < 256 ==> table@[v] == gf_mul_spec(scalar@, v as u8),
            di <= dlen,
            si0 <= si <= slen,
            forall|j: int| 0 <= j < si0 ==> (#[trigger] src@[j]).0 < start,
            forall|j: int| si0 <= j < slen ==> (#[trigger] src@[j]).0 >= start,
            canonical(row_view(scratch@)),
            forall|c: int| #[trigger]
                coeff(row_view(scratch@), c) == coeff(d.subrange(0, di as int), c) ^ gf_mul_spec(
                    coeff(sv.subrange(si0 as int, si as int), c),
                    scalar@,
                ),
            scratch@.len() > 0 ==> (di < dlen ==> row_view(scratch@).last().0 < d[di as int].0),
            scratch@.len() > 0 ==> (si < slen ==> row_view(scratch@).last().0 < sv[si as int].0),
        decreases (dlen - di) + (slen - si),
    {
        let ghost m = row_view(scratch@);
        let ghost old_di = di;
        let ghost old_si = si;
        let take_dest;
        let take_src;
        if di < dlen && si < slen {
            let dc = dest[di].0;
            let sc = src[si].0;
            take_dest = dc <= sc;
            take_src = sc <= dc;
        } else {
            take_dest = di < dlen;
            take_src = si < slen;
        }
        if take_dest && take_src {
            let (col, dv) = dest[di];
            let sval = src[si].1;
            let product = multiply_with_table(sval, &table, Ghost(scalar@));
            let value = dv.add(product);
            let ghost e = (col as int, value@);
            let ghost de = d[di as int];
            let ghost se = sv[si as int];
            proof {
                lemma_gf_mul_commutative(scalar@, sval@);
            }
            if !value.is_zero() {
                scratch.push((col, value));
                proof {
                    assert(row_view(scratch@) =~= m.push(e));
                }
            }
            di += 1;
            si += 1;
            proof {
                assert(d.subrange(0, di as int) =~= d.subrange(0, old_di as int).push(de));
                assert(sv.subrange(si0 as int, si as int) =~= sv.subrange(
                    si0 as int,
                    old_si as int,
                ).push(se));
                assert forall|c: int| #[trigger]
                    coeff(row_view(scratch@), c) == coeff(d.subrange(0, di as int), c)
                        ^ gf_mul_spec(coeff(sv.subrange(si0 as int, si as int), c), scalar@) by {
                    let a = coeff(d.subrange(0, old_di as int), c);
                    let b = coeff(sv.subrange(si0 as int, old_si as int), c);
                    lemma_coeff_push(d.subrange(0, old_di as int), de, c);
                    lemma_coeff_push(sv.subrange(si0 as int, old_si as int), se, c);
                    lemma_gf_mul_distributive_left(b, entry_coeff(se, c), scalar@);
                    lemma_scaled_entry(se, scalar@, c);
                    let x = entry_coeff(de, c);
                    let y = entry_coeff((se.0, gf_mul_spec(se.1, scalar@)), c);
                    let gb = gf_mul_spec(b, scalar@);
                    lemma_xor_regroup(a, x, gb, y);
                    assert(de.0 == col as int && se.0 == col as int);
                    assert(de.1 == dv@ && se.1 == sval@);
                    if value@ != 0 {
                        lemma_coeff_push(m, e, c);
                        lemma_xor_basics(0, 0, 0);
                        assert(entry_coeff(e, c) == x ^ y);
                    } else {
                        assert(x ^ y == 0u8) by {
                            if de.0 == c {
                                lemma_xor_basics(de.1, gf_mul_spec(se.1, scalar@), 0);
                            } else {
                                lemma_xor_basics(0, 0, 0);
                            }
                        }
                        lemma_xor_basics(a ^ gb, 0, 0);
                    }
                }
                if di < dlen {
                    assert(d[old_di as int].0 < d[di as int].0);
                }
                if si < slen {
                    assert(sv[old_si as int].0 < sv[si as int].0);
                }
                if value@ != 0 {
                    lemma_push_sorted(m, e);
                }
            }
        } else if take_dest {
            let e_exec = dest[di];
            let ghost de = d[di as int];
            scratch.push(e_exec);
            di += 1;
            proof {
                assert(row_view(scratch@) =~= m.push(de));
                assert(d.subrange(0, di as int) =~= d.subrange(0, old_di as int).push(de));
                assert forall|c: int| #[trigger]
                    coeff(row_view(scratch@), c) == coeff(d.subrange(0, di as int), c)
                        ^ gf_mul_spec(coeff(sv.subrange(si0 as int, si as int), c), scalar@) by {
                    lemma_coeff_push(m, de, c);
                    lemma_coeff_push(d.subrange(0, old_di as int), de, c);
                    lemma_xor_swap(
                        coeff(d.subrange(0, old_di as int), c),
                        gf_mul_spec(coeff(sv.subrange(si0 as int, si as int), c), scalar@),
                        entry_coeff(de, c),
                    );
                }
                if di < dlen {
                    assert(d[old_di as int].0 < d[di as int].0);
                }
                lemma_push_sorted(m, de);
            }
        } else {
            let (col, sval) = src[si];
            let product = multiply_with_table(sval, &table, Ghost(scalar@));
            let ghost se = sv[si as int];
            let ghost e = (col as int, product@);
            scratch.push((col, product));
            si += 1;
            proof {
                lemma_gf_mul_commutative(scalar@, sval@);
                lemma_gf_mul_nonzero(se.1, scalar@);
                assert(row_view(scratch@) =~= m.push(e));
                assert(sv.subrange(si0 as int, si as int) =~= sv.subrange(
                    si0 as int,
                    old_si as int,
                ).push(se));
                assert forall|c: int| #[trigger]
                    coeff(row_view(scratch@), c) == coeff(d.subrange(0, di as int), c)
                        ^ gf_mul_spec(coeff(sv.subrange(si0 as int, si as int), c), scalar@) by {
                    let a = coeff(d.subrange(0, di as int), c);
                    let b = coeff(sv.subrange(si0 as int, old_si as int), c);
                    lemma_coeff_push(m, e, c);
                    lemma_coeff_push(sv.subrange(si0 as int, old_si as int), se, c);
                    lemma_gf_mul_distributive_left(b, entry_coeff(se, c), scalar@);
                    lemma_scaled_entry(se, scalar@, c);
                    let gb = gf_mul_spec(b, scalar@);
                    let y = entry_coeff(e, c);
                    lemma_xor_basics(a, gb, y);
                }
                if si < slen {
                    assert(sv[old_si as int].0 < sv[si as int].0);
                }
                lemma_push_sorted(m, e);
            }
        }
    }
    core::mem::swap(dest, scratch);
    proof {
        assert(d.subrange(0, dlen as int) =~= d);
        assert forall|c: int| #[trigger] coeff(row_view(dest@), c) == coeff(d, c) ^ (if c
            >= start_col {
            gf_mul_spec(coeff(sv, c), scalar@)
        } else {
            0u8
        }) by {
            let tail = sv.subrange(si0 as int, slen as int);
            lemma_split_coeff(sv, si0 as int, c);
            if c >= start_col {
                assert forall|j: int| 0 <= j < sv.subrange(0, si0 as int).len() implies sv.subrange(
                    0,
                    si0 as int,
                )[j].0 != c by {
                    assert(src@[j].0 < start);
                }
                lemma_coeff_absent(sv.subrange(0, si0 as int), c);
                lemma_xor_basics(coeff(tail, c), 0, 0);
            } else {
                assert forall|j: int| 0 <= j < tail.len() implies tail[j].0 != c by {
                    assert(src@[si0 + j].0 >= start);
                }
                lemma_coeff_absent(tail, c);
                lemma_gf_mul_identities(scalar@);
            }
        }
    }
}

/// Adds the coefficients of `src` at or after `start_col` into `dest`.
pub fn add_unscaled_matrix_row(
    dest: &mut CoefficientRow,
    src: &CoefficientRow,
    start_col: usize,
    scratch: &mut CoefficientRow,
)
    requires
        canonical(row_view(old(dest)@)),
        canonical(row_view(src@)),
        start_col <= u16::MAX,
    ensures
        canonical(row_view(final(dest)@)),
        forall|c: int| #[trigger]
            coeff(row_view(final(dest)@), c) == coeff(row_view(old(dest)@), c) ^ (if c
                >= start_col {
                coeff(row_view(src@), c)
            } else {
                0u8
            }),
{
    let one = Octet::one();
    add_scaled_matrix_row(dest, src, start_col, one, scratch);
    proof {
        assert forall|c: int| #[trigger]
            coeff(row_view(dest@), c) == coeff(row_view(old(dest)@), c) ^ (if c >= start_col {
                coeff(row_view(src@), c)
            } else {
                0u8
            }) by {
            lemma_gf_mul_identities(coeff(row_view(src@), c));
        }
    }
}

} // verus!

verus! {

/// The number of entries of a row whose column is below `col`.
pub open spec fn cols_below(r: Seq<(u16, Octet)>, col: int) -> nat
    decreases r.len(),
{
    if r.len() == 0 {
        0
    } else {
        cols_below(r.drop_last(), col) + (if r.last().0 < col {
            1nat
        } else {
            0nat
        })
    }
}

/// The number of entries of a row at or after column `col`.
pub open spec fn suffix_len(r: Seq<(u16, Octet)>, col: int) -> int {
    r.len() - cols_below(r, col)
}

proof fn lemma_cols_below(r: Seq<(u16, Octet)>, col: int, p: int)
    requires
        0 <= p <= r.len(),
        forall|j: int| 0 <= j < p ==> (#[trigger] r[j]).0 < col,
        forall|j: int| p <= j < r.len() ==> (#[trigger] r[j]).0 >= col,
    ensures
        cols_below(r, col) == p,
    decreases r.len(),
{
    if r.len() > 0 {
        let q = r.drop_last();
        if p == r.len() {
            assert forall|j: int| 0 <= j < p - 1 implies (#[trigger] q[j]).0 < col by {
                assert(q[j] == r[j]);
            }
            lemma_cols_below(q, col, p - 1);
            assert(r.last() == r[p - 1]);
        } else {
            assert forall|j: int| 0 <= j < p implies (#[trigger] q[j]).0 < col by {
                assert(q[j] == r[j]);
            }
            assert forall|j: int| p <= j < q.len() implies (#[trigger] q[j]).0 >= col by {
                assert(q[j] == r[j]);
            }
            lemma_cols_below(q, col, p);
            assert(r.last() == r[r.len() - 1]);
        }
    }
}

/// The coefficient of column `col` and the number of entries from that column on, when the
/// coefficient is nonzero.
pub fn pivot_value_and_suffix_len(row: &CoefficientRow, col: usize) -> (r: Option<(Octet, usize)>)
    requires
        canonical(row_view(row@)),
        col <= u16::MAX,
    ensures
        r matches Some((v, s)) ==> v@ == coeff(row_view(row@), col as int) && v@ != 0 && s
            == suffix_len(row@, col as int),
        r is None ==> coeff(row_view(row@), col as int) == 0,
{
    let ghost v = row_view(row@);
    proof {
        lemma_coeff_lookup(v, col as int);
    }
    let c = coefficient_col(col);
    let n = row.len();
    if n > 0 {
        let (entry_col, value) = row[0];
        if entry_col == c {
            proof {
                assert forall|j: int| 0 <= j < n implies (#[trigger] row@[j]).0 >= c by {
                    if j > 0 {
                        assert(v[0].0 < v[j].0);
                    }
                }
                lemma_cols_below(row@, col as int, 0);
                assert(v[0].0 == c);
                assert(v[0].1 != 0);
            }
            return Some((value, n));
        }
        if entry_col > c {
            proof {
                assert forall|j: int| 0 <= j < v.len() implies v[j].0 != col by {
                    if j > 0 {
                        assert(v[0].0 < v[j].0);
                    }
                }
            }
            return None;
        }
    }
    let index = row_partition_point(row, c);
    proof {
        lemma_cols_below(row@, col as int, index as int);
    }
    if index < n && row[index].0 == c {
        proof {
            assert(v[index as int].0 == col);
            assert(v[index as int].1 != 0);
        }
        Some((row[index].1, n - index))
    } else {
        proof {
            assert forall|j: int| 0 <= j < v.len() implies v[j].0 != col by {
                assert(row@[j].0 == v[j].0);
                if j > index {
                    assert(v[index as int].0 < v[j].0);
                    assert(row@[index as int].0 == v[index as int].0);
                }
            }
        }
        None
    }
}

/// Chooses the pivot row for column `col` among rows `start_row..height`: the first row
/// with a nonzero coefficient when recording or for narrow systems, otherwise the row with
/// the fewest entries from `col` on, preferring a unit coefficient among equals.
pub fn select_pivot_row(
    rows: &Vec<CoefficientRow>,
    start_row: usize,
    height: usize,
    width: usize,
    col: usize,
    recording: OperationRecording,
) -> (r: Option<(usize, Octet)>)
    requires
        start_row <= height <= rows@.len(),
        forall|i: int| 0 <= i < rows@.len() ==> canonical(row_view(#[trigger] rows@[i]@)),
        col <= u16::MAX,
    ensures
        r is None ==> forall|i: int|
            start_row <= i < height ==> #[trigger] coefficient(rows@, i, col as int) == 0,
        r matches Some((p, v)) ==> {
            &&& start_row <= p < height
            &&& v@ == coefficient(rows@, p as int, col as int)
            &&& v@ != 0
            &&& (recording is Record || width < LIGHTEST_PIVOT_MIN_WIDTH) ==> forall|i: int|
                start_row <= i < p ==> #[trigger] coefficient(rows@, i, col as int) == 0
            &&& !(recording is Record || width < LIGHTEST_PIVOT_MIN_WIDTH) ==> {
                &&& forall|i: int|
                    start_row <= i < height && #[trigger] coefficient(rows@, i, col as int) != 0
                        ==> suffix_len(rows@[p as int]@, col as int) <= suffix_len(
                        rows@[i]@,
                        col as int,
                    )
                &&& forall|i: int|
                    start_row <= i < p && #[trigger] coefficient(rows@, i, col as int) != 0
                        && suffix_len(rows@[i]@, col as int) == suffix_len(
                        rows@[p as int]@,
                        col as int,
                    ) ==> v@ == 1 && coefficient(rows@, i, col as int) != 1
                &&& forall|i: int|
                    p < i < height && #[trigger] coefficient(rows@, i, col as int) != 0
                        && suffix_len(rows@[i]@, col as int) == suffix_len(
                        rows@[p as int]@,
                        col as int,
                    ) ==> !(coefficient(rows@, i, col as int) == 1 && v@ != 1)
            }
        },
{
    if recording == OperationRecording::Record || width < LIGHTEST_PIVOT_MIN_WIDTH {
        let mut row = start_row;
        while row < height
            invariant
                start_row <= row <= height <= rows@.len(),
                forall|i: int| 0 <= i < rows@.len() ==> canonical(row_view(#[trigger] rows@[i]@)),
                col <= u16::MAX,
                forall|i: int| start_row <= i < row ==> #[trigger] coefficient(rows@, i, col as int) == 0,
                recording is Record || width < LIGHTEST_PIVOT_MIN_WIDTH,
            decreases height - row,
        {
            let value = coefficient_at(&rows[row], col);
            if !value.is_zero() {
                return Some((row, value));
            }
            row += 1;
        }
        return None;
    }
    let mut best: Option<usize> = None;
    let mut best_suffix_len: usize = usize::MAX;
    let mut best_value = Octet::zero();
    let mut row = start_row;
    while row < height
        invariant
            start_row <= row <= height <= rows@.len(),
            forall|i: int| 0 <= i < rows@.len() ==> canonical(row_view(#[trigger] rows@[i]@)),
            col <= u16::MAX,
            best is None ==> forall|i: int|
                start_row <= i < row ==> #[trigger] coefficient(rows@, i, col as int) == 0,
            best matches Some(b) ==> {
                &&& start_row <= b < row
                &&& best_value@ == coefficient(rows@, b as int, col as int)
                &&& best_value@ != 0
                &&& best_suffix_len == suffix_len(rows@[b as int]@, col as int)
                &&& forall|i: int|
                    start_row <= i < row && #[trigger] coefficient(rows@, i, col as int) != 0
                        ==> best_suffix_len <= suffix_len(rows@[i]@, col as int)
                &&& forall|i: int|
                    start_row <= i < b && #[trigger] coefficient(rows@, i, col as int) != 0
                        && suffix_len(rows@[i]@, col as int) == best_suffix_len ==> best_value@
                        == 1 && coefficient(rows@, i, col as int) != 1
                &&& forall|i: int|
                    b < i < row && #[trigger] coefficient(rows@, i, col as int) != 0 && suffix_len(
                        rows@[i]@,
                        col as int,
                    ) == best_suffix_len ==> !(coefficient(rows@, i, col as int) == 1
                        && best_value@ != 1)
            },
        decreases height - row,
    {
        match pivot_value_and_suffix_len(&rows[row], col) {
            None => {},
            Some((value, suffix_len)) => {
                if best.is_none() || suffix_len < best_suffix_len || (suffix_len == best_suffix_len
                    && value.value() == 1 && best_value.value() != 1) {
                    best = Some(row);
                    best_suffix_len = suffix_len;
                    best_value = value;
                }
            },
        }
        row += 1;
    }
    match best {
        Some(b) => Some((b, best_value)),
        None => None,
    }
}

/// Exchanges rows `a` and `b`.
fn swap_rows(rows: &mut Vec<CoefficientRow>, a: usize, b: usize)
    requires
        a < old(rows)@.len(),
        b < old(rows)@.len(),
    ensures
        final(rows)@ == old(rows)@.update(a as int, old(rows)@[b as int]).update(
            b as int,
            old(rows)@[a as int],
        ),
{
    let ghost r0 = rows@;
    if a == b {
        proof {
            assert(r0.update(a as int, r0[b as int]).update(b as int, r0[a as int]) =~= r0);
        }
        return ;
    }
    let mut tmp: CoefficientRow = Vec::new();
    let ghost empty = tmp;
    core::mem::swap(&mut tmp, &mut rows[a]);
    let ghost r1 = rows@;
    assert(tmp == r0[a as int]);
    assert(r1 == r0.update(a as int, empty));
    core::mem::swap(&mut tmp, &mut rows[b]);
    let ghost r2 = rows@;
    assert(tmp == r0[b as int]);
    assert(r2 == r1.update(b as int, r0[a as int]));
    core::mem::swap(&mut tmp, &mut rows[a]);
    proof {
        assert(rows@ =~= r0.update(a as int, r0[b as int]).update(b as int, r0[a as int]));
    }
}

/// Copies `src` into `dest` byte by byte.
fn copy_bytes(dest: &mut [u8], src: &[u8])
    requires
        old(dest)@.len() == src@.len(),
    ensures
        final(dest)@ == src@,
{
    let n = dest.len();
    let mut i: usize = 0;
    while i < n
        invariant
            n == dest@.len(),
            n == src@.len(),
            i <= n,
            forall|j: int| 0 <= j < i ==> dest@[j] == src@[j],
        decreases n - i,
    {
        dest[i] = src[i];
        i += 1;
    }
    proof {
        assert(dest@ =~= src@);
    }
}

/// Overwrites symbol `dest` of `slab` with `value`.
pub(crate) fn copy_symbol(slab: &mut SymbolSlab, dest: usize, value: &[u8])
    requires
        old(slab).wf(),
        dest < old(slab).spec_len(),
        value@.len() == old(slab).spec_symbol_size(),
    ensures
        final(slab).wf(),
        final(slab).spec_symbol_size() == old(slab).spec_symbol_size(),
        final(slab).spec_len() == old(slab).spec_len(),
        final(slab)@ == old(slab)@.update(dest as int, value@),
{
    let ghost s0 = *slab;
    proof {
        lemma_symbol_len(s0, dest as int);
    }
    copy_bytes(slab.get_mut(dest), value);
    proof {
        lemma_after_get_mut(s0, *slab, dest as int, value@);
    }
}

/// Records the additions of one pivot's symbol into the collected destinations: nothing
/// for none, a single fused add for one, a batch for more; the collection is emptied.
pub fn push_recorded_fused_add_ops(
    ops: &mut Option<Vec<SymbolOps>>,
    src: usize,
    batch: &mut Vec<(usize, Octet)>,
)
    ensures
        final(batch)@.len() == 0,
        (*old(ops)) is None ==> (*final(ops)) is None,
        (*old(ops)) matches Some(v) ==> (*final(ops)) matches Some(w) && (if old(batch)@.len() == 0 {
            w@ == v@
        } else if old(batch)@.len() == 1 {
            w@ == v@.push(
                SymbolOps::FusedAdd {
                    dest: old(batch)@[0].0,
                    src,
                    scalar: old(batch)@[0].1,
                },
            )
        } else {
            w@ == v@.push(SymbolOps::FusedAddBatch { src, dests: *old(batch) })
        }),
{
    match ops {
        None => {
            batch.clear();
        },
        Some(ops) => {
            let n = batch.len();
            if n == 0 {
            } else if n == 1 {
                let (dest, scalar) = batch[0];
                ops.push(SymbolOps::FusedAdd { dest, src, scalar });
                batch.clear();
            } else {
                let mut dests: Vec<(usize, Octet)> = Vec::new();
                core::mem::swap(&mut dests, batch);
                ops.push(SymbolOps::FusedAddBatch { src, dests });
            }
        },
    }
}

} // verus!

verus! {

/// The coefficients of a pivot row for column `col`: one there, zero before it.
pub open spec fn is_pivot_for(r: Seq<(u16, Octet)>, col: int) -> bool {
    &&& coeff(row_view(r), col) == 1
    &&& forall|c: int| 0 <= c < col ==> #[trigger] coeff(row_view(r), c) == 0
}

/// A row has no coefficients at negative columns.
pub proof fn lemma_negative_cols(r: Seq<(u16, Octet)>)
    ensures
        forall|c: int| c < 0 ==> #[trigger] coeff(row_view(r), c) == 0,
{
    assert forall|c: int| c < 0 implies #[trigger] coeff(row_view(r), c) == 0 by {
        assert forall|j: int| 0 <= j < row_view(r).len() implies row_view(r)[j].0 != c by {}
        lemma_coeff_absent(row_view(r), c);
    }
}

/// A slab whose bytes are all zero holds only zero symbols.
proof fn lemma_zero_slab(s: SymbolSlab)
    requires
        s.wf(),
        all_zero(s.spec_bytes()),
    ensures
        crate::operation_vector::all_symbols_zero(s@),
{
    assert forall|k: int| 0 <= k < s@.len() implies all_zero(#[trigger] s@[k]) by {
        s.lemma_symbol_bounds(k);
        let size = s.spec_symbol_size();
        assert forall|j: int| 0 <= j < s@[k].len() implies s@[k][j] == 0 by {
            assert(s@[k][j] == s.spec_bytes()[k * size + j]);
        }
    }
}

/// The symbols of a slab are all `symbol_size` bytes long.
pub(crate) proof fn lemma_slab_uniform(s: SymbolSlab)
    requires
        s.wf(),
    ensures
        uniform(s@, s.spec_symbol_size()),
{
    assert forall|k: int| 0 <= k < s@.len() implies #[trigger] s@[k].len() == s.spec_symbol_size() by {
        lemma_symbol_len(s, k);
    }
}

/// Removes column `col` from row `row` by adding a multiple of the pivot row, and adds
/// the same multiple of the pivot's symbol to the row's symbol when `update_symbols`.
pub(crate) fn eliminate_with_pivot(
    rows: &mut Vec<CoefficientRow>,
    symbols: &mut SymbolSlab,
    pivot: &CoefficientRow,
    pivot_row: usize,
    row: usize,
    col: usize,
    update_symbols: bool,
    scratch: &mut CoefficientRow,
) -> (factor: Octet)
    requires
        row < old(rows)@.len(),
        old(symbols).wf(),
        row < old(symbols).spec_len(),
        pivot_row < old(symbols).spec_len(),
        row != pivot_row,
        col <= u16::MAX,
        canonical(row_view(old(rows)@[row as int]@)),
        canonical(row_view(pivot@)),
        is_pivot_for(pivot@, col as int),
    ensures
        factor@ == coefficient(old(rows)@, row as int, col as int),
        final(rows)@.len() == old(rows)@.len(),
        forall|i: int| 0 <= i < old(rows)@.len() && i != row ==> #[trigger] final(rows)@[i] == old(
            rows,
        )@[i],
        canonical(row_view(final(rows)@[row as int]@)),
        forall|c: int| #[trigger]
            coefficient(final(rows)@, row as int, c) == coefficient(old(rows)@, row as int, c)
                ^ gf_mul_spec(coeff(row_view(pivot@), c), factor@),
        final(symbols).wf(),
        final(symbols).spec_symbol_size() == old(symbols).spec_symbol_size(),
        final(symbols)@ == (if update_symbols {
            fused_add_symbols(old(symbols)@, row as int, pivot_row as int, factor@)
        } else {
            old(symbols)@
        }),
        factor@ == 0 ==> final(rows)@ == old(rows)@,
        final(symbols).spec_len() == old(symbols).spec_len(),
{
    let ghost r0 = rows@;
    let factor = coefficient_at(&rows[row], col);
    if factor.is_zero() {
        proof {
            assert forall|c: int| #[trigger] coefficient(rows@, row as int, c) == coefficient(
                r0,
                row as int,
                c,
            ) ^ gf_mul_spec(coeff(row_view(pivot@), c), factor@) by {
                lemma_gf_mul_identities(coeff(row_view(pivot@), c));
                lemma_xor_basics(coefficient(r0, row as int, c), 0, 0);
            }
        }
        return factor;
    }
    add_scaled_matrix_row(&mut rows[row], pivot, col, factor, scratch);
    proof {
        lemma_negative_cols(pivot@);
        assert forall|c: int| #[trigger] coefficient(rows@, row as int, c) == coefficient(
            r0,
            row as int,
            c,
        ) ^ gf_mul_spec(coeff(row_view(pivot@), c), factor@) by {
            if c < col {
                assert(coeff(row_view(pivot@), c) == 0);
                lemma_gf_mul_identities(factor@);
            }
        }
    }
    if update_symbols {
        let ghost s0 = *symbols;
        proof {
            lemma_symbol_len(s0, row as int);
            lemma_symbol_len(s0, pivot_row as int);
        }
        let (pivot_symbol, dest_symbol) = symbols.get_disjoint_mut(pivot_row, row);
        fused_addassign_mul_scalar(dest_symbol, pivot_symbol, &factor);
        proof {
            let x = s0@[row as int];
            let y = s0@[pivot_row as int];
            lemma_after_get_disjoint_mut(
                s0,
                *symbols,
                pivot_row as int,
                y,
                row as int,
                fused_add_seq(x, y, factor@),
            );
            assert(s0@.update(pivot_row as int, y) =~= s0@);
        }
    }
    factor
}

/// The first `width` symbols of `symbols`, copied into a new slab.
fn decoded_prefix(symbols: &SymbolSlab, width: usize) -> (r: SymbolSlab)
    requires
        symbols.wf(),
        width <= symbols.spec_len(),
    ensures
        r.wf(),
        r.spec_symbol_size() == symbols.spec_symbol_size(),
        r@ == symbols@.subrange(0, width as int),
{
    let size = symbols.symbol_size();
    let _ = symbols.as_bytes().len();
    proof {
        if width > 0 {
            symbols.lemma_symbol_bounds(width - 1);
            assert(width * size == (width - 1) * size + size) by (nonlinear_arith);
        }
    }
    let mut decoded = SymbolSlab::with_zeros(width, size);
    let mut row: usize = 0;
    while row < width
        invariant
            symbols.wf(),
            width <= symbols.spec_len(),
            size == symbols.spec_symbol_size(),
            decoded.wf(),
            decoded.spec_symbol_size() == size,
            decoded.spec_len() == width,
            row <= width,
            forall|j: int| 0 <= j < row ==> #[trigger] decoded@[j] == symbols@[j],
        decreases width - row,
    {
        proof {
            lemma_symbol_len(*symbols, row as int);
        }
        copy_symbol(&mut decoded, row, symbols.get(row));
        row += 1;
    }
    proof {
        assert(decoded@ =~= symbols@.subrange(0, width as int));
    }
    decoded
}

} // verus!

verus! {

/// Rows before `col` are unit rows on the columns before `col`; later rows are zero there.
pub open spec fn reduced_before(rows: Seq<Vec<(u16, Octet)>>, col: int) -> bool {
    &&& forall|i: int, c: int|
        0 <= i < col && 0 <= c < col ==> #[trigger] coefficient(rows, i, c) == (if c == i {
            1u8
        } else {
            0u8
        })
    &&& forall|i: int, c: int|
        col <= i < rows.len() && 0 <= c < col ==> #[trigger] coefficient(rows, i, c) == 0
}

/// What elimination keeps true: the current system has exactly the solutions of the
/// original one, the recorded operations turn the original symbols into the current ones, and
/// symbol updates are skipped only while all symbols are zero.
pub open spec fn solver_state(
    rows: Seq<Vec<(u16, Octet)>>,
    symbols: SymbolSlab,
    ops: Option<Vec<SymbolOps>>,
    symbols_are_zero: bool,
    orig_rows: Seq<Vec<(u16, Octet)>>,
    orig_symbols: Seq<Seq<u8>>,
    width: nat,
    size: nat,
) -> bool {
    &&& symbols.wf()
    &&& symbols.spec_symbol_size() == size
    &&& symbols.spec_len() == rows.len()
    &&& rows_ok(rows, width)
    &&& forall|x: Seq<Seq<u8>>| #[trigger]
        solves(rows, symbols@, x, width, size) ==> solves(orig_rows, orig_symbols, x, width, size)
    &&& forall|x: Seq<Seq<u8>>| #[trigger]
        solves(orig_rows, orig_symbols, x, width, size) ==> solves(rows, symbols@, x, width, size)
    &&& ops matches Some(v) ==> ops_valid(v@, orig_symbols) && ops_effect(v@, orig_symbols)
        == symbols@
    &&& symbols_are_zero ==> crate::operation_vector::all_symbols_zero(symbols@) && symbols@
        == orig_symbols
}

/// When the current system of an elimination has no solution, or more than one, so does
/// the original system.
pub(crate) proof fn lemma_state_no_unique(
    rows: Seq<Vec<(u16, Octet)>>,
    symbols: SymbolSlab,
    ops: Option<Vec<SymbolOps>>,
    symbols_are_zero: bool,
    orig_rows: Seq<Vec<(u16, Octet)>>,
    orig_symbols: Seq<Seq<u8>>,
    width: nat,
    size: nat,
)
    requires
        solver_state(rows, symbols, ops, symbols_are_zero, orig_rows, orig_symbols, width, size),
        forall|x: Seq<Seq<u8>>| #[trigger]
            solves(rows, symbols@, x, width, size) ==> exists|y: Seq<Seq<u8>>|
                #[trigger] solves(rows, symbols@, y, width, size) && y != x,
    ensures
        !unique_solution(orig_rows, orig_symbols, width, size),
{
    if unique_solution(orig_rows, orig_symbols, width, size) {
        let x = choose|x: Seq<Seq<u8>>|
            #![trigger solves(orig_rows, orig_symbols, x, width, size)]
            solves(orig_rows, orig_symbols, x, width, size) && forall|y: Seq<Seq<u8>>|
                #![trigger solves(orig_rows, orig_symbols, y, width, size)]
                solves(orig_rows, orig_symbols, y, width, size) ==> y == x;
        assert(solves(rows, symbols@, x, width, size));
        let y = choose|y: Seq<Seq<u8>>| #[trigger] solves(rows, symbols@, y, width, size) && y != x;
        assert(solves(orig_rows, orig_symbols, y, width, size));
    }
}

/// A canonical row with columns below `width` and no coefficient below `width` is empty.
proof fn lemma_zero_row_empty(r: Seq<(u16, Octet)>, width: nat)
    requires
        row_ok(r, width),
        forall|c: int| 0 <= c < width ==> #[trigger] coeff(row_view(r), c) == 0,
    ensures
        r.len() == 0,
{
    if r.len() > 0 {
        let v = row_view(r);
        lemma_coeff_lookup(v, v[0].0);
        assert(r[0].0 < width);
        assert(coeff(v, v[0].0) == v[0].1);
    }
}

/// A row past the width whose coefficients below the width are all zero, and that is
/// not empty or has a nonzero right-hand side, leaves no unique solution.
proof fn lemma_extra_row_no_unique(
    rows: Seq<Vec<(u16, Octet)>>,
    symbols: SymbolSlab,
    ops: Option<Vec<SymbolOps>>,
    symbols_are_zero: bool,
    orig_rows: Seq<Vec<(u16, Octet)>>,
    orig_symbols: Seq<Seq<u8>>,
    width: nat,
    size: nat,
    row: int,
)
    requires
        solver_state(rows, symbols, ops, symbols_are_zero, orig_rows, orig_symbols, width, size),
        width <= row < rows.len(),
        forall|c: int| 0 <= c < width ==> #[trigger] coefficient(rows, row, c) == 0,
        rows[row]@.len() != 0 || !all_zero(symbols@[row]),
    ensures
        !unique_solution(orig_rows, orig_symbols, width, size),
{
    assert(row_ok(rows[row]@, width));
    if rows[row]@.len() != 0 {
        assert forall|c: int| 0 <= c < width implies #[trigger] coeff(row_view(rows[row]@), c) == 0 by {
            assert(coefficient(rows, row, c) == 0);
        }
        lemma_zero_row_empty(rows[row]@, width);
    }
    let k = choose|k: int| 0 <= k < symbols@[row].len() && symbols@[row][k] != 0;
    lemma_symbol_len(symbols, row);
    lemma_inconsistent_row(rows, symbols@, row, k, width, size);
    lemma_state_no_unique(
        rows,
        symbols,
        ops,
        symbols_are_zero,
        orig_rows,
        orig_symbols,
        width,
        size,
    );
}

use crate::operation_vector::{all_symbols_zero, lemma_op_on_zero, ops_valid};

/// Appending an operation extends the replay by that operation.
proof fn lemma_ops_push(v: Seq<SymbolOps>, op: SymbolOps, s: Seq<Seq<u8>>)
    requires
        ops_valid(v, s),
        op_valid(op, ops_effect(v, s)),
    ensures
        ops_valid(v.push(op), s),
        ops_effect(v.push(op), s) == op_effect(op, ops_effect(v, s)),
{
    assert(v.push(op).drop_last() =~= v);
}

} // verus!

verus! {

/// Moves the pivot row for column `col` to row `col` and scales it so that its
/// coefficient there is one, with the same operations on the symbols (recorded when asked).
fn place_pivot(
    rows: &mut Vec<CoefficientRow>,
    symbols: &mut SymbolSlab,
    ops: &mut Option<Vec<SymbolOps>>,
    pivot: usize,
    pivot_value: Octet,
    col: usize,
    symbols_are_zero: bool,
    Ghost(orig_rows): Ghost<Seq<Vec<(u16, Octet)>>>,
    Ghost(orig_symbols): Ghost<Seq<Seq<u8>>>,
    Ghost(width): Ghost<nat>,
    Ghost(size): Ghost<nat>,
)
    requires
        solver_state(
            old(rows)@,
            *old(symbols),
            *old(ops),
            symbols_are_zero,
            orig_rows,
            orig_symbols,
            width,
            size,
        ),
        forall|i: int, c: int|
            col <= i < old(rows)@.len() && 0 <= c < col ==> #[trigger] coefficient(old(rows)@, i, c)
                == 0,
        col <= pivot < old(rows)@.len(),
        col < width <= u16::MAX + 1,
        pivot_value@ == coefficient(old(rows)@, pivot as int, col as int),
        pivot_value@ != 0,
    ensures
        solver_state(
            final(rows)@,
            *final(symbols),
            *final(ops),
            symbols_are_zero,
            orig_rows,
            orig_symbols,
            width,
            size,
        ),
        final(rows)@.len() == old(rows)@.len(),
        forall|i: int| 0 <= i < col ==> #[trigger] final(rows)@[i] == old(rows)@[i],
        forall|i: int, c: int|
            col <= i < final(rows)@.len() && 0 <= c < col ==> #[trigger] coefficient(
                final(rows)@,
                i,
                c,
            ) == 0,
        is_pivot_for(final(rows)@[col as int]@, col as int),
        (*old(ops)) is Some <==> (*final(ops)) is Some,
{
    let ghost r0 = rows@;
    let ghost s0 = *symbols;
    proof {
        lemma_slab_uniform(s0);
    }
    if pivot != col {
        swap_rows(rows, pivot, col);
        if !symbols_are_zero {
            symbols.swap_symbols(pivot, col);
        }
        let op = SymbolOps::Swap(pivot, col);
        match ops {
            Some(v) => {
                proof {
                    lemma_ops_push(v@, op, orig_symbols);
                }
                v.push(op);
            },
            None => {},
        }
        proof {
            let r1 = rows@;
            let swapped = s0@.update(pivot as int, s0@[col as int]).update(
                col as int,
                s0@[pivot as int],
            );
            if symbols_are_zero {
                lemma_op_on_zero(op, s0@, size);
                assert(swapped == s0@);
            }
            assert(symbols@ == swapped);
            assert forall|x: Seq<Seq<u8>>| #[trigger]
                solves(r1, symbols@, x, width, size) implies solves(
                orig_rows,
                orig_symbols,
                x,
                width,
                size,
            ) by {
                lemma_solves_swap(r0, s0@, pivot as int, col as int, x, width, size);
                assert(solves(r0, s0@, x, width, size));
            }
            assert forall|x: Seq<Seq<u8>>| #[trigger]
                solves(orig_rows, orig_symbols, x, width, size) implies solves(
                r1,
                symbols@,
                x,
                width,
                size,
            ) by {
                assert(solves(r0, s0@, x, width, size));
                lemma_solves_swap_back(r0, s0@, pivot as int, col as int, x, width, size);
            }
            assert forall|i: int| 0 <= i < r1.len() implies row_ok(#[trigger] r1[i]@, width) by {
                if i == pivot {
                    assert(r1[i] == r0[col as int]);
                } else if i == col {
                    assert(r1[i] == r0[pivot as int]);
                } else {
                    assert(r1[i] == r0[i]);
                }
            }
            assert forall|i: int| 0 <= i < col implies #[trigger] r1[i] == r0[i] by {}
            assert forall|i: int, c: int| col <= i < r1.len() && 0 <= c < col implies #[trigger] coefficient(
                r1,
                i,
                c,
            ) == 0 by {
                if i == pivot {
                    assert(r1[i] == r0[col as int]);
                    assert(coefficient(r0, col as int, c) == 0);
                } else if i == col {
                    assert(r1[i] == r0[pivot as int]);
                    assert(coefficient(r0, pivot as int, c) == 0);
                } else {
                    assert(r1[i] == r0[i]);
                    assert(coefficient(r0, i, c) == 0);
                }
            }
            assert(r1[col as int] == r0[pivot as int]);
        }
    }
    let ghost r1 = rows@;
    let ghost s1 = *symbols;
    proof {
        lemma_slab_uniform(s1);
        assert(coefficient(r1, col as int, col as int) == pivot_value@);
        assert(row_ok(r1[col as int]@, width));
    }
    if pivot_value.value() != 1 {
        let scalar = pivot_value.inverse();
        proof {
            lemma_gf_mul_identities(pivot_value@);
        }
        scale_matrix_row(&mut rows[col], col, scalar);
        if !symbols_are_zero {
            proof {
                lemma_symbol_len(s1, col as int);
            }
            mulassign_scalar(symbols.get_mut(col), &scalar);
            proof {
                lemma_after_get_mut(s1, *symbols, col as int, scale_seq(s1@[col as int], scalar@));
            }
        }
        let op = SymbolOps::Scale(col, scalar);
        match ops {
            Some(v) => {
                proof {
                    lemma_ops_push(v@, op, orig_symbols);
                }
                v.push(op);
            },
            None => {},
        }
        proof {
            let r2 = rows@;
            let scaled = s1@.update(col as int, scale_seq(s1@[col as int], scalar@));
            crate::octet::lemma_gf_inverse(pivot_value@);
            if symbols_are_zero {
                lemma_op_on_zero(op, s1@, size);
                assert(scaled == s1@);
            }
            assert(symbols@ == scaled);
            let new_row = r2[col as int];
            assert forall|c: int| 0 <= c < width implies #[trigger] coeff(row_view(new_row@), c)
                == gf_mul_spec(coefficient(r1, col as int, c), scalar@) by {
                if c < col {
                    assert(coefficient(r1, col as int, c) == 0);
                    lemma_gf_mul_identities(scalar@);
                }
            }
            assert(r2 == r1.update(col as int, new_row));
            assert forall|x: Seq<Seq<u8>>| #[trigger]
                solves(r2, symbols@, x, width, size) implies solves(
                orig_rows,
                orig_symbols,
                x,
                width,
                size,
            ) by {
                lemma_solves_scale(r1, s1@, col as int, new_row, scalar@, x, width, size);
                assert(solves(r1, s1@, x, width, size));
            }
            assert forall|x: Seq<Seq<u8>>| #[trigger]
                solves(orig_rows, orig_symbols, x, width, size) implies solves(
                r2,
                symbols@,
                x,
                width,
                size,
            ) by {
                assert(solves(r1, s1@, x, width, size));
                lemma_solves_scale_back(r1, s1@, col as int, new_row, scalar@, x, width, size);
            }
            lemma_row_bound(r1[col as int]@, width as int);
            lemma_row_bound(new_row@, width as int);
            assert forall|c: int| c >= width implies #[trigger] coeff(row_view(new_row@), c) == 0 by {
                assert(coefficient(r1, col as int, c) == 0);
                lemma_gf_mul_identities(scalar@);
            }
            assert forall|i: int| 0 <= i < r2.len() implies row_ok(#[trigger] r2[i]@, width) by {
                if i != col {
                    assert(r2[i] == r1[i]);
                }
            }
            assert forall|i: int| 0 <= i < col implies #[trigger] r2[i] == r1[i] by {}
            assert forall|i: int, c: int| col <= i < r2.len() && 0 <= c < col implies #[trigger] coefficient(
                r2,
                i,
                c,
            ) == 0 by {
                if i != col {
                    assert(r2[i] == r1[i]);
                    assert(coefficient(r1, i, c) == 0);
                } else {
                    assert(coefficient(r1, col as int, c) == 0);
                    lemma_gf_mul_identities(scalar@);
                }
            }
            lemma_gf_mul_commutative(pivot_value@, scalar@);
            assert(coeff(row_view(new_row@), col as int) == 1);
            assert forall|c: int| 0 <= c < col implies #[trigger] coeff(row_view(new_row@), c)
                == 0 by {
                assert(coefficient(r1, col as int, c) == 0);
                lemma_gf_mul_identities(scalar@);
            }
            assert(rows@[col as int] == new_row);
        }
    } else {
        proof {
            assert(coeff(row_view(r1[col as int]@), col as int) == 1);
            assert forall|c: int| 0 <= c < col implies #[trigger] coeff(
                row_view(r1[col as int]@),
                c,
            ) == 0 by {
                assert(coefficient(r1, col as int, c) == 0);
            }
        }
    }
}

} // verus!

verus! {

/// Clears column `col` from every row but the pivot row `col`, with the matching symbol
/// additions, and records them as one batch when recording.
fn eliminate_pivot_column(
    rows: &mut Vec<CoefficientRow>,
    symbols: &mut SymbolSlab,
    ops: &mut Option<Vec<SymbolOps>>,
    col: usize,
    first_row: usize,
    symbols_are_zero: bool,
    row_merge_scratch: &mut CoefficientRow,
    fused_add_batch: &mut Vec<(usize, Octet)>,
    Ghost(orig_rows): Ghost<Seq<Vec<(u16, Octet)>>>,
    Ghost(orig_symbols): Ghost<Seq<Seq<u8>>>,
    Ghost(width): Ghost<nat>,
    Ghost(size): Ghost<nat>,
)
    requires
        solver_state(
            old(rows)@,
            *old(symbols),
            *old(ops),
            symbols_are_zero,
            orig_rows,
            orig_symbols,
            width,
            size,
        ),
        is_pivot_for(old(rows)@[col as int]@, col as int),
        col < old(rows)@.len(),
        first_row <= old(rows)@.len(),
        col < width <= u16::MAX + 1,
    ensures
        solver_state(
            final(rows)@,
            *final(symbols),
            *final(ops),
            symbols_are_zero,
            orig_rows,
            orig_symbols,
            width,
            size,
        ),
        final(rows)@.len() == old(rows)@.len(),
        final(rows)@[col as int] == old(rows)@[col as int],
        forall|i: int| 0 <= i < first_row && i != col ==> #[trigger] final(rows)@[i] == old(
            rows,
        )@[i],
        forall|i: int| first_row <= i < old(rows)@.len() && i != col ==> #[trigger] coefficient(
            final(rows)@,
            i,
            col as int,
        ) == 0,
        forall|i: int, c: int|
            first_row <= i < old(rows)@.len() && i != col && 0 <= c < col ==> #[trigger] coefficient(
                final(rows)@,
                i,
                c,
            ) == coefficient(old(rows)@, i, c),
        (*old(ops)) is Some <==> (*final(ops)) is Some,
        final(fused_add_batch)@.len() == 0,
{
    let ghost r0 = rows@;
    let ghost s0 = *symbols;
    proof {
        lemma_slab_uniform(s0);
    }
    let height = rows.len();
    let mut pivot_coefficients: CoefficientRow = Vec::new();
    core::mem::swap(&mut pivot_coefficients, &mut rows[col]);
    fused_add_batch.clear();
    proof {
        assert(rows@.update(col as int, pivot_coefficients) =~= r0);
        assert(fused_add_batch@ =~= Seq::<(usize, Octet)>::empty());
    }
    let mut row: usize = first_row;
    while row < height
        invariant
            rows@.len() == height,
            r0.len() == height,
            col < height,
            col < width <= u16::MAX + 1,
            pivot_coefficients == r0[col as int],
            is_pivot_for(pivot_coefficients@, col as int),
            rows_ok(r0, width),
            first_row <= row <= height,
            forall|i: int| 0 <= i < first_row && i != col ==> #[trigger] rows@[i] == r0[i],
            forall|i: int| row <= i < height && i != col ==> #[trigger] rows@[i] == r0[i],
            forall|i: int|
                first_row <= i < row && i != col ==> row_ok(#[trigger] rows@[i]@, width)
                    && coefficient(rows@, i, col as int) == 0,
            forall|i: int, c: int|
                first_row <= i < row && i != col && 0 <= c < col ==> #[trigger] coefficient(
                    rows@,
                    i,
                    c,
                ) == coefficient(r0, i, c),
            symbols.wf(),
            symbols.spec_symbol_size() == size,
            symbols.spec_len() == height,
            s0.wf(),
            s0.spec_symbol_size() == size,
            s0.spec_len() == height,
            uniform(s0@, size),
            uniform(symbols@, size),
            symbols@[col as int] == s0@[col as int],
            symbols@ == batch_effect(s0@, col as int, fused_add_batch@),
            forall|j: int|
                0 <= j < fused_add_batch@.len() ==> (#[trigger] fused_add_batch@[j]).0 < height
                    && fused_add_batch@[j].0 != col && fused_add_batch@[j].1@ != 0,
            forall|x: Seq<Seq<u8>>| #[trigger]
                solves(rows@.update(col as int, pivot_coefficients), symbols@, x, width, size)
                    ==> solves(r0, s0@, x, width, size),
            forall|x: Seq<Seq<u8>>| #[trigger]
                solves(r0, s0@, x, width, size) ==> solves(
                    rows@.update(col as int, pivot_coefficients),
                    symbols@,
                    x,
                    width,
                    size,
                ),
            symbols_are_zero ==> symbols@ == s0@ && all_symbols_zero(s0@),
        decreases height - row,
    {
        if row != col {
            let ghost rb = rows@;
            let ghost sb = *symbols;
            proof {
                assert(rb[row as int] == r0[row as int]);
                assert(row_ok(r0[row as int]@, width));
            }
            let factor = eliminate_with_pivot(
                rows,
                symbols,
                &pivot_coefficients,
                col,
                row,
                col,
                !symbols_are_zero,
                row_merge_scratch,
            );
            let ghost bb = fused_add_batch@;
            if !factor.is_zero() {
                fused_add_batch.push((row, factor));
            }
            proof {
                let lb = rb.update(col as int, pivot_coefficients);
                let la = rows@.update(col as int, pivot_coefficients);
                let new_row = rows@[row as int];
                assert(la == lb.update(row as int, new_row));
                assert(coefficient(rb, row as int, col as int) == coefficient(r0, row as int, col as int));
                // the row's coefficient at the pivot column is now zero
                lemma_gf_mul_identities(factor@);
                lemma_xor_basics(factor@, 0, 0);
                assert(coefficient(rows@, row as int, col as int) == 0);
                assert forall|c: int| 0 <= c < col implies #[trigger] coefficient(rows@, row as int, c)
                    == coefficient(r0, row as int, c) by {
                    assert(coeff(row_view(pivot_coefficients@), c) == 0);
                    lemma_xor_basics(coefficient(r0, row as int, c), 0, 0);
                }
                // columns stay below the width
                lemma_row_bound(r0[row as int]@, width as int);
                lemma_row_bound(pivot_coefficients@, width as int);
                assert forall|c: int| c >= width implies #[trigger] coeff(row_view(new_row@), c) == 0 by {
                    assert(coefficient(rows@, row as int, c) == coefficient(rb, row as int, c)
                        ^ gf_mul_spec(coeff(row_view(pivot_coefficients@), c), factor@));
                    assert(coefficient(rb, row as int, c) == 0);
                    assert(coeff(row_view(pivot_coefficients@), c) == 0);
                    lemma_xor_basics(0, 0, 0);
                }
                lemma_row_bound(new_row@, width as int);
                // the symbols follow the batch
                assert(sb@[col as int] == s0@[col as int]);
                if factor@ != 0 {
                    assert(fused_add_batch@.drop_last() =~= bb);
                }
                if symbols_are_zero {
                    lemma_batch_zero_source(s0@, col as int, fused_add_batch@, size);
                    crate::operation_vector::lemma_fused_add_zero(
                        sb@[row as int],
                        sb@[col as int],
                        factor@,
                    );
                    assert(sb@.update(row as int, fused_add_seq(sb@[row as int], sb@[col as int], factor@))
                        =~= sb@);
                }
                assert(uniform(symbols@, size)) by {
                    assert forall|k: int| 0 <= k < symbols@.len() implies #[trigger] symbols@[k].len()
                        == size by {
                        lemma_symbol_len(*symbols, k);
                    }
                }
                // every solution of the new system solves the old one
                assert forall|x: Seq<Seq<u8>>| #[trigger]
                    solves(la, symbols@, x, width, size) implies solves(r0, s0@, x, width, size) by {
                    if factor@ != 0 {
                        assert forall|c: int| 0 <= c < width implies #[trigger] coeff(
                            row_view(new_row@),
                            c,
                        ) == coefficient(lb, row as int, c) ^ gf_mul_spec(
                            coefficient(lb, col as int, c),
                            factor@,
                        ) by {
                            assert(coefficient(rows@, row as int, c) == coefficient(
                                rb,
                                row as int,
                                c,
                            ) ^ gf_mul_spec(coeff(row_view(pivot_coefficients@), c), factor@));
                            assert(lb[row as int] == rb[row as int]);
                            assert(lb[col as int] == pivot_coefficients);
                        }
                        lemma_solves_elim(lb, sb@, row as int, col as int, new_row, factor@, x, width, size);
                    } else {
                        assert(rows@ == rb);
                    }
                    assert(solves(lb, sb@, x, width, size));
                }
                // and every solution of the old system solves the new one
                assert forall|x: Seq<Seq<u8>>| #[trigger]
                    solves(r0, s0@, x, width, size) implies solves(la, symbols@, x, width, size) by {
                    assert(solves(lb, sb@, x, width, size));
                    if factor@ != 0 {
                        assert forall|c: int| 0 <= c < width implies #[trigger] coeff(
                            row_view(new_row@),
                            c,
                        ) == coefficient(lb, row as int, c) ^ gf_mul_spec(
                            coefficient(lb, col as int, c),
                            factor@,
                        ) by {
                            assert(coefficient(rows@, row as int, c) == coefficient(
                                rb,
                                row as int,
                                c,
                            ) ^ gf_mul_spec(coeff(row_view(pivot_coefficients@), c), factor@));
                            assert(lb[row as int] == rb[row as int]);
                            assert(lb[col as int] == pivot_coefficients);
                        }
                        lemma_solves_elim_back(lb, sb@, row as int, col as int, new_row, factor@, x, width, size);
                    } else {
                        assert(rows@ == rb);
                    }
                }
                assert forall|i: int| first_row <= i < row + 1 && i != col implies row_ok(
                    #[trigger] rows@[i]@,
                    width,
                ) && coefficient(rows@, i, col as int) == 0 by {
                    if i != row {
                        assert(rows@[i] == rb[i]);
                    }
                }
                assert forall|i: int| 0 <= i < first_row && i != col implies #[trigger] rows@[i]
                    == r0[i] by {
                    assert(rows@[i] == rb[i]);
                }
                assert forall|i: int, c: int| first_row <= i < row + 1 && i != col && 0 <= c < col implies #[trigger] coefficient(
                    rows@,
                    i,
                    c,
                ) == coefficient(r0, i, c) by {
                    if i != row {
                        assert(rows@[i] == rb[i]);
                        assert(coefficient(rb, i, c) == coefficient(r0, i, c));
                    }
                }
            }
        }
        row += 1;
    }
    let ghost rows_end = rows@;
    let ghost l_end = rows@.update(col as int, pivot_coefficients);
    core::mem::swap(&mut pivot_coefficients, &mut rows[col]);
    proof {
        assert(rows@ =~= l_end);
    }
    let ghost s1 = *symbols;
    let ghost batch = fused_add_batch@;
    let ghost batch_vec = *fused_add_batch;
    let ghost ops0 = *ops;
    push_recorded_fused_add_ops(ops, col, fused_add_batch);
    proof {
        let rf = rows@;
        assert forall|i: int| 0 <= i < rf.len() implies row_ok(#[trigger] rf[i]@, width) by {
            if i == col {
                assert(rf[i] == r0[col as int]);
            } else if i < first_row {
                assert(rf[i] == rows_end[i]);
            } else {
                assert(rf[i] == rows_end[i]);
            }
        }
        assert forall|x: Seq<Seq<u8>>| #[trigger]
            solves(rf, s1@, x, width, size) implies solves(
            orig_rows,
            orig_symbols,
            x,
            width,
            size,
        ) by {
            assert(solves(r0, s0@, x, width, size));
        }
        assert forall|x: Seq<Seq<u8>>| #[trigger]
            solves(orig_rows, orig_symbols, x, width, size) implies solves(rf, s1@, x, width, size) by {
            assert(solves(r0, s0@, x, width, size));
        }
        assert forall|i: int| 0 <= i < first_row && i != col implies #[trigger] rf[i] == r0[i] by {
            assert(rf[i] == rows_end[i]);
        }
        assert forall|i: int| first_row <= i < r0.len() && i != col implies #[trigger] coefficient(
            rf,
            i,
            col as int,
        ) == 0 by {
            assert(rf[i] == rows_end[i]);
        }
        assert forall|i: int, c: int|
            first_row <= i < r0.len() && i != col && 0 <= c < col implies #[trigger] coefficient(
            rf,
            i,
            c,
        ) == coefficient(r0, i, c) by {
            assert(rf[i] == rows_end[i]);
            assert(coefficient(rows_end, i, c) == coefficient(r0, i, c));
        }
        match ops0 {
            Some(v) => {
                if batch.len() == 1 {
                    let op = SymbolOps::FusedAdd { dest: batch[0].0, src: col, scalar: batch[0].1 };
                    assert(batch.drop_last() =~= Seq::<(usize, Octet)>::empty());
                    assert(batch_effect(s0@, col as int, batch.drop_last()) == s0@);
                    assert(batch.last() == batch[0]);
                    assert(op_valid(op, s0@));
                    lemma_ops_push(v@, op, orig_symbols);
                    assert(op_effect(op, s0@) == s1@);
                } else if batch.len() > 1 {
                    let op = SymbolOps::FusedAddBatch { src: col, dests: batch_vec };
                    assert(op_valid(op, s0@));
                    lemma_ops_push(v@, op, orig_symbols);
                    assert(op_effect(op, s0@) == s1@);
                }
            },
            None => {},
        }
    }
}

} // verus!

verus! {

/// What a solve promises: a returned solution satisfies every original row, and recorded
/// operations replayed on the original symbols give that solution in their first `width`
/// symbols.
pub open spec fn solve_result_ok(
    rows: Seq<Vec<(u16, Octet)>>,
    symbols: SymbolSlab,
    width: nat,
    recording: OperationRecording,
    r: (Option<SymbolSlab>, Option<Vec<SymbolOps>>),
) -> bool {
    &&& r.0 matches Some(d) ==> {
        &&& d.wf()
        &&& d.spec_symbol_size() == symbols.spec_symbol_size()
        &&& solves(rows, symbols@, d@, width, symbols.spec_symbol_size())
    }
    &&& r.0 is None ==> r.1 is None
    &&& r.0 is None ==> !unique_solution(rows, symbols@, width, symbols.spec_symbol_size())
    &&& r.0 is Some ==> unique_solution(rows, symbols@, width, symbols.spec_symbol_size())
    &&& recording is Skip ==> r.1 is None
    &&& r.1 matches Some(ops) ==> {
        &&& r.0 is Some
        &&& ops_valid(ops@, symbols@)
        &&& ops_effect(ops@, symbols@).subrange(0, width as int) == r.0->Some_0@
    }
}

/// Gauss-Jordan elimination with symbol operations recorded: every column gets a pivot
/// row, which is moved into place, scaled to one, and cleared from all other rows.
#[verifier::loop_isolation(false)]
fn solve_recording_gauss_jordan(
    rows: Vec<CoefficientRow>,
    width: usize,
    symbols: SymbolSlab,
    recording: OperationRecording,
) -> (r: (Option<SymbolSlab>, Option<Vec<SymbolOps>>))
    requires
        rows_ok(rows@, width as nat),
        width <= u16::MAX + 1,
        symbols.wf(),
        symbols.spec_len() == rows@.len(),
    ensures
        solve_result_ok(rows@, symbols, width as nat, recording, r),
        recording is Record && r.0 is Some ==> r.1 is Some,
{
    let ghost orig_rows = rows@;
    let ghost orig_symbols = symbols@;
    let ghost size = symbols.spec_symbol_size();
    let mut rows = rows;
    let mut symbols = symbols;
    let height = rows.len();
    let mut ops = recording.new_ops();
    let symbols_are_zero = recording == OperationRecording::Record && symbol_is_zero(
        symbols.as_bytes(),
    );
    let mut row_merge_scratch: CoefficientRow = Vec::new();
    let mut fused_add_batch: Vec<(usize, Octet)> = Vec::new();
    proof {
        if symbols_are_zero {
            lemma_zero_slab(symbols);
        }
        assert(ops_effect(Seq::<SymbolOps>::empty(), orig_symbols) == orig_symbols);
    }
    let mut col: usize = 0;
    while col < width
        invariant
            solver_state(
                rows@,
                symbols,
                ops,
                symbols_are_zero,
                orig_rows,
                orig_symbols,
                width as nat,
                size,
            ),
            reduced_before(rows@, col as int),
            rows@.len() == height,
            col <= width <= u16::MAX + 1,
            col <= height,
            ops is Some <==> recording is Record,
            symbols_are_zero ==> recording is Record,
        decreases width - col,
    {
        let selected = select_pivot_row(&rows, col, height, width, col, recording);
        match selected {
            None => {
                proof {
                    lemma_slab_uniform(symbols);
                    assert forall|i: int| 0 <= i < col implies coefficient(rows@, i, i) == 1 && forall|c: int|
                        0 <= c < i ==> #[trigger] coefficient(rows@, i, c) == 0 by {
                        assert(coefficient(rows@, i, i) == 1);
                    }
                    lemma_no_unique_solution(rows@, symbols@, col as int, width as nat, size);
                    lemma_state_no_unique(
                        rows@,
                        symbols,
                        ops,
                        symbols_are_zero,
                        orig_rows,
                        orig_symbols,
                        width as nat,
                        size,
                    );
                    assert(!unique_solution(orig_rows, orig_symbols, width as nat, size));
                }
                return (None, None);
            },
            Some((pivot, pivot_value)) => {
                let ghost r_start = rows@;
                place_pivot(
                    &mut rows,
                    &mut symbols,
                    &mut ops,
                    pivot,
                    pivot_value,
                    col,
                    symbols_are_zero,
                    Ghost(orig_rows),
                    Ghost(orig_symbols),
                    Ghost(width as nat),
                    Ghost(size),
                );
                let ghost r_placed = rows@;
                eliminate_pivot_column(
                    &mut rows,
                    &mut symbols,
                    &mut ops,
                    col,
                    0,
                    symbols_are_zero,
                    &mut row_merge_scratch,
                    &mut fused_add_batch,
                    Ghost(orig_rows),
                    Ghost(orig_symbols),
                    Ghost(width as nat),
                    Ghost(size),
                );
                proof {
                    let rf = rows@;
                    assert forall|i: int, c: int|
                        0 <= i < col + 1 && 0 <= c < col + 1 implies #[trigger] coefficient(
                        rf,
                        i,
                        c,
                    ) == (if c == i {
                        1u8
                    } else {
                        0u8
                    }) by {
                        if i == col {
                            assert(rf[i] == r_placed[i]);
                        } else {
                            assert(coefficient(rf, i, col as int) == 0);
                            if c < col {
                                assert(coefficient(rf, i, c) == coefficient(r_placed, i, c));
                                assert(r_placed[i] == r_start[i]);
                                assert(coefficient(r_start, i, c) == (if c == i {
                                    1u8
                                } else {
                                    0u8
                                }));
                            }
                        }
                    }
                    assert forall|i: int, c: int|
                        col + 1 <= i < rf.len() && 0 <= c < col + 1 implies #[trigger] coefficient(
                        rf,
                        i,
                        c,
                    ) == 0 by {
                        assert(coefficient(rf, i, col as int) == 0);
                        if c < col {
                            assert(coefficient(rf, i, c) == coefficient(r_placed, i, c));
                            assert(coefficient(r_placed, i, c) == 0);
                        }
                    }
                }
            },
        }
        col += 1;
    }
    let mut row = width;
    while row < height
        invariant
            width <= row <= height,
            symbols.wf(),
            symbols.spec_len() == height,
            rows@.len() == height,
            forall|j: int| width <= j < row ==> all_zero(#[trigger] symbols@[j]),
            symbols_are_zero ==> all_symbols_zero(symbols@),
            solver_state(
                rows@,
                symbols,
                ops,
                symbols_are_zero,
                orig_rows,
                orig_symbols,
                width as nat,
                size,
            ),
            reduced_before(rows@, width as int),
        decreases height - row,
    {
        if rows[row].len() != 0 || (!symbols_are_zero && !symbol_is_zero(symbols.get(row))) {
            proof {
                lemma_extra_row_no_unique(
                    rows@,
                    symbols,
                    ops,
                    symbols_are_zero,
                    orig_rows,
                    orig_symbols,
                    width as nat,
                    size,
                    row as int,
                );
            }
            return (None, None);
        }
        proof {
            if symbols_are_zero {
                assert(all_zero(symbols@[row as int]));
            }
        }
        row += 1;
    }
    let decoded = decoded_prefix(&symbols, width);
    proof {
        lemma_slab_uniform(symbols);
        lemma_solves_identity(rows@, symbols@, width as nat, size);
        let x = symbols@.subrange(0, width as int);
        assert(solves(rows@, symbols@, x, width as nat, size));
        assert(solves(orig_rows, orig_symbols, decoded@, width as nat, size));
        assert(solves(rows@, symbols@, decoded@, width as nat, size));
        let piv = |c: int| c;
        assert forall|c: int| 0 <= c < width implies 0 <= #[trigger] piv(c) < rows@.len() && coefficient(
            rows@,
            piv(c),
            c,
        ) != 0 by {
            assert(coefficient(rows@, c, c) == 1);
        }
        assert forall|c: int, c2: int| 0 <= c2 < c < width implies #[trigger] coefficient(rows@, piv(c), c2) == 0 by {
            assert(coefficient(rows@, c, c2) == 0);
        }
        assert forall|y: Seq<Seq<u8>>| #[trigger] solves(orig_rows, orig_symbols, y, width as nat, size) implies y
            == decoded@ by {
            assert(solves(rows@, symbols@, y, width as nat, size));
            lemma_pivots_unique(rows@, piv, symbols@, decoded@, y, width as nat, size);
        }
    }
    (Some(decoded), ops)
}

} // verus!

verus! {

use crate::operation_vector::lemma_batch_step;
use crate::linear_system::{
    lemma_pivots_unique,
    entries_value,
    eval_cols,
    lemma_entries_value,
    lemma_entries_value_frame,
    lemma_entries_value_step,
    lemma_eval_add,
    lemma_eval_frame,
    lemma_eval_single,
    lemma_eval_zero,
    row_value,
};

/// Rows before `col` are pivot rows for their own index; later rows are zero before `col`.
pub open spec fn upper_before(rows: Seq<Vec<(u16, Octet)>>, col: int) -> bool {
    &&& forall|i: int| 0 <= i < col ==> is_pivot_for(#[trigger] rows[i]@, i)
    &&& forall|i: int, c: int|
        col <= i < rows.len() && 0 <= c < col ==> #[trigger] coefficient(rows, i, c) == 0
}

/// When the current system is upper triangular with unit diagonal over the first `n` rows,
/// has every solution of the original one, and `x` solves both, `x` is the original's only
/// solution.
pub(crate) proof fn lemma_upper_unique(
    rows: Seq<Vec<(u16, Octet)>>,
    rhs: Seq<Seq<u8>>,
    orig_rows: Seq<Vec<(u16, Octet)>>,
    orig_rhs: Seq<Seq<u8>>,
    x: Seq<Seq<u8>>,
    n: nat,
    size: nat,
)
    requires
        n <= rows.len(),
        forall|i: int| 0 <= i < n ==> is_pivot_for(#[trigger] rows[i]@, i),
        solves(rows, rhs, x, n, size),
        solves(orig_rows, orig_rhs, x, n, size),
        forall|y: Seq<Seq<u8>>| #[trigger] solves(orig_rows, orig_rhs, y, n, size) ==> solves(rows, rhs, y, n, size),
    ensures
        unique_solution(orig_rows, orig_rhs, n, size),
{
    let piv = |c: int| c;
    assert forall|c: int| 0 <= c < n implies 0 <= #[trigger] piv(c) < rows.len() && coefficient(rows, piv(c), c)
        != 0 by {
        assert(is_pivot_for(rows[c]@, c));
    }
    assert forall|c: int, c2: int| 0 <= c2 < c < n implies #[trigger] coefficient(rows, piv(c), c2) == 0 by {
        assert(is_pivot_for(rows[c]@, c));
        assert(coeff(row_view(rows[c]@), c2) == 0);
    }
    assert forall|y: Seq<Seq<u8>>| #[trigger] solves(orig_rows, orig_rhs, y, n, size) implies y == x by {
        assert(solves(rows, rhs, y, n, size));
        lemma_pivots_unique(rows, piv, rhs, x, y, n, size);
    }
}

/// A canonical pivot row for column `col` starts with the entry (col, 1), and every later
/// entry lies after `col`.
pub(crate) proof fn lemma_pivot_row_shape(r: Seq<(u16, Octet)>, col: int)
    requires
        canonical(row_view(r)),
        is_pivot_for(r, col),
        0 <= col,
    ensures
        r.len() > 0,
        r[0].0 == col,
        r[0].1@ == 1,
        forall|i: int| 1 <= i < r.len() ==> (#[trigger] r[i]).0 > col,
{
    let v = row_view(r);
    lemma_coeff_lookup(v, col);
    assert(exists|i: int| 0 <= i < v.len() && v[i].0 == col);
    let i0 = choose|i: int| 0 <= i < v.len() && v[i].0 == col;
    assert forall|i: int| 0 <= i < v.len() implies v[i].0 >= col by {
        if v[i].0 < col {
            lemma_coeff_lookup(v, v[i].0);
            assert(coeff(v, v[i].0) == 0);
        }
    }
    if i0 > 0 {
        assert(v[0].0 < v[i0].0);
    }
    assert(i0 == 0);
    assert forall|i: int| 1 <= i < r.len() implies (#[trigger] r[i]).0 > col by {
        assert(v[0].0 < v[i].0);
    }
}

/// Solves an upper triangular system with unit diagonal from its last row up: symbol `row`
/// is the row's right-hand side plus the already solved symbols times the row's later
/// coefficients.
fn back_substitute(rows: &Vec<CoefficientRow>, symbols: &SymbolSlab, width: usize) -> (decoded:
    SymbolSlab)
    requires
        symbols.wf(),
        width <= symbols.spec_len(),
        width <= rows@.len(),
        rows_ok(rows@, width as nat),
        forall|i: int| 0 <= i < width ==> is_pivot_for(#[trigger] rows@[i]@, i),
    ensures
        decoded.wf(),
        decoded.spec_len() == width,
        decoded.spec_symbol_size() == symbols.spec_symbol_size(),
        forall|i: int, k: int|
            0 <= i < width && 0 <= k < symbols.spec_symbol_size() ==> #[trigger] row_value(
                rows@[i]@,
                decoded@,
                k,
                width as nat,
            ) == symbols@[i][k],
{
    let size = symbols.symbol_size();
    let _ = symbols.as_bytes().len();
    proof {
        if width > 0 {
            symbols.lemma_symbol_bounds(width - 1);
            assert(width * size == (width - 1) * size + size) by (nonlinear_arith);
        }
    }
    let mut decoded = SymbolSlab::with_zeros(width, size);
    let mut row = width;
    while row > 0
        invariant
            symbols.wf(),
            width <= symbols.spec_len(),
            width <= rows@.len(),
            size == symbols.spec_symbol_size(),
            rows_ok(rows@, width as nat),
            forall|i: int| 0 <= i < width ==> is_pivot_for(#[trigger] rows@[i]@, i),
            decoded.wf(),
            decoded.spec_symbol_size() == size,
            decoded.spec_len() == width,
            row <= width,
            forall|i: int, k: int|
                row <= i < width && 0 <= k < size ==> #[trigger] row_value(
                    rows@[i]@,
                    decoded@,
                    k,
                    width as nat,
                ) == symbols@[i][k],
        decreases row,
    {
        row -= 1;
        let ghost d0 = decoded@;
        proof {
            lemma_symbol_len(*symbols, row as int);
        }
        copy_symbol(&mut decoded, row, symbols.get(row));
        let ghost d1 = decoded@;
        let ghost rv = row_view(rows@[row as int]@);
        proof {
            lemma_pivot_row_shape(rows@[row as int]@, row as int);
            assert forall|k: int| 0 <= k < size implies #[trigger] d1[row as int][k] == symbols@[row as int][k]
                ^ entries_value(rv.subrange(rv.len() as int, rv.len() as int), d1, k) by {
                assert(rv.subrange(rv.len() as int, rv.len() as int) =~= Seq::<(int, u8)>::empty());
                let b = symbols@[row as int][k];
                lemma_xor_basics(b, 0, 0);
            }
        }
        let n = rows[row].len();
        let mut j = n;
        while j > 0
            invariant
                decoded.wf(),
                decoded.spec_symbol_size() == size,
                decoded.spec_len() == width,
                row < width,
                width <= rows@.len(),
                symbols.wf(),
                width <= symbols.spec_len(),
                size == symbols.spec_symbol_size(),
                rows_ok(rows@, width as nat),
                n == rows@[row as int]@.len(),
                rv == row_view(rows@[row as int]@),
                rv.len() == n,
                rows@[row as int]@[0].0 == row,
                forall|i: int| 1 <= i < n ==> (#[trigger] rows@[row as int]@[i]).0 > row,
                1 <= j <= n,
                forall|i: int| 0 <= i < width && i != row ==> #[trigger] decoded@[i] == d1[i],
                forall|k: int|
                    0 <= k < size ==> #[trigger] decoded@[row as int][k] == symbols@[row as int][k]
                        ^ entries_value(rv.subrange(j as int, n as int), decoded@, k),
            ensures
                j == 1,
                decoded.wf(),
                decoded.spec_symbol_size() == size,
                decoded.spec_len() == width,
                forall|i: int| 0 <= i < width && i != row ==> #[trigger] decoded@[i] == d1[i],
                forall|k: int|
                    0 <= k < size ==> #[trigger] decoded@[row as int][k] == symbols@[row as int][k]
                        ^ entries_value(rv.subrange(1, n as int), decoded@, k),
            decreases j,
        {
            let (col, coefficient) = rows[row][j - 1];
            let col = col as usize;
            if col <= row {
                proof {
                    if j > 1 {
                        assert(rows@[row as int]@[j - 1].0 > row);
                    }
                }
                break;
            }
            proof {
                assert(row_ok(rows@[row as int]@, width as nat));
                assert(col < width);
                lemma_symbol_len(decoded, col as int);
                lemma_symbol_len(decoded, row as int);
            }
            let ghost da = decoded;
            let (dependent_symbol, dest_symbol) = decoded.get_disjoint_mut(col, row);
            fused_addassign_mul_scalar(dest_symbol, dependent_symbol, &coefficient);
            proof {
                let x = da@[row as int];
                let y = da@[col as int];
                lemma_after_get_disjoint_mut(
                    da,
                    decoded,
                    col as int,
                    y,
                    row as int,
                    fused_add_seq(x, y, coefficient@),
                );
                assert(da@.update(col as int, y) =~= da@);
                let db = decoded@;
                assert forall|k: int| 0 <= k < size implies #[trigger] db[row as int][k]
                    == symbols@[row as int][k] ^ entries_value(
                    rv.subrange(j - 1, n as int),
                    db,
                    k,
                ) by {
                    let tail = rv.subrange(j as int, n as int);
                    assert forall|i: int| 0 <= i < tail.len() implies da@[(#[trigger] tail[i]).0][k]
                        == db[tail[i].0][k] by {
                        assert(tail[i] == rv[j + i]);
                        assert(rows@[row as int]@[j + i].0 > row);
                    }
                    lemma_entries_value_frame(tail, da@, db, k);
                    lemma_entries_value_step(rv, j - 1, db, k);
                    assert(rv[j - 1] == (col as int, coefficient@));
                    let s = symbols@[row as int][k];
                    let e = entries_value(tail, da@, k);
                    let g = gf_mul_spec(coefficient@, y[k]);
                    lemma_xor_basics(s, e, g);
                    lemma_xor_basics(e, g, 0);
                }
            }
            j -= 1;
        }
        proof {
            let d2 = decoded@;
            // the new row is satisfied
            assert forall|k: int| 0 <= k < size implies #[trigger] row_value(
                rows@[row as int]@,
                d2,
                k,
                width as nat,
            ) == symbols@[row as int][k] by {
                assert forall|i: int| 0 <= i < rv.len() implies 0 <= (#[trigger] rv[i]).0 < width by {
                    assert(rows@[row as int]@[i].0 < width);
                }
                lemma_entries_value(rv, d2, k, width as nat);
                assert(rv.subrange(0, n as int) =~= rv);
                lemma_entries_value_step(rv, 0, d2, k);
                assert(rv[0].1 == 1);
                lemma_gf_mul_identities(d2[row as int][k]);
                let s = symbols@[row as int][k];
                let e = entries_value(rv.subrange(1, n as int), d2, k);
                lemma_xor_basics(s, e, 0);
            }
            // later rows are not affected
            assert forall|i: int, k: int|
                row + 1 <= i < width && 0 <= k < size implies #[trigger] row_value(
                rows@[i]@,
                d2,
                k,
                width as nat,
            ) == symbols@[i][k] by {
                assert(row_value(rows@[i]@, d0, k, width as nat) == symbols@[i][k]);
                let f = |c: int| coeff(row_view(rows@[i]@), c);
                assert forall|c: int| 0 <= c < width && #[trigger] f(c) != 0 implies d0[c][k]
                    == d2[c][k] by {
                    if c == row {
                        assert(is_pivot_for(rows@[i]@, i));
                    }
                }
                lemma_eval_frame(f, d0, d2, k, width as nat);
            }
        }
    }
    decoded
}

} // verus!

verus! {

/// Recording a batch of additions from `src` extends the replay by exactly that batch.
proof fn lemma_record_batch(
    v: Seq<SymbolOps>,
    w: Seq<SymbolOps>,
    src: usize,
    batch: Vec<(usize, Octet)>,
    s: Seq<Seq<u8>>,
    orig: Seq<Seq<u8>>,
)
    requires
        ops_valid(v, orig),
        ops_effect(v, orig) == s,
        0 <= src < s.len(),
        forall|j: int|
            0 <= j < batch@.len() ==> (#[trigger] batch@[j]).0 < s.len() && batch@[j].0 != src
                && batch@[j].1@ != 0,
        if batch@.len() == 0 {
            w == v
        } else if batch@.len() == 1 {
            w == v.push(SymbolOps::FusedAdd { dest: batch@[0].0, src, scalar: batch@[0].1 })
        } else {
            w == v.push(SymbolOps::FusedAddBatch { src, dests: batch })
        },
    ensures
        ops_valid(w, orig),
        ops_effect(w, orig) == batch_effect(s, src as int, batch@),
{
    if batch@.len() == 1 {
        let op = SymbolOps::FusedAdd { dest: batch@[0].0, src, scalar: batch@[0].1 };
        assert(batch@.drop_last() =~= Seq::<(usize, Octet)>::empty());
        assert(batch_effect(s, src as int, batch@.drop_last()) == s);
        assert(batch@.last() == batch@[0]);
        assert(op_valid(op, s));
        lemma_ops_push(v, op, orig);
    } else if batch@.len() > 1 {
        let op = SymbolOps::FusedAddBatch { src, dests: batch };
        assert(op_valid(op, s));
        lemma_ops_push(v, op, orig);
    }
}

/// Adds `factor` times symbol `src` into each listed destination, in order.
fn apply_fused_add_batch_to_symbols(symbols: &mut SymbolSlab, src: usize, batch: &Vec<(usize, Octet)>)
    requires
        old(symbols).wf(),
        src < old(symbols).spec_len(),
        forall|j: int|
            0 <= j < batch@.len() ==> (#[trigger] batch@[j]).0 < old(symbols).spec_len()
                && batch@[j].0 != src,
    ensures
        final(symbols).wf(),
        final(symbols).spec_symbol_size() == old(symbols).spec_symbol_size(),
        final(symbols).spec_len() == old(symbols).spec_len(),
        final(symbols)@ == batch_effect(old(symbols)@, src as int, batch@),
{
    let ghost s0 = *symbols;
    let mut i: usize = 0;
    while i < batch.len()
        invariant
            i <= batch@.len(),
            symbols.wf(),
            symbols.spec_symbol_size() == s0.spec_symbol_size(),
            symbols.spec_len() == s0.spec_len(),
            src < s0.spec_len(),
            forall|j: int|
                0 <= j < batch@.len() ==> (#[trigger] batch@[j]).0 < s0.spec_len() && batch@[j].0
                    != src,
            symbols@ == batch_effect(s0@, src as int, batch@.subrange(0, i as int)),
        decreases batch@.len() - i,
    {
        let (dest, factor) = batch[i];
        let ghost sb = *symbols;
        proof {
            lemma_symbol_len(sb, dest as int);
            lemma_symbol_len(sb, src as int);
        }
        let (src_symbol, dest_symbol) = symbols.get_disjoint_mut(src, dest);
        fused_addassign_mul_scalar(dest_symbol, src_symbol, &factor);
        proof {
            let x = sb@[dest as int];
            let y = sb@[src as int];
            lemma_after_get_disjoint_mut(
                sb,
                *symbols,
                src as int,
                y,
                dest as int,
                fused_add_seq(x, y, factor@),
            );
            assert(sb@.update(src as int, y) =~= sb@);
            assert(batch@.subrange(0, i + 1).drop_last() =~= batch@.subrange(0, i as int));
            if factor@ == 0 {
                assert forall|k: int| 0 <= k < x.len() implies #[trigger] fused_add_seq(x, y, 0u8)[k]
                    == x[k] by {
                    lemma_gf_mul_identities(y[k]);
                    lemma_xor_basics(x[k], 0, 0);
                }
                assert(fused_add_seq(x, y, 0u8) =~= x);
                assert(sb@.update(dest as int, x) =~= sb@);
            }
        }
        i += 1;
    }
    proof {
        assert(batch@.subrange(0, batch@.len() as int) =~= batch@);
    }
}

/// Forward elimination below each pivot: for every column a pivot row is chosen among the
/// rows not yet used, moved into place, scaled to one and cleared from the rows after it.
/// Leaves the first `width` rows as an upper triangle with unit diagonal.
fn forward_eliminate(
    rows: &mut Vec<CoefficientRow>,
    symbols: &mut SymbolSlab,
    ops: &mut Option<Vec<SymbolOps>>,
    width: usize,
    recording: OperationRecording,
    symbols_are_zero: bool,
    Ghost(orig_rows): Ghost<Seq<Vec<(u16, Octet)>>>,
    Ghost(orig_symbols): Ghost<Seq<Seq<u8>>>,
    Ghost(size): Ghost<nat>,
) -> (found: bool)
    requires
        solver_state(
            old(rows)@,
            *old(symbols),
            *old(ops),
            symbols_are_zero,
            orig_rows,
            orig_symbols,
            width as nat,
            size,
        ),
        upper_before(old(rows)@, 0),
        width <= u16::MAX + 1,
    ensures
        solver_state(
            final(rows)@,
            *final(symbols),
            *final(ops),
            symbols_are_zero,
            orig_rows,
            orig_symbols,
            width as nat,
            size,
        ),
        final(rows)@.len() == old(rows)@.len(),
        (*old(ops)) is Some <==> (*final(ops)) is Some,
        found ==> width <= final(rows)@.len() && upper_before(final(rows)@, width as int),
        !found ==> !unique_solution(orig_rows, orig_symbols, width as nat, size),
{
    let height = rows.len();
    let mut row_merge_scratch: CoefficientRow = Vec::new();
    let mut fused_add_batch: Vec<(usize, Octet)> = Vec::new();
    let ghost ops_some = (*ops) is Some;
    let mut col: usize = 0;
    while col < width
        invariant
            solver_state(
                rows@,
                *symbols,
                *ops,
                symbols_are_zero,
                orig_rows,
                orig_symbols,
                width as nat,
                size,
            ),
            upper_before(rows@, col as int),
            rows@.len() == height,
            height == old(rows)@.len(),
            col <= width <= u16::MAX + 1,
            col <= height,
            (*ops) is Some <==> ops_some,
            ops_some == ((*old(ops)) is Some),
        decreases width - col,
    {
        let selected = select_pivot_row(rows, col, height, width, col, recording);
        match selected {
            None => {
                proof {
                    lemma_slab_uniform(*symbols);
                    assert forall|i: int| 0 <= i < col implies coefficient(rows@, i, i) == 1 && forall|c: int|
                        0 <= c < i ==> #[trigger] coefficient(rows@, i, c) == 0 by {
                        assert(is_pivot_for(rows@[i]@, i));
                        assert forall|c: int| 0 <= c < i implies #[trigger] coefficient(rows@, i, c) == 0 by {
                            assert(coeff(row_view(rows@[i]@), c) == 0);
                        }
                    }
                    lemma_no_unique_solution(rows@, symbols@, col as int, width as nat, size);
                    lemma_state_no_unique(
                        rows@,
                        *symbols,
                        *ops,
                        symbols_are_zero,
                        orig_rows,
                        orig_symbols,
                        width as nat,
                        size,
                    );
                }
                return false;
            },
            Some((pivot, pivot_value)) => {
                let ghost r_start = rows@;
                place_pivot(
                    rows,
                    symbols,
                    ops,
                    pivot,
                    pivot_value,
                    col,
                    symbols_are_zero,
                    Ghost(orig_rows),
                    Ghost(orig_symbols),
                    Ghost(width as nat),
                    Ghost(size),
                );
                let ghost r_placed = rows@;
                eliminate_pivot_column(
                    rows,
                    symbols,
                    ops,
                    col,
                    col + 1,
                    symbols_are_zero,
                    &mut row_merge_scratch,
                    &mut fused_add_batch,
                    Ghost(orig_rows),
                    Ghost(orig_symbols),
                    Ghost(width as nat),
                    Ghost(size),
                );
                proof {
                    let rf = rows@;
                    assert forall|i: int| 0 <= i < col + 1 implies is_pivot_for(
                        #[trigger] rf[i]@,
                        i,
                    ) by {
                        if i < col {
                            assert(rf[i] == r_placed[i]);
                            assert(r_placed[i] == r_start[i]);
                        } else {
                            assert(rf[i] == r_placed[i]);
                        }
                    }
                    assert forall|i: int, c: int|
                        col + 1 <= i < rf.len() && 0 <= c < col + 1 implies #[trigger] coefficient(
                        rf,
                        i,
                        c,
                    ) == 0 by {
                        assert(coefficient(rf, i, col as int) == 0);
                        if c < col {
                            assert(coefficient(rf, i, c) == coefficient(r_placed, i, c));
                            assert(coefficient(r_placed, i, c) == 0);
                        }
                    }
                }
            },
        }
        col += 1;
    }
    true
}

/// Solves without recording by forward elimination, a check that the rows beyond the
/// width are empty with zero symbols, and back substitution.
#[verifier::loop_isolation(false)]
pub fn solve_without_recording_scan(rows: Vec<CoefficientRow>, width: usize, symbols: SymbolSlab) -> (r: (
    Option<SymbolSlab>,
    Option<Vec<SymbolOps>>,
))
    requires
        rows_ok(rows@, width as nat),
        width <= u16::MAX + 1,
        symbols.wf(),
        symbols.spec_len() == rows@.len(),
    ensures
        solve_result_ok(rows@, symbols, width as nat, OperationRecording::Skip, r),
{
    let ghost orig_rows = rows@;
    let ghost orig_symbols = symbols@;
    let ghost size = symbols.spec_symbol_size();
    let mut rows = rows;
    let mut symbols = symbols;
    let height = rows.len();
    let mut ops: Option<Vec<SymbolOps>> = None;
    let found = forward_eliminate(
        &mut rows,
        &mut symbols,
        &mut ops,
        width,
        OperationRecording::Skip,
        false,
        Ghost(orig_rows),
        Ghost(orig_symbols),
        Ghost(size),
    );
    if !found {
        return (None, None);
    }
    let mut row = width;
    while row < height
        invariant
            width <= row <= height,
            symbols.wf(),
            symbols.spec_len() == height,
            rows@.len() == height,
            forall|j: int| width <= j < row ==> all_zero(#[trigger] symbols@[j]),
            solver_state(rows@, symbols, ops, false, orig_rows, orig_symbols, width as nat, size),
            upper_before(rows@, width as int),
        decreases height - row,
    {
        if rows[row].len() != 0 || !symbol_is_zero(symbols.get(row)) {
            proof {
                lemma_extra_row_no_unique(
                    rows@,
                    symbols,
                    ops,
                    false,
                    orig_rows,
                    orig_symbols,
                    width as nat,
                    size,
                    row as int,
                );
            }
            return (None, None);
        }
        row += 1;
    }
    let decoded = back_substitute(&rows, &symbols, width);
    proof {
        lemma_slab_uniform(symbols);
        lemma_slab_uniform(decoded);
        assert forall|i: int, k: int| 0 <= i < rows@.len() && 0 <= k < size implies #[trigger] row_value(
            rows@[i]@,
            decoded@,
            k,
            width as nat,
        ) == symbols@[i][k] by {
            if i >= width {
                let f = |c: int| coeff(row_view(rows@[i]@), c);
                assert forall|c: int| 0 <= c < width implies #[trigger] f(c) == 0 by {
                    assert(coefficient(rows@, i, c) == 0);
                }
                crate::linear_system::lemma_eval_zero(f, decoded@, k, width as nat);
                assert(all_zero(symbols@[i]));
            }
        }
        assert(solves(rows@, symbols@, decoded@, width as nat, size));
        assert(solves(orig_rows, orig_symbols, decoded@, width as nat, size));
        lemma_upper_unique(rows@, symbols@, orig_rows, orig_symbols, decoded@, width as nat, size);
    }
    (Some(decoded), None)
}

} // verus!

verus! {

/// The replay law alone: recorded operations replayed on the original symbols give the
/// returned solution in their first `width` symbols.
pub open spec fn replay_ok(
    symbols: SymbolSlab,
    width: nat,
    r: (Option<SymbolSlab>, Option<Vec<SymbolOps>>),
) -> bool {
    &&& r.0 matches Some(d) ==> d.wf() && d.spec_symbol_size() == symbols.spec_symbol_size()
    &&& r.0 is None ==> r.1 is None
    &&& r.1 matches Some(ops) ==> {
        &&& r.0 is Some
        &&& ops_valid(ops@, symbols@)
        &&& ops_effect(ops@, symbols@).subrange(0, width as int) == r.0->Some_0@
    }
}

/// The coefficients of row `d` from column `from` on; zero before it.
pub open spec fn tail_coeffs(rows: Seq<Vec<(u16, Octet)>>, d: int, from: int) -> spec_fn(int) -> u8 {
    |c: int| if c >= from {
        coefficient(rows, d, c)
    } else {
        0u8
    }
}

/// Batch `s` lists, in increasing order, rows before `s` with their nonzero coefficient in
/// column `s`.
pub open spec fn batch_entries_ok(
    rows: Seq<Vec<(u16, Octet)>>,
    batches: Seq<Vec<(usize, Octet)>>,
    width: int,
) -> bool {
    &&& batches.len() == width
    &&& forall|s: int, i: int|
        0 <= s < width && 0 <= i < batches[s]@.len() ==> (#[trigger] batches[s]@[i]).0 < s
            && batches[s]@[i].1@ == coefficient(rows, batches[s]@[i].0 as int, s)
            && batches[s]@[i].1@ != 0
    &&& forall|s: int, i: int, j: int|
        0 <= s < width && 0 <= i < j < batches[s]@.len() ==> (#[trigger] batches[s]@[i]).0
            < (#[trigger] batches[s]@[j]).0
}

/// Batch `s` lists row `d`.
pub open spec fn listed_in(batches: Seq<Vec<(usize, Octet)>>, s: int, d: int) -> bool {
    exists|i: int| 0 <= i < batches[s]@.len() && (#[trigger] batches[s]@[i]).0 == d
}

/// Every row before `done` with a nonzero coefficient in column `s > d` is listed in batch `s`.
pub open spec fn batches_complete(
    rows: Seq<Vec<(u16, Octet)>>,
    batches: Seq<Vec<(usize, Octet)>>,
    width: int,
    done: int,
) -> bool {
    forall|s: int, d: int|
        0 <= d < done && d < s < width && #[trigger] coefficient(rows, d, s) != 0 ==> listed_in(
            batches,
            s,
            d,
        )
}

/// A batch with distinct destinations, none of them the source: each listed destination
/// gets its multiple of the source once, every other symbol stays.
proof fn lemma_batch_effect_distinct(s: Seq<Seq<u8>>, src: int, dests: Seq<(usize, Octet)>, size: nat)
    requires
        0 <= src < s.len(),
        uniform(s, size),
        forall|i: int| 0 <= i < dests.len() ==> (#[trigger] dests[i]).0 < s.len() && dests[i].0 != src,
        forall|i: int, j: int| 0 <= i < j < dests.len() ==> (#[trigger] dests[i]).0 < (#[trigger] dests[j]).0,
    ensures
        batch_effect(s, src, dests).len() == s.len(),
        uniform(batch_effect(s, src, dests), size),
        forall|i: int| 0 <= i < dests.len() ==> #[trigger] batch_effect(s, src, dests)[dests[i].0 as int]
            == fused_add_seq(s[dests[i].0 as int], s[src], dests[i].1@),
        forall|d: int|
            0 <= d < s.len() && (forall|i: int| 0 <= i < dests.len() ==> (#[trigger] dests[i]).0 != d)
                ==> #[trigger] batch_effect(s, src, dests)[d] == s[d],
    decreases dests.len(),
{
    if dests.len() > 0 {
        let t = dests.drop_last();
        assert forall|i: int| 0 <= i < t.len() implies (#[trigger] t[i]).0 < s.len() && t[i].0 != src by {
            assert(t[i] == dests[i]);
        }
        assert forall|i: int, j: int| 0 <= i < j < t.len() implies (#[trigger] t[i]).0 < (#[trigger] t[j]).0 by {
            assert(t[i] == dests[i] && t[j] == dests[j]);
        }
        lemma_batch_effect_distinct(s, src, t, size);
        let bt = batch_effect(s, src, t);
        let last = dests.last();
        let ld = last.0 as int;
        lemma_batch_step(bt, src, ld, last.1@, size);
        assert forall|i: int| 0 <= i < t.len() implies (#[trigger] t[i]).0 != ld by {
            assert(t[i] == dests[i]);
            assert(dests[i].0 < dests[dests.len() - 1].0);
        }
        assert(bt[ld] == s[ld]);
        assert(bt[src] == s[src]) by {
            assert forall|i: int| 0 <= i < t.len() implies (#[trigger] t[i]).0 != src by {
                assert(t[i] == dests[i]);
            }
        }
        if last.1@ == 0 {
            assert forall|k: int| 0 <= k < s[ld].len() implies #[trigger] fused_add_seq(s[ld], s[src], 0u8)[k] == s[ld][k] by {
                lemma_gf_mul_identities(s[src][k]);
                lemma_xor_basics(s[ld][k], 0, 0);
            }
            assert(fused_add_seq(s[ld], s[src], 0u8) =~= s[ld]);
        }
        assert forall|i: int| 0 <= i < dests.len() implies #[trigger] batch_effect(s, src, dests)[dests[i].0 as int]
            == fused_add_seq(s[dests[i].0 as int], s[src], dests[i].1@) by {
            if i < dests.len() - 1 {
                assert(dests[i] == t[i]);
                assert(dests[i].0 < dests[dests.len() - 1].0);
            }
        }
    }
}

/// One step of column back substitution: adding the multiples of symbol `src` into the
/// rows of batch `src` finishes symbol `src` and moves every earlier row's pending sum past
/// column `src`.
proof fn lemma_symbols_after_batch(
    rows: Seq<Vec<(u16, Octet)>>,
    b: Seq<Seq<u8>>,
    batches: Seq<Vec<(usize, Octet)>>,
    s0: Seq<Seq<u8>>,
    s1: Seq<Seq<u8>>,
    src: int,
    width: nat,
    size: nat,
)
    requires
        0 <= src < width <= s0.len(),
        s0.len() == rows.len(),
        uniform(s0, size),
        rows_ok(rows, width),
        upper_before(rows, width as int),
        batch_entries_ok(rows, batches, width as int),
        batches_complete(rows, batches, width as int, width as int),
        s1 == batch_effect(s0, src, batches[src]@),
        forall|d: int, k: int|
            0 <= d < src + 1 && 0 <= k < size ==> #[trigger] s0[d][k] == b[d][k] ^ eval_cols(
                tail_coeffs(rows, d, src + 1),
                s0,
                k,
                width,
            ),
        forall|d: int, k: int|
            src + 1 <= d < width && 0 <= k < size ==> #[trigger] row_value(
                rows[d]@,
                s0,
                k,
                width,
            ) == b[d][k],
        forall|d: int| width <= d < s0.len() ==> #[trigger] s0[d] == b[d],
    ensures
        s1.len() == s0.len(),
        uniform(s1, size),
        forall|d: int, k: int|
            0 <= d < src && 0 <= k < size ==> #[trigger] s1[d][k] == b[d][k] ^ eval_cols(
                tail_coeffs(rows, d, src),
                s1,
                k,
                width,
            ),
        forall|d: int, k: int|
            src <= d < width && 0 <= k < size ==> #[trigger] row_value(rows[d]@, s1, k, width)
                == b[d][k],
        forall|d: int| width <= d < s1.len() ==> #[trigger] s1[d] == b[d],
{
    let batch = batches[src]@;
    assert forall|i: int| 0 <= i < batch.len() implies (#[trigger] batch[i]).0 < s0.len() && batch[i].0 != src by {
        assert(batch[i].0 < src);
    }
    lemma_batch_effect_distinct(s0, src, batch, size);
    // symbols at or after `src` do not change
    assert forall|c: int| src <= c < s0.len() implies #[trigger] s1[c] == s0[c] by {
        assert forall|i: int| 0 <= i < batch.len() implies (#[trigger] batch[i]).0 != c by {
            assert(batch[i].0 < src);
        }
    }
    // every row before `src` gains its coefficient in column `src` times symbol `src`
    assert forall|d: int, k: int| 0 <= d < src && 0 <= k < size implies #[trigger] s1[d][k]
        == s0[d][k] ^ gf_mul_spec(coefficient(rows, d, src), s0[src][k]) by {
        if listed_in(batches, src, d) {
            let i = choose|i: int| 0 <= i < batches[src]@.len() && (#[trigger] batches[src]@[i]).0 == d;
            assert(s1[batch[i].0 as int] == fused_add_seq(s0[batch[i].0 as int], s0[src], batch[i].1@));
            assert(s0[d].len() == size);
        } else {
            if coefficient(rows, d, src) != 0 {
                assert(listed_in(batches, src, d));
            }
            assert forall|i: int| 0 <= i < batch.len() implies (#[trigger] batch[i]).0 != d by {
                if batch[i].0 == d {
                    assert(listed_in(batches, src, d));
                }
            }
            lemma_gf_mul_identities(s0[src][k]);
            lemma_xor_basics(s0[d][k], 0, 0);
        }
    }
    assert forall|d: int, k: int| 0 <= d < src && 0 <= k < size implies #[trigger] s1[d][k]
        == b[d][k] ^ eval_cols(tail_coeffs(rows, d, src), s1, k, width) by {
        let t0 = tail_coeffs(rows, d, src);
        let t1 = tail_coeffs(rows, d, src + 1);
        let v = coefficient(rows, d, src);
        let single = |c: int| if c == src {
            v
        } else {
            0u8
        };
        assert forall|c: int| 0 <= c < width && #[trigger] t0(c) != 0 implies s0[c][k] == s1[c][k] by {}
        lemma_eval_frame(t0, s0, s1, k, width);
        assert forall|c: int| 0 <= c < width implies #[trigger] t0(c) == t1(c) ^ single(c) by {
            lemma_xor_basics(t1(c), 0, 0);
            lemma_xor_basics(v, 0, 0);
            lemma_xor_basics(0, 0, 0);
        }
        lemma_eval_add(t1, single, t0, s0, k, width);
        lemma_eval_single(src, v, s0, k, width);
        let e1 = eval_cols(t1, s0, k, width);
        lemma_xor_basics(b[d][k], e1, gf_mul_spec(v, s0[src][k]));
    }
    // row `src` is now satisfied
    assert forall|k: int| 0 <= k < size implies #[trigger] row_value(rows[src]@, s1, k, width)
        == b[src][k] by {
        let f = |c: int| coeff(row_view(rows[src]@), c);
        let t1 = tail_coeffs(rows, src, src + 1);
        let unit = |c: int| if c == src {
            1u8
        } else {
            0u8
        };
        assert(is_pivot_for(rows[src]@, src));
        lemma_negative_cols(rows[src]@);
        assert forall|c: int| 0 <= c < width && #[trigger] f(c) != 0 implies s1[c][k] == s0[c][k] by {}
        lemma_eval_frame(f, s1, s0, k, width);
        assert forall|c: int| 0 <= c < width implies #[trigger] f(c) == unit(c) ^ t1(c) by {
            lemma_xor_basics(f(c), 0, 0);
            lemma_xor_basics(0, 0, 0);
            lemma_xor_basics(1, 0, 0);
        }
        lemma_eval_add(unit, t1, f, s0, k, width);
        lemma_eval_single(src, 1u8, s0, k, width);
        lemma_gf_mul_identities(s0[src][k]);
        let e1 = eval_cols(t1, s0, k, width);
        lemma_xor_basics(b[src][k], e1, e1);
        lemma_xor_basics(e1, 0, 0);
        lemma_xor_basics(b[src][k], 0, 0);
    }
    // later rows only read symbols at or after their own column
    assert forall|d: int, k: int| src + 1 <= d < width && 0 <= k < size implies #[trigger] row_value(
        rows[d]@,
        s1,
        k,
        width,
    ) == b[d][k] by {
        let f = |c: int| coeff(row_view(rows[d]@), c);
        assert(is_pivot_for(rows[d]@, d));
        lemma_negative_cols(rows[d]@);
        assert forall|c: int| 0 <= c < width && #[trigger] f(c) != 0 implies s1[c][k] == s0[c][k] by {
            assert(c >= d);
            assert(s1[c] == s0[c]);
        }
        lemma_eval_frame(f, s1, s0, k, width);
        assert(row_value(rows[d]@, s0, k, width) == b[d][k]);
    }
}

/// With every symbol zero at byte `k`, any combination is zero.
proof fn lemma_eval_zero_symbols(f: spec_fn(int) -> u8, x: Seq<Seq<u8>>, k: int, n: nat)
    requires
        forall|c: int| 0 <= c < n ==> #[trigger] x[c][k] == 0,
    ensures
        eval_cols(f, x, k, n) == 0,
    decreases n,
{
    if n > 0 {
        lemma_eval_zero_symbols(f, x, k, (n - 1) as nat);
        lemma_gf_mul_identities(f(n - 1));
        lemma_xor_basics(0, 0, 0);
    }
}

/// Recording solve for very wide systems: forward elimination below the pivots, then the
/// additions of back substitution grouped by source symbol, last column first.
pub fn solve_recording_triangular(rows: Vec<CoefficientRow>, width: usize, symbols: SymbolSlab) -> (r: (
    Option<SymbolSlab>,
    Option<Vec<SymbolOps>>,
))
    requires
        rows_ok(rows@, width as nat),
        width <= u16::MAX + 1,
        symbols.wf(),
        symbols.spec_len() == rows@.len(),
    ensures
        replay_ok(symbols, width as nat, r),
        r.0 is Some ==> r.1 is Some,
        r.0 is None ==> r.1 is None && !unique_solution(
            rows@,
            symbols@,
            width as nat,
            symbols.spec_symbol_size(),
        ),
        rows@.len() == width ==> solve_result_ok(
            rows@,
            symbols,
            width as nat,
            OperationRecording::Record,
            r,
        ),
{
    let ghost orig_rows = rows@;
    let ghost orig_symbols = symbols@;
    let ghost size = symbols.spec_symbol_size();
    let mut rows = rows;
    let mut symbols = symbols;
    let mut ops = OperationRecording::Record.new_ops();
    let symbols_are_zero = symbol_is_zero(symbols.as_bytes());
    proof {
        if symbols_are_zero {
            lemma_zero_slab(symbols);
        }
        assert(ops_effect(Seq::<SymbolOps>::empty(), orig_symbols) == orig_symbols);
    }
    let found = forward_eliminate(
        &mut rows,
        &mut symbols,
        &mut ops,
        width,
        OperationRecording::Record,
        symbols_are_zero,
        Ghost(orig_rows),
        Ghost(orig_symbols),
        Ghost(size),
    );
    if !found {
        return (None, None);
    }
    let ghost elim_rows = rows@;
    let ghost b = symbols@;
    proof {
        lemma_slab_uniform(symbols);
        assert forall|d: int, kk: int|
            0 <= d < width && 0 <= kk < size implies #[trigger] symbols@[d][kk] == b[d][kk]
            ^ eval_cols(tail_coeffs(elim_rows, d, width as int), symbols@, kk, width as nat) by {
            lemma_eval_zero(tail_coeffs(elim_rows, d, width as int), symbols@, kk, width as nat);
            lemma_xor_basics(b[d][kk], 0, 0);
        }
    }
    let mut back_substitution_batches: Vec<Vec<(usize, Octet)>> = Vec::new();
    let mut k: usize = 0;
    while k < width
        invariant
            k <= width,
            back_substitution_batches@.len() == k,
            forall|s: int| 0 <= s < k ==> (#[trigger] back_substitution_batches@[s])@.len() == 0,
        decreases width - k,
    {
        back_substitution_batches.push(Vec::new());
        k += 1;
    }
    let mut dest: usize = 0;
    while dest < width
        invariant
            dest <= width <= rows@.len(),
            rows@ == elim_rows,
            rows_ok(rows@, width as nat),
            upper_before(rows@, width as int),
            batch_entries_ok(rows@, back_substitution_batches@, width as int),
            forall|s: int, i: int|
                0 <= s < width && 0 <= i < back_substitution_batches@[s]@.len() ==> (#[trigger] back_substitution_batches@[s]@[i]).0
                    < dest,
            batches_complete(rows@, back_substitution_batches@, width as int, dest as int),
        decreases width - dest,
    {
        let n = rows[dest].len();
        let ghost rv = row_view(rows@[dest as int]@);
        proof {
            assert(row_ok(rows@[dest as int]@, width as nat));
            assert(is_pivot_for(rows@[dest as int]@, dest as int));
            lemma_pivot_row_shape(rows@[dest as int]@, dest as int);
            lemma_coeff_lookup(rv, dest as int);
        }
        let mut j = n;
        while j > 0
            invariant
                dest < width <= rows@.len(),
                rows@ == elim_rows,
                rows_ok(rows@, width as nat),
                upper_before(rows@, width as int),
                rv == row_view(rows@[dest as int]@),
                n == rows@[dest as int]@.len(),
                n > 0,
                rows@[dest as int]@[0].0 == dest,
                forall|e: int| 1 <= e < n ==> (#[trigger] rows@[dest as int]@[e]).0 > dest,
                1 <= j <= n,
                batch_entries_ok(rows@, back_substitution_batches@, width as int),
                forall|s: int, i: int|
                    0 <= s < width && 0 <= i < back_substitution_batches@[s]@.len() ==> (#[trigger] back_substitution_batches@[s]@[i]).0
                        <= dest,
                forall|s: int, i: int|
                    0 <= s < width && 0 <= i < back_substitution_batches@[s]@.len() && (#[trigger] back_substitution_batches@[s]@[i]).0
                        == dest ==> exists|e: int| j <= e < n && rows@[dest as int]@[e].0 == s,
                batches_complete(rows@, back_substitution_batches@, width as int, dest as int),
                forall|e: int|
                    j <= e < n ==> listed_in(
                        back_substitution_batches@,
                        (#[trigger] rows@[dest as int]@[e]).0 as int,
                        dest as int,
                    ),
            ensures
                batch_entries_ok(rows@, back_substitution_batches@, width as int),
                forall|s: int, i: int|
                    0 <= s < width && 0 <= i < back_substitution_batches@[s]@.len() ==> (#[trigger] back_substitution_batches@[s]@[i]).0
                        <= dest,
                batches_complete(rows@, back_substitution_batches@, width as int, dest + 1),
            decreases j,
        {
            let (dependent_col, coefficient) = rows[dest][j - 1];
            let dependent_col = coefficient_col_index(dependent_col);
            if dependent_col <= dest {
                proof {
                    assert(j - 1 == 0);
                    assert forall|s: int, d: int|
                        0 <= d < dest + 1 && d < s < width && #[trigger] crate::linear_system::coefficient(
                            rows@,
                            d,
                            s,
                        ) != 0 implies listed_in(back_substitution_batches@, s, d) by {
                        if d == dest {
                            lemma_coeff_lookup(rv, s);
                            if forall|e: int| 0 <= e < rv.len() ==> rv[e].0 != s {
                                assert(coeff(rv, s) == 0);
                            }
                            let e = choose|e: int| 0 <= e < rv.len() && rv[e].0 == s;
                            assert(e >= 1);
                            assert(rows@[dest as int]@[e].0 == s);
                            assert(listed_in(
                                back_substitution_batches@,
                                rows@[dest as int]@[e].0 as int,
                                dest as int,
                            ));
                        }
                    }
                }
                break;
            }
            proof {
                assert(row_ok(rows@[dest as int]@, width as nat));
                assert(row_view(rows@[dest as int]@)[j - 1].1 != 0);
                assert(rv[j - 1].0 == dependent_col);
                lemma_coeff_lookup(rv, dependent_col as int);
                assert(coeff(rv, dependent_col as int) == rv[j - 1].1);
                assert forall|i: int| 0 <= i < back_substitution_batches@[dependent_col as int]@.len() implies (#[trigger] back_substitution_batches@[dependent_col as int]@[i]).0
                    < dest by {
                    if back_substitution_batches@[dependent_col as int]@[i].0 == dest {
                        let e = choose|e: int| j <= e < n && rows@[dest as int]@[e].0 == dependent_col;
                        assert(rv[e].0 > rv[j - 1].0);
                    }
                }
            }
            let ghost before = back_substitution_batches@;
            let ghost jn: int = j - 1;
            back_substitution_batches[dependent_col].push((dest, coefficient));
            proof {
                assert forall|s: int| 0 <= s < width && s != dependent_col implies #[trigger] back_substitution_batches@[s]
                    == before[s] by {}
                assert(back_substitution_batches@[dependent_col as int]@ == before[dependent_col as int]@.push(
                    (dest, coefficient),
                ));
                assert forall|s: int, i: int|
                    0 <= s < width && 0 <= i < back_substitution_batches@[s]@.len() && (#[trigger] back_substitution_batches@[s]@[i]).0
                        == dest implies exists|e: int| j - 1 <= e < n && rows@[dest as int]@[e].0 == s by {
                    if s == dependent_col && i == before[s]@.len() {
                        assert(rows@[dest as int]@[j - 1].0 == s);
                    } else {
                        assert(back_substitution_batches@[s]@[i] == before[s]@[i]);
                    }
                }
                assert forall|e: int| jn <= e < n implies listed_in(
                    back_substitution_batches@,
                    (#[trigger] rows@[dest as int]@[e]).0 as int,
                    dest as int,
                ) by {
                    let s = rows@[dest as int]@[e].0 as int;
                    if e == jn {
                        assert(back_substitution_batches@[s]@[before[s]@.len() as int].0 == dest);
                    } else {
                        assert(listed_in(before, s, dest as int));
                        let i = choose|i: int|
                            0 <= i < before[s]@.len() && (#[trigger] before[s]@[i]).0 == dest;
                        assert(back_substitution_batches@[s]@[i] == before[s]@[i]);
                    }
                }
                assert forall|s: int, d: int|
                    0 <= d < dest && d < s < width && #[trigger] crate::linear_system::coefficient(
                        rows@,
                        d,
                        s,
                    ) != 0 implies listed_in(back_substitution_batches@, s, d) by {
                    assert(listed_in(before, s, d));
                    let i = choose|i: int|
                        0 <= i < before[s]@.len() && (#[trigger] before[s]@[i]).0 == d;
                    assert(back_substitution_batches@[s]@[i] == before[s]@[i]);
                }
                assert forall|s: int, i: int|
                    0 <= s < width && 0 <= i < back_substitution_batches@[s]@.len() implies (#[trigger] back_substitution_batches@[s]@[i]).0
                        < s && back_substitution_batches@[s]@[i].1@ == crate::linear_system::coefficient(
                        rows@,
                        back_substitution_batches@[s]@[i].0 as int,
                        s,
                    ) && back_substitution_batches@[s]@[i].1@ != 0 by {
                    if !(s == dependent_col && i == before[s]@.len()) {
                        assert(back_substitution_batches@[s]@[i] == before[s]@[i]);
                    }
                }
                assert forall|s: int, i: int, i2: int|
                    0 <= s < width && 0 <= i < i2 < back_substitution_batches@[s]@.len() implies (#[trigger] back_substitution_batches@[s]@[i]).0
                        < (#[trigger] back_substitution_batches@[s]@[i2]).0 by {
                    if s == dependent_col && i2 == before[s]@.len() {
                        assert(back_substitution_batches@[s]@[i] == before[s]@[i]);
                    } else {
                        assert(back_substitution_batches@[s]@[i] == before[s]@[i]);
                        assert(back_substitution_batches@[s]@[i2] == before[s]@[i2]);
                    }
                }
            }
            j -= 1;
        }
        dest += 1;
    }
    let ghost batches = back_substitution_batches@;
    let mut src = width;
    while src > 0
        invariant
            src <= width <= symbols.spec_len(),
            symbols.spec_len() == elim_rows.len(),
            symbols.wf(),
            symbols.spec_symbol_size() == size,
            rows_ok(elim_rows, width as nat),
            upper_before(elim_rows, width as int),
            b.len() == elim_rows.len(),
            uniform(b, size),
            back_substitution_batches@.len() == width,
            forall|s: int| 0 <= s < src ==> #[trigger] back_substitution_batches@[s] == batches[s],
            batch_entries_ok(elim_rows, batches, width as int),
            batches_complete(elim_rows, batches, width as int, width as int),
            forall|s: int, j: int|
                0 <= s < width && 0 <= j < back_substitution_batches@[s]@.len() ==> (#[trigger] back_substitution_batches@[s]@[j]).0
                    < s && back_substitution_batches@[s]@[j].1@ != 0,
            ops is Some,
            ops_valid(ops->Some_0@, orig_symbols),
            ops_effect(ops->Some_0@, orig_symbols) == symbols@,
            symbols_are_zero ==> all_symbols_zero(symbols@),
            forall|d: int, kk: int|
                0 <= d < src && 0 <= kk < size ==> #[trigger] symbols@[d][kk] == b[d][kk] ^ eval_cols(
                    tail_coeffs(elim_rows, d, src as int),
                    symbols@,
                    kk,
                    width as nat,
                ),
            forall|d: int, kk: int|
                src <= d < width && 0 <= kk < size ==> #[trigger] row_value(
                    elim_rows[d]@,
                    symbols@,
                    kk,
                    width as nat,
                ) == b[d][kk],
            forall|d: int| width <= d < symbols.spec_len() ==> #[trigger] symbols@[d] == b[d],
        decreases src,
    {
        src -= 1;
        let ghost s0 = symbols;
        let ghost batch_vec = back_substitution_batches@[src as int];
        let ghost ops0 = ops->Some_0@;
        proof {
            lemma_slab_uniform(s0);
        }
        if !symbols_are_zero {
            apply_fused_add_batch_to_symbols(&mut symbols, src, &back_substitution_batches[src]);
        } else {
            proof {
                lemma_batch_zero_source(s0@, src as int, batch_vec@, size);
            }
        }
        proof {
            lemma_symbols_after_batch(elim_rows, b, batches, s0@, symbols@, src as int, width as nat, size);
        }
        let ghost before = back_substitution_batches@;
        push_recorded_fused_add_ops(&mut ops, src, &mut back_substitution_batches[src]);
        proof {
            lemma_record_batch(ops0, ops->Some_0@, src, batch_vec, s0@, orig_symbols);
            assert forall|s: int, j: int|
                0 <= s < width && 0 <= j < back_substitution_batches@[s]@.len() implies (#[trigger] back_substitution_batches@[s]@[j]).0
                    < s && back_substitution_batches@[s]@[j].1@ != 0 by {
                if s != src {
                    assert(back_substitution_batches@[s] == before[s]);
                }
            }
            assert forall|s: int| 0 <= s < src implies #[trigger] back_substitution_batches@[s]
                == batches[s] by {
                assert(back_substitution_batches@[s] == before[s]);
            }
        }
    }
    let decoded = decoded_prefix(&symbols, width);
    proof {
        if elim_rows.len() == width {
            lemma_slab_uniform(decoded);
            assert forall|i: int, kk: int|
                0 <= i < elim_rows.len() && 0 <= kk < size implies #[trigger] row_value(
                elim_rows[i]@,
                decoded@,
                kk,
                width as nat,
            ) == b[i][kk] by {
                assert forall|c: int| 0 <= c < width implies #[trigger] decoded@[c] == symbols@[c] by {}
                lemma_eval_frame(
                    |c: int| coeff(row_view(elim_rows[i]@), c),
                    symbols@,
                    decoded@,
                    kk,
                    width as nat,
                );
                assert(row_value(elim_rows[i]@, symbols@, kk, width as nat) == b[i][kk]);
            }
            assert(solves(elim_rows, b, decoded@, width as nat, size));
            assert(solves(orig_rows, orig_symbols, decoded@, width as nat, size));
            lemma_upper_unique(elim_rows, b, orig_rows, orig_symbols, decoded@, width as nat, size);
        }
    }
    (Some(decoded), ops)
}

/// Solves without recording; wide systems keep their rows in buckets by leading column.
pub fn solve_without_recording(rows: Vec<CoefficientRow>, width: usize, symbols: SymbolSlab) -> (r: (
    Option<SymbolSlab>,
    Option<Vec<SymbolOps>>,
))
    requires
        rows_ok(rows@, width as nat),
        width <= u16::MAX + 1,
        symbols.wf(),
        symbols.spec_len() == rows@.len(),
    ensures
        solve_result_ok(rows@, symbols, width as nat, OperationRecording::Skip, r),
{
    if width >= COEFFICIENT_BUCKET_SOLVER_MIN_WIDTH {
        crate::bucketed_solve::solve_without_recording_bucketed(rows, width, symbols)
    } else {
        solve_without_recording_scan(rows, width, symbols)
    }
}

/// Solves `rows * x = symbols` for the `width` intermediate symbols `x`, recording the
/// symbol operations when asked.
pub fn solve(
    rows: Vec<CoefficientRow>,
    width: usize,
    symbols: SymbolSlab,
    recording: OperationRecording,
) -> (r: (Option<SymbolSlab>, Option<Vec<SymbolOps>>))
    requires
        rows_ok(rows@, width as nat),
        width <= u16::MAX + 1,
        symbols.wf(),
        symbols.spec_len() == rows@.len(),
    ensures
        replay_ok(symbols, width as nat, r),
        recording is Skip ==> r.1 is None,
        recording is Record && r.0 is Some ==> r.1 is Some,
        r.0 is None ==> r.1 is None && !unique_solution(
            rows@,
            symbols@,
            width as nat,
            symbols.spec_symbol_size(),
        ),
        width < TRIANGULAR_RECORDING_MIN_WIDTH || recording is Skip || rows@.len() == width
            ==> solve_result_ok(rows@, symbols, width as nat, recording, r),
{
    if recording == OperationRecording::Skip {
        return solve_without_recording(rows, width, symbols);
    }
    if width >= TRIANGULAR_RECORDING_MIN_WIDTH {
        return solve_recording_triangular(rows, width, symbols);
    }
    solve_recording_gauss_jordan(rows, width, symbols, recording)
}

} // verus!

verus! {

use crate::sparse_spec::{lemma_insert_entry, lemma_remove_entry, lemma_update_entry};

/// How far a short-row search walks entry by entry before it switches to bisection.
pub const SHORT_ROW_LINEAR_SCAN_LIMIT: usize = 8;

/// Finds column `col` in a sorted row from `search_start` on: `Ok` with its index, or `Err`
/// with the index where it would be inserted.
fn find_matrix_row_entry_from(
    row: &CoefficientRow,
    search_start: usize,
    col: u16,
    linear_limit: usize,
) -> (r: Result<usize, usize>)
    requires
        strictly_sorted(row_view(row@)),
        search_start <= row@.len(),
        forall|i: int| 0 <= i < search_start ==> (#[trigger] row@[i]).0 < col,
    ensures
        r matches Ok(i) ==> i < row@.len() && row@[i as int].0 == col,
        r matches Err(i) ==> i <= row@.len() && (forall|j: int|
            0 <= j < i ==> (#[trigger] row@[j]).0 < col) && (forall|j: int|
            i <= j < row@.len() ==> (#[trigger] row@[j]).0 > col),
{
    let ghost v = row_view(row@);
    let mut search_start = search_start;
    let mut linear_limit = linear_limit;
    while search_start < row.len() && linear_limit != 0
        invariant
            search_start <= row@.len(),
            v == row_view(row@),
            strictly_sorted(v),
            forall|i: int| 0 <= i < search_start ==> (#[trigger] row@[i]).0 < col,
        decreases row@.len() - search_start,
    {
        let row_col = row[search_start].0;
        if row_col < col {
            search_start += 1;
            linear_limit -= 1;
            continue;
        }
        if row_col == col {
            return Ok(search_start);
        }
        proof {
            assert forall|j: int| search_start <= j < row@.len() implies (#[trigger] row@[j]).0 > col by {
                if j > search_start {
                    assert(v[search_start as int].0 < v[j].0);
                }
            }
        }
        return Err(search_start);
    }
    let index = row_partition_point(row, col);
    if index < row.len() && row[index].0 == col {
        Ok(index)
    } else {
        proof {
            assert forall|j: int| index <= j < row@.len() implies (#[trigger] row@[j]).0 > col by {
                if j > index {
                    assert(v[index as int].0 < v[j].0);
                    assert(row@[index as int].0 >= col);
                }
            }
        }
        Err(index)
    }
}

/// Adds `scaled` at column `src_col` of a sorted row, searching from `search_start`;
/// returns where the search for a later column may start.
fn add_short_matrix_row_entry(
    dest: &mut CoefficientRow,
    search_start: usize,
    src_col: u16,
    scaled: Octet,
) -> (next: usize)
    requires
        canonical(row_view(old(dest)@)),
        search_start <= old(dest)@.len(),
        forall|i: int| 0 <= i < search_start ==> (#[trigger] old(dest)@[i]).0 < src_col,
        scaled@ != 0,
    ensures
        canonical(row_view(final(dest)@)),
        next <= final(dest)@.len(),
        forall|i: int| 0 <= i < next ==> (#[trigger] final(dest)@[i]).0 <= src_col,
        forall|c: int| #[trigger]
            coeff(row_view(final(dest)@), c) == coeff(row_view(old(dest)@), c) ^ entry_coeff(
                (src_col as int, scaled@),
                c,
            ),
{
    let ghost old_v = row_view(dest@);
    let found = find_matrix_row_entry_from(dest, search_start, src_col, SHORT_ROW_LINEAR_SCAN_LIMIT);
    match found {
        Ok(index) => {
            let value = dest[index].1.add(scaled);
            if value.is_zero() {
                dest.remove(index);
                proof {
                    assert(old_v[index as int].0 == src_col);
                    lemma_xor_basics(old_v[index as int].1, scaled@, 0);
                    assert(old_v[index as int] == (src_col as int, scaled@));
                    lemma_remove_entry(old_v, index as int);
                    assert(row_view(dest@) =~= old_v.remove(index as int));
                    assert forall|i: int| 0 <= i < index implies (#[trigger] dest@[i]).0 <= src_col by {
                        assert(old_v[i].0 < old_v[index as int].0);
                    }
                }
                index
            } else {
                dest.set(index, (src_col, value));
                let _ = dest.len();
                proof {
                    assert(old_v[index as int].0 == src_col);
                    let a = old_v[index as int].1;
                    let b = scaled@;
                    lemma_xor_regroup(a, b, 0, 0);
                    lemma_update_entry(old_v, index as int, value@);
                    assert(row_view(dest@) =~= old_v.update(index as int, (src_col as int, value@)));
                    assert forall|i: int| 0 <= i < index + 1 implies (#[trigger] dest@[i]).0 <= src_col by {
                        if i < index {
                            assert(old_v[i].0 < old_v[index as int].0);
                        }
                    }
                }
                index + 1
            }
        },
        Err(index) => {
            dest.insert(index, (src_col, scaled));
            let _ = dest.len();
            proof {
                lemma_insert_entry(old_v, index as int, (src_col as int, scaled@));
                assert(row_view(dest@) =~= old_v.insert(index as int, (src_col as int, scaled@)));
            }
            index + 1
        },
    }
}

/// Adds `scalar` times the coefficients of `src` at or after `start_col` into `dest`, entry
/// by entry in place.
pub fn add_scaled_short_matrix_row(
    dest: &mut CoefficientRow,
    src: &CoefficientRow,
    start_col: usize,
    scalar: Octet,
)
    requires
        canonical(row_view(old(dest)@)),
        canonical(row_view(src@)),
        start_col <= u16::MAX,
        scalar@ != 0,
    ensures
        canonical(row_view(final(dest)@)),
        forall|c: int| #[trigger]
            coeff(row_view(final(dest)@), c) == coeff(row_view(old(dest)@), c) ^ (if c
                >= start_col {
                gf_mul_spec(coeff(row_view(src@), c), scalar@)
            } else {
                0u8
            }),
{
    let ghost d = row_view(dest@);
    let ghost sv = row_view(src@);
    let start = coefficient_col(start_col);
    let src_start = row_partition_point(src, start);
    let n = src.len();
    let mut search_start: usize = 0;
    let mut i = src_start;
    proof {
        assert forall|c: int| #[trigger] coeff(row_view(dest@), c) == coeff(d, c) ^ gf_mul_spec(
            coeff(sv.subrange(src_start as int, src_start as int), c),
            scalar@,
        ) by {
            assert(sv.subrange(src_start as int, src_start as int) =~= Seq::<(int, u8)>::empty());
            lemma_gf_mul_identities(scalar@);
            lemma_xor_basics(coeff(d, c), 0, 0);
        }
    }
    while i < n
        invariant
            n == src@.len(),
            sv == row_view(src@),
            canonical(sv),
            canonical(row_view(dest@)),
            scalar@ != 0,
            src_start <= i <= n,
            search_start <= dest@.len(),
            forall|j: int| 0 <= j < src_start ==> (#[trigger] src@[j]).0 < start,
            forall|j: int| src_start <= j < n ==> (#[trigger] src@[j]).0 >= start,
            i < n ==> forall|j: int| 0 <= j < search_start ==> (#[trigger] dest@[j]).0 < src@[i as int].0,
            forall|c: int| #[trigger]
                coeff(row_view(dest@), c) == coeff(d, c) ^ gf_mul_spec(
                    coeff(sv.subrange(src_start as int, i as int), c),
                    scalar@,
                ),
        decreases n - i,
    {
        let (src_col, src_value) = src[i];
        let scaled = src_value.mul(scalar);
        let ghost before = row_view(dest@);
        proof {
            assert(sv[i as int] == (src_col as int, src_value@));
            assert(sv[i as int].1 != 0);
            lemma_gf_mul_nonzero(src_value@, scalar@);
        }
        search_start = add_short_matrix_row_entry(dest, search_start, src_col, scaled);
        proof {
            let se = sv[i as int];
            assert(se == (src_col as int, src_value@));
            assert(sv.subrange(src_start as int, i + 1) =~= sv.subrange(src_start as int, i as int).push(se));
            assert forall|c: int| #[trigger] coeff(row_view(dest@), c) == coeff(d, c) ^ gf_mul_spec(
                coeff(sv.subrange(src_start as int, i + 1), c),
                scalar@,
            ) by {
                let b = coeff(sv.subrange(src_start as int, i as int), c);
                crate::sparse_spec::lemma_coeff_push(sv.subrange(src_start as int, i as int), se, c);
                lemma_gf_mul_distributive_left(b, entry_coeff(se, c), scalar@);
                lemma_scaled_entry(se, scalar@, c);
                let a = coeff(d, c);
                let gb = gf_mul_spec(b, scalar@);
                let y = entry_coeff((src_col as int, scaled@), c);
                lemma_xor_basics(a, gb, y);
            }
            if i + 1 < n {
                assert(sv[i as int].0 < sv[i + 1].0);
            }
        }
        i += 1;
    }
    proof {
        assert forall|c: int| #[trigger] coeff(row_view(dest@), c) == coeff(d, c) ^ (if c
            >= start_col {
            gf_mul_spec(coeff(sv, c), scalar@)
        } else {
            0u8
        }) by {
            let tail = sv.subrange(src_start as int, n as int);
            lemma_split_coeff(sv, src_start as int, c);
            if c >= start_col {
                assert forall|j: int| 0 <= j < sv.subrange(0, src_start as int).len() implies sv.subrange(
                    0,
                    src_start as int,
                )[j].0 != c by {
                    assert(src@[j].0 < start);
                }
                lemma_coeff_absent(sv.subrange(0, src_start as int), c);
                lemma_xor_basics(coeff(tail, c), 0, 0);
            } else {
                assert forall|j: int| 0 <= j < tail.len() implies tail[j].0 != c by {
                    assert(src@[src_start + j].0 >= start);
                }
                lemma_coeff_absent(tail, c);
                lemma_gf_mul_identities(scalar@);
            }
        }
    }
}

/// Adds `scalar` at each listed column into `dest`.
pub fn add_scaled_binary_matrix_row(
    dest: &mut CoefficientRow,
    src_cols: &[usize],
    scalar: Octet,
    scratch: &mut CoefficientRow,
)
    requires
        canonical(row_view(old(dest)@)),
        forall|i: int, j: int| 0 <= i < j < src_cols@.len() ==> src_cols@[i] < src_cols@[j],
        forall|i: int| 0 <= i < src_cols@.len() ==> #[trigger] src_cols@[i] <= u16::MAX,
        scalar@ != 0,
    ensures
        canonical(row_view(final(dest)@)),
        forall|c: int| #[trigger]
            coeff(row_view(final(dest)@), c) == coeff(row_view(old(dest)@), c) ^ (if (exists|j: int|
                0 <= j < src_cols@.len() && #[trigger] src_cols@[j] == c) {
                scalar@
            } else {
                0u8
            }),
{
    let ghost d = row_view(dest@);
    let n = src_cols.len();
    proof {
        assert forall|c: int| #[trigger] coeff(row_view(dest@), c) == coeff(d, c) ^ (if (exists|j: int| 0 <= j < 0 && #[trigger] src_cols@[j] == c) {
            scalar@
        } else {
            0u8
        }) by {
            lemma_xor_basics(coeff(d, c), 0, 0);
        }
    }
    let mut search_start: usize = 0;
    let mut i: usize = 0;
    while i < n
        invariant
            n == src_cols@.len(),
            i <= n,
            canonical(row_view(dest@)),
            scalar@ != 0,
            search_start <= dest@.len(),
            forall|a: int, b: int| 0 <= a < b < src_cols@.len() ==> src_cols@[a] < src_cols@[b],
            forall|a: int| 0 <= a < src_cols@.len() ==> #[trigger] src_cols@[a] <= u16::MAX,
            i < n ==> forall|j: int| 0 <= j < search_start ==> (#[trigger] dest@[j]).0 < src_cols@[i as int],
            forall|c: int| #[trigger]
                coeff(row_view(dest@), c) == coeff(d, c) ^ (if (exists|j: int| 0 <= j < i && #[trigger] src_cols@[j] == c) {
                    scalar@
                } else {
                    0u8
                }),
        decreases n - i,
    {
        let col = coefficient_col(src_cols[i]);
        search_start = add_short_matrix_row_entry(dest, search_start, col, scalar);
        proof {
            assert forall|c: int| #[trigger] coeff(row_view(dest@), c) == coeff(d, c) ^ (if (exists|j: int| 0 <= j < i + 1 && #[trigger] src_cols@[j] == c) {
                scalar@
            } else {
                0u8
            }) by {
                let was = exists|j: int| 0 <= j < i && #[trigger] src_cols@[j] == c;
                if c == col {
                    assert(src_cols@[i as int] == c);
                    if was {
                        let j = choose|j: int| 0 <= j < i && #[trigger] src_cols@[j] == c;
                        assert(src_cols@[j] < src_cols@[i as int]);
                    }
                    lemma_xor_basics(coeff(d, c), scalar@, 0);
                } else {
                    if exists|j: int| 0 <= j < i + 1 && #[trigger] src_cols@[j] == c {
                        let j = choose|j: int| 0 <= j < i + 1 && #[trigger] src_cols@[j] == c;
                        assert(j < i);
                    }
                    lemma_xor_basics(coeff(d, c) ^ (if was { scalar@ } else { 0u8 }), 0, 0);
                }
            }
            if i + 1 < n {
                assert(src_cols@[i as int] < src_cols@[i + 1]);
            }
        }
        i += 1;
    }
}

/// Adds `src` into `dest` for two rows that both start with a one in the same column,
/// which cancels.
pub fn add_normalized_binary_short_matrix_row(dest: &mut CoefficientRow, src: &CoefficientRow)
    requires
        canonical(row_view(old(dest)@)),
        canonical(row_view(src@)),
        old(dest)@.len() > 0,
        src@.len() > 0,
        old(dest)@[0] == src@[0],
        forall|i: int| 0 <= i < src@.len() ==> (#[trigger] src@[i]).1@ == 1,
    ensures
        canonical(row_view(final(dest)@)),
        forall|c: int| #[trigger]
            coeff(row_view(final(dest)@), c) == coeff(row_view(old(dest)@), c) ^ coeff(
                row_view(src@),
                c,
            ),
{
    let start = src[0].0 as usize;
    add_scaled_short_matrix_row(dest, src, start, Octet::one());
    proof {
        lemma_negative_cols(src@);
        assert forall|c: int| #[trigger] coeff(row_view(dest@), c) == coeff(row_view(old(dest)@), c)
            ^ coeff(row_view(src@), c) by {
            lemma_gf_mul_identities(coeff(row_view(src@), c));
            if c < start {
                let sv = row_view(src@);
                assert forall|j: int| 0 <= j < sv.len() implies sv[j].0 != c by {
                    if j > 0 {
                        assert(sv[0].0 < sv[j].0);
                    }
                }
                lemma_coeff_absent(sv, c);
            }
        }
    }
}

/// Adds `scalar` times a pivot row `src`, which starts with a one at `start_col`, into
/// `dest`, which starts with `scalar` there; the leading entry cancels.
pub fn add_scaled_normalized_short_matrix_row(
    dest: &mut CoefficientRow,
    src: &CoefficientRow,
    start_col: usize,
    scalar: Octet,
)
    requires
        canonical(row_view(old(dest)@)),
        canonical(row_view(src@)),
        start_col <= u16::MAX,
        scalar@ != 0,
    ensures
        canonical(row_view(final(dest)@)),
        forall|c: int| #[trigger]
            coeff(row_view(final(dest)@), c) == coeff(row_view(old(dest)@), c) ^ (if c
                >= start_col {
                gf_mul_spec(coeff(row_view(src@), c), scalar@)
            } else {
                0u8
            }),
{
    add_scaled_short_matrix_row(dest, src, start_col, scalar);
}

/// `dest += src * scalar` on one coefficient byte; a zero source changes nothing.
pub fn add_scaled_coefficient(dest: &mut u8, src: u8, scalar: Octet)
    ensures
        *final(dest) == *old(dest) ^ gf_mul_spec(src, scalar@),
{
    if src == 0 {
        proof {
            lemma_gf_mul_identities(scalar@);
            lemma_xor_basics(*dest, 0, 0);
        }
        return ;
    }
    if scalar.value() == 1 {
        proof {
            lemma_gf_mul_identities(src);
        }
        *dest = *dest ^ src;
    } else {
        *dest = *dest ^ Octet::new(src).mul(scalar).value();
    }
}

} // verus!

verus! {

use crate::octet_matrix::DenseOctetMatrix;

/// From this width on the HDPC check runs column by column.
pub const COLUMN_MAJOR_HDPC_VERIFY_MIN_WIDTH: usize = 256;

/// Every HDPC row applied to the symbols `x` gives zero in every byte.
pub open spec fn hdpc_satisfied(hdpc_rows: DenseOctetMatrix, x: Seq<Seq<u8>>, size: nat) -> bool {
    forall|i: int, k: int|
        0 <= i < hdpc_rows.spec_height() && 0 <= k < size ==> #[trigger] hdpc_prefix(
            hdpc_rows,
            i,
            x,
            k,
            hdpc_rows.spec_width(),
        ) == 0
}

/// Byte `k` of HDPC row `i` applied to `x` over the columns below `n`.
pub open spec fn hdpc_prefix(hdpc_rows: DenseOctetMatrix, i: int, x: Seq<Seq<u8>>, k: int, n: nat) -> u8 {
    eval_cols(|c: int| hdpc_rows.entry(i, c), x, k, n)
}

/// Sets every byte to zero.
fn zero_bytes(bytes: &mut Vec<u8>)
    ensures
        final(bytes)@.len() == old(bytes)@.len(),
        all_zero(final(bytes)@),
{
    let n = bytes.len();
    let mut i: usize = 0;
    while i < n
        invariant
            n == bytes@.len(),
            i <= n,
            forall|j: int| 0 <= j < i ==> bytes@[j] == 0,
        decreases n - i,
    {
        bytes.set(i, 0);
        i += 1;
    }
}

/// One more column of an HDPC row added into the running check.
proof fn lemma_check_step(f: spec_fn(int) -> u8, x: Seq<Seq<u8>>, check: Seq<u8>, col: nat, size: nat)
    requires
        check.len() == size,
        x[col as int].len() == size,
        forall|k: int| 0 <= k < size ==> #[trigger] check[k] == eval_cols(f, x, k, col),
    ensures
        forall|k: int|
            0 <= k < size ==> #[trigger] fused_add_seq(check, x[col as int], f(col as int))[k]
                == eval_cols(f, x, k, col + 1),
        f(col as int) == 0 ==> forall|k: int|
            0 <= k < size ==> #[trigger] check[k] == eval_cols(f, x, k, col + 1),
{
    assert forall|k: int| 0 <= k < size implies #[trigger] fused_add_seq(
        check,
        x[col as int],
        f(col as int),
    )[k] == eval_cols(f, x, k, col + 1) by {
        assert(eval_cols(f, x, k, col + 1) == eval_cols(f, x, k, col) ^ gf_mul_spec(
            f(col as int),
            x[col as int][k],
        ));
    }
    if f(col as int) == 0 {
        assert forall|k: int| 0 <= k < size implies #[trigger] check[k] == eval_cols(f, x, k, col + 1) by {
            lemma_gf_mul_identities(x[col as int][k]);
            lemma_xor_basics(check[k], 0, 0);
            assert(eval_cols(f, x, k, col + 1) == eval_cols(f, x, k, col) ^ gf_mul_spec(
                f(col as int),
                x[col as int][k],
            ));
        }
    }
}

/// Checks the HDPC rows one row at a time.
pub fn hdpc_rows_satisfied_row_major(decoded: &SymbolSlab, hdpc_rows: &DenseOctetMatrix) -> (r: bool)
    requires
        decoded.wf(),
        hdpc_rows.wf(),
        hdpc_rows.spec_width() <= decoded.spec_len(),
    ensures
        r == hdpc_satisfied(*hdpc_rows, decoded@, decoded.spec_symbol_size()),
{
    let size = decoded.symbol_size();
    let height = hdpc_rows.height();
    let width = hdpc_rows.width();
    let mut check: Vec<u8> = vec![0u8; size];
    let mut row: usize = 0;
    proof {
        lemma_slab_uniform(*decoded);
    }
    while row < height
        invariant
            decoded.wf(),
            hdpc_rows.wf(),
            width == hdpc_rows.spec_width(),
            height == hdpc_rows.spec_height(),
            width <= decoded.spec_len(),
            size == decoded.spec_symbol_size(),
            uniform(decoded@, size as nat),
            check@.len() == size,
            row <= height,
            forall|i: int, k: int|
                0 <= i < row && 0 <= k < size ==> #[trigger] hdpc_prefix(*hdpc_rows, i, decoded@, k, width as nat,
                ) == 0,
        decreases height - row,
    {
        zero_bytes(&mut check);
        let ghost f = |c: int| hdpc_rows.entry(row as int, c);
        proof {
            assert forall|k: int| 0 <= k < size implies #[trigger] check@[k] == eval_cols(
                f,
                decoded@,
                k,
                0,
            ) by {}
        }
        let mut col: usize = 0;
        while col < width
            invariant
                decoded.wf(),
                hdpc_rows.wf(),
                width == hdpc_rows.spec_width(),
                height == hdpc_rows.spec_height(),
                row < height,
                width <= decoded.spec_len(),
                size == decoded.spec_symbol_size(),
                uniform(decoded@, size as nat),
                f == (|c: int| hdpc_rows.entry(row as int, c)),
                check@.len() == size,
                col <= width,
                forall|k: int| 0 <= k < size ==> #[trigger] check@[k] == eval_cols(f, decoded@, k, col as nat),
            decreases width - col,
        {
            let coefficient = hdpc_rows.get(row, col);
            proof {
                lemma_check_step(f, decoded@, check@, col as nat, size as nat);
            }
            if !coefficient.is_zero() {
                fused_addassign_mul_scalar(check.as_mut_slice(), decoded.get(col), &coefficient);
            }
            col += 1;
        }
        if !symbol_is_zero(check.as_slice()) {
            proof {
                let k = choose|k: int| 0 <= k < check@.len() && check@[k] != 0;
                assert(eval_cols(f, decoded@, k, width as nat) != 0);
                assert(hdpc_prefix(*hdpc_rows, row as int, decoded@, k, width as nat) != 0);
            }
            return false;
        }
        proof {
            assert forall|i: int, k: int|
                0 <= i < row + 1 && 0 <= k < size implies #[trigger] hdpc_prefix(*hdpc_rows, i, decoded@, k, width as nat,
            ) == 0 by {
                if i == row {
                    assert(check@[k] == 0);
                }
            }
        }
        row += 1;
    }
    true
}

/// Checks the HDPC rows one column at a time, keeping one running check per row.
pub fn hdpc_rows_satisfied_column_major(decoded: &SymbolSlab, hdpc_rows: &DenseOctetMatrix) -> (r: bool)
    requires
        decoded.wf(),
        hdpc_rows.wf(),
        hdpc_rows.spec_width() <= decoded.spec_len(),
        hdpc_rows.spec_height() * decoded.spec_symbol_size() <= usize::MAX,
    ensures
        r == hdpc_satisfied(*hdpc_rows, decoded@, decoded.spec_symbol_size()),
{
    let size = decoded.symbol_size();
    let h = hdpc_rows.height();
    let width = hdpc_rows.width();
    let mut checks = SymbolSlab::with_zeros(h, size);
    proof {
        lemma_slab_uniform(*decoded);
        lemma_slab_uniform(checks);
        assert forall|i: int, k: int| 0 <= i < h && 0 <= k < size implies #[trigger] checks@[i][k]
            == hdpc_prefix(*hdpc_rows, i, decoded@, k, 0) by {
            checks.lemma_symbol_bounds(i);
        }
    }
    let mut col: usize = 0;
    while col < width
        invariant
            decoded.wf(),
            hdpc_rows.wf(),
            width == hdpc_rows.spec_width(),
            h == hdpc_rows.spec_height(),
            width <= decoded.spec_len(),
            size == decoded.spec_symbol_size(),
            uniform(decoded@, size as nat),
            checks.wf(),
            checks.spec_len() == h,
            checks.spec_symbol_size() == size,
            uniform(checks@, size as nat),
            col <= width,
            forall|i: int, k: int|
                0 <= i < h && 0 <= k < size ==> #[trigger] checks@[i][k] == hdpc_prefix(*hdpc_rows, i, decoded@, k, col as nat,
                ),
        decreases width - col,
    {
        let mut row: usize = 0;
        while row < h
            invariant
                decoded.wf(),
                hdpc_rows.wf(),
                width == hdpc_rows.spec_width(),
                h == hdpc_rows.spec_height(),
                col < width <= decoded.spec_len(),
                size == decoded.spec_symbol_size(),
                uniform(decoded@, size as nat),
                checks.wf(),
                checks.spec_len() == h,
                checks.spec_symbol_size() == size,
                uniform(checks@, size as nat),
                row <= h,
                forall|i: int, k: int|
                    0 <= i < h && 0 <= k < size ==> #[trigger] checks@[i][k] == hdpc_prefix(*hdpc_rows, i, decoded@, k, if i < row {
                            col + 1
                        } else {
                            col as int
                        } as nat,
                    ),
            decreases h - row,
        {
            let coefficient = hdpc_rows.get(row, col);
            let ghost before = checks;
            let ghost f = |c: int| hdpc_rows.entry(row as int, c);
            proof {
                assert forall|k: int| 0 <= k < size implies #[trigger] before@[row as int][k] == eval_cols(
                    f,
                    decoded@,
                    k,
                    col as nat,
                ) by {}
                lemma_check_step(f, decoded@, before@[row as int], col as nat, size as nat);
            }
            if !coefficient.is_zero() {
                fused_addassign_mul_scalar(checks.get_mut(row), decoded.get(col), &coefficient);
                proof {
                    lemma_after_get_mut(
                        before,
                        checks,
                        row as int,
                        fused_add_seq(before@[row as int], decoded@[col as int], coefficient@),
                    );
                }
            }
            proof {
                lemma_slab_uniform(checks);
                assert forall|i: int, k: int|
                    0 <= i < h && 0 <= k < size implies #[trigger] checks@[i][k] == hdpc_prefix(*hdpc_rows, i, decoded@, k, if i < row + 1 {
                        col + 1
                    } else {
                        col as int
                    } as nat,
                ) by {
                    if i != row {
                        assert(checks@[i] == before@[i]);
                    }
                }
            }
            row += 1;
        }
        col += 1;
    }
    let mut row: usize = 0;
    while row < h
        invariant
            checks.wf(),
            checks.spec_len() == h,
            checks.spec_symbol_size() == size,
            uniform(checks@, size as nat),
            size == decoded.spec_symbol_size(),
            h == hdpc_rows.spec_height(),
            width == hdpc_rows.spec_width(),
            row <= h,
            forall|i: int, k: int|
                0 <= i < h && 0 <= k < size ==> #[trigger] checks@[i][k] == hdpc_prefix(*hdpc_rows, i, decoded@, k, width as nat,
                ),
            forall|i: int, k: int| 0 <= i < row && 0 <= k < size ==> #[trigger] checks@[i][k] == 0,
        decreases h - row,
    {
        if !symbol_is_zero(checks.get(row)) {
            proof {
                lemma_symbol_len(checks, row as int);
                let k = choose|k: int| 0 <= k < checks@[row as int].len() && checks@[row as int][k] != 0;
                assert(hdpc_prefix(*hdpc_rows, row as int, decoded@, k, width as nat) != 0);
            }
            return false;
        }
        row += 1;
    }
    proof {
        assert forall|i: int, k: int|
            0 <= i < h && 0 <= k < size implies #[trigger] hdpc_prefix(
            *hdpc_rows,
            i,
            decoded@,
            k,
            width as nat,
        ) == 0 by {
            assert(checks@[i][k] == 0);
        }
    }
    true
}

/// Checks the HDPC rows, column by column when the system is wide and has several of them.
pub fn hdpc_rows_satisfied(decoded: &SymbolSlab, hdpc_rows: &DenseOctetMatrix) -> (r: bool)
    requires
        decoded.wf(),
        hdpc_rows.wf(),
        hdpc_rows.spec_width() <= decoded.spec_len(),
        hdpc_rows.spec_height() * decoded.spec_symbol_size() <= usize::MAX,
    ensures
        r == hdpc_satisfied(*hdpc_rows, decoded@, decoded.spec_symbol_size()),
{
    if hdpc_rows.width() >= COLUMN_MAJOR_HDPC_VERIFY_MIN_WIDTH && hdpc_rows.height() > 1 {
        return hdpc_rows_satisfied_column_major(decoded, hdpc_rows);
    }
    hdpc_rows_satisfied_row_major(decoded, hdpc_rows)
}

} // verus!

verus! {

/// Width from which a direct systematic solve between the mid-size band and the large band
/// has its back substitution grouped by destination.
pub const MID_DIRECT_SYSTEMATIC_SOLVE_MAX_WIDTH: usize = 1_500;

/// Upper end of the mid-size band of direct systematic solves whose bounds are trusted.
pub const TRUSTED_MID_DIRECT_SYSTEMATIC_SOLVE_MAX_WIDTH: usize = 2_500;

/// From this width on a square direct plan collects its source batches directly.
pub const DIRECT_SOURCE_BATCH_DIRECT_COLLECT_MIN_WIDTH: usize = 20_000;

/// From this width on a decoding direct plan groups back substitution by destination.
pub const DIRECT_DECODE_SOURCE_BATCH_BACK_SUBSTITUTION_MIN_WIDTH: usize = 5_000;

/// How the additions of a direct plan's back substitution are grouped.
#[derive(Clone, Copy, Debug, PartialEq, Eq, Structural)]
pub enum DirectBackSubstitutionLayout {
    /// One batch per source symbol, listing its destinations.
    DestsBySource,
    /// One batch per destination symbol, listing its sources.
    SourcesByDest,
}

/// The back-substitution layout a decoding direct plan uses at this width.
pub fn direct_decode_back_substitution_layout(width: usize) -> (r: DirectBackSubstitutionLayout)
    ensures
        r == (if width >= DIRECT_DECODE_SOURCE_BATCH_BACK_SUBSTITUTION_MIN_WIDTH || (
        MID_DIRECT_SYSTEMATIC_SOLVE_MAX_WIDTH <= width
            < TRUSTED_MID_DIRECT_SYSTEMATIC_SOLVE_MAX_WIDTH) {
            DirectBackSubstitutionLayout::SourcesByDest
        } else {
            DirectBackSubstitutionLayout::DestsBySource
        }),
{
    if width >= DIRECT_DECODE_SOURCE_BATCH_BACK_SUBSTITUTION_MIN_WIDTH || (
    MID_DIRECT_SYSTEMATIC_SOLVE_MAX_WIDTH <= width && width
        < TRUSTED_MID_DIRECT_SYSTEMATIC_SOLVE_MAX_WIDTH) {
        DirectBackSubstitutionLayout::SourcesByDest
    } else {
        DirectBackSubstitutionLayout::DestsBySource
    }
}

/// Whether a direct plan collects source batches directly: only square plans (binary rows
/// plus HDPC rows fill the width) at large width with the by-destination layout.
pub fn use_direct_collect_sources_by_dest(
    width: usize,
    binary_height: usize,
    h: usize,
    layout: DirectBackSubstitutionLayout,
) -> (r: bool)
    ensures
        r == (binary_height + h == width && width >= DIRECT_SOURCE_BATCH_DIRECT_COLLECT_MIN_WIDTH
            && layout == DirectBackSubstitutionLayout::SourcesByDest),
{
    let square = binary_height <= width && width - binary_height == h;
    let by_dest = match layout {
        DirectBackSubstitutionLayout::SourcesByDest => true,
        DirectBackSubstitutionLayout::DestsBySource => false,
    };
    square && width >= DIRECT_SOURCE_BATCH_DIRECT_COLLECT_MIN_WIDTH && by_dest
}

} // verus!
