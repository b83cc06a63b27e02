//! The solver that does not record, for wide systems: rows wait in one bucket per leading
//! column, so each column's pivot and the rows to clear are found without scanning.

use crate::binary_solve::{lemma_injective_bound, lemma_tri_null_prefix, lemma_tri_null_tail, no_pivots, tri_null_coord};
use crate::linear_system::{
    coefficient,
    entries_value,
    eval_cols,
    lemma_entries_value,
    lemma_entries_value_frame,
    lemma_entries_value_step,
    lemma_eval_frame,
    lemma_eval_add_symbols,
    lemma_eval_ext,
    lemma_eval_zero_terms,
    lemma_inconsistent_row,
    lemma_solves_elim,
    lemma_solves_elim_back,
    lemma_solves_scale,
    lemma_solves_scale_back,
    row_value,
    row_view,
    solves,
    unique_solution,
};
use crate::octet::{Octet, gf_mul_spec, lemma_gf_mul_commutative, lemma_gf_mul_identities};
use crate::octets::{all_zero, fused_add_seq, fused_addassign_mul_scalar, mulassign_scalar, scale_seq};
use crate::operation_vector::uniform;
use crate::pi_solver::{
    CoefficientRow,
    OperationRecording,
    is_pivot_for,
    lemma_negative_cols,
    lemma_pivot_row_shape,
    lemma_row_bound,
    lemma_slab_uniform,
    lemma_state_no_unique,
    row_ok,
    rows_ok,
    scale_matrix_row,
    solve_result_ok,
    solver_state,
    eliminate_with_pivot,
    symbol_is_zero,
    copy_symbol,
    coefficient_col_index,
};
use crate::operation_vector::SymbolOps;
use crate::row_buckets::{
    NO_BUCKET_ROW,
    bucket_rows,
    bucket_rows_usable,
    is_bucket,
    lemma_bucket_frame,
    lemma_bucket_rows,
    lemma_push_bucket,
    lemma_unlink_bucket,
    pop_lightest_coefficient_row_bucket,
    pop_row_bucket,
    push_row_bucket,
    unlinked,
};
use crate::sparse_spec::{canonical, coeff, lemma_coeff_lookup, lemma_xor_basics};
use crate::symbol_slab::{SymbolSlab, lemma_after_get_disjoint_mut, lemma_after_get_mut, lemma_symbol_len};
use vstd::prelude::*;

verus! {

/// The links hold one bucket per column, `lists[c]` for column `c`, and `home[r]` is the
/// column whose bucket holds row `r`, or -1: every row is in at most one bucket.
pub open spec fn col_lists_ok(lists: Seq<Seq<usize>>, heads: Seq<usize>, next: Seq<usize>, home: Seq<int>) -> bool {
    &&& lists.len() == heads.len()
    &&& next.len() == home.len()
    &&& next.len() <= usize::MAX
    &&& forall|c: int| 0 <= c < lists.len() ==> is_bucket(next, heads[c], #[trigger] lists[c])
    &&& forall|c: int, i: int| 0 <= c < lists.len() && 0 <= i < lists[c].len() ==> home[#[trigger] lists[c][i] as int] == c
    &&& forall|r: int| 0 <= r < home.len() && #[trigger] home[r] >= 0 ==> home[r] < lists.len() && lists[home[r]].contains(r as usize)
    &&& forall|r: int| 0 <= r < home.len() ==> #[trigger] home[r] >= -1
}

/// Taking the row at position `k` out of the bucket of `c`.
#[verifier::spinoff_prover]
#[verifier::rlimit(30)]
pub proof fn lemma_col_lists_unlink(
    lists: Seq<Seq<usize>>,
    heads: Seq<usize>,
    next: Seq<usize>,
    home: Seq<int>,
    c: int,
    k: int,
    heads2: Seq<usize>,
    next2: Seq<usize>,
)
    requires
        col_lists_ok(lists, heads, next, home),
        0 <= c < lists.len(),
        0 <= k < lists[c].len(),
        unlinked(heads, next, c, lists[c], k, heads2, next2),
    ensures
        col_lists_ok(lists.update(c, lists[c].remove(k)), heads2, next2, home.update(lists[c][k] as int, -1)),
{
    let l = lists[c];
    let row = l[k];
    let lists2 = lists.update(c, l.remove(k));
    let home2 = home.update(row as int, -1);
    lemma_unlink_bucket(next, heads[c], l, k);
    assert forall|c2: int| 0 <= c2 < lists2.len() implies is_bucket(next2, heads2[c2], #[trigger] lists2[c2]) by {
        if c2 != c {
            let l2 = lists[c2];
            assert(lists2[c2] == l2);
            assert forall|i: int| 0 <= i < l2.len() implies next2[#[trigger] l2[i] as int] == next[l2[i] as int] by {
                assert(home[l2[i] as int] == c2);
                assert(home[row as int] == c);
                if k > 0 {
                    assert(home[l[k - 1] as int] == c);
                }
            }
            lemma_bucket_frame(next, next2, heads[c2], l2);
        }
    }
    assert forall|c2: int, i: int| 0 <= c2 < lists2.len() && 0 <= i < lists2[c2].len() implies home2[#[trigger] lists2[c2][i] as int] == c2 by {
        if c2 == c {
            let m = l.remove(k);
            let j = if i < k {
                i
            } else {
                i + 1
            };
            assert(m[i] == l[j]);
            assert(l[j] != l[k]);
        } else {
            assert(home[lists[c2][i] as int] == c2);
            assert(home[row as int] == c);
        }
    }
    assert forall|r: int| 0 <= r < home2.len() && #[trigger] home2[r] >= 0 implies home2[r] < lists2.len() && lists2[home2[r]].contains(r as usize) by {
        assert(r != row);
        if home[r] == c {
            let i = choose|i: int| 0 <= i < l.len() && l[i] == r as usize;
            assert(l[i] as int == r);
            assert(i != k);
            let m = l.remove(k);
            let j = if i < k {
                i
            } else {
                i - 1
            };
            assert(m[j] == l[i]);
        }
    }
}

/// Pushing a row that is in no bucket onto the front of the bucket of `c`.
pub proof fn lemma_col_lists_push(
    lists: Seq<Seq<usize>>,
    heads: Seq<usize>,
    next: Seq<usize>,
    home: Seq<int>,
    c: int,
    row: usize,
)
    requires
        col_lists_ok(lists, heads, next, home),
        0 <= c < lists.len(),
        row < home.len(),
        home[row as int] == -1,
    ensures
        col_lists_ok(
            lists.update(c, seq![row] + lists[c]),
            heads.update(c, row),
            next.update(row as int, heads[c]),
            home.update(row as int, c),
        ),
{
    let l = lists[c];
    let lists2 = lists.update(c, seq![row] + l);
    let heads2 = heads.update(c, row);
    let next2 = next.update(row as int, heads[c]);
    let home2 = home.update(row as int, c);
    assert(!l.contains(row)) by {
        if l.contains(row) {
            let i = choose|i: int| 0 <= i < l.len() && l[i] == row;
            assert(home[l[i] as int] == c);
        }
    }
    lemma_push_bucket(next, heads[c], l, row);
    assert forall|c2: int| 0 <= c2 < lists2.len() implies is_bucket(next2, heads2[c2], #[trigger] lists2[c2]) by {
        if c2 != c {
            let l2 = lists[c2];
            assert forall|i: int| 0 <= i < l2.len() implies next2[#[trigger] l2[i] as int] == next[l2[i] as int] by {
                assert(home[l2[i] as int] == c2);
            }
            lemma_bucket_frame(next, next2, heads[c2], l2);
        }
    }
    assert forall|c2: int, i: int| 0 <= c2 < lists2.len() && 0 <= i < lists2[c2].len() implies home2[#[trigger] lists2[c2][i] as int] == c2 by {
        if c2 == c {
            if i > 0 {
                assert((seq![row] + l)[i] == l[i - 1]);
                assert(home[l[i - 1] as int] == c);
            }
        } else {
            assert(home[lists[c2][i] as int] == c2);
        }
    }
    assert forall|r: int| 0 <= r < home2.len() && #[trigger] home2[r] >= 0 implies home2[r] < lists2.len() && lists2[home2[r]].contains(r as usize) by {
        if r == row as int {
            assert((seq![row] + l)[0] == row);
        } else if home[r] == c {
            let i = choose|i: int| 0 <= i < l.len() && l[i] == r as usize;
            assert((seq![row] + l)[i + 1] == l[i]);
        }
    }
}

} // verus!

verus! {

/// A canonical row whose first entry is at column `c`: that entry is its coefficient at
/// `c`, it has none before, and every other entry comes after.
pub proof fn lemma_first_entry(r: Seq<(u16, Octet)>, c: int)
    requires
        canonical(row_view(r)),
        r.len() > 0,
        r[0].0 == c,
    ensures
        coeff(row_view(r), c) == r[0].1@,
        r[0].1@ != 0,
        forall|c2: int| c2 < c ==> #[trigger] coeff(row_view(r), c2) == 0,
        forall|i: int| 1 <= i < r.len() ==> (#[trigger] r[i]).0 > c,
{
    let v = row_view(r);
    assert(v[0] == (c, r[0].1@));
    lemma_coeff_lookup(v, c);
    assert forall|i: int| 1 <= i < r.len() implies (#[trigger] r[i]).0 > c by {
        assert(v[0].0 < v[i].0);
    }
    assert forall|c2: int| c2 < c implies #[trigger] coeff(v, c2) == 0 by {
        lemma_coeff_lookup(v, c2);
        if exists|i: int| 0 <= i < v.len() && v[i].0 == c2 {
            let i = choose|i: int| 0 <= i < v.len() && v[i].0 == c2;
            if i > 0 {
                assert(v[0].0 < v[i].0);
            }
        }
    }
}

/// Scales pivot row `pivot`, whose first entry is at `col` with value `pivot_value`, and
/// its symbol by the inverse of `pivot_value`, so that its leading coefficient is one.
fn bucketed_scale_pivot(
    rows: &mut Vec<CoefficientRow>,
    symbols: &mut SymbolSlab,
    pivot: usize,
    pivot_value: Octet,
    col: usize,
    Ghost(orig_rows): Ghost<Seq<Vec<(u16, Octet)>>>,
    Ghost(orig_symbols): Ghost<Seq<Seq<u8>>>,
    Ghost(width): Ghost<nat>,
    Ghost(size): Ghost<nat>,
)
    requires
        solver_state(old(rows)@, *old(symbols), None, false, orig_rows, orig_symbols, width, size),
        pivot < old(rows)@.len(),
        col < width <= u16::MAX + 1,
        old(rows)@[pivot as int]@.len() > 0,
        old(rows)@[pivot as int]@[0].0 == col,
        pivot_value == old(rows)@[pivot as int]@[0].1,
    ensures
        solver_state(final(rows)@, *final(symbols), None, false, orig_rows, orig_symbols, width, size),
        final(rows)@.len() == old(rows)@.len(),
        forall|i: int| 0 <= i < old(rows)@.len() && i != pivot ==> #[trigger] final(rows)@[i] == old(rows)@[i],
        is_pivot_for(final(rows)@[pivot as int]@, col as int),
        final(rows)@[pivot as int]@.len() == old(rows)@[pivot as int]@.len(),
        final(rows)@[pivot as int]@[0].0 == col,
{
    let ghost r1 = rows@;
    let ghost s1 = *symbols;
    proof {
        assert(row_ok(r1[pivot as int]@, width));
        lemma_first_entry(r1[pivot as int]@, col as int);
    }
    if pivot_value != Octet::one() {
        let scalar = pivot_value.inverse();
        proof {
            lemma_gf_mul_identities(pivot_value@);
            lemma_gf_mul_commutative(pivot_value@, scalar@);
            lemma_gf_mul_identities(scalar@);
            assert(scalar@ != 0);
        }
        scale_matrix_row(&mut rows[pivot], col, scalar);
        proof {
            lemma_symbol_len(s1, pivot as int);
        }
        mulassign_scalar(symbols.get_mut(pivot), &scalar);
        proof {
            lemma_after_get_mut(s1, *symbols, pivot as int, scale_seq(s1@[pivot as int], scalar@));
            let r2 = rows@;
            let new_row = r2[pivot as int];
            assert(r2 == r1.update(pivot as int, new_row));
            assert forall|c: int| 0 <= c < width implies #[trigger] coeff(row_view(new_row@), c)
                == gf_mul_spec(coefficient(r1, pivot as int, c), scalar@) by {
                if c < col {
                    lemma_gf_mul_identities(scalar@);
                }
            }
            assert(s1@[pivot as int].len() == size);
            assert forall|x: Seq<Seq<u8>>| #[trigger] solves(r2, symbols@, x, width, size) implies solves(
                orig_rows,
                orig_symbols,
                x,
                width,
                size,
            ) by {
                lemma_solves_scale(r1, s1@, pivot as int, new_row, scalar@, x, width, size);
            }
            assert forall|x: Seq<Seq<u8>>| #[trigger] solves(orig_rows, orig_symbols, x, width, size) implies solves(
                r2,
                symbols@,
                x,
                width,
                size,
            ) by {
                assert(solves(r1, s1@, x, width, size));
                lemma_solves_scale_back(r1, s1@, pivot as int, new_row, scalar@, x, width, size);
            }
            lemma_row_bound(new_row@, width as int);
            assert forall|i: int| 0 <= i < r2.len() implies row_ok(#[trigger] r2[i]@, width) by {
                if i != pivot {
                    assert(r2[i] == r1[i]);
                }
            }
            lemma_gf_mul_commutative(pivot_value@, scalar@);
            assert(coeff(row_view(new_row@), col as int) == 1);
            assert forall|c: int| 0 <= c < col implies #[trigger] coeff(row_view(new_row@), c) == 0 by {
                lemma_gf_mul_identities(scalar@);
            }
            lemma_slab_uniform(*symbols);
        }
    }
}

/// Clears column `col` from row `row`, whose first entry is there, with the pivot row's
/// coefficients, and adds the same multiple of the pivot symbol to the row's symbol; the
/// row's entries then all lie after `col`.
fn bucketed_eliminate_row(
    rows: &mut Vec<CoefficientRow>,
    symbols: &mut SymbolSlab,
    pivot_coefficients: &CoefficientRow,
    pivot: usize,
    row: usize,
    col: usize,
    scratch: &mut CoefficientRow,
    Ghost(orig_rows): Ghost<Seq<Vec<(u16, Octet)>>>,
    Ghost(orig_symbols): Ghost<Seq<Seq<u8>>>,
    Ghost(width): Ghost<nat>,
    Ghost(size): Ghost<nat>,
)
    requires
        solver_state(old(rows)@, *old(symbols), None, false, orig_rows, orig_symbols, width, size),
        pivot < old(rows)@.len(),
        row < old(rows)@.len(),
        row != pivot,
        col < width <= u16::MAX + 1,
        pivot_coefficients@ == old(rows)@[pivot as int]@,
        is_pivot_for(pivot_coefficients@, col as int),
        old(rows)@[row as int]@.len() > 0,
        old(rows)@[row as int]@[0].0 == col,
    ensures
        solver_state(final(rows)@, *final(symbols), None, false, orig_rows, orig_symbols, width, size),
        final(rows)@.len() == old(rows)@.len(),
        forall|i: int| 0 <= i < old(rows)@.len() && i != row ==> #[trigger] final(rows)@[i] == old(rows)@[i],
        forall|i: int| 0 <= i < final(rows)@[row as int]@.len() ==> (#[trigger] final(rows)@[row as int]@[i]).0 > col,
{
    let ghost r0 = rows@;
    let ghost s0 = *symbols;
    proof {
        assert(row_ok(r0[row as int]@, width));
        assert(row_ok(r0[pivot as int]@, width));
        lemma_first_entry(r0[row as int]@, col as int);
        lemma_slab_uniform(s0);
    }
    let factor = eliminate_with_pivot(rows, symbols, pivot_coefficients, pivot, row, col, true, scratch);
    proof {
        let r1 = rows@;
        let new_row = r1[row as int];
        assert(r1 == r0.update(row as int, new_row));
        assert(factor@ != 0);
        assert forall|c: int| 0 <= c < width implies #[trigger] coeff(row_view(new_row@), c) == coefficient(r0, row as int, c)
            ^ gf_mul_spec(coefficient(r0, pivot as int, c), factor@) by {
            assert(coefficient(r1, row as int, c) == coefficient(r0, row as int, c) ^ gf_mul_spec(
                coeff(row_view(pivot_coefficients@), c),
                factor@,
            ));
        }
        assert forall|x: Seq<Seq<u8>>| #[trigger] solves(r1, symbols@, x, width, size) implies solves(
            orig_rows,
            orig_symbols,
            x,
            width,
            size,
        ) by {
            lemma_solves_elim(r0, s0@, row as int, pivot as int, new_row, factor@, x, width, size);
        }
        assert forall|x: Seq<Seq<u8>>| #[trigger] solves(orig_rows, orig_symbols, x, width, size) implies solves(
            r1,
            symbols@,
            x,
            width,
            size,
        ) by {
            assert(solves(r0, s0@, x, width, size));
            lemma_solves_elim_back(r0, s0@, row as int, pivot as int, new_row, factor@, x, width, size);
        }
        // the row no longer reaches column `col` or before it
        assert forall|c: int| c <= col implies #[trigger] coeff(row_view(new_row@), c) == 0 by {
            lemma_negative_cols(pivot_coefficients@);
            lemma_negative_cols(r0[row as int]@);
            assert(coefficient(r1, row as int, c) == coefficient(r0, row as int, c) ^ gf_mul_spec(
                coeff(row_view(pivot_coefficients@), c),
                factor@,
            ));
            if c == col {
                lemma_gf_mul_identities(factor@);
                lemma_xor_basics(factor@, 0, 0);
            } else {
                lemma_gf_mul_identities(factor@);
                lemma_xor_basics(0, 0, 0);
            }
        }
        assert forall|i: int| 0 <= i < new_row@.len() implies (#[trigger] new_row@[i]).0 > col by {
            let v = row_view(new_row@);
            lemma_coeff_lookup(v, v[i].0);
            assert(v[i].1 != 0);
        }
        lemma_row_bound(new_row@, width as int);
        assert forall|c: int| c >= width implies #[trigger] coeff(row_view(new_row@), c) == 0 by {
            assert(coefficient(r1, row as int, c) == coefficient(r0, row as int, c) ^ gf_mul_spec(
                coeff(row_view(pivot_coefficients@), c),
                factor@,
            ));
            lemma_row_bound(r0[row as int]@, width as int);
            lemma_row_bound(pivot_coefficients@, width as int);
            lemma_gf_mul_identities(factor@);
            lemma_xor_basics(0, 0, 0);
        }
        assert forall|i: int| 0 <= i < r1.len() implies row_ok(#[trigger] r1[i]@, width) by {
            if i != row {
                assert(r1[i] == r0[i]);
            }
        }
        lemma_slab_uniform(*symbols);
    }
}

} // verus!

verus! {

/// What bucketed forward elimination keeps true with the pivots of the first `npiv`
/// columns chosen and every other row clear of the columns before `col`.
pub open spec fn bucketed_inv(
    rows: Seq<Vec<(u16, Octet)>>,
    width: nat,
    lists: Seq<Seq<usize>>,
    heads: Seq<usize>,
    next: Seq<usize>,
    home: Seq<int>,
    pivot_for_col: Seq<Option<usize>>,
    is_pivot: Seq<bool>,
    pcol: Seq<int>,
    col: int,
    npiv: int,
) -> bool {
    let h = rows.len();
    &&& home.len() == h
    &&& is_pivot.len() == h
    &&& pcol.len() == h
    &&& pivot_for_col.len() == width
    &&& lists.len() == width
    &&& col_lists_ok(lists, heads, next, home)
    &&& 0 <= col <= npiv <= width
    &&& npiv <= col + 1
    &&& forall|r: int|
        0 <= r < h && #[trigger] home[r] >= 0 ==> col <= home[r] && rows[r]@.len() > 0 && rows[r]@[0].0 == home[r]
            && !is_pivot[r]
    &&& forall|r: int| 0 <= r < h && #[trigger] home[r] < 0 && !is_pivot[r] ==> rows[r]@.len() == 0
    &&& forall|r: int, c: int| 0 <= r < h && !is_pivot[r] && 0 <= c < col ==> #[trigger] coefficient(rows, r, c) == 0
    &&& forall|c: int|
        0 <= c < npiv ==> (#[trigger] pivot_for_col[c]) is Some && {
            let p = pivot_for_col[c]->0 as int;
            &&& p < h
            &&& is_pivot[p]
            &&& home[p] == -1
            &&& pcol[p] == c
            &&& is_pivot_for(rows[p]@, c)
        }
    &&& forall|c: int| npiv <= c < width ==> (#[trigger] pivot_for_col[c]) is None
    &&& forall|r: int|
        0 <= r < h && #[trigger] is_pivot[r] ==> 0 <= pcol[r] < npiv && pivot_for_col[pcol[r]] == Some(r as usize)
}

/// With pivot rows for the columns before `col` and no other row reaching the columns up
/// to `col`, every solution has a second one.
proof fn lemma_pivots_null(
    rows: Seq<Vec<(u16, Octet)>>,
    rhs: Seq<Seq<u8>>,
    piv: Seq<Option<usize>>,
    is_pivot: Seq<bool>,
    pcol: Seq<int>,
    col: int,
    n: nat,
    size: nat,
)
    requires
        0 <= col < n,
        rows.len() <= usize::MAX,
        size > 0,
        piv.len() == n,
        is_pivot.len() == rows.len(),
        pcol.len() == rows.len(),
        forall|c: int| 0 <= c < col ==> (#[trigger] piv[c]) is Some && piv[c]->0 < rows.len()
            && is_pivot_for(rows[piv[c]->0 as int]@, c),
        forall|r: int| 0 <= r < rows.len() && #[trigger] is_pivot[r] ==> 0 <= pcol[r] < col && piv[pcol[r]]
            == Some(r as usize),
        forall|r: int, c: int| 0 <= r < rows.len() && !is_pivot[r] && 0 <= c <= col ==> #[trigger] coefficient(rows, r, c) == 0,
    ensures
        !unique_solution(rows, rhs, n, size),
{
    let a = |i: int, c: int| coefficient(rows, piv[i]->0 as int, c);
    if unique_solution(rows, rhs, n, size) {
        let x = choose|x: Seq<Seq<u8>>|
            #![trigger solves(rows, rhs, x, n, size)]
            solves(rows, rhs, x, n, size) && forall|y: Seq<Seq<u8>>|
                #![trigger solves(rows, rhs, y, n, size)]
                solves(rows, rhs, y, n, size) ==> y == x;
        let w = Seq::new(n, |c: int| Seq::new(size, |kk: int| tri_null_coord(a, col, c)));
        let y = Seq::new(n, |c: int| Seq::new(size, |kk: int| x[c][kk] ^ tri_null_coord(a, col, c)));
        assert forall|i: int, k: int| 0 <= i < rows.len() && 0 <= k < size implies #[trigger] row_value(
            rows[i]@,
            y,
            k,
            n,
        ) == rhs[i][k] by {
            let f = |c: int| coeff(row_view(rows[i]@), c);
            assert forall|c: int| 0 <= c < n implies #[trigger] w[c][k] == tri_null_coord(a, col, c) by {}
            assert forall|c: int| 0 <= c < n implies #[trigger] y[c][k] == x[c][k] ^ w[c][k] by {}
            if is_pivot[i] {
                let pi = pcol[i];
                assert(piv[pi] == Some(i as usize));
                assert(piv[pi]->0 as int == i);
                assert(is_pivot_for(rows[i]@, pi));
                assert forall|c: int| 0 <= c < pi implies #[trigger] a(pi, c) == 0 by {}
                lemma_tri_null_prefix(a, col, pi, w, k, col + 1);
                lemma_xor_basics(tri_null_coord(a, col, pi), 0, 0);
                let g = |c: int| a(pi, c);
                assert forall|c: int| 0 <= c < n implies #[trigger] g(c) == f(c) by {}
                lemma_eval_ext(g, f, w, k, (col + 1) as nat);
                lemma_tri_null_tail(f, w, k, col + 1, n as int, a, col);
            } else {
                assert forall|c: int| 0 <= c < n implies #[trigger] gf_mul_spec(f(c), w[c][k]) == 0 by {
                    if c <= col {
                        assert(coefficient(rows, i, c) == 0);
                        lemma_gf_mul_identities(w[c][k]);
                    } else {
                        lemma_gf_mul_identities(f(c));
                    }
                }
                lemma_eval_zero_terms(f, w, k, n);
            }
            lemma_eval_add_symbols(f, x, w, y, k, n);
            assert(row_value(rows[i]@, x, k, n) == rhs[i][k]);
            lemma_xor_basics(rhs[i][k], 0, 0);
        }
        assert forall|c: int| 0 <= c < y.len() implies #[trigger] y[c].len() == size by {}
        assert(solves(rows, rhs, y, n, size));
        assert(y[col][0] == x[col][0] ^ 1u8);
        lemma_xor_basics(x[col][0], 1u8, 0);
        assert(y[col] != x[col]);
    }
}

} // verus!

verus! {

/// A copy of a coefficient row.
fn clone_coefficient_row(row: &CoefficientRow) -> (r: CoefficientRow)
    ensures
        r@ == row@,
{
    let mut r: CoefficientRow = Vec::new();
    let mut i: usize = 0;
    while i < row.len()
        invariant
            i <= row@.len(),
            r@ == row@.subrange(0, i as int),
        decreases row@.len() - i,
    {
        r.push(row[i]);
        i += 1;
        proof {
            assert(r@ =~= row@.subrange(0, i as int));
        }
    }
    proof {
        assert(row@.subrange(0, row@.len() as int) =~= row@);
    }
    r
}

/// Bucketed forward elimination: the lightest row of each column's bucket becomes the
/// pivot, is scaled to a leading one, and is added into every other row of the bucket,
/// which then moves to the bucket of its new leading column. Without a pivot for some
/// column it stops and returns false.
fn bucketed_forward_eliminate(
    rows: &mut Vec<CoefficientRow>,
    symbols: &mut SymbolSlab,
    width: usize,
    pivot_for_col: &mut Vec<Option<usize>>,
    is_pivot_row: &mut Vec<bool>,
    Ghost(orig_rows): Ghost<Seq<Vec<(u16, Octet)>>>,
    Ghost(orig_symbols): Ghost<Seq<Seq<u8>>>,
    Ghost(size): Ghost<nat>,
) -> (found: bool)
    requires
        solver_state(old(rows)@, *old(symbols), None, false, orig_rows, orig_symbols, width as nat, size),
        width <= u16::MAX + 1,
        old(pivot_for_col)@.len() == width,
        forall|c: int| 0 <= c < width ==> (#[trigger] old(pivot_for_col)@[c]) is None,
        old(is_pivot_row)@.len() == old(rows)@.len(),
        forall|r: int| 0 <= r < old(rows)@.len() ==> !#[trigger] old(is_pivot_row)@[r],
    ensures
        solver_state(final(rows)@, *final(symbols), None, false, orig_rows, orig_symbols, width as nat, size),
        final(rows)@.len() == old(rows)@.len(),
        final(pivot_for_col)@.len() == width,
        final(is_pivot_row)@.len() == old(rows)@.len(),
        found ==> forall|c: int| 0 <= c < width ==> (#[trigger] final(pivot_for_col)@[c]) is Some && {
            let p = final(pivot_for_col)@[c]->0 as int;
            &&& p < old(rows)@.len()
            &&& final(is_pivot_row)@[p]
            &&& is_pivot_for(final(rows)@[p]@, c)
        },
        found ==> forall|r: int| 0 <= r < old(rows)@.len() && #[trigger] final(is_pivot_row)@[r] ==> exists|c: int|
            0 <= c < width && final(pivot_for_col)@[c] == Some(r as usize),
        found ==> forall|r: int| 0 <= r < old(rows)@.len() && !#[trigger] final(is_pivot_row)@[r] ==> final(rows)@[r]@.len() == 0,
        !found ==> !unique_solution(orig_rows, orig_symbols, width as nat, size),
{
    let height = rows.len();
    let mut row_merge_scratch: CoefficientRow = Vec::new();
    let mut bucket_heads: Vec<usize> = vec![NO_BUCKET_ROW; width];
    let mut next_in_bucket: Vec<usize> = vec![NO_BUCKET_ROW; height];
    let ghost mut lists = Seq::new(width as nat, |c: int| Seq::<usize>::empty());
    let ghost mut home = Seq::new(height as nat, |r: int| -1int);
    let ghost mut pcol = Seq::new(height as nat, |r: int| 0int);
    proof {
        assert forall|c: int| 0 <= c < lists.len() implies is_bucket(next_in_bucket@, bucket_heads@[c], #[trigger] lists[c]) by {}
    }
    let mut row: usize = 0;
    while row < height
        invariant
            height == rows@.len(),
            row <= height,
            rows@ == old(rows)@,
            solver_state(rows@, *symbols, None, false, orig_rows, orig_symbols, width as nat, size),
            width <= u16::MAX + 1,
            col_lists_ok(lists, bucket_heads@, next_in_bucket@, home),
            lists.len() == width,
            home.len() == height,
            forall|r: int| 0 <= r < row ==> #[trigger] home[r] == (if rows@[r]@.len() > 0 {
                rows@[r]@[0].0 as int
            } else {
                -1int
            }),
            forall|r: int| row <= r < height ==> #[trigger] home[r] == -1,
        decreases height - row,
    {
        if rows[row].len() > 0 {
            let col = coefficient_col_index(rows[row][0].0);
            let ghost heads0 = bucket_heads@;
            let ghost next0 = next_in_bucket@;
            proof {
                assert(row_ok(rows@[row as int]@, width as nat));
            }
            push_row_bucket(&mut bucket_heads, &mut next_in_bucket, col, row);
            proof {
                lemma_col_lists_push(lists, heads0, next0, home, col as int, row);
                lists = lists.update(col as int, seq![row] + lists[col as int]);
                home = home.update(row as int, col as int);
            }
        }
        row += 1;
    }
    proof {
        assert forall|r: int, c: int| 0 <= r < height && !is_pivot_row@[r] && 0 <= c < 0 implies #[trigger] coefficient(rows@, r, c) == 0 by {}
        assert forall|r: int| 0 <= r < height && #[trigger] home[r] < 0 && !is_pivot_row@[r] implies rows@[r]@.len() == 0 by {}
    }
    let mut col: usize = 0;
    while col < width
        invariant
            height == rows@.len(),
            height == old(rows)@.len(),
            width <= u16::MAX + 1,
            solver_state(rows@, *symbols, None, false, orig_rows, orig_symbols, width as nat, size),
            bucketed_inv(
                rows@,
                width as nat,
                lists,
                bucket_heads@,
                next_in_bucket@,
                home,
                pivot_for_col@,
                is_pivot_row@,
                pcol,
                col as int,
                col as int,
            ),
        decreases width - col,
    {
        let ghost heads0 = bucket_heads@;
        let ghost next0 = next_in_bucket@;
        let ghost lc = lists[col as int];
        proof {
            lemma_bucket_rows(next0, heads0[col as int], lc);
            assert forall|i: int| 0 <= i < bucket_rows(next0, heads0[col as int]).len() implies #[trigger] bucket_rows(
                next0,
                heads0[col as int],
            )[i] < rows@.len() && rows@[bucket_rows(next0, heads0[col as int])[i] as int]@.len() >= 1 by {
                assert(home[lc[i] as int] == col);
            }
        }
        let popped = pop_lightest_coefficient_row_bucket(rows, &mut bucket_heads, &mut next_in_bucket, col);
        let (pivot, pivot_value) = match popped {
            None => {
                proof {
                    assert(lc.len() == 0);
                    assert forall|r: int, c: int| 0 <= r < height && !is_pivot_row@[r] && 0 <= c <= col implies #[trigger] coefficient(rows@, r, c) == 0 by {
                        if c == col {
                            if home[r] >= 0 {
                                assert(lists[home[r]].contains(r as usize));
                                assert(home[r] != col);
                                assert(row_ok(rows@[r]@, width as nat));
                                lemma_first_entry(rows@[r]@, home[r]);
                            } else {
                                assert(rows@[r]@.len() == 0);
                                lemma_coeff_lookup(row_view(rows@[r]@), c);
                            }
                        }
                    }
                    lemma_slab_uniform(*symbols);
                    if height > 0 {
                        lemma_symbol_len(*symbols, 0);
                    }
                    lemma_pivots_null(rows@, symbols@, pivot_for_col@, is_pivot_row@, pcol, col as int, width as nat, size);
                    assert forall|x: Seq<Seq<u8>>| #[trigger] solves(rows@, symbols@, x, width as nat, size) implies exists|y: Seq<Seq<u8>>|
                        #[trigger] solves(rows@, symbols@, y, width as nat, size) && y != x by {
                        if !exists|y: Seq<Seq<u8>>| #[trigger] solves(rows@, symbols@, y, width as nat, size) && y != x {
                            assert forall|y: Seq<Seq<u8>>| #[trigger] solves(rows@, symbols@, y, width as nat, size) implies y == x by {}
                            assert(unique_solution(rows@, symbols@, width as nat, size));
                        }
                    }
                    lemma_state_no_unique(rows@, *symbols, None, false, orig_rows, orig_symbols, width as nat, size);
                }
                return false;
            },
            Some(p) => p,
        };
        proof {
            let k = choose|k: int|
                #![trigger lc[k]]
                0 <= k < lc.len() && lc[k] == pivot && unlinked(heads0, next0, col as int, lc, k, bucket_heads@, next_in_bucket@);
            lemma_col_lists_unlink(lists, heads0, next0, home, col as int, k, bucket_heads@, next_in_bucket@);
            assert(home[pivot as int] == col);
            lists = lists.update(col as int, lc.remove(k));
            home = home.update(pivot as int, -1);
            assert(rows@[pivot as int]@[0].1 == pivot_value);
        }
        pivot_for_col.set(col, Some(pivot));
        is_pivot_row.set(pivot, true);
        proof {
            pcol = pcol.update(pivot as int, col as int);
        }
        let ghost rows_before_scale = rows@;
        bucketed_scale_pivot(
            rows,
            symbols,
            pivot,
            pivot_value,
            col,
            Ghost(orig_rows),
            Ghost(orig_symbols),
            Ghost(width as nat),
            Ghost(size),
        );
        proof {
            let r1 = rows@;
            assert forall|r: int| 0 <= r < height && #[trigger] home[r] >= 0 implies col <= home[r] && r1[r]@.len() > 0
                && r1[r]@[0].0 == home[r] && !is_pivot_row@[r] by {
                assert(r != pivot);
                assert(r1[r] == rows_before_scale[r]);
            }
            assert forall|r: int| 0 <= r < height && #[trigger] home[r] < 0 && !is_pivot_row@[r] implies r1[r]@.len() == 0 by {
                assert(r != pivot);
                assert(r1[r] == rows_before_scale[r]);
            }
            assert forall|r: int, c: int| 0 <= r < height && !is_pivot_row@[r] && 0 <= c < col implies #[trigger] coefficient(r1, r, c) == 0 by {
                assert(r != pivot);
                assert(r1[r] == rows_before_scale[r]);
                assert(coefficient(rows_before_scale, r, c) == 0);
            }
            assert forall|c: int| 0 <= c < col + 1 implies (#[trigger] pivot_for_col@[c]) is Some && {
                let p = pivot_for_col@[c]->0 as int;
                &&& p < height
                &&& is_pivot_row@[p]
                &&& home[p] == -1
                &&& pcol[p] == c
                &&& is_pivot_for(r1[p]@, c)
            } by {
                if c < col {
                    let p = pivot_for_col@[c]->0 as int;
                    assert(p != pivot);
                    assert(r1[p] == rows_before_scale[p]);
                }
            }
        }
        let pivot_coefficients = clone_coefficient_row(&rows[pivot]);
        loop
            invariant
                height == rows@.len(),
                width <= u16::MAX + 1,
                col < width,
                pivot < height,
                pivot_for_col@[col as int] == Some(pivot),
                pivot_coefficients@ == rows@[pivot as int]@,
                is_pivot_for(pivot_coefficients@, col as int),
                solver_state(rows@, *symbols, None, false, orig_rows, orig_symbols, width as nat, size),
                bucketed_inv(
                    rows@,
                    width as nat,
                    lists,
                    bucket_heads@,
                    next_in_bucket@,
                    home,
                    pivot_for_col@,
                    is_pivot_row@,
                    pcol,
                    col as int,
                    col + 1,
                ),
            ensures
                height == rows@.len(),
                solver_state(rows@, *symbols, None, false, orig_rows, orig_symbols, width as nat, size),
                bucketed_inv(
                    rows@,
                    width as nat,
                    lists,
                    bucket_heads@,
                    next_in_bucket@,
                    home,
                    pivot_for_col@,
                    is_pivot_row@,
                    pcol,
                    col as int,
                    col + 1,
                ),
                lists[col as int].len() == 0,
            decreases lists[col as int].len(),
        {
            let ghost heads_a = bucket_heads@;
            let ghost next_a = next_in_bucket@;
            let ghost la = lists[col as int];
            let ghost rows_a = rows@;
            proof {
                if la.len() > 0 {
                    assert(la[0] < next_a.len());
                }
            }
            let popped_row = pop_row_bucket(&mut bucket_heads, &mut next_in_bucket, col);
            let row = match popped_row {
                None => {
                    proof {
                        if la.len() > 0 {
                            assert(la[0] != NO_BUCKET_ROW);
                        }
                    }
                    break;
                },
                Some(row) => row,
            };
            proof {
                assert(la.len() > 0 && la[0] == row);
                lemma_col_lists_unlink(lists, heads_a, next_a, home, col as int, 0, bucket_heads@, next_in_bucket@);
                assert(home[row as int] == col);
                lists = lists.update(col as int, la.remove(0));
                home = home.update(row as int, -1);
                assert(row != pivot);
            }
            bucketed_eliminate_row(
                rows,
                symbols,
                &pivot_coefficients,
                pivot,
                row,
                col,
                &mut row_merge_scratch,
                Ghost(orig_rows),
                Ghost(orig_symbols),
                Ghost(width as nat),
                Ghost(size),
            );
            let ghost home_b = home;
            if rows[row].len() > 0 {
                let next_col = coefficient_col_index(rows[row][0].0);
                let ghost heads_b = bucket_heads@;
                let ghost next_b = next_in_bucket@;
                proof {
                    assert(row_ok(rows@[row as int]@, width as nat));
                }
                push_row_bucket(&mut bucket_heads, &mut next_in_bucket, next_col, row);
                proof {
                    lemma_col_lists_push(lists, heads_b, next_b, home, next_col as int, row);
                    lists = lists.update(next_col as int, seq![row] + lists[next_col as int]);
                    home = home.update(row as int, next_col as int);
                }
            }
            proof {
                let r1 = rows@;
                assert(r1[pivot as int] == rows_a[pivot as int]);
                assert forall|r: int| 0 <= r < height && #[trigger] home[r] >= 0 implies col <= home[r] && r1[r]@.len() > 0
                    && r1[r]@[0].0 == home[r] && !is_pivot_row@[r] by {
                    if r != row {
                        assert(r1[r] == rows_a[r]);
                    }
                }
                assert forall|r: int| 0 <= r < height && #[trigger] home[r] < 0 && !is_pivot_row@[r] implies r1[r]@.len() == 0 by {
                    if r != row {
                        assert(r1[r] == rows_a[r]);
                    }
                }
                assert forall|r: int, c: int| 0 <= r < height && !is_pivot_row@[r] && 0 <= c < col implies #[trigger] coefficient(r1, r, c) == 0 by {
                    if r != row {
                        assert(r1[r] == rows_a[r]);
                        assert(coefficient(rows_a, r, c) == 0);
                    } else {
                        lemma_coeff_lookup(row_view(r1[r]@), c);
                    }
                }
                assert forall|c: int| 0 <= c < col + 1 implies (#[trigger] pivot_for_col@[c]) is Some && {
                    let p = pivot_for_col@[c]->0 as int;
                    &&& p < height
                    &&& is_pivot_row@[p]
                    &&& home[p] == -1
                    &&& pcol[p] == c
                    &&& is_pivot_for(r1[p]@, c)
                } by {
                    let p = pivot_for_col@[c]->0 as int;
                    assert(p != row);
                    assert(r1[p] == rows_a[p]);
                }
                assert(lists[col as int] == la.remove(0));
            }
        }
        proof {
            let r1 = rows@;
            assert forall|r: int, c: int| 0 <= r < height && !is_pivot_row@[r] && 0 <= c < col + 1 implies #[trigger] coefficient(r1, r, c) == 0 by {
                if c == col {
                    if home[r] >= 0 {
                        assert(lists[home[r]].contains(r as usize));
                        assert(home[r] != col);
                        assert(row_ok(r1[r]@, width as nat));
                        lemma_first_entry(r1[r]@, home[r]);
                    } else {
                        lemma_coeff_lookup(row_view(r1[r]@), c);
                    }
                }
            }
        }
        col += 1;
    }
    proof {
        assert forall|r: int| 0 <= r < height && #[trigger] is_pivot_row@[r] implies exists|c: int|
            0 <= c < width && pivot_for_col@[c] == Some(r as usize) by {
            assert(pivot_for_col@[pcol[r]] == Some(r as usize));
        }
        assert forall|r: int| 0 <= r < height && !#[trigger] is_pivot_row@[r] implies rows@[r]@.len() == 0 by {
            if home[r] >= 0 {
                assert(home[r] < width);
            }
        }
    }
    true
}

} // verus!
/// Back substitution over the pivot rows, last column first: decoded symbol `col` is the
/// right-hand side of the pivot row of `col` plus the already decoded symbols times that
/// row's later coefficients.
verus! {

fn back_substitute_pivots(
    rows: &Vec<CoefficientRow>,
    symbols: &SymbolSlab,
    pivot_for_col: &Vec<Option<usize>>,
    width: usize,
) -> (decoded: SymbolSlab)
    requires
        symbols.wf(),
        symbols.spec_len() == rows@.len(),
        width <= rows@.len(),
        rows_ok(rows@, width as nat),
        pivot_for_col@.len() == width,
        forall|i: int| 0 <= i < width ==> (#[trigger] pivot_for_col@[i]) is Some && pivot_for_col@[i]->0 < rows@.len() && is_pivot_for(rows@[pivot_for_col@[i]->0 as int]@, i),
    ensures
        decoded.wf(),
        decoded.spec_len() == width,
        decoded.spec_symbol_size() == symbols.spec_symbol_size(),
        forall|i: int, k: int|
            0 <= i < width && 0 <= k < symbols.spec_symbol_size() ==> #[trigger] row_value(
                rows@[pivot_for_col@[i]->0 as int]@,
                decoded@,
                k,
                width as nat,
            ) == symbols@[pivot_for_col@[i]->0 as int][k],
{
    let size = symbols.symbol_size();
    let _ = symbols.as_bytes().len();
    proof {
        if width > 0 {
            symbols.lemma_symbol_bounds(width - 1);
            assert(width * size == (width - 1) * size + size) by (nonlinear_arith);
        }
    }
    let mut decoded = SymbolSlab::with_zeros(width, size);
    let mut row = width;
    while row > 0
        invariant
            symbols.wf(),
            symbols.spec_len() == rows@.len(),
            width <= rows@.len(),
            size == symbols.spec_symbol_size(),
            rows_ok(rows@, width as nat),
            pivot_for_col@.len() == width,
            forall|i: int| 0 <= i < width ==> (#[trigger] pivot_for_col@[i]) is Some && pivot_for_col@[i]->0 < rows@.len() && is_pivot_for(rows@[pivot_for_col@[i]->0 as int]@, i),
            decoded.wf(),
            decoded.spec_symbol_size() == size,
            decoded.spec_len() == width,
            row <= width,
            forall|i: int, k: int|
                row <= i < width && 0 <= k < size ==> #[trigger] row_value(
                    rows@[pivot_for_col@[i]->0 as int]@,
                    decoded@,
                    k,
                    width as nat,
                ) == symbols@[pivot_for_col@[i]->0 as int][k],
        decreases row,
    {
        row -= 1;
        let pivot = pivot_for_col[row].unwrap();
        let ghost d0 = decoded@;
        proof {
            lemma_symbol_len(*symbols, pivot as int);
        }
        copy_symbol(&mut decoded, row, symbols.get(pivot));
        let ghost d1 = decoded@;
        let ghost rv = row_view(rows@[pivot as int]@);
        proof {
            lemma_pivot_row_shape(rows@[pivot as int]@, row as int);
            assert forall|k: int| 0 <= k < size implies #[trigger] d1[row as int][k] == symbols@[pivot as int][k]
                ^ entries_value(rv.subrange(rv.len() as int, rv.len() as int), d1, k) by {
                assert(rv.subrange(rv.len() as int, rv.len() as int) =~= Seq::<(int, u8)>::empty());
                let b = symbols@[pivot as int][k];
                lemma_xor_basics(b, 0, 0);
            }
        }
        let n = rows[pivot].len();
        let mut j = n;
        while j > 0
            invariant
                decoded.wf(),
                decoded.spec_symbol_size() == size,
                decoded.spec_len() == width,
                row < width,
                width <= rows@.len(),
                symbols.wf(),
                symbols.spec_len() == rows@.len(),
                pivot < rows@.len(),
                size == symbols.spec_symbol_size(),
                rows_ok(rows@, width as nat),
                n == rows@[pivot as int]@.len(),
                rv == row_view(rows@[pivot as int]@),
                rv.len() == n,
                rows@[pivot as int]@[0].0 == row,
                forall|i: int| 1 <= i < n ==> (#[trigger] rows@[pivot as int]@[i]).0 > row,
                1 <= j <= n,
                forall|i: int| 0 <= i < width && i != row ==> #[trigger] decoded@[i] == d1[i],
                forall|k: int|
                    0 <= k < size ==> #[trigger] decoded@[row as int][k] == symbols@[pivot as int][k]
                        ^ entries_value(rv.subrange(j as int, n as int), decoded@, k),
            ensures
                j == 1,
                decoded.wf(),
                decoded.spec_symbol_size() == size,
                decoded.spec_len() == width,
                forall|i: int| 0 <= i < width && i != row ==> #[trigger] decoded@[i] == d1[i],
                forall|k: int|
                    0 <= k < size ==> #[trigger] decoded@[row as int][k] == symbols@[pivot as int][k]
                        ^ entries_value(rv.subrange(1, n as int), decoded@, k),
            decreases j,
        {
            let (col, coefficient) = rows[pivot][j - 1];
            let col = col as usize;
            if col <= row {
                proof {
                    if j > 1 {
                        assert(rows@[pivot as int]@[j - 1].0 > row);
                    }
                }
                break;
            }
            proof {
                assert(row_ok(rows@[pivot as int]@, width as nat));
                assert(col < width);
                lemma_symbol_len(decoded, col as int);
                lemma_symbol_len(decoded, row as int);
            }
            let ghost da = decoded;
            let (dependent_symbol, dest_symbol) = decoded.get_disjoint_mut(col, row);
            fused_addassign_mul_scalar(dest_symbol, dependent_symbol, &coefficient);
            proof {
                let x = da@[row as int];
                let y = da@[col as int];
                lemma_after_get_disjoint_mut(
                    da,
                    decoded,
                    col as int,
                    y,
                    row as int,
                    fused_add_seq(x, y, coefficient@),
                );
                assert(da@.update(col as int, y) =~= da@);
                let db = decoded@;
                assert forall|k: int| 0 <= k < size implies #[trigger] db[row as int][k]
                    == symbols@[pivot as int][k] ^ entries_value(
                    rv.subrange(j - 1, n as int),
                    db,
                    k,
                ) by {
                    let tail = rv.subrange(j as int, n as int);
                    assert forall|i: int| 0 <= i < tail.len() implies da@[(#[trigger] tail[i]).0][k]
                        == db[tail[i].0][k] by {
                        assert(tail[i] == rv[j + i]);
                        assert(rows@[pivot as int]@[j + i].0 > row);
                    }
                    lemma_entries_value_frame(tail, da@, db, k);
                    lemma_entries_value_step(rv, j - 1, db, k);
                    assert(rv[j - 1] == (col as int, coefficient@));
                    let s = symbols@[pivot as int][k];
                    let e = entries_value(tail, da@, k);
                    let g = gf_mul_spec(coefficient@, y[k]);
                    lemma_xor_basics(s, e, g);
                    lemma_xor_basics(e, g, 0);
                }
            }
            j -= 1;
        }
        proof {
            let d2 = decoded@;
            // the new row is satisfied
            assert forall|k: int| 0 <= k < size implies #[trigger] row_value(
                rows@[pivot as int]@,
                d2,
                k,
                width as nat,
            ) == symbols@[pivot as int][k] by {
                assert forall|i: int| 0 <= i < rv.len() implies 0 <= (#[trigger] rv[i]).0 < width by {
                    assert(rows@[pivot as int]@[i].0 < width);
                }
                lemma_entries_value(rv, d2, k, width as nat);
                assert(rv.subrange(0, n as int) =~= rv);
                lemma_entries_value_step(rv, 0, d2, k);
                assert(rv[0].1 == 1);
                lemma_gf_mul_identities(d2[row as int][k]);
                let s = symbols@[pivot as int][k];
                let e = entries_value(rv.subrange(1, n as int), d2, k);
                lemma_xor_basics(s, e, 0);
            }
            // later rows are not affected
            assert forall|i: int, k: int|
                row + 1 <= i < width && 0 <= k < size implies #[trigger] row_value(
                rows@[pivot_for_col@[i]->0 as int]@,
                d2,
                k,
                width as nat,
            ) == symbols@[pivot_for_col@[i]->0 as int][k] by {
                assert(row_value(rows@[pivot_for_col@[i]->0 as int]@, d0, k, width as nat) == symbols@[pivot_for_col@[i]->0 as int][k]);
                let f = |c: int| coeff(row_view(rows@[pivot_for_col@[i]->0 as int]@), c);
                assert forall|c: int| 0 <= c < width && #[trigger] f(c) != 0 implies d0[c][k]
                    == d2[c][k] by {
                    if c == row {
                        assert(is_pivot_for(rows@[pivot_for_col@[i]->0 as int]@, i));
                    }
                }
                lemma_eval_frame(f, d0, d2, k, width as nat);
            }
        }
    }
    decoded
}

} // verus!

verus! {

/// Whether every row that is not a pivot row has a zero symbol (such rows are empty).
fn bucketed_unpivoted_rows_consistent(
    rows: &Vec<CoefficientRow>,
    symbols: &SymbolSlab,
    is_pivot_row: &Vec<bool>,
) -> (r: bool)
    requires
        symbols.wf(),
        symbols.spec_len() == rows@.len(),
        is_pivot_row@.len() == rows@.len(),
    ensures
        r == forall|row: int| 0 <= row < rows@.len() && !#[trigger] is_pivot_row@[row] ==> rows@[row]@.len() == 0
            && all_zero(symbols@[row]),
{
    let height = rows.len();
    let mut row: usize = 0;
    while row < height
        invariant
            row <= height,
            height == rows@.len(),
            symbols.wf(),
            symbols.spec_len() == height,
            is_pivot_row@.len() == height,
            forall|j: int| 0 <= j < row && !#[trigger] is_pivot_row@[j] ==> rows@[j]@.len() == 0 && all_zero(symbols@[j]),
        decreases height - row,
    {
        if !is_pivot_row[row] && (rows[row].len() != 0 || !symbol_is_zero(symbols.get(row))) {
            return false;
        }
        row += 1;
    }
    true
}

/// Solves without recording, keeping rows in buckets by leading column: forward
/// elimination, a check that the rows without a pivot have zero symbols, and back
/// substitution through the pivot rows.
pub fn solve_without_recording_bucketed(rows: Vec<CoefficientRow>, width: usize, symbols: SymbolSlab) -> (r: (
    Option<SymbolSlab>,
    Option<Vec<SymbolOps>>,
))
    requires
        rows_ok(rows@, width as nat),
        width <= u16::MAX + 1,
        symbols.wf(),
        symbols.spec_len() == rows@.len(),
    ensures
        solve_result_ok(rows@, symbols, width as nat, OperationRecording::Skip, r),
{
    let ghost orig_rows = rows@;
    let ghost orig_symbols = symbols@;
    let ghost size = symbols.spec_symbol_size();
    let height = rows.len();
    let mut rows = rows;
    let mut symbols = symbols;
    let mut pivot_for_col = no_pivots(width);
    let mut is_pivot_row: Vec<bool> = vec![false; height];
    proof {
        lemma_slab_uniform(symbols);
    }
    let found = bucketed_forward_eliminate(
        &mut rows,
        &mut symbols,
        width,
        &mut pivot_for_col,
        &mut is_pivot_row,
        Ghost(orig_rows),
        Ghost(orig_symbols),
        Ghost(size),
    );
    if !found {
        return (None, None);
    }
    if !bucketed_unpivoted_rows_consistent(&rows, &symbols, &is_pivot_row) {
        proof {
            let i = choose|i: int| 0 <= i < height && !is_pivot_row@[i] && !(rows@[i]@.len() == 0 && all_zero(symbols@[i]));
            assert(rows@[i]@.len() == 0);
            let k = choose|k: int| 0 <= k < symbols@[i].len() && symbols@[i][k] != 0;
            lemma_symbol_len(symbols, i);
            assert forall|c: int| 0 <= c < width implies #[trigger] coefficient(rows@, i, c) == 0 by {
                lemma_coeff_lookup(row_view(rows@[i]@), c);
            }
            lemma_inconsistent_row(rows@, symbols@, i, k, width as nat, size);
            lemma_state_no_unique(rows@, symbols, None, false, orig_rows, orig_symbols, width as nat, size);
        }
        return (None, None);
    }
    proof {
        let f = |c: int| pivot_for_col@[c]->0 as int;
        assert forall|i: int, j: int| 0 <= i < j < width implies #[trigger] f(i) != #[trigger] f(j) by {
            if f(i) == f(j) {
                assert(is_pivot_for(rows@[f(i)]@, i));
                assert(is_pivot_for(rows@[f(j)]@, j));
            }
        }
        lemma_injective_bound(f, width as nat, height as nat);
    }
    let decoded = back_substitute_pivots(&rows, &symbols, &pivot_for_col, width);
    proof {
        lemma_slab_uniform(decoded);
        assert forall|i: int, k: int| 0 <= i < height && 0 <= k < size implies #[trigger] row_value(
            rows@[i]@,
            decoded@,
            k,
            width as nat,
        ) == symbols@[i][k] by {
            if is_pivot_row@[i] {
                let c = choose|c: int| 0 <= c < width && pivot_for_col@[c] == Some(i as usize);
                assert(pivot_for_col@[c]->0 as int == i);
                assert(row_value(rows@[pivot_for_col@[c]->0 as int]@, decoded@, k, width as nat)
                    == symbols@[pivot_for_col@[c]->0 as int][k]);
            } else {
                assert(rows@[i]@.len() == 0 && all_zero(symbols@[i]));
                lemma_symbol_len(symbols, i);
                let g = |c: int| coeff(row_view(rows@[i]@), c);
                assert forall|c: int| 0 <= c < width implies #[trigger] gf_mul_spec(g(c), decoded@[c][k]) == 0 by {
                    lemma_coeff_lookup(row_view(rows@[i]@), c);
                    lemma_gf_mul_identities(decoded@[c][k]);
                }
                lemma_eval_zero_terms(g, decoded@, k, width as nat);
            }
        }
        assert(solves(rows@, symbols@, decoded@, width as nat, size));
        let piv = |c: int| pivot_for_col@[c]->0 as int;
        assert forall|c: int| 0 <= c < width implies 0 <= #[trigger] piv(c) < rows@.len() && coefficient(
            rows@,
            piv(c),
            c,
        ) != 0 by {
            assert(is_pivot_for(rows@[piv(c)]@, c));
        }
        assert forall|c: int, c2: int| 0 <= c2 < c < width implies #[trigger] coefficient(rows@, piv(c), c2) == 0 by {
            assert(is_pivot_for(rows@[piv(c)]@, c));
            assert(coeff(row_view(rows@[piv(c)]@), c2) == 0);
        }
        assert forall|y: Seq<Seq<u8>>| #[trigger] solves(orig_rows, orig_symbols, y, width as nat, size) implies y
            == decoded@ by {
            assert(solves(rows@, symbols@, y, width as nat, size));
            crate::linear_system::lemma_pivots_unique(rows@, piv, symbols@, decoded@, y, width as nat, size);
        }
    }
    (Some(decoded), None)
}

} // verus!
