//! The model of a linear system over GF(256): sparse coefficient rows, one right-hand
//! side symbol per row, and what it means for a vector of symbols to solve it.

use crate::octet::{
    Octet,
    gf_mul_spec,
    gf_pow,
    lemma_gf_inverse,
    lemma_gf_mul_associative,
    lemma_gf_mul_commutative,
    lemma_gf_mul_distributive,
    lemma_gf_mul_distributive_left,
    lemma_gf_mul_identities,
};
use crate::octets::{all_zero, fused_add_seq, scale_seq};
use crate::operation_vector::uniform;
use crate::sparse_spec::{coeff, lemma_xor_basics, lemma_xor_regroup};
use vstd::prelude::*;

verus! {

/// A sparse row of (column, value) pairs as integers.
pub open spec fn row_view(r: Seq<(u16, Octet)>) -> Seq<(int, u8)> {
    r.map_values(|e: (u16, Octet)| (e.0 as int, e.1@))
}

/// The coefficient of column `c` in row `i`.
pub open spec fn coefficient(rows: Seq<Vec<(u16, Octet)>>, i: int, c: int) -> u8 {
    coeff(row_view(rows[i]@), c)
}

/// Byte `k` of the combination `sum over c < n of f(c) * x[c]`.
pub open spec fn eval_cols(f: spec_fn(int) -> u8, x: Seq<Seq<u8>>, k: int, n: nat) -> u8
    decreases n,
{
    if n == 0 {
        0u8
    } else {
        eval_cols(f, x, k, (n - 1) as nat) ^ gf_mul_spec(f(n - 1), x[n - 1][k])
    }
}

/// Byte `k` of row `r` applied to the symbols `x`, over the columns below `n`.
pub open spec fn row_value(r: Seq<(u16, Octet)>, x: Seq<Seq<u8>>, k: int, n: nat) -> u8 {
    eval_cols(|c: int| coeff(row_view(r), c), x, k, n)
}

/// `x` holds `n` symbols of `size` bytes that satisfy every row: each row applied to `x`
/// gives that row's right-hand side.
pub open spec fn solves(
    rows: Seq<Vec<(u16, Octet)>>,
    rhs: Seq<Seq<u8>>,
    x: Seq<Seq<u8>>,
    n: nat,
    size: nat,
) -> bool {
    &&& x.len() == n
    &&& uniform(x, size)
    &&& forall|i: int, k: int|
        0 <= i < rows.len() && 0 <= k < size ==> #[trigger] row_value(rows[i]@, x, k, n)
            == rhs[i][k]
}

/// Equal coefficients below `n` give equal combinations.
pub proof fn lemma_eval_ext(f: spec_fn(int) -> u8, g: spec_fn(int) -> u8, x: Seq<Seq<u8>>, k: int, n: nat)
    requires
        forall|c: int| 0 <= c < n ==> #[trigger] f(c) == g(c),
    ensures
        eval_cols(f, x, k, n) == eval_cols(g, x, k, n),
    decreases n,
{
    if n > 0 {
        lemma_eval_ext(f, g, x, k, (n - 1) as nat);
        assert(f(n - 1) == g(n - 1));
    }
}

/// The combination is additive in the coefficients.
pub proof fn lemma_eval_add(
    f: spec_fn(int) -> u8,
    g: spec_fn(int) -> u8,
    h: spec_fn(int) -> u8,
    x: Seq<Seq<u8>>,
    k: int,
    n: nat,
)
    requires
        forall|c: int| 0 <= c < n ==> #[trigger] h(c) == f(c) ^ g(c),
    ensures
        eval_cols(h, x, k, n) == eval_cols(f, x, k, n) ^ eval_cols(g, x, k, n),
    decreases n,
{
    if n > 0 {
        let m = (n - 1) as nat;
        lemma_eval_add(f, g, h, x, k, m);
        let xv = x[n - 1][k];
        assert(h(n - 1) == f(n - 1) ^ g(n - 1));
        lemma_gf_mul_distributive_left(f(n - 1), g(n - 1), xv);
        let a = eval_cols(f, x, k, m);
        let b = eval_cols(g, x, k, m);
        let p = gf_mul_spec(f(n - 1), xv);
        let q = gf_mul_spec(g(n - 1), xv);
        assert(gf_mul_spec(h(n - 1), xv) == p ^ q);
        assert(eval_cols(h, x, k, n) == eval_cols(h, x, k, m) ^ gf_mul_spec(h(n - 1), xv));
        assert(eval_cols(f, x, k, n) == a ^ p);
        assert(eval_cols(g, x, k, n) == b ^ q);
        lemma_xor_regroup(a, b, p, q);
    } else {
        lemma_xor_basics(0, 0, 0);
    }
}

/// A nonzero factor can be cancelled: `a * x == a * y` gives `x == y`.
pub proof fn lemma_gf_mul_cancel(a: u8, x: u8, y: u8)
    requires
        a != 0,
        gf_mul_spec(a, x) == gf_mul_spec(a, y),
    ensures
        x == y,
{
    let inv = gf_pow(a, 254);
    lemma_gf_inverse(a);
    lemma_gf_mul_commutative(a, inv);
    lemma_gf_mul_associative(inv, a, x);
    lemma_gf_mul_associative(inv, a, y);
    lemma_gf_mul_identities(x);
    lemma_gf_mul_identities(y);
}

/// Rows in echelon form over the columns below `n`: row `c` of `fs` is zero before column
/// `c` and nonzero at it. Two vectors on which every such row takes the same value agree
/// at byte `k` on every column from `j` on; proved from the last column down.
proof fn lemma_triangular_agree_from(
    fs: spec_fn(int) -> spec_fn(int) -> u8,
    x: Seq<Seq<u8>>,
    y: Seq<Seq<u8>>,
    k: int,
    n: nat,
    j: int,
)
    requires
        0 <= j <= n,
        forall|c: int| 0 <= c < n ==> #[trigger] fs(c)(c) != 0,
        forall|c: int, c2: int| 0 <= c2 < c < n ==> #[trigger] fs(c)(c2) == 0,
        forall|c: int| 0 <= c < n ==> #[trigger] eval_cols(fs(c), x, k, n) == eval_cols(fs(c), y, k, n),
    ensures
        forall|c: int| j <= c < n ==> #[trigger] x[c][k] == y[c][k],
    decreases n - j,
{
    if j < n {
        lemma_triangular_agree_from(fs, x, y, k, n, j + 1);
        let c = j;
        let f = fs(c);
        let a = f(c);
        let g = |c2: int| if c2 == c { 0u8 } else { f(c2) };
        let single = |c2: int| if c2 == c { a } else { 0u8 };
        assert forall|c2: int| 0 <= c2 < n implies #[trigger] f(c2) == g(c2) ^ single(c2) by {
            lemma_xor_basics(f(c2), 0, 0);
        }
        lemma_eval_add(g, single, f, x, k, n);
        lemma_eval_add(g, single, f, y, k, n);
        lemma_eval_single(c, a, x, k, n);
        lemma_eval_single(c, a, y, k, n);
        assert forall|c2: int| 0 <= c2 < n && #[trigger] g(c2) != 0 implies x[c2][k] == y[c2][k] by {
            if c2 < c {
                assert(fs(c)(c2) == 0);
            }
        }
        lemma_eval_frame(g, x, y, k, n);
        let gv = eval_cols(g, x, k, n);
        let px = gf_mul_spec(a, x[c][k]);
        let py = gf_mul_spec(a, y[c][k]);
        assert(eval_cols(f, x, k, n) == eval_cols(f, y, k, n));
        assert(gv ^ px == gv ^ py);
        lemma_xor_basics(gv, px, py);
        lemma_xor_basics(px, gv, py);
        lemma_xor_basics(py, gv, px);
        assert(px == (gv ^ px) ^ gv);
        assert(py == (gv ^ py) ^ gv);
        lemma_gf_mul_cancel(a, x[c][k], y[c][k]);
    }
}

/// Rows in echelon form over the columns that are not free: the row of such a column `c` is
/// zero before `c` and nonzero at it. Two vectors that agree on the free columns, and on which
/// every such row takes the same value, agree on every column at byte `k` from `j` on.
pub proof fn lemma_triangular_agree_free(
    fs: spec_fn(int) -> spec_fn(int) -> u8,
    free: spec_fn(int) -> bool,
    x: Seq<Seq<u8>>,
    y: Seq<Seq<u8>>,
    k: int,
    n: nat,
    j: int,
)
    requires
        0 <= j <= n,
        forall|c: int| 0 <= c < n && #[trigger] free(c) ==> x[c][k] == y[c][k],
        forall|c: int| 0 <= c < n && !free(c) ==> #[trigger] fs(c)(c) != 0,
        forall|c: int, c2: int| 0 <= c2 < c < n && !free(c) ==> #[trigger] fs(c)(c2) == 0,
        forall|c: int| 0 <= c < n && !free(c) ==> #[trigger] eval_cols(fs(c), x, k, n) == eval_cols(fs(c), y, k, n),
    ensures
        forall|c: int| j <= c < n ==> #[trigger] x[c][k] == y[c][k],
    decreases n - j,
{
    if j < n {
        lemma_triangular_agree_free(fs, free, x, y, k, n, j + 1);
        let c = j;
        if !free(c) {
            let f = fs(c);
            let a = f(c);
            let g = |c2: int| if c2 == c { 0u8 } else { f(c2) };
            let single = |c2: int| if c2 == c { a } else { 0u8 };
            assert forall|c2: int| 0 <= c2 < n implies #[trigger] f(c2) == g(c2) ^ single(c2) by {
                lemma_xor_basics(f(c2), 0, 0);
            }
            lemma_eval_add(g, single, f, x, k, n);
            lemma_eval_add(g, single, f, y, k, n);
            lemma_eval_single(c, a, x, k, n);
            lemma_eval_single(c, a, y, k, n);
            assert forall|c2: int| 0 <= c2 < n && #[trigger] g(c2) != 0 implies x[c2][k] == y[c2][k] by {
                if c2 < c {
                    assert(fs(c)(c2) == 0);
                }
            }
            lemma_eval_frame(g, x, y, k, n);
            let gv = eval_cols(g, x, k, n);
            let px = gf_mul_spec(a, x[c][k]);
            let py = gf_mul_spec(a, y[c][k]);
            assert(eval_cols(f, x, k, n) == eval_cols(f, y, k, n));
            assert(gv ^ px == gv ^ py);
            lemma_xor_basics(gv, px, py);
            lemma_xor_basics(px, gv, py);
            lemma_xor_basics(py, gv, px);
            assert(px == (gv ^ px) ^ gv);
            assert(py == (gv ^ py) ^ gv);
            lemma_gf_mul_cancel(a, x[c][k], y[c][k]);
        }
    }
}

/// Rows in echelon form over the columns below `n` (row `c` zero before column `c` and
/// nonzero at it): two vectors on which every such row takes the same values agree on every
/// column, at every byte.
pub proof fn lemma_triangular_agree(
    fs: spec_fn(int) -> spec_fn(int) -> u8,
    x: Seq<Seq<u8>>,
    y: Seq<Seq<u8>>,
    n: nat,
    size: nat,
)
    requires
        forall|c: int| 0 <= c < n ==> #[trigger] fs(c)(c) != 0,
        forall|c: int, c2: int| 0 <= c2 < c < n ==> #[trigger] fs(c)(c2) == 0,
        forall|c: int, k: int| 0 <= c < n && 0 <= k < size ==> #[trigger] eval_cols(fs(c), x, k, n)
            == eval_cols(fs(c), y, k, n),
    ensures
        forall|c: int, k: int| 0 <= c < n && 0 <= k < size ==> #[trigger] x[c][k] == y[c][k],
{
    assert forall|c: int, k: int| 0 <= c < n && 0 <= k < size implies #[trigger] x[c][k] == y[c][k] by {
        assert forall|c3: int| 0 <= c3 < n implies #[trigger] eval_cols(fs(c3), x, k, n) == eval_cols(
            fs(c3),
            y,
            k,
            n,
        ) by {}
        lemma_triangular_agree_from(fs, x, y, k, n, 0);
    }
}

/// A system with a pivot row for every column, zero before that column and nonzero at it,
/// has at most one solution.
pub proof fn lemma_pivots_unique(
    rows: Seq<Vec<(u16, Octet)>>,
    piv: spec_fn(int) -> int,
    rhs: Seq<Seq<u8>>,
    x: Seq<Seq<u8>>,
    y: Seq<Seq<u8>>,
    n: nat,
    size: nat,
)
    requires
        forall|c: int| 0 <= c < n ==> 0 <= #[trigger] piv(c) < rows.len() && coefficient(rows, piv(c), c) != 0,
        forall|c: int, c2: int| 0 <= c2 < c < n ==> #[trigger] coefficient(rows, piv(c), c2) == 0,
        solves(rows, rhs, x, n, size),
        solves(rows, rhs, y, n, size),
    ensures
        x == y,
{
    let fs = |c: int| (|c2: int| coeff(row_view(rows[piv(c)]@), c2));
    assert forall|c: int| 0 <= c < n implies #[trigger] fs(c)(c) != 0 by {
        assert(0 <= piv(c) < rows.len());
    }
    assert forall|c: int, c2: int| 0 <= c2 < c < n implies #[trigger] fs(c)(c2) == 0 by {
        assert(coefficient(rows, piv(c), c2) == 0);
    }
    assert forall|c: int, k: int| 0 <= c < n && 0 <= k < size implies #[trigger] eval_cols(fs(c), x, k, n)
        == eval_cols(fs(c), y, k, n) by {
        let p = piv(c);
        assert(0 <= p < rows.len());
        assert(row_value(rows[p]@, x, k, n) == rhs[p][k]);
        assert(row_value(rows[p]@, y, k, n) == rhs[p][k]);
        lemma_eval_ext(fs(c), |c2: int| coeff(row_view(rows[p]@), c2), x, k, n);
        lemma_eval_ext(fs(c), |c2: int| coeff(row_view(rows[p]@), c2), y, k, n);
    }
    lemma_triangular_agree(fs, x, y, n, size);
    assert forall|c: int| 0 <= c < n implies #[trigger] x[c] =~= y[c] by {
        assert(x[c].len() == size && y[c].len() == size);
        assert forall|k: int| 0 <= k < size implies x[c][k] == y[c][k] by {}
    }
    assert(x =~= y);
}

/// Scaling every coefficient by `a` scales the combination by `a`.
pub proof fn lemma_eval_scale(
    f: spec_fn(int) -> u8,
    g: spec_fn(int) -> u8,
    a: u8,
    x: Seq<Seq<u8>>,
    k: int,
    n: nat,
)
    requires
        forall|c: int| 0 <= c < n ==> #[trigger] g(c) == gf_mul_spec(f(c), a),
    ensures
        eval_cols(g, x, k, n) == gf_mul_spec(a, eval_cols(f, x, k, n)),
    decreases n,
{
    if n == 0 {
        lemma_gf_mul_identities(a);
    } else {
        let m = (n - 1) as nat;
        lemma_eval_scale(f, g, a, x, k, m);
        let xv = x[n - 1][k];
        assert(g(n - 1) == gf_mul_spec(f(n - 1), a));
        lemma_gf_mul_commutative(f(n - 1), a);
        lemma_gf_mul_associative(a, f(n - 1), xv);
        lemma_gf_mul_distributive(a, eval_cols(f, x, k, m), gf_mul_spec(f(n - 1), xv));
    }
}

/// Coefficients that are all zero give zero.
pub proof fn lemma_eval_zero(f: spec_fn(int) -> u8, x: Seq<Seq<u8>>, k: int, n: nat)
    requires
        forall|c: int| 0 <= c < n ==> #[trigger] f(c) == 0,
    ensures
        eval_cols(f, x, k, n) == 0,
    decreases n,
{
    if n > 0 {
        lemma_eval_zero(f, x, k, (n - 1) as nat);
        assert(f(n - 1) == 0);
        lemma_gf_mul_identities(x[n - 1][k]);
        lemma_xor_basics(0, 0, 0);
    }
}

/// The unit vector of column `j` picks out symbol `j`.
pub proof fn lemma_eval_unit(f: spec_fn(int) -> u8, j: int, x: Seq<Seq<u8>>, k: int, n: nat)
    requires
        0 <= j < n,
        forall|c: int| 0 <= c < n ==> #[trigger] f(c) == (if c == j { 1u8 } else { 0u8 }),
    ensures
        eval_cols(f, x, k, n) == x[j][k],
    decreases n,
{
    let m = (n - 1) as nat;
    let xv = x[n - 1][k];
    assert(f(n - 1) == (if n - 1 == j { 1u8 } else { 0u8 }));
    lemma_gf_mul_identities(xv);
    if j == n - 1 {
        assert forall|c: int| 0 <= c < m implies #[trigger] f(c) == 0 by {
            assert(f(c) == (if c == j { 1u8 } else { 0u8 }));
        }
        lemma_eval_zero(f, x, k, m);
        lemma_xor_basics(xv, 0, 0);
    } else {
        assert forall|c: int| 0 <= c < m implies #[trigger] f(c) == (if c == j {
            1u8
        } else {
            0u8
        }) by {
            assert(f(c) == (if c == j { 1u8 } else { 0u8 }));
        }
        lemma_eval_unit(f, j, x, k, m);
        let v = eval_cols(f, x, k, m);
        lemma_xor_basics(v, 0, 0);
    }
}

/// Multiplication by a nonzero element can be cancelled.
pub proof fn lemma_gf_cancel(s: u8, a: u8, b: u8)
    requires
        s != 0,
        gf_mul_spec(s, a) == gf_mul_spec(s, b),
    ensures
        a == b,
{
    let inv = gf_pow(s, 254);
    lemma_gf_inverse(s);
    lemma_gf_mul_commutative(s, inv);
    lemma_gf_mul_associative(inv, s, a);
    lemma_gf_mul_associative(inv, s, b);
    lemma_gf_mul_identities(a);
    lemma_gf_mul_identities(b);
}

/// Exchanging two rows together with their right-hand sides keeps the solutions.
pub proof fn lemma_solves_swap(
    rows: Seq<Vec<(u16, Octet)>>,
    rhs: Seq<Seq<u8>>,
    a: int,
    b: int,
    x: Seq<Seq<u8>>,
    n: nat,
    size: nat,
)
    requires
        rows.len() == rhs.len(),
        0 <= a < rows.len(),
        0 <= b < rows.len(),
        solves(
            rows.update(a, rows[b]).update(b, rows[a]),
            rhs.update(a, rhs[b]).update(b, rhs[a]),
            x,
            n,
            size,
        ),
    ensures
        solves(rows, rhs, x, n, size),
{
    let r2 = rows.update(a, rows[b]).update(b, rows[a]);
    let h2 = rhs.update(a, rhs[b]).update(b, rhs[a]);
    assert forall|i: int, k: int| 0 <= i < rows.len() && 0 <= k < size implies #[trigger] row_value(
        rows[i]@,
        x,
        k,
        n,
    ) == rhs[i][k] by {
        let j = if i == a {
            b
        } else if i == b {
            a
        } else {
            i
        };
        assert(r2[j] == rows[i] && h2[j] == rhs[i]);
        assert(row_value(r2[j]@, x, k, n) == h2[j][k]);
    }
}

/// Multiplying a row and its right-hand side by a nonzero scalar keeps the solutions.
pub proof fn lemma_solves_scale(
    rows: Seq<Vec<(u16, Octet)>>,
    rhs: Seq<Seq<u8>>,
    p: int,
    new_row: Vec<(u16, Octet)>,
    s: u8,
    x: Seq<Seq<u8>>,
    n: nat,
    size: nat,
)
    requires
        rows.len() == rhs.len(),
        0 <= p < rows.len(),
        s != 0,
        rhs[p].len() == size,
        forall|c: int|
            0 <= c < n ==> #[trigger] coeff(row_view(new_row@), c) == gf_mul_spec(
                coefficient(rows, p, c),
                s,
            ),
        solves(rows.update(p, new_row), rhs.update(p, scale_seq(rhs[p], s)), x, n, size),
    ensures
        solves(rows, rhs, x, n, size),
{
    let r2 = rows.update(p, new_row);
    let h2 = rhs.update(p, scale_seq(rhs[p], s));
    assert forall|i: int, k: int| 0 <= i < rows.len() && 0 <= k < size implies #[trigger] row_value(
        rows[i]@,
        x,
        k,
        n,
    ) == rhs[i][k] by {
        assert(row_value(r2[i]@, x, k, n) == h2[i][k]);
        if i == p {
            lemma_eval_scale(
                |c: int| coeff(row_view(rows[p]@), c),
                |c: int| coeff(row_view(new_row@), c),
                s,
                x,
                k,
                n,
            );
            lemma_gf_cancel(s, row_value(rows[p]@, x, k, n), rhs[p][k]);
        }
    }
}

/// Adding `f` times row `p` to row `a`, right-hand sides included, keeps the solutions.
pub proof fn lemma_solves_elim(
    rows: Seq<Vec<(u16, Octet)>>,
    rhs: Seq<Seq<u8>>,
    a: int,
    p: int,
    new_row: Vec<(u16, Octet)>,
    f: u8,
    x: Seq<Seq<u8>>,
    n: nat,
    size: nat,
)
    requires
        rows.len() == rhs.len(),
        0 <= a < rows.len(),
        0 <= p < rows.len(),
        a != p,
        uniform(rhs, size),
        forall|c: int|
            0 <= c < n ==> #[trigger] coeff(row_view(new_row@), c) == coefficient(rows, a, c)
                ^ gf_mul_spec(coefficient(rows, p, c), f),
        solves(
            rows.update(a, new_row),
            rhs.update(a, fused_add_seq(rhs[a], rhs[p], f)),
            x,
            n,
            size,
        ),
    ensures
        solves(rows, rhs, x, n, size),
{
    let r2 = rows.update(a, new_row);
    let h2 = rhs.update(a, fused_add_seq(rhs[a], rhs[p], f));
    assert forall|i: int, k: int| 0 <= i < rows.len() && 0 <= k < size implies #[trigger] row_value(
        rows[i]@,
        x,
        k,
        n,
    ) == rhs[i][k] by {
        assert(row_value(r2[i]@, x, k, n) == h2[i][k]);
        if i == a {
            assert(row_value(r2[p]@, x, k, n) == h2[p][k]);
            let fa = |c: int| coeff(row_view(rows[a]@), c);
            let fp = |c: int| coeff(row_view(rows[p]@), c);
            let g = |c: int| gf_mul_spec(coeff(row_view(rows[p]@), c), f);
            let fnew = |c: int| coeff(row_view(new_row@), c);
            lemma_eval_add(fa, g, fnew, x, k, n);
            lemma_eval_scale(fp, g, f, x, k, n);
            let va = row_value(rows[a]@, x, k, n);
            let vp = row_value(rows[p]@, x, k, n);
            let ra = rhs[a][k];
            let rp = rhs[p][k];
            let t = gf_mul_spec(f, rp);
            assert(vp == rp);
            assert(va ^ t == ra ^ t);
            lemma_xor_basics(va, t, 0);
            lemma_xor_basics(ra, t, 0);
        }
    }
}

/// Exchanging two rows together with their right-hand sides loses no solution.
pub proof fn lemma_solves_swap_back(
    rows: Seq<Vec<(u16, Octet)>>,
    rhs: Seq<Seq<u8>>,
    a: int,
    b: int,
    x: Seq<Seq<u8>>,
    n: nat,
    size: nat,
)
    requires
        rows.len() == rhs.len(),
        0 <= a < rows.len(),
        0 <= b < rows.len(),
        solves(rows, rhs, x, n, size),
    ensures
        solves(
            rows.update(a, rows[b]).update(b, rows[a]),
            rhs.update(a, rhs[b]).update(b, rhs[a]),
            x,
            n,
            size,
        ),
{
    let r2 = rows.update(a, rows[b]).update(b, rows[a]);
    let h2 = rhs.update(a, rhs[b]).update(b, rhs[a]);
    assert forall|i: int, k: int| 0 <= i < r2.len() && 0 <= k < size implies #[trigger] row_value(
        r2[i]@,
        x,
        k,
        n,
    ) == h2[i][k] by {
        let j = if i == a {
            b
        } else if i == b {
            a
        } else {
            i
        };
        assert(r2[i] == rows[j] && h2[i] == rhs[j]);
        assert(row_value(rows[j]@, x, k, n) == rhs[j][k]);
    }
}

/// Multiplying a row and its right-hand side by a scalar loses no solution.
pub proof fn lemma_solves_scale_back(
    rows: Seq<Vec<(u16, Octet)>>,
    rhs: Seq<Seq<u8>>,
    p: int,
    new_row: Vec<(u16, Octet)>,
    s: u8,
    x: Seq<Seq<u8>>,
    n: nat,
    size: nat,
)
    requires
        rows.len() == rhs.len(),
        0 <= p < rows.len(),
        rhs[p].len() == size,
        forall|c: int|
            0 <= c < n ==> #[trigger] coeff(row_view(new_row@), c) == gf_mul_spec(
                coefficient(rows, p, c),
                s,
            ),
        solves(rows, rhs, x, n, size),
    ensures
        solves(rows.update(p, new_row), rhs.update(p, scale_seq(rhs[p], s)), x, n, size),
{
    let r2 = rows.update(p, new_row);
    let h2 = rhs.update(p, scale_seq(rhs[p], s));
    assert forall|i: int, k: int| 0 <= i < r2.len() && 0 <= k < size implies #[trigger] row_value(
        r2[i]@,
        x,
        k,
        n,
    ) == h2[i][k] by {
        assert(row_value(rows[i]@, x, k, n) == rhs[i][k]);
        if i == p {
            lemma_eval_scale(
                |c: int| coeff(row_view(rows[p]@), c),
                |c: int| coeff(row_view(new_row@), c),
                s,
                x,
                k,
                n,
            );
        }
    }
}

/// Adding `f` times row `p` to row `a`, right-hand sides included, loses no solution.
pub proof fn lemma_solves_elim_back(
    rows: Seq<Vec<(u16, Octet)>>,
    rhs: Seq<Seq<u8>>,
    a: int,
    p: int,
    new_row: Vec<(u16, Octet)>,
    f: u8,
    x: Seq<Seq<u8>>,
    n: nat,
    size: nat,
)
    requires
        rows.len() == rhs.len(),
        0 <= a < rows.len(),
        0 <= p < rows.len(),
        a != p,
        uniform(rhs, size),
        forall|c: int|
            0 <= c < n ==> #[trigger] coeff(row_view(new_row@), c) == coefficient(rows, a, c)
                ^ gf_mul_spec(coefficient(rows, p, c), f),
        solves(rows, rhs, x, n, size),
    ensures
        solves(
            rows.update(a, new_row),
            rhs.update(a, fused_add_seq(rhs[a], rhs[p], f)),
            x,
            n,
            size,
        ),
{
    let r2 = rows.update(a, new_row);
    let h2 = rhs.update(a, fused_add_seq(rhs[a], rhs[p], f));
    assert forall|i: int, k: int| 0 <= i < r2.len() && 0 <= k < size implies #[trigger] row_value(
        r2[i]@,
        x,
        k,
        n,
    ) == h2[i][k] by {
        assert(row_value(rows[i]@, x, k, n) == rhs[i][k]);
        if i == a {
            assert(row_value(rows[p]@, x, k, n) == rhs[p][k]);
            let fa = |c: int| coeff(row_view(rows[a]@), c);
            let fp = |c: int| coeff(row_view(rows[p]@), c);
            let g = |c: int| gf_mul_spec(coeff(row_view(rows[p]@), c), f);
            let fnew = |c: int| coeff(row_view(new_row@), c);
            lemma_eval_add(fa, g, fnew, x, k, n);
            lemma_eval_scale(fp, g, f, x, k, n);
        }
    }
}

/// A system whose first `n` rows are the unit rows and whose other rows and right-hand
/// sides are zero is solved by its first `n` right-hand sides.
pub proof fn lemma_solves_identity(rows: Seq<Vec<(u16, Octet)>>, rhs: Seq<Seq<u8>>, n: nat, size: nat)
    requires
        rows.len() == rhs.len(),
        n <= rows.len(),
        uniform(rhs, size),
        forall|i: int, c: int|
            0 <= i < n && 0 <= c < n ==> #[trigger] coefficient(rows, i, c) == (if c == i {
                1u8
            } else {
                0u8
            }),
        forall|i: int, c: int| n <= i < rows.len() && 0 <= c < n ==> #[trigger] coefficient(rows, i, c) == 0,
        forall|i: int| n <= i < rows.len() ==> #[trigger] all_zero(rhs[i]),
    ensures
        solves(rows, rhs, rhs.subrange(0, n as int), n, size),
{
    let x = rhs.subrange(0, n as int);
    assert forall|j: int| 0 <= j < x.len() implies #[trigger] x[j].len() == size by {
        assert(x[j] == rhs[j]);
    }
    assert forall|i: int, k: int| 0 <= i < rows.len() && 0 <= k < size implies #[trigger] row_value(
        rows[i]@,
        x,
        k,
        n,
    ) == rhs[i][k] by {
        let f = |c: int| coeff(row_view(rows[i]@), c);
        if i < n {
            assert forall|c: int| 0 <= c < n implies #[trigger] f(c) == (if c == i {
                1u8
            } else {
                0u8
            }) by {
                assert(coefficient(rows, i, c) == (if c == i { 1u8 } else { 0u8 }));
            }
            lemma_eval_unit(f, i, x, k, n);
        } else {
            assert forall|c: int| 0 <= c < n implies #[trigger] f(c) == 0 by {
                assert(coefficient(rows, i, c) == 0);
            }
            lemma_eval_zero(f, x, k, n);
            assert(all_zero(rhs[i]));
        }
    }
}

} // verus!

verus! {

/// Byte `k` of the sum over the entries of `r` of value times symbol, entry by entry.
pub open spec fn entries_value(r: Seq<(int, u8)>, x: Seq<Seq<u8>>, k: int) -> u8
    decreases r.len(),
{
    if r.len() == 0 {
        0u8
    } else {
        gf_mul_spec(r[0].1, x[r[0].0][k]) ^ entries_value(r.drop_first(), x, k)
    }
}

/// A single coefficient `v` in column `c0` gives `v` times symbol `c0`.
pub proof fn lemma_eval_single(c0: int, v: u8, x: Seq<Seq<u8>>, k: int, n: nat)
    requires
        0 <= c0 < n,
    ensures
        eval_cols(|c: int| if c == c0 { v } else { 0u8 }, x, k, n) == gf_mul_spec(v, x[c0][k]),
{
    let unit = |c: int| if c == c0 { 1u8 } else { 0u8 };
    let single = |c: int| if c == c0 { v } else { 0u8 };
    assert forall|c: int| 0 <= c < n implies #[trigger] unit(c) == (if c == c0 {
        1u8
    } else {
        0u8
    }) by {}
    lemma_eval_unit(unit, c0, x, k, n);
    assert forall|c: int| 0 <= c < n implies #[trigger] single(c) == gf_mul_spec(unit(c), v) by {
        lemma_gf_mul_identities(v);
    }
    lemma_eval_scale(unit, single, v, x, k, n);
}

/// Summing entry by entry gives the same as summing coefficient by coefficient.
pub proof fn lemma_entries_value(r: Seq<(int, u8)>, x: Seq<Seq<u8>>, k: int, n: nat)
    requires
        forall|i: int| 0 <= i < r.len() ==> 0 <= (#[trigger] r[i]).0 < n,
    ensures
        entries_value(r, x, k) == eval_cols(|c: int| coeff(r, c), x, k, n),
    decreases r.len(),
{
    if r.len() == 0 {
        lemma_eval_zero(|c: int| coeff(r, c), x, k, n);
    } else {
        let first = seq![r[0]];
        let rest = r.drop_first();
        assert(r =~= first + rest);
        assert forall|i: int| 0 <= i < rest.len() implies 0 <= (#[trigger] rest[i]).0 < n by {
            assert(rest[i] == r[i + 1]);
        }
        lemma_entries_value(rest, x, k, n);
        let c0 = r[0].0;
        let v = r[0].1;
        let fs = |c: int| if c == c0 { v } else { 0u8 };
        let fr = |c: int| coeff(rest, c);
        let f = |c: int| coeff(r, c);
        assert forall|c: int| 0 <= c < n implies #[trigger] f(c) == fs(c) ^ fr(c) by {
            crate::sparse_spec::lemma_coeff_concat(first, rest, c);
            assert(first.drop_last() =~= Seq::<(int, u8)>::empty());
            assert(coeff(first.drop_last(), c) == 0);
            assert(first.last() == r[0]);
            lemma_xor_basics(v, 0, 0);
            lemma_xor_basics(0, 0, 0);
            assert(coeff(first, c) == (if c == c0 {
                v
            } else {
                0u8
            }));
            assert(coeff(r, c) == coeff(first, c) ^ coeff(rest, c));
        }
        lemma_eval_add(fs, fr, f, x, k, n);
        lemma_eval_single(c0, v, x, k, n);
        assert(eval_cols(fs, x, k, n) == gf_mul_spec(v, x[c0][k]));
    }
}

/// The entry-by-entry sum only reads the symbols at the entries' columns.
pub proof fn lemma_entries_value_frame(r: Seq<(int, u8)>, x: Seq<Seq<u8>>, y: Seq<Seq<u8>>, k: int)
    requires
        forall|i: int| 0 <= i < r.len() ==> x[(#[trigger] r[i]).0][k] == y[r[i].0][k],
    ensures
        entries_value(r, x, k) == entries_value(r, y, k),
    decreases r.len(),
{
    if r.len() > 0 {
        let rest = r.drop_first();
        assert forall|i: int| 0 <= i < rest.len() implies x[(#[trigger] rest[i]).0][k] == y[rest[i].0][k] by {
            assert(rest[i] == r[i + 1]);
        }
        lemma_entries_value_frame(rest, x, y, k);
        assert(x[r[0].0][k] == y[r[0].0][k]);
    }
}

/// The entries from index `j` on: entry `j` followed by those from `j + 1` on.
pub proof fn lemma_entries_value_step(r: Seq<(int, u8)>, j: int, x: Seq<Seq<u8>>, k: int)
    requires
        0 <= j < r.len(),
    ensures
        entries_value(r.subrange(j, r.len() as int), x, k) == gf_mul_spec(r[j].1, x[r[j].0][k])
            ^ entries_value(r.subrange(j + 1, r.len() as int), x, k),
{
    let s = r.subrange(j, r.len() as int);
    assert(s.drop_first() =~= r.subrange(j + 1, r.len() as int));
    assert(s[0] == r[j]);
}

} // verus!

verus! {

/// The combination only reads the symbols where the coefficient is nonzero.
pub proof fn lemma_eval_frame(f: spec_fn(int) -> u8, x: Seq<Seq<u8>>, y: Seq<Seq<u8>>, k: int, n: nat)
    requires
        forall|c: int| 0 <= c < n && #[trigger] f(c) != 0 ==> x[c][k] == y[c][k],
    ensures
        eval_cols(f, x, k, n) == eval_cols(f, y, k, n),
    decreases n,
{
    if n > 0 {
        lemma_eval_frame(f, x, y, k, (n - 1) as nat);
        if f(n - 1) == 0 {
            lemma_gf_mul_identities(x[n - 1][k]);
            lemma_gf_mul_identities(y[n - 1][k]);
        }
    }
}

} // verus!

verus! {

/// The system has exactly one solution of `n` symbols of `size` bytes.
pub open spec fn unique_solution(rows: Seq<Vec<(u16, Octet)>>, rhs: Seq<Seq<u8>>, n: nat, size: nat) -> bool {
    exists|x: Seq<Seq<u8>>|
        #![trigger solves(rows, rhs, x, n, size)]
        solves(rows, rhs, x, n, size) && forall|y: Seq<Seq<u8>>|
            #![trigger solves(rows, rhs, y, n, size)]
            solves(rows, rhs, y, n, size) ==> y == x
}

/// Coordinate `i` of a vector the rows send to zero when column `col` has no pivot: one at
/// `col`, zero after it, and before it what each pivot row `i` needs to cancel.
pub open spec fn null_coord(rows: Seq<Vec<(u16, Octet)>>, col: int, i: int) -> u8
    decreases col - i, 1int,
{
    if i >= col {
        if i == col {
            1u8
        } else {
            0u8
        }
    } else {
        null_partial(rows, col, i, col + 1)
    }
}

/// The sum over columns `c` with `i < c < m` of the coefficient of row `i` in column `c`
/// times `null_coord` at `c`.
pub open spec fn null_partial(rows: Seq<Vec<(u16, Octet)>>, col: int, i: int, m: int) -> u8
    decreases col - i, 0int, m - i,
{
    if i >= col || m <= i + 1 || m > col + 1 {
        0u8
    } else {
        null_partial(rows, col, i, m - 1) ^ gf_mul_spec(
            coefficient(rows, i, m - 1),
            null_coord(rows, col, m - 1),
        )
    }
}

/// The combination is additive in the symbols.
pub proof fn lemma_eval_add_symbols(f: spec_fn(int) -> u8, x: Seq<Seq<u8>>, z: Seq<Seq<u8>>, y: Seq<Seq<u8>>, k: int, n: nat)
    requires
        forall|c: int| 0 <= c < n ==> #[trigger] y[c][k] == x[c][k] ^ z[c][k],
    ensures
        eval_cols(f, y, k, n) == eval_cols(f, x, k, n) ^ eval_cols(f, z, k, n),
    decreases n,
{
    if n > 0 {
        let m = (n - 1) as nat;
        let c = n - 1;
        lemma_eval_add_symbols(f, x, z, y, k, m);
        assert(y[c][k] == x[c][k] ^ z[c][k]);
        lemma_gf_mul_distributive(f(c), x[c][k], z[c][k]);
        lemma_xor_regroup(
            eval_cols(f, x, k, m),
            eval_cols(f, z, k, m),
            gf_mul_spec(f(c), x[c][k]),
            gf_mul_spec(f(c), z[c][k]),
        );
        assert(eval_cols(f, y, k, n) == eval_cols(f, y, k, m) ^ gf_mul_spec(f(c), y[c][k]));
        assert(eval_cols(f, x, k, n) == eval_cols(f, x, k, m) ^ gf_mul_spec(f(c), x[c][k]));
        assert(eval_cols(f, z, k, n) == eval_cols(f, z, k, m) ^ gf_mul_spec(f(c), z[c][k]));
    } else {
        lemma_xor_basics(0, 0, 0);
    }
}

/// A combination whose every term is zero is zero.
pub proof fn lemma_eval_zero_terms(f: spec_fn(int) -> u8, x: Seq<Seq<u8>>, k: int, n: nat)
    requires
        forall|c: int| 0 <= c < n ==> #[trigger] gf_mul_spec(f(c), x[c][k]) == 0,
    ensures
        eval_cols(f, x, k, n) == 0,
    decreases n,
{
    if n > 0 {
        lemma_eval_zero_terms(f, x, k, (n - 1) as nat);
        lemma_xor_basics(0, 0, 0);
    }
}

/// Below the pivot rows, a row before `col` sends the null vector to zero: the prefix sum up
/// to `m` is the row's own coordinate plus its partial sum.
proof fn lemma_null_prefix(rows: Seq<Vec<(u16, Octet)>>, col: int, i: int, w: Seq<Seq<u8>>, k: int, m: int)
    requires
        0 <= i < col,
        i + 1 <= m <= col + 1,
        col < w.len(),
        coefficient(rows, i, i) == 1,
        forall|c: int| 0 <= c < i ==> #[trigger] coefficient(rows, i, c) == 0,
        forall|c: int| 0 <= c < w.len() ==> #[trigger] w[c][k] == null_coord(rows, col, c),
    ensures
        eval_cols(|c: int| coeff(row_view(rows[i]@), c), w, k, m as nat) == null_coord(rows, col, i)
            ^ null_partial(rows, col, i, m),
    decreases m,
{
    let f = |c: int| coeff(row_view(rows[i]@), c);
    if m == i + 1 {
        assert forall|c: int| 0 <= c < i implies #[trigger] gf_mul_spec(f(c), w[c][k]) == 0 by {
            assert(coefficient(rows, i, c) == 0);
            lemma_gf_mul_identities(w[c][k]);
        }
        lemma_eval_zero_terms(f, w, k, i as nat);
        lemma_gf_mul_identities(w[i][k]);
        lemma_xor_basics(w[i][k], 0, 0);
        lemma_xor_basics(0, w[i][k], 0);
    } else {
        lemma_null_prefix(rows, col, i, w, k, m - 1);
        let a = null_coord(rows, col, i);
        let p = null_partial(rows, col, i, m - 1);
        let t = gf_mul_spec(coefficient(rows, i, m - 1), null_coord(rows, col, m - 1));
        assert(w[m - 1][k] == null_coord(rows, col, m - 1));
        lemma_xor_basics(a, p, t);
    }
}

/// When no row from `col` on has a coefficient in column `col`, and the rows before it are
/// pivot rows, every row sends the null vector to zero.
pub proof fn lemma_null_vector(
    rows: Seq<Vec<(u16, Octet)>>,
    col: int,
    w: Seq<Seq<u8>>,
    k: int,
    n: nat,
)
    requires
        0 <= col < n,
        w.len() == n,
        forall|i: int|
            0 <= i < col ==> coefficient(rows, i, i) == 1 && forall|c: int|
                0 <= c < i ==> #[trigger] coefficient(rows, i, c) == 0,
        forall|i: int, c: int| col <= i < rows.len() && 0 <= c <= col ==> #[trigger] coefficient(rows, i, c) == 0,
        forall|c: int| 0 <= c < n ==> #[trigger] w[c][k] == null_coord(rows, col, c),
    ensures
        forall|i: int| 0 <= i < rows.len() ==> #[trigger] row_value(rows[i]@, w, k, n) == 0,
{
    assert forall|i: int| 0 <= i < rows.len() implies #[trigger] row_value(rows[i]@, w, k, n) == 0 by {
        let f = |c: int| coeff(row_view(rows[i]@), c);
        if i < col {
            assert(coefficient(rows, i, i) == 1);
            lemma_null_prefix(rows, col, i, w, k, col + 1);
            assert(null_coord(rows, col, i) == null_partial(rows, col, i, col + 1));
            lemma_xor_basics(null_coord(rows, col, i), 0, 0);
            lemma_null_tail(f, w, k, col + 1, n as int, rows, col);
        } else {
            assert forall|c: int| 0 <= c < n implies #[trigger] gf_mul_spec(f(c), w[c][k]) == 0 by {
                if c <= col {
                    assert(coefficient(rows, i, c) == 0);
                    lemma_gf_mul_identities(w[c][k]);
                } else {
                    assert(w[c][k] == 0);
                    lemma_gf_mul_identities(f(c));
                }
            }
            lemma_eval_zero_terms(f, w, k, n);
        }
    }
}

/// Extending a combination over columns after `col`, where the null vector is zero, keeps it.
proof fn lemma_null_tail(
    f: spec_fn(int) -> u8,
    w: Seq<Seq<u8>>,
    k: int,
    lo: int,
    m: int,
    rows: Seq<Vec<(u16, Octet)>>,
    col: int,
)
    requires
        0 <= col,
        lo == col + 1,
        lo <= m <= w.len(),
        forall|c: int| 0 <= c < w.len() ==> #[trigger] w[c][k] == null_coord(rows, col, c),
        eval_cols(f, w, k, lo as nat) == 0,
    ensures
        eval_cols(f, w, k, m as nat) == 0,
    decreases m - lo,
{
    if m > lo {
        lemma_null_tail(f, w, k, lo, m - 1, rows, col);
        assert(null_coord(rows, col, m - 1) == 0);
        assert(w[m - 1][k] == null_coord(rows, col, m - 1));
        lemma_gf_mul_identities(f(m - 1));
        lemma_xor_basics(0, 0, 0);
    }
}

/// With a null vector, a system has either no solution or more than one.
pub proof fn lemma_no_unique_solution(
    rows: Seq<Vec<(u16, Octet)>>,
    rhs: Seq<Seq<u8>>,
    col: int,
    n: nat,
    size: nat,
)
    requires
        0 <= col < n,
        size > 0,
        forall|i: int|
            0 <= i < col ==> coefficient(rows, i, i) == 1 && forall|c: int|
                0 <= c < i ==> #[trigger] coefficient(rows, i, c) == 0,
        forall|i: int, c: int| col <= i < rows.len() && 0 <= c <= col ==> #[trigger] coefficient(rows, i, c) == 0,
    ensures
        forall|x: Seq<Seq<u8>>| #[trigger] solves(rows, rhs, x, n, size) ==> exists|y: Seq<Seq<u8>>|
            #[trigger] solves(rows, rhs, y, n, size) && y != x,
{
    assert forall|x: Seq<Seq<u8>>| #[trigger] solves(rows, rhs, x, n, size) implies exists|y: Seq<Seq<u8>>|
        #[trigger] solves(rows, rhs, y, n, size) && y != x by {
        let w = Seq::new(n, |c: int| Seq::new(size, |kk: int| null_coord(rows, col, c)));
        let y = Seq::new(n, |c: int| Seq::new(size, |kk: int| x[c][kk] ^ null_coord(rows, col, c)));
        assert forall|c: int, kk: int| 0 <= c < n && 0 <= kk < size implies #[trigger] y[c][kk]
            == x[c][kk] ^ w[c][kk] && w[c][kk] == null_coord(rows, col, c) by {}
        assert forall|c: int| 0 <= c < n implies #[trigger] y[c].len() == size by {}
        assert forall|i: int, kk: int| 0 <= i < rows.len() && 0 <= kk < size implies #[trigger] row_value(
            rows[i]@,
            y,
            kk,
            n,
        ) == rhs[i][kk] by {
            assert forall|c: int| 0 <= c < n implies #[trigger] w[c][kk] == null_coord(rows, col, c) by {
                assert(y[c][kk] == x[c][kk] ^ w[c][kk] && w[c][kk] == null_coord(rows, col, c));
            }
            assert forall|c: int| 0 <= c < n implies #[trigger] y[c][kk] == x[c][kk] ^ w[c][kk] by {
                assert(y[c][kk] == x[c][kk] ^ w[c][kk] && w[c][kk] == null_coord(rows, col, c));
            }
            lemma_null_vector(rows, col, w, kk, n);
            let f = |c: int| coeff(row_view(rows[i]@), c);
            lemma_eval_add_symbols(f, x, w, y, kk, n);
            assert(row_value(rows[i]@, x, kk, n) == rhs[i][kk]);
            assert(row_value(rows[i]@, w, kk, n) == 0);
            assert(row_value(rows[i]@, y, kk, n) == row_value(rows[i]@, x, kk, n) ^ row_value(
                rows[i]@,
                w,
                kk,
                n,
            ));
            lemma_xor_basics(rhs[i][kk], 0, 0);
        }
        assert(solves(rows, rhs, y, n, size));
        assert(y[col][0] == x[col][0] ^ 1u8);
        lemma_xor_basics(x[col][0], 1u8, 0);
        assert(y[col] != x[col]);
    }
}

/// A system with a row whose coefficients below `n` are zero and whose right-hand side is
/// not zero has no solution.
pub proof fn lemma_inconsistent_row(
    rows: Seq<Vec<(u16, Octet)>>,
    rhs: Seq<Seq<u8>>,
    i: int,
    k: int,
    n: nat,
    size: nat,
)
    requires
        0 <= i < rows.len(),
        0 <= k < size,
        forall|c: int| 0 <= c < n ==> #[trigger] coefficient(rows, i, c) == 0,
        rhs[i][k] != 0,
    ensures
        forall|x: Seq<Seq<u8>>| !#[trigger] solves(rows, rhs, x, n, size),
{
    assert forall|x: Seq<Seq<u8>>| !#[trigger] solves(rows, rhs, x, n, size) by {
        if solves(rows, rhs, x, n, size) {
            let f = |c: int| coeff(row_view(rows[i]@), c);
            assert forall|c: int| 0 <= c < n implies #[trigger] f(c) == 0 by {
                assert(coefficient(rows, i, c) == 0);
            }
            lemma_eval_zero(f, x, k, n);
            assert(row_value(rows[i]@, x, k, n) == rhs[i][k]);
        }
    }
}

} // verus!

verus! {

/// When a system has a unique solution, any two solutions of it are the same symbols: every
/// solver that returns a solution of such a system returns that one, whatever pivots it took
/// and whether or not it recorded its operations.
pub proof fn lemma_unique_solution_agrees(
    rows: Seq<Vec<(u16, Octet)>>,
    rhs: Seq<Seq<u8>>,
    x: Seq<Seq<u8>>,
    y: Seq<Seq<u8>>,
    n: nat,
    size: nat,
)
    requires
        unique_solution(rows, rhs, n, size),
        solves(rows, rhs, x, n, size),
        solves(rows, rhs, y, n, size),
    ensures
        x == y,
{
}

} // verus!
