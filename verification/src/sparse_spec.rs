//! The mathematical model of a sparse row of GF(256) coefficients: a sequence of
//! (column, value) pairs, read as the sum of its entries.

use vstd::prelude::*;

verus! {

/// The coefficient of column `col`: the XOR of the values of all entries in that column.
pub open spec fn coeff(s: Seq<(int, u8)>, col: int) -> u8
    decreases s.len(),
{
    if s.len() == 0 {
        0u8
    } else {
        coeff(s.drop_last(), col) ^ (if s.last().0 == col {
            s.last().1
        } else {
            0u8
        })
    }
}

/// Columns strictly increase along the row.
pub open spec fn strictly_sorted(s: Seq<(int, u8)>) -> bool {
    forall|i: int, j: int| 0 <= i < j < s.len() ==> s[i].0 < s[j].0
}

/// No stored value is zero.
pub open spec fn nonzero_values(s: Seq<(int, u8)>) -> bool {
    forall|i: int| 0 <= i < s.len() ==> s[i].1 != 0
}

/// A canonical sparse row: sorted columns, no explicit zeros.
pub open spec fn canonical(s: Seq<(int, u8)>) -> bool {
    strictly_sorted(s) && nonzero_values(s)
}

pub proof fn lemma_xor_basics(a: u8, b: u8, c: u8)
    by (bit_vector)
    ensures
        a ^ 0u8 == a,
        0u8 ^ a == a,
        a ^ a == 0u8,
        (a ^ b) ^ b == a,
        a ^ b == b ^ a,
        (a ^ b) ^ c == a ^ (b ^ c),
        (a ^ b == 0u8) <==> (a == b),
        (a ^ b == a) <==> (b == 0u8),
{
}

/// Regrouping a sum of four bytes.
pub proof fn lemma_xor_regroup(a: u8, b: u8, c: u8, d: u8)
    by (bit_vector)
    ensures
        (a ^ b) ^ (c ^ d) == (a ^ c) ^ (b ^ d),
        (a ^ d) ^ b == ((a ^ c) ^ b) ^ (c ^ d),
        (a ^ c) ^ b == (a ^ b) ^ c,
        a ^ (a ^ b) == b,
        (a ^ b) ^ (c ^ b) == a ^ c,
{
}

/// In a row with sorted columns the coefficient of a column is its single stored value,
/// or zero when the column is absent.
pub proof fn lemma_coeff_lookup(s: Seq<(int, u8)>, col: int)
    requires
        strictly_sorted(s),
    ensures
        forall|i: int| 0 <= i < s.len() && s[i].0 == col ==> coeff(s, col) == s[i].1,
        (forall|i: int| 0 <= i < s.len() ==> s[i].0 != col) ==> coeff(s, col) == 0,
    decreases s.len(),
{
    if s.len() > 0 {
        let t = s.drop_last();
        lemma_coeff_lookup(t, col);
        let last = s.last();
        lemma_xor_basics(coeff(t, col), last.1, 0);
        lemma_xor_basics(last.1, 0, 0);
        if last.0 == col {
            assert forall|i: int| 0 <= i < t.len() implies t[i].0 != col by {
                assert(s[i].0 < s[s.len() - 1].0);
            }
            assert forall|i: int| 0 <= i < s.len() && s[i].0 == col implies coeff(s, col)
                == s[i].1 by {
                if i < s.len() - 1 {
                    assert(s[i].0 < s[s.len() - 1].0);
                }
            }
        } else {
            assert forall|i: int| 0 <= i < s.len() && s[i].0 == col implies coeff(s, col)
                == s[i].1 by {
                assert(t[i] == s[i]);
            }
        }
    }
}

/// Appending one entry adds its value to its column.
pub proof fn lemma_coeff_push(s: Seq<(int, u8)>, e: (int, u8), col: int)
    ensures
        coeff(s.push(e), col) == coeff(s, col) ^ (if e.0 == col {
            e.1
        } else {
            0u8
        }),
{
    assert(s.push(e).drop_last() =~= s);
}

/// Coefficients of a concatenation add up.
pub proof fn lemma_coeff_concat(s: Seq<(int, u8)>, t: Seq<(int, u8)>, col: int)
    ensures
        coeff(s + t, col) == coeff(s, col) ^ coeff(t, col),
    decreases t.len(),
{
    if t.len() == 0 {
        assert(s + t =~= s);
        lemma_xor_basics(coeff(s, col), 0, 0);
    } else {
        let t1 = t.drop_last();
        lemma_coeff_concat(s, t1, col);
        assert((s + t).drop_last() =~= s + t1);
        assert((s + t).last() == t.last());
        let lv: u8 = if t.last().0 == col {
            t.last().1
        } else {
            0u8
        };
        lemma_xor_basics(coeff(s, col), coeff(t1, col), lv);
    }
}

/// Two canonical rows with the same coefficients everywhere are equal.
pub proof fn lemma_canonical_unique(s: Seq<(int, u8)>, t: Seq<(int, u8)>)
    requires
        canonical(s),
        canonical(t),
        forall|c: int| coeff(s, c) == coeff(t, c),
    ensures
        s == t,
    decreases s.len() + t.len(),
{
    if s.len() == 0 && t.len() == 0 {
        assert(s =~= t);
    } else if s.len() == 0 {
        lemma_coeff_lookup(t, t[0].0);
        lemma_coeff_lookup(s, t[0].0);
    } else if t.len() == 0 {
        lemma_coeff_lookup(s, s[0].0);
        lemma_coeff_lookup(t, s[0].0);
    } else {
        let ls = s.last();
        let lt = t.last();
        lemma_coeff_lookup(s, ls.0);
        lemma_coeff_lookup(t, ls.0);
        lemma_coeff_lookup(s, lt.0);
        lemma_coeff_lookup(t, lt.0);
        if ls.0 < lt.0 {
            assert forall|i: int| 0 <= i < s.len() implies s[i].0 != lt.0 by {
                if i < s.len() - 1 {
                    assert(s[i].0 < ls.0);
                }
            }
            assert(false);
        } else if lt.0 < ls.0 {
            assert forall|i: int| 0 <= i < t.len() implies t[i].0 != ls.0 by {
                if i < t.len() - 1 {
                    assert(t[i].0 < lt.0);
                }
            }
            assert(false);
        } else {
            assert(ls.1 == lt.1);
            let s1 = s.drop_last();
            let t1 = t.drop_last();
            assert forall|c: int| coeff(s1, c) == coeff(t1, c) by {
                let v: u8 = if ls.0 == c {
                    ls.1
                } else {
                    0u8
                };
                assert(coeff(s, c) == coeff(t, c));
                assert(coeff(s, c) == coeff(s1, c) ^ v);
                assert(coeff(t, c) == coeff(t1, c) ^ v);
                lemma_xor_basics(coeff(s1, c), v, 0);
                lemma_xor_basics(coeff(t1, c), v, 0);
            }
            lemma_canonical_unique(s1, t1);
            assert(s =~= s1.push(ls));
            assert(t =~= t1.push(lt));
        }
    }
}

/// Entries whose column lies below `bound`.
pub open spec fn all_below(s: Seq<(int, u8)>, bound: int) -> bool {
    forall|i: int| 0 <= i < s.len() ==> s[i].0 < bound
}

/// Entries whose column is at least `bound`.
pub open spec fn all_at_or_above(s: Seq<(int, u8)>, bound: int) -> bool {
    forall|i: int| 0 <= i < s.len() ==> s[i].0 >= bound
}

/// A column absent from every entry has coefficient zero, whatever the order.
pub proof fn lemma_coeff_absent(s: Seq<(int, u8)>, col: int)
    requires
        forall|i: int| 0 <= i < s.len() ==> s[i].0 != col,
    ensures
        coeff(s, col) == 0,
    decreases s.len(),
{
    if s.len() > 0 {
        lemma_coeff_absent(s.drop_last(), col);
        lemma_xor_basics(0, 0, 0);
    }
}

/// The coefficient contributed by a single entry.
pub open spec fn entry_coeff(e: (int, u8), col: int) -> u8 {
    if e.0 == col {
        e.1
    } else {
        0u8
    }
}

proof fn lemma_coeff_three(s: Seq<(int, u8)>, p: int, col: int)
    requires
        0 <= p < s.len(),
    ensures
        coeff(s, col) == coeff(s.subrange(0, p), col) ^ entry_coeff(s[p], col) ^ coeff(
            s.subrange(p + 1, s.len() as int),
            col,
        ),
{
    let a = s.subrange(0, p);
    let b = s.subrange(p + 1, s.len() as int);
    assert(s =~= a.push(s[p]) + b);
    lemma_coeff_concat(a.push(s[p]), b, col);
    lemma_coeff_push(a, s[p], col);
}

/// Removing an entry subtracts it; the row stays canonical.
pub proof fn lemma_remove_entry(s: Seq<(int, u8)>, p: int)
    requires
        canonical(s),
        0 <= p < s.len(),
    ensures
        canonical(s.remove(p)),
        forall|c: int| #[trigger] coeff(s.remove(p), c) == coeff(s, c) ^ entry_coeff(s[p], c),
{
    let t = s.remove(p);
    assert forall|i: int, j: int| 0 <= i < j < t.len() implies t[i].0 < t[j].0 by {
        let i2 = if i < p { i } else { i + 1 };
        let j2 = if j < p { j } else { j + 1 };
        assert(t[i] == s[i2] && t[j] == s[j2]);
    }
    assert forall|c: int| #[trigger] coeff(t, c) == coeff(s, c) ^ entry_coeff(s[p], c) by {
        lemma_coeff_three(s, p, c);
        let a = s.subrange(0, p);
        let b = s.subrange(p + 1, s.len() as int);
        assert(t =~= a + b);
        lemma_coeff_concat(a, b, c);
        lemma_xor_basics(coeff(a, c), entry_coeff(s[p], c), coeff(b, c));
        lemma_xor_basics(coeff(a, c), coeff(b, c), entry_coeff(s[p], c));
        lemma_xor_basics(coeff(a, c) ^ coeff(b, c), entry_coeff(s[p], c), 0);
        lemma_xor_basics(entry_coeff(s[p], c), coeff(b, c), 0);
    }
}

/// Replacing the value of an entry by a nonzero value adds the difference.
pub proof fn lemma_update_entry(s: Seq<(int, u8)>, p: int, v: u8)
    requires
        canonical(s),
        0 <= p < s.len(),
        v != 0,
    ensures
        canonical(s.update(p, (s[p].0, v))),
        forall|c: int| #[trigger] coeff(s.update(p, (s[p].0, v)), c) == coeff(s, c) ^ entry_coeff(
            (s[p].0, s[p].1 ^ v),
            c,
        ),
{
    let e = (s[p].0, v);
    let t = s.update(p, e);
    assert forall|i: int, j: int| 0 <= i < j < t.len() implies t[i].0 < t[j].0 by {
        assert(t[i].0 == s[i].0 && t[j].0 == s[j].0);
    }
    assert forall|c: int| #[trigger] coeff(t, c) == coeff(s, c) ^ entry_coeff((s[p].0, s[p].1 ^ v), c) by {
        lemma_coeff_three(s, p, c);
        lemma_coeff_three(t, p, c);
        assert(t.subrange(0, p) =~= s.subrange(0, p));
        assert(t.subrange(p + 1, t.len() as int) =~= s.subrange(p + 1, s.len() as int));
        let a = coeff(s.subrange(0, p), c);
        let b = coeff(s.subrange(p + 1, s.len() as int), c);
        let x = entry_coeff(s[p], c);
        let y = entry_coeff(e, c);
        let d = entry_coeff((s[p].0, s[p].1 ^ v), c);
        if s[p].0 == c {
            assert(d == x ^ y);
        } else {
            assert(x == 0 && y == 0 && d == 0);
        }
        lemma_xor_regroup(a, b, x, y);
        lemma_xor_basics(0, 0, 0);
        lemma_xor_basics((a ^ x) ^ b, 0, 0);
    }
}

/// Inserting an entry at its sorted position adds it; the row stays canonical.
pub proof fn lemma_insert_entry(s: Seq<(int, u8)>, p: int, e: (int, u8))
    requires
        canonical(s),
        0 <= p <= s.len(),
        e.1 != 0,
        forall|i: int| 0 <= i < p ==> s[i].0 < e.0,
        forall|i: int| p <= i < s.len() ==> s[i].0 > e.0,
    ensures
        canonical(s.insert(p, e)),
        forall|c: int| #[trigger] coeff(s.insert(p, e), c) == coeff(s, c) ^ entry_coeff(e, c),
{
    let t = s.insert(p, e);
    assert forall|i: int, j: int| 0 <= i < j < t.len() implies t[i].0 < t[j].0 by {
        if j < p {
        } else if j == p {
        } else if i < p {
            assert(t[j] == s[j - 1]);
        } else if i == p {
            assert(t[j] == s[j - 1]);
        } else {
            assert(t[i] == s[i - 1] && t[j] == s[j - 1]);
        }
    }
    assert forall|c: int| #[trigger] coeff(t, c) == coeff(s, c) ^ entry_coeff(e, c) by {
        let a = s.subrange(0, p);
        let b = s.subrange(p, s.len() as int);
        assert(s =~= a + b);
        assert(t =~= a.push(e) + b);
        lemma_coeff_concat(a, b, c);
        lemma_coeff_concat(a.push(e), b, c);
        lemma_coeff_push(a, e, c);
        let x = coeff(a, c);
        let y = coeff(b, c);
        let z = entry_coeff(e, c);
        lemma_xor_regroup(x, y, z, 0);
    }
}

} // verus!
