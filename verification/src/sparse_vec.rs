//! A sparse vector of GF(256) coefficients kept sorted by column.

use crate::octet::{
    Octet,
    gf_mul_spec,
    lemma_gf_mul_distributive_left,
    lemma_gf_mul_identities,
    lemma_gf_mul_nonzero,
};
use crate::sparse_spec::{
    all_at_or_above,
    all_below,
    canonical,
    coeff,
    lemma_coeff_absent,
    lemma_coeff_concat,
    lemma_coeff_lookup,
    lemma_coeff_push,
    lemma_xor_basics,
    entry_coeff,
    lemma_insert_entry,
    lemma_remove_entry,
    lemma_update_entry,
    nonzero_values,
    strictly_sorted,
};
use vstd::prelude::*;
use crate::sparse_spec::lemma_xor_regroup;

verus! {

/// (column, value) pairs as integers.
pub open spec fn pair_view(s: Seq<(usize, Octet)>) -> Seq<(int, u8)> {
    s.map_values(|e: (usize, Octet)| (e.0 as int, e.1@))
}

/// Each listed column carries the value one.
pub open spec fn binary_pairs(s: Seq<usize>) -> Seq<(int, u8)> {
    s.map_values(|c: usize| (c as int, 1u8))
}

/// A sparse vector of octets, sorted by column, without stored zeros.
#[derive(Clone, Debug, PartialEq, Eq)]
pub struct SparseOctetVec {
    entries: Vec<(usize, Octet)>,
}

impl View for SparseOctetVec {
    type V = Seq<(int, u8)>;

    closed spec fn view(&self) -> Seq<(int, u8)> {
        pair_view(self.entries@)
    }
}

impl SparseOctetVec {
    pub open spec fn wf(&self) -> bool {
        canonical(self@)
    }

    /// The coefficient stored for column `col`.
    pub open spec fn get_spec(&self, col: int) -> u8 {
        coeff(self@, col)
    }
}

/// The first index whose column is at least `start` (entries sorted by column).
fn partition_point(entries: &Vec<(usize, Octet)>, start: usize) -> (p: usize)
    requires
        strictly_sorted(pair_view(entries@)),
    ensures
        p <= entries@.len(),
        forall|i: int| 0 <= i < p ==> entries@[i].0 < start,
        forall|i: int| p <= i < entries@.len() ==> entries@[i].0 >= start,
{
    let ghost v = pair_view(entries@);
    let mut lo: usize = 0;
    let mut hi: usize = entries.len();
    while lo < hi
        invariant
            lo <= hi <= entries@.len(),
            v == pair_view(entries@),
            strictly_sorted(v),
            forall|i: int| 0 <= i < lo ==> entries@[i].0 < start,
            forall|i: int| hi <= i < entries@.len() ==> entries@[i].0 >= start,
        decreases hi - lo,
    {
        let mid = lo + (hi - lo) / 2;
        if entries[mid].0 < start {
            proof {
                assert forall|i: int| 0 <= i <= mid implies entries@[i].0 < start by {
                    if i < mid {
                        assert(v[i].0 < v[mid as int].0);
                    }
                }
            }
            lo = mid + 1;
        } else {
            proof {
                assert forall|i: int| mid <= i < entries@.len() implies entries@[i].0 >= start by {
                    if i > mid {
                        assert(v[mid as int].0 < v[i].0);
                    }
                }
            }
            hi = mid;
        }
    }
    lo
}

proof fn lemma_split_coeff(s: Seq<(int, u8)>, p: int, col: int)
    requires
        0 <= p <= s.len(),
    ensures
        coeff(s, col) == coeff(s.subrange(0, p), col) ^ coeff(s.subrange(p, s.len() as int), col),
{
    assert(s =~= s.subrange(0, p) + s.subrange(p, s.len() as int));
    lemma_coeff_concat(s.subrange(0, p), s.subrange(p, s.len() as int), col);
}

/// Adds `value` to column `col` of a canonical row, keeping it canonical.
fn insert_xor(entries: &mut Vec<(usize, Octet)>, col: usize, value: Octet)
    requires
        canonical(pair_view(old(entries)@)),
    ensures
        canonical(pair_view(final(entries)@)),
        forall|c: int|
            #[trigger] coeff(pair_view(final(entries)@), c) == coeff(pair_view(old(entries)@), c)
                ^ entry_coeff((col as int, value@), c),
{
    let ghost old_v = pair_view(entries@);
    let p = partition_point(entries, col);
    if p < entries.len() && entries[p].0 == col {
        let combined = entries[p].1.add(value);
        if combined.is_zero() {
            entries.remove(p);
            proof {
                assert(old_v[p as int].0 == col);
                lemma_xor_basics(old_v[p as int].1, value@, 0);
                assert(old_v[p as int].1 == value@);
                assert(old_v[p as int] == (col as int, value@));
                lemma_remove_entry(old_v, p as int);
                assert(pair_view(entries@) =~= old_v.remove(p as int));
                assert forall|c: int| #[trigger] coeff(pair_view(entries@), c) == coeff(old_v, c)
                    ^ entry_coeff((col as int, value@), c) by {
                    assert(coeff(pair_view(entries@), c) == coeff(old_v.remove(p as int), c));
                }
            }
        } else {
            entries.set(p, (col, combined));
            proof {
                assert(old_v[p as int].0 == col);
                let a = old_v[p as int].1;
                let b = value@;
                assert(combined@ == a ^ b);
                lemma_xor_regroup(a, b, 0, 0);
                lemma_update_entry(old_v, p as int, combined@);
                assert(pair_view(entries@) =~= old_v.update(p as int, (col as int, combined@)));
                assert forall|c: int| #[trigger] coeff(pair_view(entries@), c) == coeff(old_v, c)
                    ^ entry_coeff((col as int, value@), c) by {
                    assert(coeff(pair_view(entries@), c) == coeff(
                        old_v.update(p as int, (col as int, combined@)),
                        c,
                    ));
                    lemma_xor_basics(old_v[p as int].1, value@, 0);
                }
            }
        }
    } else if !value.is_zero() {
        entries.insert(p, (col, value));
        proof {
            assert forall|i: int| p <= i < old_v.len() implies old_v[i].0 > col by {
                if i > p {
                    assert(old_v[p as int].0 < old_v[i].0);
                }
            }
            lemma_insert_entry(old_v, p as int, (col as int, value@));
            assert(pair_view(entries@) =~= old_v.insert(p as int, (col as int, value@)));
        }
    } else {
        proof {
            assert forall|c: int| #[trigger] coeff(pair_view(entries@), c) == coeff(old_v, c)
                ^ entry_coeff((col as int, value@), c) by {
                lemma_xor_basics(coeff(old_v, c), 0, 0);
            }
        }
    }
}

impl SparseOctetVec {
    /// The zero vector.
    pub fn new() -> (r: SparseOctetVec)
        ensures
            r.wf(),
            forall|c: int| #[trigger] r.get_spec(c) == 0,
    {
        let r = SparseOctetVec { entries: Vec::new() };
        assert(r@ =~= Seq::<(int, u8)>::empty());
        r
    }

    /// Each listed column gets one; a column listed twice cancels out.
    pub fn from_binary_entries(entries: Vec<usize>) -> (r: SparseOctetVec)
        ensures
            r.wf(),
            forall|c: int| #[trigger] r.get_spec(c) == coeff(binary_pairs(entries@), c),
    {
        let mut pairs: Vec<(usize, Octet)> = Vec::new();
        let mut k: usize = 0;
        while k < entries.len()
            invariant
                k <= entries@.len(),
                pairs@.len() == k,
                pair_view(pairs@) =~= binary_pairs(entries@.subrange(0, k as int)),
            decreases entries@.len() - k,
        {
            let ghost before = pairs@;
            pairs.push((entries[k], Octet::one()));
            proof {
                assert(pair_view(pairs@) =~= pair_view(before).push((entries@[k as int] as int, 1u8)));
                assert(entries@.subrange(0, k + 1) =~= entries@.subrange(0, k as int).push(
                    entries@[k as int],
                ));
            }
            k += 1;
        }
        assert(entries@.subrange(0, k as int) =~= entries@);
        SparseOctetVec::from_octet_entries(pairs)
    }

    /// The sum of the given (column, value) entries, in any order, duplicates added.
    pub fn from_octet_entries(entries: Vec<(usize, Octet)>) -> (r: SparseOctetVec)
        ensures
            r.wf(),
            forall|c: int| #[trigger] r.get_spec(c) == coeff(pair_view(entries@), c),
    {
        let mut compacted: Vec<(usize, Octet)> = Vec::new();
        let mut k: usize = 0;
        proof {
            assert(pair_view(compacted@) =~= Seq::<(int, u8)>::empty());
        }
        while k < entries.len()
            invariant
                k <= entries@.len(),
                canonical(pair_view(compacted@)),
                forall|c: int|
                    #[trigger] coeff(pair_view(compacted@), c) == coeff(
                        pair_view(entries@.subrange(0, k as int)),
                        c,
                    ),
            decreases entries@.len() - k,
        {
            let (col, value) = entries[k];
            insert_xor(&mut compacted, col, value);
            proof {
                assert forall|c: int|
                    #[trigger] coeff(pair_view(compacted@), c) == coeff(
                        pair_view(entries@.subrange(0, k + 1)),
                        c,
                    ) by {
                    assert(pair_view(entries@.subrange(0, k + 1)) =~= pair_view(
                        entries@.subrange(0, k as int),
                    ).push((col as int, value@)));
                    lemma_coeff_push(
                        pair_view(entries@.subrange(0, k as int)),
                        (col as int, value@),
                        c,
                    );
                }
            }
            k += 1;
        }
        assert(entries@.subrange(0, k as int) =~= entries@);
        SparseOctetVec { entries: compacted }
    }

    /// Whether no coefficient is stored.
    pub fn is_empty(&self) -> (r: bool)
        requires
            self.wf(),
        ensures
            r <==> (forall|c: int| #[trigger] self.get_spec(c) == 0),
    {
        let r = self.entries.len() == 0;
        proof {
            if r {
                assert forall|c: int| #[trigger] self.get_spec(c) == 0 by {
                    lemma_coeff_absent(self@, c);
                }
            } else {
                lemma_coeff_lookup(self@, self@[0].0);
                assert(self.get_spec(self@[0].0) != 0);
            }
        }
        r
    }

    /// The coefficient of column `col`.
    pub fn get(&self, col: usize) -> (r: Octet)
        requires
            self.wf(),
        ensures
            r@ == self.get_spec(col as int),
    {
        let p = partition_point(&self.entries, col);
        proof {
            lemma_coeff_lookup(self@, col as int);
        }
        if p < self.entries.len() && self.entries[p].0 == col {
            assert(self@[p as int] == (col as int, self.entries@[p as int].1@));
            self.entries[p].1
        } else {
            proof {
                assert forall|i: int| 0 <= i < self@.len() implies self@[i].0 != col by {
                    assert(self@[i].0 == self.entries@[i].0);
                    if i > p {
                        assert(self@[p as int].0 < self@[i].0);
                    }
                }
            }
            Octet::zero()
        }
    }
}

proof fn lemma_scaled_entry(e: (int, u8), scalar: u8, c: int)
    ensures
        gf_mul_spec(entry_coeff(e, c), scalar) == entry_coeff((e.0, gf_mul_spec(e.1, scalar)), c),
{
    lemma_gf_mul_identities(scalar);
}

proof fn lemma_xor_swap(a: u8, b: u8, e: u8)
    ensures
        (a ^ b) ^ e == (a ^ e) ^ b,
        (a ^ b) ^ (e ^ b) == a ^ e,
{
    lemma_xor_regroup(a, e, b, 0);
    lemma_xor_regroup(a, b, e, 0);
}

impl SparseOctetVec {
    /// Multiplies every coefficient at or after `start_col` by `scalar`.
    pub fn scale_from(&mut self, start_col: usize, scalar: Octet)
        requires
            old(self).wf(),
        ensures
            final(self).wf(),
            forall|c: int| #[trigger]
                final(self).get_spec(c) == if c < start_col {
                    old(self).get_spec(c)
                } else {
                    gf_mul_spec(old(self).get_spec(c), scalar@)
                },
    {
        let ghost old_v = self@;
        let split = partition_point(&self.entries, start_col);
        if scalar.is_zero() {
            self.entries.truncate(split);
            proof {
                let new_v = self@;
                assert(new_v =~= old_v.subrange(0, split as int));
                assert forall|c: int| #[trigger] self.get_spec(c) == if c < start_col {
                    coeff(old_v, c)
                } else {
                    gf_mul_spec(coeff(old_v, c), scalar@)
                } by {
                    lemma_coeff_lookup(old_v, c);
                    lemma_coeff_lookup(new_v, c);
                    lemma_gf_mul_identities(coeff(old_v, c));
                    if c >= start_col {
                        assert forall|i: int| 0 <= i < new_v.len() implies new_v[i].0 != c by {}
                    } else {
                        if forall|i: int| 0 <= i < old_v.len() ==> old_v[i].0 != c {
                            assert forall|i: int| 0 <= i < new_v.len() implies new_v[i].0 != c by {
                                assert(new_v[i] == old_v[i]);
                            }
                        } else {
                            let i = choose|i: int| 0 <= i < old_v.len() && old_v[i].0 == c;
                            assert(i < split);
                            assert(new_v[i] == old_v[i]);
                        }
                    }
                }
            }
            return ;
        }
        if scalar.value() == 1 {
            proof {
                assert forall|c: int| #[trigger] self.get_spec(c) == if c < start_col {
                    coeff(old_v, c)
                } else {
                    gf_mul_spec(coeff(old_v, c), scalar@)
                } by {
                    crate::octet::lemma_gf_mul_identities(coeff(old_v, c));
                }
            }
            return ;
        }
        let n = self.entries.len();
        let mut i = split;
        while i < n
            invariant
                split <= i <= n,
                n == self.entries@.len(),
                n == old_v.len(),
                scalar@ != 0,
                forall|j: int| 0 <= j < n ==> #[trigger] self@[j].0 == old_v[j].0,
                forall|j: int| 0 <= j < split ==> #[trigger] self@[j] == old_v[j],
                forall|j: int| split <= j < i ==> #[trigger] self@[j].1 == gf_mul_spec(old_v[j].1, scalar@),
                forall|j: int| i <= j < n ==> #[trigger] self@[j] == old_v[j],
                canonical(old_v),
                forall|j: int| 0 <= j < split ==> old_v[j].0 < start_col,
                forall|j: int| split <= j < n ==> old_v[j].0 >= start_col,
            decreases n - i,
        {
            let (c, v) = self.entries[i];
            let ghost before = self@;
            assert(before[i as int] == (c as int, v@));
            self.entries.set(i, (c, v.mul(scalar)));
            proof {
                assert(old_v[i as int].1 == v@);
                assert forall|j: int| 0 <= j < n && j != i implies #[trigger] self@[j] == before[j] by {}
                assert(self@[i as int] == (c as int, gf_mul_spec(v@, scalar@)));
            }
            i += 1;
        }
        proof {
            let new_v = self@;
            assert forall|j: int| 0 <= j < n implies #[trigger] new_v[j].1 != 0 by {
                if j >= split {
                    lemma_gf_mul_nonzero(old_v[j].1, scalar@);
                }
            }
            assert(canonical(new_v)) by {
                assert forall|a: int, b: int| 0 <= a < b < new_v.len() implies new_v[a].0 < new_v[b].0 by {
                    assert(new_v[a].0 == old_v[a].0 && new_v[b].0 == old_v[b].0);
                }
            }
            assert forall|c: int| #[trigger] self.get_spec(c) == if c < start_col {
                coeff(old_v, c)
            } else {
                gf_mul_spec(coeff(old_v, c), scalar@)
            } by {
                lemma_coeff_lookup(old_v, c);
                lemma_coeff_lookup(new_v, c);
                lemma_gf_mul_identities(scalar@);
                if forall|j: int| 0 <= j < n ==> old_v[j].0 != c {
                    assert forall|j: int| 0 <= j < n implies new_v[j].0 != c by {
                        assert(new_v[j].0 == old_v[j].0);
                    }
                } else {
                    let j = choose|j: int| 0 <= j < n && old_v[j].0 == c;
                    assert(new_v[j].0 == c);
                }
            }
        }
    }

    /// Adds `scalar` times the coefficients of `src` at or after `start_col` into `self`.
    pub fn add_scaled_from(&mut self, src: &SparseOctetVec, start_col: usize, scalar: Octet)
        requires
            old(self).wf(),
            src.wf(),
        ensures
            final(self).wf(),
            forall|c: int| #[trigger]
                final(self).get_spec(c) == old(self).get_spec(c) ^ (if c >= start_col {
                    gf_mul_spec(src.get_spec(c), scalar@)
                } else {
                    0u8
                }),
    {
        let ghost d = self@;
        let ghost sv = src@;
        if scalar.is_zero() {
            proof {
                assert forall|c: int| #[trigger] self.get_spec(c) == coeff(d, c) ^ (if c
                    >= start_col {
                    gf_mul_spec(coeff(sv, c), scalar@)
                } else {
                    0u8
                }) by {
                    lemma_gf_mul_identities(coeff(sv, c));
                    lemma_xor_basics(coeff(d, c), 0, 0);
                }
            }
            return ;
        }
        let dlen = self.entries.len();
        let slen = src.entries.len();
        let mut merged: Vec<(usize, Octet)> = Vec::new();
        let mut di: usize = 0;
        let mut si = partition_point(&src.entries, start_col);
        let ghost si0 = si;
        proof {
            assert(pair_view(merged@) =~= Seq::<(int, u8)>::empty());
            assert forall|c: int| #[trigger] coeff(pair_view(merged@), c) == coeff(d.subrange(0, 0), c)
                ^ gf_mul_spec(coeff(sv.subrange(si0 as int, si0 as int), c), scalar@) by {
                assert(d.subrange(0, 0) =~= Seq::<(int, u8)>::empty());
                assert(sv.subrange(si0 as int, si0 as int) =~= Seq::<(int, u8)>::empty());
                lemma_gf_mul_identities(scalar@);
                lemma_xor_basics(0, 0, 0);
            }
        }
        while di < dlen || si < slen
            invariant
                d == self@,
                sv == src@,
                dlen == d.len(),
                slen == sv.len(),
                canonical(d),
                canonical(sv),
                scalar@ != 0,
                di <= dlen,
                si0 <= si <= slen,
                forall|j: int| 0 <= j < si0 ==> sv[j].0 < start_col,
                forall|j: int| si0 <= j < slen ==> sv[j].0 >= start_col,
                canonical(pair_view(merged@)),
                forall|c: int| #[trigger] coeff(pair_view(merged@), c) == coeff(d.subrange(0, di as int), c)
                    ^ gf_mul_spec(coeff(sv.subrange(si0 as int, si as int), c), scalar@),
                merged@.len() > 0 ==> (di < dlen ==> pair_view(merged@).last().0 < d[di as int].0),
                merged@.len() > 0 ==> (si < slen ==> pair_view(merged@).last().0 < sv[si as int].0),
            decreases (dlen - di) + (slen - si),
        {
            let ghost m = pair_view(merged@);
            let ghost old_di = di;
            let ghost old_si = si;
            let take_dest;
            let take_src;
            if di < dlen && si < slen {
                let dc = self.entries[di].0;
                let sc = src.entries[si].0;
                take_dest = dc <= sc;
                take_src = sc <= dc;
            } else {
                take_dest = di < dlen;
                take_src = si < slen;
            }
            if take_dest && take_src {
                let (col, dv) = self.entries[di];
                let sval = src.entries[si].1;
                let value = dv.add(sval.mul(scalar));
                let ghost e = (col as int, value@);
                let ghost de = d[di as int];
                let ghost se = sv[si as int];
                if !value.is_zero() {
                    merged.push((col, value));
                    proof {
                        assert(pair_view(merged@) =~= m.push(e));
                    }
                }
                di += 1;
                si += 1;
                proof {
                    assert(d.subrange(0, di as int) =~= d.subrange(0, old_di as int).push(de));
                    assert(sv.subrange(si0 as int, si as int) =~= sv.subrange(si0 as int, old_si as int).push(se));
                    assert forall|c: int| #[trigger] coeff(pair_view(merged@), c) == coeff(
                        d.subrange(0, di as int),
                        c,
                    ) ^ gf_mul_spec(coeff(sv.subrange(si0 as int, si as int), c), scalar@) by {
                        let a = coeff(d.subrange(0, old_di as int), c);
                        let b = coeff(sv.subrange(si0 as int, old_si as int), c);
                        lemma_coeff_push(d.subrange(0, old_di as int), de, c);
                        lemma_coeff_push(sv.subrange(si0 as int, old_si as int), se, c);
                        lemma_gf_mul_distributive_left(b, entry_coeff(se, c), scalar@);
                        lemma_scaled_entry(se, scalar@, c);
                        let x = entry_coeff(de, c);
                        let y = entry_coeff((se.0, gf_mul_spec(se.1, scalar@)), c);
                        let gb = gf_mul_spec(b, scalar@);
                        lemma_xor_regroup(a, x, gb, y);
                        if value@ != 0 {
                            lemma_coeff_push(m, e, c);
                            assert(de.0 == col as int && se.0 == col as int);
                            assert(de.1 == dv@ && se.1 == sval@);
                            lemma_xor_basics(0, 0, 0);
                            assert(entry_coeff(e, c) == x ^ y);
                        } else {
                            assert(de.0 == col as int && se.0 == col as int);
                            assert(de.1 == dv@ && se.1 == sval@);
                            assert(x ^ y == 0u8) by {
                                if de.0 == c {
                                    lemma_xor_basics(de.1, gf_mul_spec(se.1, scalar@), 0);
                                } else {
                                    lemma_xor_basics(0, 0, 0);
                                }
                            }
                            lemma_xor_basics(a ^ gb, 0, 0);
                        }
                    }
                    if di < dlen {
                        assert(d[old_di as int].0 < d[di as int].0);
                    }
                    if si < slen {
                        assert(sv[old_si as int].0 < sv[si as int].0);
                    }
                    if value@ != 0 {
                        assert(canonical(pair_view(merged@))) by {
                            let mm = pair_view(merged@);
                            assert forall|a: int, b: int| 0 <= a < b < mm.len() implies mm[a].0 < mm[b].0 by {
                                if b == mm.len() - 1 && a < b {
                                    assert(m[a].0 <= m.last().0);
                                }
                            }
                        }
                    }
                }
            } else if take_dest {
                let e_exec = self.entries[di];
                let ghost de = d[di as int];
                merged.push(e_exec);
                di += 1;
                proof {
                    assert(pair_view(merged@) =~= m.push(de));
                    assert(d.subrange(0, di as int) =~= d.subrange(0, old_di as int).push(de));
                    assert forall|c: int| #[trigger] coeff(pair_view(merged@), c) == coeff(
                        d.subrange(0, di as int),
                        c,
                    ) ^ gf_mul_spec(coeff(sv.subrange(si0 as int, si as int), c), scalar@) by {
                        lemma_coeff_push(m, de, c);
                        lemma_coeff_push(d.subrange(0, old_di as int), de, c);
                        lemma_xor_swap(
                            coeff(d.subrange(0, old_di as int), c),
                            gf_mul_spec(coeff(sv.subrange(si0 as int, si as int), c), scalar@),
                            entry_coeff(de, c),
                        );
                    }
                    if di < dlen {
                        assert(d[old_di as int].0 < d[di as int].0);
                    }
                    assert(canonical(pair_view(merged@))) by {
                        let mm = pair_view(merged@);
                        assert forall|a: int, b: int| 0 <= a < b < mm.len() implies mm[a].0 < mm[b].0 by {
                            if b == mm.len() - 1 && a < b {
                                assert(m[a].0 <= m.last().0);
                            }
                        }
                    }
                }
            } else {
                let (col, sval) = src.entries[si];
                let product = sval.mul(scalar);
                let ghost se = sv[si as int];
                let ghost e = (col as int, product@);
                merged.push((col, product));
                si += 1;
                proof {
                    lemma_gf_mul_nonzero(se.1, scalar@);
                    assert(pair_view(merged@) =~= m.push(e));
                    assert(sv.subrange(si0 as int, si as int) =~= sv.subrange(si0 as int, old_si as int).push(se));
                    assert forall|c: int| #[trigger] coeff(pair_view(merged@), c) == coeff(
                        d.subrange(0, di as int),
                        c,
                    ) ^ gf_mul_spec(coeff(sv.subrange(si0 as int, si as int), c), scalar@) by {
                        let a = coeff(d.subrange(0, di as int), c);
                        let b = coeff(sv.subrange(si0 as int, old_si as int), c);
                        lemma_coeff_push(m, e, c);
                        lemma_coeff_push(sv.subrange(si0 as int, old_si as int), se, c);
                        lemma_gf_mul_distributive_left(b, entry_coeff(se, c), scalar@);
                        lemma_scaled_entry(se, scalar@, c);
                        let gb = gf_mul_spec(b, scalar@);
                        let y = entry_coeff(e, c);
                        lemma_xor_basics(a, gb, y);
                    }
                    if si < slen {
                        assert(sv[old_si as int].0 < sv[si as int].0);
                    }
                    assert(canonical(pair_view(merged@))) by {
                        let mm = pair_view(merged@);
                        assert forall|a: int, b: int| 0 <= a < b < mm.len() implies mm[a].0 < mm[b].0 by {
                            if b == mm.len() - 1 && a < b {
                                assert(m[a].0 <= m.last().0);
                            }
                        }
                    }
                }
            }
        }
        self.entries = merged;
        proof {
            assert(d.subrange(0, dlen as int) =~= d);
            assert forall|c: int| #[trigger] self.get_spec(c) == coeff(d, c) ^ (if c >= start_col {
                gf_mul_spec(coeff(sv, c), scalar@)
            } else {
                0u8
            }) by {
                let tail = sv.subrange(si0 as int, slen as int);
                lemma_split_coeff(sv, si0 as int, c);
                if c >= start_col {
                    assert forall|j: int| 0 <= j < sv.subrange(0, si0 as int).len() implies sv.subrange(
                        0,
                        si0 as int,
                    )[j].0 != c by {}
                    lemma_coeff_absent(sv.subrange(0, si0 as int), c);
                    lemma_xor_basics(coeff(tail, c), 0, 0);
                } else {
                    assert forall|j: int| 0 <= j < tail.len() implies tail[j].0 != c by {}
                    lemma_coeff_absent(tail, c);
                    lemma_gf_mul_identities(scalar@);
                }
            }
        }
    }
}

} // verus!
