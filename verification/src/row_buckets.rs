//! Rows kept in singly linked lists, one list (a bucket) per column: `bucket_heads[col]`
//! is the first row of the bucket of `col`, and `next_in_bucket[row]` the row after `row`.

use crate::octet::{Octet, lemma_octet_ext};
use crate::pi_solver::CoefficientRow;
use crate::gf2::PackedBinaryRows;
use vstd::prelude::*;
use vstd::std_specs::bits::{
    axiom_u16_trailing_zeros,
    axiom_u32_trailing_zeros,
    u16_trailing_zeros,
    u32_trailing_zeros,
};

verus! {

/// Marks the end of a bucket, and a row that is in no bucket.
pub const NO_BUCKET_ROW: usize = usize::MAX;

/// The heaviest row weight a decoding solve keeps in small-weight buckets.
pub const DECODE_SMALL_WEIGHT_BINARY_BUCKET_MAX: usize = 16;

/// The heaviest row weight a plan keeps in small-weight buckets.
pub const PLAN_SMALL_WEIGHT_BINARY_BUCKET_MAX: usize = 31;

/// `l` is the bucket that starts at `head`: following `next` from `head` visits the rows of
/// `l` in order, each once, and then reaches `NO_BUCKET_ROW`.
pub open spec fn is_bucket(next: Seq<usize>, head: usize, l: Seq<usize>) -> bool {
    &&& forall|i: int| 0 <= i < l.len() ==> #[trigger] l[i] < next.len() && l[i] != NO_BUCKET_ROW
    &&& forall|i: int, j: int| 0 <= i < j < l.len() ==> l[i] != l[j]
    &&& head == (if l.len() == 0 {
        NO_BUCKET_ROW
    } else {
        l[0]
    })
    &&& forall|i: int|
        0 <= i < l.len() ==> next[#[trigger] l[i] as int] == (if i + 1 < l.len() {
            l[i + 1]
        } else {
            NO_BUCKET_ROW
        })
}

/// Following `next` from `head` ends, without visiting a row twice.
pub open spec fn has_bucket(next: Seq<usize>, head: usize) -> bool {
    exists|l: Seq<usize>| is_bucket(next, head, l)
}

/// The rows of the bucket that starts at `head`.
pub open spec fn bucket_rows(next: Seq<usize>, head: usize) -> Seq<usize> {
    choose|l: Seq<usize>| is_bucket(next, head, l)
}

/// Two buckets with the same links and head agree position by position.
proof fn lemma_bucket_prefix(next: Seq<usize>, head: usize, l1: Seq<usize>, l2: Seq<usize>, k: int)
    requires
        is_bucket(next, head, l1),
        is_bucket(next, head, l2),
        0 <= k < l1.len(),
        k < l2.len(),
    ensures
        l1[k] == l2[k],
    decreases k,
{
    if k > 0 {
        lemma_bucket_prefix(next, head, l1, l2, k - 1);
        assert(next[l1[k - 1] as int] == l1[k]);
        assert(next[l2[k - 1] as int] == l2[k]);
    }
}

/// A bucket is determined by its links and its head.
pub proof fn lemma_bucket_unique(next: Seq<usize>, head: usize, l1: Seq<usize>, l2: Seq<usize>)
    requires
        is_bucket(next, head, l1),
        is_bucket(next, head, l2),
    ensures
        l1 == l2,
{
    if l1.len() < l2.len() {
        if l1.len() == 0 {
            assert(l2[0] != NO_BUCKET_ROW);
        } else {
            let k = l1.len() - 1;
            lemma_bucket_prefix(next, head, l1, l2, k);
            assert(next[l1[k] as int] == NO_BUCKET_ROW);
            assert(next[l2[k] as int] == l2[k + 1]);
            assert(l2[k + 1] != NO_BUCKET_ROW);
        }
    } else if l2.len() < l1.len() {
        if l2.len() == 0 {
            assert(l1[0] != NO_BUCKET_ROW);
        } else {
            let k = l2.len() - 1;
            lemma_bucket_prefix(next, head, l1, l2, k);
            assert(next[l2[k] as int] == NO_BUCKET_ROW);
            assert(next[l1[k] as int] == l1[k + 1]);
            assert(l1[k + 1] != NO_BUCKET_ROW);
        }
    } else {
        assert forall|k: int| 0 <= k < l1.len() implies l1[k] == l2[k] by {
            lemma_bucket_prefix(next, head, l1, l2, k);
        }
        assert(l1 =~= l2);
    }
}

/// A list that is the bucket at `head` is what `bucket_rows` names.
pub proof fn lemma_bucket_rows(next: Seq<usize>, head: usize, l: Seq<usize>)
    requires
        is_bucket(next, head, l),
    ensures
        has_bucket(next, head),
        bucket_rows(next, head) == l,
{
    lemma_bucket_unique(next, head, bucket_rows(next, head), l);
}

/// Links of rows outside a bucket do not change it.
pub proof fn lemma_bucket_frame(next: Seq<usize>, next2: Seq<usize>, head: usize, l: Seq<usize>)
    requires
        is_bucket(next, head, l),
        next2.len() == next.len(),
        forall|i: int| 0 <= i < l.len() ==> next2[#[trigger] l[i] as int] == next[l[i] as int],
    ensures
        is_bucket(next2, head, l),
{
}

/// Pushing a row that is in no bucket puts it in front of the bucket.
pub proof fn lemma_push_bucket(next: Seq<usize>, head: usize, l: Seq<usize>, row: usize)
    requires
        is_bucket(next, head, l),
        row < next.len(),
        row != NO_BUCKET_ROW,
        !l.contains(row),
    ensures
        is_bucket(next.update(row as int, head), row, seq![row] + l),
{
    let m = seq![row] + l;
    let next2 = next.update(row as int, head);
    assert forall|i: int| 0 <= i < m.len() implies next2[#[trigger] m[i] as int] == (if i + 1
        < m.len() {
        m[i + 1]
    } else {
        NO_BUCKET_ROW
    }) by {
        if i > 0 {
            assert(m[i] == l[i - 1]);
            assert(l[i - 1] != row);
        }
    }
    assert forall|i: int, j: int| 0 <= i < j < m.len() implies m[i] != m[j] by {
        if i == 0 {
            assert(m[j] == l[j - 1]);
        } else {
            assert(m[i] == l[i - 1] && m[j] == l[j - 1]);
        }
    }
    assert forall|i: int| 0 <= i < m.len() implies #[trigger] m[i] < next2.len() && m[i]
        != NO_BUCKET_ROW by {
        if i > 0 {
            assert(m[i] == l[i - 1]);
        }
    }
}

/// Unlinking the row at position `k`: its predecessor (or the head) takes its successor, and
/// the row itself is marked as in no bucket.
pub proof fn lemma_unlink_bucket(next: Seq<usize>, head: usize, l: Seq<usize>, k: int)
    requires
        is_bucket(next, head, l),
        0 <= k < l.len(),
    ensures
        is_bucket(
            (if k == 0 {
                next
            } else {
                next.update(l[k - 1] as int, next[l[k] as int])
            }).update(l[k] as int, NO_BUCKET_ROW),
            if k == 0 {
                next[l[k] as int]
            } else {
                head
            },
            l.remove(k),
        ),
{
    let next2 = (if k == 0 {
        next
    } else {
        next.update(l[k - 1] as int, next[l[k] as int])
    }).update(l[k] as int, NO_BUCKET_ROW);
    let m = l.remove(k);
    assert forall|i: int| 0 <= i < m.len() implies m[i] == (if i < k {
        l[i]
    } else {
        l[i + 1]
    }) by {}
    assert forall|i: int| 0 <= i < m.len() implies next2[#[trigger] m[i] as int] == (if i + 1
        < m.len() {
        m[i + 1]
    } else {
        NO_BUCKET_ROW
    }) by {
        if i < k - 1 {
            assert(l[i] != l[k - 1] && l[i] != l[k]);
            assert(m[i] == l[i] && m[i + 1] == l[i + 1]);
        } else if i == k - 1 {
            assert(l[k - 1] != l[k]);
            assert(m[i] == l[k - 1]);
            if k + 1 < l.len() {
                assert(m[i + 1] == l[k + 1]);
            }
        } else {
            assert(m[i] == l[i + 1]);
            assert(l[i + 1] != l[k]);
            if k > 0 {
                assert(l[i + 1] != l[k - 1]);
            }
            if i + 2 < l.len() {
                assert(m[i + 1] == l[i + 2]);
            }
        }
    }
    assert forall|i: int, j: int| 0 <= i < j < m.len() implies m[i] != m[j] by {
        let a = if i < k {
            i
        } else {
            i + 1
        };
        let b = if j < k {
            j
        } else {
            j + 1
        };
        assert(m[i] == l[a] && m[j] == l[b] && a < b);
    }
    assert forall|i: int| 0 <= i < m.len() implies #[trigger] m[i] < next2.len() && m[i]
        != NO_BUCKET_ROW by {
        if i < k {
            assert(m[i] == l[i]);
        } else {
            assert(m[i] == l[i + 1]);
        }
    }
    if k == 0 && m.len() > 0 {
        assert(m[0] == l[1]);
    }
    if k > 0 {
        assert(m[0] == l[0]);
    }
}

/// Puts `row` in front of the bucket of `col`.
pub fn push_row_bucket(
    bucket_heads: &mut Vec<usize>,
    next_in_bucket: &mut Vec<usize>,
    col: usize,
    row: usize,
)
    requires
        col < old(bucket_heads)@.len(),
        row < old(next_in_bucket)@.len(),
    ensures
        final(bucket_heads)@ == old(bucket_heads)@.update(col as int, row),
        final(next_in_bucket)@ == old(next_in_bucket)@.update(
            row as int,
            old(bucket_heads)@[col as int],
        ),
{
    let head = bucket_heads[col];
    next_in_bucket.set(row, head);
    bucket_heads.set(col, row);
}

/// Takes the first row out of the bucket of `col`, if there is one.
pub fn pop_row_bucket(
    bucket_heads: &mut Vec<usize>,
    next_in_bucket: &mut Vec<usize>,
    col: usize,
) -> (r: Option<usize>)
    requires
        col < old(bucket_heads)@.len(),
        old(bucket_heads)@[col as int] == NO_BUCKET_ROW || old(bucket_heads)@[col as int] < old(next_in_bucket)@.len(),
    ensures
        old(bucket_heads)@[col as int] == NO_BUCKET_ROW ==> r is None && final(bucket_heads)@
            == old(bucket_heads)@ && final(next_in_bucket)@ == old(next_in_bucket)@,
        old(bucket_heads)@[col as int] != NO_BUCKET_ROW ==> {
            let head = old(bucket_heads)@[col as int];
            &&& r == Some(head)
            &&& final(bucket_heads)@ == old(bucket_heads)@.update(
                col as int,
                old(next_in_bucket)@[head as int],
            )
            &&& final(next_in_bucket)@ == old(next_in_bucket)@.update(head as int, NO_BUCKET_ROW)
        },
{
    let row = bucket_heads[col];
    if row == NO_BUCKET_ROW {
        return None;
    }
    let following = next_in_bucket[row];
    bucket_heads.set(col, following);
    next_in_bucket.set(row, NO_BUCKET_ROW);
    Some(row)
}

/// How light a candidate pivot row is: shorter first, then a leading one first; with
/// `min_suffix_len` one, a row of one entry is as light as can be whatever its value.
pub open spec fn bucket_rank(row: Seq<(u16, Octet)>, min_suffix_len: nat) -> int {
    2 * row.len() + if row.len() == 1 && min_suffix_len == 1 {
        0int
    } else if row[0].1@ == 1 {
        0int
    } else {
        1int
    }
}

/// `l[k]` is the first row of `l` whose rank is the smallest.
pub open spec fn is_first_lightest(
    rows: Seq<Vec<(u16, Octet)>>,
    l: Seq<usize>,
    k: int,
    min_suffix_len: nat,
) -> bool {
    &&& 0 <= k < l.len()
    &&& forall|i: int|
        0 <= i < l.len() ==> bucket_rank(rows[l[k] as int]@, min_suffix_len) <= bucket_rank(
            rows[#[trigger] l[i] as int]@,
            min_suffix_len,
        )
    &&& forall|i: int|
        0 <= i < k ==> bucket_rank(rows[l[k] as int]@, min_suffix_len) < bucket_rank(
            rows[#[trigger] l[i] as int]@,
            min_suffix_len,
        )
}

/// The rows of the bucket of `col` are rows of `rows` with at least `min_suffix_len` entries.
pub open spec fn bucket_rows_usable(
    rows: Seq<Vec<(u16, Octet)>>,
    next: Seq<usize>,
    head: usize,
    min_suffix_len: nat,
) -> bool {
    &&& has_bucket(next, head)
    &&& forall|i: int|
        0 <= i < bucket_rows(next, head).len() ==> #[trigger] bucket_rows(next, head)[i]
            < rows.len() && rows[bucket_rows(next, head)[i] as int]@.len() >= min_suffix_len
}

/// What taking the row at position `k` out of the bucket of `col` does to the links.
pub open spec fn unlinked(
    heads: Seq<usize>,
    next: Seq<usize>,
    col: int,
    l: Seq<usize>,
    k: int,
    heads2: Seq<usize>,
    next2: Seq<usize>,
) -> bool {
    &&& heads2 == (if k == 0 {
        heads.update(col, next[l[k] as int])
    } else {
        heads
    })
    &&& next2 == (if k == 0 {
        next
    } else {
        next.update(l[k - 1] as int, next[l[k] as int])
    }).update(l[k] as int, NO_BUCKET_ROW)
    &&& is_bucket(next2, heads2[col], l.remove(k))
}

/// Takes the lightest row (by `bucket_rank`) out of the bucket of `col`, returning it with
/// its leading coefficient; the scan stops at the first row that cannot be beaten.
pub fn pop_lightest_coefficient_row_bucket_with_min_suffix<const MIN_SUFFIX_LEN: usize>(
    rows: &Vec<CoefficientRow>,
    bucket_heads: &mut Vec<usize>,
    next_in_bucket: &mut Vec<usize>,
    col: usize,
) -> (r: Option<(usize, Octet)>)
    requires
        1 <= MIN_SUFFIX_LEN,
        col < old(bucket_heads)@.len(),
        bucket_rows_usable(
            rows@,
            old(next_in_bucket)@,
            old(bucket_heads)@[col as int],
            MIN_SUFFIX_LEN as nat,
        ),
    ensures
        ({
            let l = bucket_rows(old(next_in_bucket)@, old(bucket_heads)@[col as int]);
            match r {
                None => l.len() == 0 && final(bucket_heads)@ == old(bucket_heads)@ && final(next_in_bucket)@ == old(next_in_bucket)@,
                Some(p) => exists|k: int|
                    #![trigger l[k]]
                    is_first_lightest(rows@, l, k, MIN_SUFFIX_LEN as nat) && l[k] == p.0 && p.1
                        == rows@[p.0 as int]@[0].1 && unlinked(
                        old(bucket_heads)@,
                        old(next_in_bucket)@,
                        col as int,
                        l,
                        k,
                        final(bucket_heads)@,
                        final(next_in_bucket)@,
                    ),
            }
        }),
{
    let ghost heads0 = bucket_heads@;
    let ghost next0 = next_in_bucket@;
    let ghost l = bucket_rows(next0, heads0[col as int]);
    let ghost min = MIN_SUFFIX_LEN as nat;
    assert(is_bucket(next0, heads0[col as int], l));
    let head = bucket_heads[col];
    if head == NO_BUCKET_ROW {
        proof {
            if l.len() > 0 {
                assert(l[0] != NO_BUCKET_ROW);
            }
        }
        return None;
    }
    assert(l.len() > 0 && l[0] == head);
    assert(rows@[head as int]@.len() >= MIN_SUFFIX_LEN);
    if next_in_bucket[head] == NO_BUCKET_ROW {
        proof {
            if l.len() > 1 {
                assert(l[1] != NO_BUCKET_ROW);
            }
        }
        bucket_heads.set(col, NO_BUCKET_ROW);
        proof {
            assert(next0.update(head as int, NO_BUCKET_ROW) =~= next0);
            lemma_unlink_bucket(next0, head, l, 0);
            assert(is_first_lightest(rows@, l, 0, min));
        }
        return Some((head, rows[head][0].1));
    }
    let head_value = rows[head][0].1;
    let head_len = rows[head].len();
    let one = Octet::one();
    proof {
        if head_value@ == 1 {
            lemma_octet_ext(head_value, one);
        }
    }
    if head_len == MIN_SUFFIX_LEN && (MIN_SUFFIX_LEN == 1 || head_value == one) {
        let following = next_in_bucket[head];
        bucket_heads.set(col, following);
        next_in_bucket.set(head, NO_BUCKET_ROW);
        proof {
            lemma_unlink_bucket(next0, head, l, 0);
            assert forall|i: int| 0 <= i < l.len() implies bucket_rank(rows@[l[0] as int]@, min)
                <= bucket_rank(rows@[#[trigger] l[i] as int]@, min) by {
                assert(rows@[l[i] as int]@.len() >= MIN_SUFFIX_LEN);
            }
        }
        return Some((head, head_value));
    }
    let mut best = head;
    let mut best_previous = NO_BUCKET_ROW;
    let mut best_suffix_len = head_len;
    let mut best_value = head_value;
    let mut previous = head;
    let mut current = next_in_bucket[head];
    let ghost mut i: int = 1;
    let ghost mut bk: int = 0;
    while current != NO_BUCKET_ROW
        invariant_except_break
            0 <= bk < i,
            !(best_suffix_len == MIN_SUFFIX_LEN && (MIN_SUFFIX_LEN == 1 || best_value@ == 1)),
            forall|j: int|
                0 <= j < i ==> bucket_rank(rows@[best as int]@, min) <= bucket_rank(
                    rows@[#[trigger] l[j] as int]@,
                    min,
                ),
        invariant
            bucket_heads@ == heads0,
            next_in_bucket@ == next0,
            is_bucket(next0, heads0[col as int], l),
            col < heads0.len(),
            1 <= MIN_SUFFIX_LEN,
            min == MIN_SUFFIX_LEN as nat,
            one@ == 1,
            forall|j: int|
                0 <= j < l.len() ==> #[trigger] l[j] < rows@.len() && rows@[l[j] as int]@.len()
                    >= MIN_SUFFIX_LEN,
            1 <= i <= l.len(),
            current == (if i < l.len() {
                l[i]
            } else {
                NO_BUCKET_ROW
            }),
            previous == l[i - 1],
            best == l[bk],
            best_previous == (if bk == 0 {
                NO_BUCKET_ROW
            } else {
                l[bk - 1]
            }),
            best_suffix_len == rows@[best as int]@.len(),
            best_value == rows@[best as int]@[0].1,
            forall|j: int|
                0 <= j < bk ==> bucket_rank(rows@[best as int]@, min) < bucket_rank(
                    rows@[#[trigger] l[j] as int]@,
                    min,
                ),
        ensures
            0 <= bk < l.len(),
            best == l[bk],
            best_previous == (if bk == 0 {
                NO_BUCKET_ROW
            } else {
                l[bk - 1]
            }),
            best_value == rows@[best as int]@[0].1,
            is_first_lightest(rows@, l, bk, min),
        decreases l.len() - i,
    {
        let row = current;
        assert(row == l[i]);
        let value = rows[row][0].1;
        let suffix_len = rows[row].len();
        proof {
            if value@ == 1 {
                lemma_octet_ext(value, one);
            }
            if best_value@ == 1 {
                lemma_octet_ext(best_value, one);
            }
        }
        if suffix_len < best_suffix_len || (suffix_len == best_suffix_len && value == one
            && best_value != one) {
            best = row;
            best_previous = previous;
            best_suffix_len = suffix_len;
            best_value = value;
            proof {
                bk = i;
            }
            if suffix_len == MIN_SUFFIX_LEN && (MIN_SUFFIX_LEN == 1 || best_value == one) {
                proof {
                    assert forall|j: int| 0 <= j < l.len() implies bucket_rank(
                        rows@[l[bk] as int]@,
                        min,
                    ) <= bucket_rank(rows@[#[trigger] l[j] as int]@, min) by {
                        assert(rows@[l[j] as int]@.len() >= MIN_SUFFIX_LEN);
                    }
                }
                break;
            }
        }
        previous = row;
        current = next_in_bucket[row];
        proof {
            i = i + 1;
        }
    }
    if best_previous == NO_BUCKET_ROW {
        let following = next_in_bucket[best];
        bucket_heads.set(col, following);
    } else {
        let following = next_in_bucket[best];
        next_in_bucket.set(best_previous, following);
    }
    next_in_bucket.set(best, NO_BUCKET_ROW);
    proof {
        if bk > 0 {
            assert(l[bk - 1] != NO_BUCKET_ROW);
        }
        lemma_unlink_bucket(next0, heads0[col as int], l, bk);
    }
    Some((best, best_value))
}

/// Takes the lightest row out of the bucket of `col`.
pub fn pop_lightest_coefficient_row_bucket(
    rows: &Vec<CoefficientRow>,
    bucket_heads: &mut Vec<usize>,
    next_in_bucket: &mut Vec<usize>,
    col: usize,
) -> (r: Option<(usize, Octet)>)
    requires
        col < old(bucket_heads)@.len(),
        bucket_rows_usable(rows@, old(next_in_bucket)@, old(bucket_heads)@[col as int], 1),
    ensures
        ({
            let l = bucket_rows(old(next_in_bucket)@, old(bucket_heads)@[col as int]);
            match r {
                None => l.len() == 0 && final(bucket_heads)@ == old(bucket_heads)@ && final(next_in_bucket)@ == old(next_in_bucket)@,
                Some(p) => exists|k: int|
                    #![trigger l[k]]
                    is_first_lightest(rows@, l, k, 1) && l[k] == p.0 && p.1 == rows@[p.0 as int]@[0].1
                        && unlinked(
                        old(bucket_heads)@,
                        old(next_in_bucket)@,
                        col as int,
                        l,
                        k,
                        final(bucket_heads)@,
                        final(next_in_bucket)@,
                    ),
            }
        }),
{
    pop_lightest_coefficient_row_bucket_with_min_suffix::<1>(rows, bucket_heads, next_in_bucket, col)
}

/// Takes the lightest row out of a bucket whose rows all have at least two entries.
pub fn pop_lightest_non_singleton_coefficient_row_bucket(
    rows: &Vec<CoefficientRow>,
    bucket_heads: &mut Vec<usize>,
    next_in_bucket: &mut Vec<usize>,
    col: usize,
) -> (r: Option<(usize, Octet)>)
    requires
        col < old(bucket_heads)@.len(),
        bucket_rows_usable(rows@, old(next_in_bucket)@, old(bucket_heads)@[col as int], 2),
    ensures
        ({
            let l = bucket_rows(old(next_in_bucket)@, old(bucket_heads)@[col as int]);
            match r {
                None => l.len() == 0 && final(bucket_heads)@ == old(bucket_heads)@ && final(next_in_bucket)@ == old(next_in_bucket)@,
                Some(p) => exists|k: int|
                    #![trigger l[k]]
                    is_first_lightest(rows@, l, k, 2) && l[k] == p.0 && p.1 == rows@[p.0 as int]@[0].1
                        && unlinked(
                        old(bucket_heads)@,
                        old(next_in_bucket)@,
                        col as int,
                        l,
                        k,
                        final(bucket_heads)@,
                        final(next_in_bucket)@,
                    ),
            }
        }),
{
    pop_lightest_coefficient_row_bucket_with_min_suffix::<2>(rows, bucket_heads, next_in_bucket, col)
}


/// A bit mask with one bit per small-weight bucket of a column.
pub trait SmallWeightBucketMask: Copy + Sized {
    /// Whether bucket `b` is marked.
    spec fn spec_bit(&self, b: int) -> bool;

    /// How many buckets the mask can mark.
    spec fn spec_bits() -> nat;

    fn bits() -> (r: usize)
        ensures
            r == Self::spec_bits(),
    ;

    /// The mask with no bucket marked.
    fn zero() -> (r: Self)
        ensures
            forall|b: int| !#[trigger] r.spec_bit(b),
    ;

    /// The first marked bucket, or `bits()` when none is.
    fn trailing_zeros(self) -> (r: usize)
        ensures
            r <= Self::spec_bits(),
            forall|b: int| 0 <= b < r ==> !#[trigger] self.spec_bit(b),
            r < Self::spec_bits() ==> self.spec_bit(r as int),
            forall|b: int| #[trigger] self.spec_bit(b) ==> 0 <= b < Self::spec_bits(),
    ;

    fn set_bit(&mut self, bucket: usize)
        requires
            bucket < Self::spec_bits(),
        ensures
            forall|b: int| #[trigger] final(self).spec_bit(b) == (b == bucket || old(self).spec_bit(b)),
    ;

    fn clear_bit(&mut self, bucket: usize)
        requires
            bucket < Self::spec_bits(),
        ensures
            forall|b: int| #[trigger] final(self).spec_bit(b) == (b != bucket && old(self).spec_bit(b)),
    ;
}

proof fn lemma_u16_mask_bits(x: u16, k: u16, j: u16)
    by (bit_vector)
    requires
        k < 16,
        j < 16,
    ensures
        ((x | (1u16 << k)) >> j) & 1u16 == 1u16 <==> (j == k || (x >> j) & 1u16 == 1u16),
        ((x & !(1u16 << k)) >> j) & 1u16 == 1u16 <==> (j != k && (x >> j) & 1u16 == 1u16),
        (0u16 >> j) & 1u16 == 0u16,
{
}

proof fn lemma_u32_mask_bits(x: u32, k: u32, j: u32)
    by (bit_vector)
    requires
        k < 32,
        j < 32,
    ensures
        ((x | (1u32 << k)) >> j) & 1u32 == 1u32 <==> (j == k || (x >> j) & 1u32 == 1u32),
        ((x & !(1u32 << k)) >> j) & 1u32 == 1u32 <==> (j != k && (x >> j) & 1u32 == 1u32),
        (0u32 >> j) & 1u32 == 0u32,
{
}

impl SmallWeightBucketMask for u16 {
    open spec fn spec_bit(&self, b: int) -> bool {
        0 <= b < 16 && (*self >> (b as u16)) & 1u16 == 1u16
    }

    open spec fn spec_bits() -> nat {
        16
    }

    fn bits() -> (r: usize) {
        16
    }

    fn zero() -> (r: u16) {
        proof {
            assert forall|b: int| !#[trigger] 0u16.spec_bit(b) by {
                if 0 <= b < 16 {
                    lemma_u16_mask_bits(0, 0, b as u16);
                }
            }
        }
        0
    }

    fn trailing_zeros(self) -> (r: usize) {
        let t = u16::trailing_zeros(self);
        proof {
            axiom_u16_trailing_zeros(self);
            assert forall|b: int| 0 <= b < t implies !#[trigger] self.spec_bit(b) by {
                assert((self >> (b as u16)) & 1u16 == 0u16);
            }
        }
        t as usize
    }

    fn set_bit(&mut self, bucket: usize) {
        let ghost x = *self;
        *self = *self | (1u16 << (bucket as u16));
        proof {
            assert forall|b: int| #[trigger] self.spec_bit(b) == (b == bucket || x.spec_bit(b)) by {
                if 0 <= b < 16 {
                    lemma_u16_mask_bits(x, bucket as u16, b as u16);
                }
            }
        }
    }

    fn clear_bit(&mut self, bucket: usize) {
        let ghost x = *self;
        *self = *self & !(1u16 << (bucket as u16));
        proof {
            assert forall|b: int| #[trigger] self.spec_bit(b) == (b != bucket && x.spec_bit(b)) by {
                if 0 <= b < 16 {
                    lemma_u16_mask_bits(x, bucket as u16, b as u16);
                }
            }
        }
    }
}

impl SmallWeightBucketMask for u32 {
    open spec fn spec_bit(&self, b: int) -> bool {
        0 <= b < 32 && (*self >> (b as u32)) & 1u32 == 1u32
    }

    open spec fn spec_bits() -> nat {
        32
    }

    fn bits() -> (r: usize) {
        32
    }

    fn zero() -> (r: u32) {
        proof {
            assert forall|b: int| !#[trigger] 0u32.spec_bit(b) by {
                if 0 <= b < 32 {
                    lemma_u32_mask_bits(0, 0, b as u32);
                }
            }
        }
        0
    }

    fn trailing_zeros(self) -> (r: usize) {
        let t = u32::trailing_zeros(self);
        proof {
            axiom_u32_trailing_zeros(self);
            assert forall|b: int| 0 <= b < t implies !#[trigger] self.spec_bit(b) by {
                assert((self >> (b as u32)) & 1u32 == 0u32);
            }
        }
        t as usize
    }

    fn set_bit(&mut self, bucket: usize) {
        let ghost x = *self;
        *self = *self | (1u32 << (bucket as u32));
        proof {
            assert forall|b: int| #[trigger] self.spec_bit(b) == (b == bucket || x.spec_bit(b)) by {
                if 0 <= b < 32 {
                    lemma_u32_mask_bits(x, bucket as u32, b as u32);
                }
            }
        }
    }

    fn clear_bit(&mut self, bucket: usize) {
        let ghost x = *self;
        *self = *self & !(1u32 << (bucket as u32));
        proof {
            assert forall|b: int| #[trigger] self.spec_bit(b) == (b != bucket && x.spec_bit(b)) by {
                if 0 <= b < 32 {
                    lemma_u32_mask_bits(x, bucket as u32, b as u32);
                }
            }
        }
    }
}

/// The small-weight bucket of a row weight: weights one to `small_weight_max` go to buckets
/// zero to `small_weight_max - 1`, other weights to none.
pub fn small_weight_binary_bucket_index(weight: u32, small_weight_max: usize) -> (r: Option<usize>)
    ensures
        r == (if 1 <= weight <= small_weight_max {
            Some((weight - 1) as usize)
        } else {
            None::<usize>
        }),
{
    let weight = weight as usize;
    if 1 <= weight && weight <= small_weight_max {
        Some(weight - 1)
    } else {
        None
    }
}

/// Rows of small weight, kept per column in one bucket per weight, with a mask per column
/// of the buckets that are not empty.
pub struct SmallWeightBinaryBuckets<Mask: SmallWeightBucketMask> {
    heads: Vec<usize>,
    nonempty_masks: Vec<Mask>,
    width: usize,
    small_weight_max: usize,
}

impl<Mask: SmallWeightBucketMask> SmallWeightBinaryBuckets<Mask> {
    pub closed spec fn spec_width(&self) -> nat {
        self.width as nat
    }

    pub closed spec fn spec_small_weight_max(&self) -> nat {
        self.small_weight_max as nat
    }

    /// The first row of the bucket for weight `b + 1` of column `col`.
    pub closed spec fn spec_head(&self, b: int, col: int) -> usize {
        self.heads@[b * self.width + col]
    }

    /// Whether the mask of column `col` marks bucket `b`.
    pub closed spec fn spec_marked(&self, col: int, b: int) -> bool {
        self.nonempty_masks@[col].spec_bit(b)
    }

    /// A bucket is marked exactly when it is not empty.
    pub closed spec fn wf(&self) -> bool {
        &&& self.small_weight_max <= Mask::spec_bits()
        &&& self.width * self.small_weight_max <= usize::MAX
        &&& self.heads@.len() == self.width * self.small_weight_max
        &&& self.nonempty_masks@.len() == self.width
        &&& forall|col: int, b: int|
            0 <= col < self.width ==> (#[trigger] self.nonempty_masks@[col].spec_bit(b) <==> (0
                <= b < self.small_weight_max && self.heads@[b * self.width + col] != NO_BUCKET_ROW))
    }

    /// Empty buckets for `width` columns and weights one to `small_weight_max`.
    pub fn new(width: usize, small_weight_max: usize) -> (r: SmallWeightBinaryBuckets<Mask>)
        requires
            small_weight_max <= Mask::spec_bits(),
            width * small_weight_max <= usize::MAX,
        ensures
            r.wf(),
            r.spec_width() == width,
            r.spec_small_weight_max() == small_weight_max,
            forall|b: int, col: int|
                0 <= b < small_weight_max && 0 <= col < width ==> #[trigger] r.spec_head(b, col)
                    == NO_BUCKET_ROW,
    {
        let heads = vec![NO_BUCKET_ROW; width * small_weight_max];
        let mut nonempty_masks: Vec<Mask> = Vec::new();
        let mut i: usize = 0;
        while i < width
            invariant
                i <= width,
                nonempty_masks@.len() == i,
                forall|c: int, b: int| 0 <= c < i ==> !#[trigger] nonempty_masks@[c].spec_bit(b),
            decreases width - i,
        {
            nonempty_masks.push(Mask::zero());
            i += 1;
        }
        let r = SmallWeightBinaryBuckets { heads, nonempty_masks, width, small_weight_max };
        proof {
            assert forall|b: int, col: int|
                0 <= b < small_weight_max && 0 <= col < width implies #[trigger] r.spec_head(b, col)
                == NO_BUCKET_ROW by {
                lemma_bucket_index(b, col, width as int, small_weight_max as int);
            }
            assert forall|col: int, b: int|
                0 <= col < width implies (#[trigger] r.nonempty_masks@[col].spec_bit(b) <==> (0 <= b
                < small_weight_max && r.heads@[b * width + col] != NO_BUCKET_ROW)) by {
                if 0 <= b < small_weight_max {
                    lemma_bucket_index(b, col, width as int, small_weight_max as int);
                }
            }
        }
        r
    }

    pub fn small_weight_max(&self) -> (r: usize)
        ensures
            r == self.spec_small_weight_max(),
    {
        self.small_weight_max
    }

    /// The mask of non-empty buckets of column `col`.
    pub fn nonempty_mask(&self, col: usize) -> (r: Mask)
        requires
            self.wf(),
            col < self.spec_width(),
        ensures
            forall|b: int| #[trigger] r.spec_bit(b) == self.spec_marked(col as int, b),
    {
        self.nonempty_masks[col]
    }

    fn head_index(&self, bucket: usize, col: usize) -> (r: usize)
        requires
            self.wf(),
            bucket < self.small_weight_max,
            col < self.width,
        ensures
            r == bucket * self.width + col,
            r < self.heads@.len(),
    {
        proof {
            lemma_bucket_index(bucket as int, col as int, self.width as int, self.small_weight_max as int);
        }
        bucket * self.width + col
    }

    /// Puts `row` in front of the bucket for its weight, when the weight is small; returns
    /// whether it did.
    pub fn push(&mut self, next_in_bucket: &mut Vec<usize>, col: usize, row: usize, weight: u32) -> (r: bool)
        requires
            old(self).wf(),
            col < old(self).spec_width(),
            row < old(next_in_bucket)@.len(),
        ensures
            final(self).wf(),
            final(self).spec_width() == old(self).spec_width(),
            final(self).spec_small_weight_max() == old(self).spec_small_weight_max(),
            r == (1 <= weight <= old(self).spec_small_weight_max()),
            !r ==> *final(self) == *old(self) && final(next_in_bucket)@ == old(next_in_bucket)@,
            r ==> {
                let b = weight - 1;
                &&& final(next_in_bucket)@ == old(next_in_bucket)@.update(
                    row as int,
                    old(self).spec_head(b, col as int),
                )
                &&& forall|b2: int, c2: int|
                    0 <= b2 < old(self).spec_small_weight_max() && 0 <= c2 < old(self).spec_width()
                        ==> #[trigger] final(self).spec_head(b2, c2) == if b2 == b && c2 == col {
                        row
                    } else {
                        old(self).spec_head(b2, c2)
                    }
            },
    {
        let bucket = match small_weight_binary_bucket_index(weight, self.small_weight_max) {
            Some(bucket) => bucket,
            None => {
                return false;
            },
        };
        let ghost old_self = *self;
        let rows_len = next_in_bucket.len();
        assert(row < rows_len);
        let head_index = self.head_index(bucket, col);
        let head = self.heads[head_index];
        next_in_bucket.set(row, head);
        self.heads.set(head_index, row);
        let mut mask = self.nonempty_masks[col];
        mask.set_bit(bucket);
        self.nonempty_masks.set(col, mask);
        proof {
            assert(row != NO_BUCKET_ROW);
            assert forall|b2: int, c2: int|
                0 <= b2 < old_self.small_weight_max && 0 <= c2 < old_self.width implies #[trigger] self.spec_head(b2, c2)
                    == if b2 == bucket && c2 == col {
                    row
                } else {
                    old_self.spec_head(b2, c2)
                } by {
                lemma_bucket_index_distinct(b2, c2, bucket as int, col as int, self.width as int, self.small_weight_max as int);
            }
            assert forall|c2: int, b2: int|
                0 <= c2 < self.width implies (#[trigger] self.nonempty_masks@[c2].spec_bit(b2) <==> (0
                <= b2 < self.small_weight_max && self.heads@[b2 * self.width + c2] != NO_BUCKET_ROW)) by {
                if 0 <= b2 < self.small_weight_max {
                    lemma_bucket_index_distinct(b2, c2, bucket as int, col as int, self.width as int, self.small_weight_max as int);
                }
                assert(old_self.nonempty_masks@[c2].spec_bit(b2) <==> (0 <= b2 < old_self.small_weight_max
                    && old_self.heads@[b2 * old_self.width + c2] != NO_BUCKET_ROW));
            }
        }
        true
    }

    /// Takes the first row out of bucket `bucket` of column `col`.
    fn pop_bucket(&mut self, next_in_bucket: &mut Vec<usize>, col: usize, bucket: usize) -> (r: Option<usize>)
        requires
            old(self).wf(),
            col < old(self).spec_width(),
            bucket < old(self).spec_small_weight_max(),
            old(self).spec_head(bucket as int, col as int) == NO_BUCKET_ROW || old(self).spec_head(bucket as int, col as int)
                < old(next_in_bucket)@.len(),
        ensures
            final(self).wf(),
            final(self).spec_width() == old(self).spec_width(),
            final(self).spec_small_weight_max() == old(self).spec_small_weight_max(),
            popped(*old(self), old(next_in_bucket)@, col as int, bucket as int, r, *final(self), final(next_in_bucket)@),
    {
        let ghost old_self = *self;
        let head_index = self.head_index(bucket, col);
        let row = self.heads[head_index];
        if row == NO_BUCKET_ROW {
            return None;
        }
        let following = next_in_bucket[row];
        self.heads.set(head_index, following);
        if following == NO_BUCKET_ROW {
            let mut mask = self.nonempty_masks[col];
            mask.clear_bit(bucket);
            self.nonempty_masks.set(col, mask);
        }
        next_in_bucket.set(row, NO_BUCKET_ROW);
        proof {
            assert forall|b2: int, c2: int|
                0 <= b2 < old_self.small_weight_max && 0 <= c2 < old_self.width implies #[trigger] self.spec_head(b2, c2)
                    == if b2 == bucket && c2 == col {
                    following
                } else {
                    old_self.spec_head(b2, c2)
                } by {
                lemma_bucket_index_distinct(b2, c2, bucket as int, col as int, self.width as int, self.small_weight_max as int);
            }
            assert forall|c2: int, b2: int|
                0 <= c2 < self.width implies (#[trigger] self.nonempty_masks@[c2].spec_bit(b2) <==> (0
                <= b2 < self.small_weight_max && self.heads@[b2 * self.width + c2] != NO_BUCKET_ROW)) by {
                if 0 <= b2 < self.small_weight_max {
                    lemma_bucket_index_distinct(b2, c2, bucket as int, col as int, self.width as int, self.small_weight_max as int);
                }
                assert(old_self.nonempty_masks@[c2].spec_bit(b2) <==> (0 <= b2 < old_self.small_weight_max
                    && old_self.heads@[b2 * old_self.width + c2] != NO_BUCKET_ROW));
            }
        }
        Some(row)
    }

    /// Takes the first row of the lightest non-empty bucket of column `col`, if any.
    pub fn pop_lightest(&mut self, next_in_bucket: &mut Vec<usize>, col: usize, row_weights: &Vec<u32>) -> (r: Option<usize>)
        requires
            old(self).wf(),
            col < old(self).spec_width(),
            forall|b: int| 0 <= b < old(self).spec_small_weight_max() ==> #[trigger] old(self).spec_head(b, col as int)
                == NO_BUCKET_ROW || old(self).spec_head(b, col as int) < old(next_in_bucket)@.len(),
        ensures
            final(self).wf(),
            final(self).spec_width() == old(self).spec_width(),
            final(self).spec_small_weight_max() == old(self).spec_small_weight_max(),
            popped_lightest(*old(self), old(next_in_bucket)@, col as int, r, *final(self), final(next_in_bucket)@),
    {
        self.pop_any(next_in_bucket, col)
    }

    /// Takes the first row of the lightest non-empty bucket of column `col`, if any.
    pub fn pop_any(&mut self, next_in_bucket: &mut Vec<usize>, col: usize) -> (r: Option<usize>)
        requires
            old(self).wf(),
            col < old(self).spec_width(),
            forall|b: int| 0 <= b < old(self).spec_small_weight_max() ==> #[trigger] old(self).spec_head(b, col as int)
                == NO_BUCKET_ROW || old(self).spec_head(b, col as int) < old(next_in_bucket)@.len(),
        ensures
            final(self).wf(),
            final(self).spec_width() == old(self).spec_width(),
            final(self).spec_small_weight_max() == old(self).spec_small_weight_max(),
            popped_lightest(*old(self), old(next_in_bucket)@, col as int, r, *final(self), final(next_in_bucket)@),
    {
        let bucket = self.nonempty_masks[col].trailing_zeros();
        if bucket >= self.small_weight_max {
            proof {
                assert forall|b: int| 0 <= b < self.small_weight_max implies #[trigger] self.spec_head(b, col as int) == NO_BUCKET_ROW by {
                    assert(!self.nonempty_masks@[col as int].spec_bit(b));
                }
            }
            return None;
        }
        proof {
            assert(self.nonempty_masks@[col as int].spec_bit(bucket as int));
            assert forall|b: int| 0 <= b < bucket implies #[trigger] self.spec_head(b, col as int) == NO_BUCKET_ROW by {
                assert(!self.nonempty_masks@[col as int].spec_bit(b));
            }
        }
        self.pop_bucket(next_in_bucket, col, bucket)
    }
}

/// The effect of taking the first row out of bucket `b` of column `col`.
pub open spec fn popped<Mask: SmallWeightBucketMask>(
    before: SmallWeightBinaryBuckets<Mask>,
    next: Seq<usize>,
    col: int,
    b: int,
    r: Option<usize>,
    after: SmallWeightBinaryBuckets<Mask>,
    next2: Seq<usize>,
) -> bool {
    let head = before.spec_head(b, col);
    &&& r == (if head == NO_BUCKET_ROW {
        None::<usize>
    } else {
        Some(head)
    })
    &&& head != NO_BUCKET_ROW ==> next2 == next.update(head as int, NO_BUCKET_ROW)
    &&& head == NO_BUCKET_ROW ==> next2 == next
    &&& forall|b2: int, c2: int|
        0 <= b2 < before.spec_small_weight_max() && 0 <= c2 < before.spec_width()
            ==> #[trigger] after.spec_head(b2, c2) == if b2 == b && c2 == col && head != NO_BUCKET_ROW {
            next[head as int]
        } else {
            before.spec_head(b2, c2)
        }
}

/// The effect of taking the first row of the lightest non-empty bucket of column `col`.
pub open spec fn popped_lightest<Mask: SmallWeightBucketMask>(
    before: SmallWeightBinaryBuckets<Mask>,
    next: Seq<usize>,
    col: int,
    r: Option<usize>,
    after: SmallWeightBinaryBuckets<Mask>,
    next2: Seq<usize>,
) -> bool {
    ||| (forall|b: int| 0 <= b < before.spec_small_weight_max() ==> #[trigger] before.spec_head(b, col)
        == NO_BUCKET_ROW) && r is None && after == before && next2 == next
    ||| exists|b: int|
        0 <= b < before.spec_small_weight_max() && before.spec_head(b, col) != NO_BUCKET_ROW && (forall|
            b2: int,
        | 0 <= b2 < b ==> #[trigger] before.spec_head(b2, col) == NO_BUCKET_ROW) && #[trigger] popped(
            before,
            next,
            col,
            b,
            r,
            after,
            next2,
        )
}

proof fn lemma_bucket_index(b: int, col: int, width: int, max: int)
    by (nonlinear_arith)
    requires
        0 <= b < max,
        0 <= col < width,
    ensures
        0 <= b * width + col < width * max,
{
}

proof fn lemma_bucket_index_distinct(b: int, col: int, b2: int, col2: int, width: int, max: int)
    by (nonlinear_arith)
    requires
        0 <= b < max,
        0 <= col < width,
        0 <= b2 < max,
        0 <= col2 < width,
    ensures
        (b * width + col == b2 * width + col2) <==> (b == b2 && col == col2),
        0 <= b * width + col < width * max,
{
}


/// `l[k]` is the first row of `l` of least weight.
pub open spec fn is_first_lowest_weight(weights: Seq<u32>, l: Seq<usize>, k: int) -> bool {
    &&& 0 <= k < l.len()
    &&& forall|i: int| 0 <= i < l.len() ==> weights[l[k] as int] <= weights[#[trigger] l[i] as int]
    &&& forall|i: int| 0 <= i < k ==> weights[l[k] as int] < weights[#[trigger] l[i] as int]
}

/// Takes the lightest row of column `col`: the first row of the lightest non-empty small
/// bucket, or else the first row of least weight of the general bucket, whose rows all
/// weigh more than the small buckets hold.
pub fn pop_lightest_weighted_binary_row_bucket<Mask: SmallWeightBucketMask>(
    row_weights: &Vec<u32>,
    bucket_heads: &mut Vec<usize>,
    small_weight_buckets: &mut SmallWeightBinaryBuckets<Mask>,
    next_in_bucket: &mut Vec<usize>,
    col: usize,
) -> (r: Option<usize>)
    requires
        old(small_weight_buckets).wf(),
        col < old(small_weight_buckets).spec_width(),
        col < old(bucket_heads)@.len(),
        old(small_weight_buckets).spec_small_weight_max() < u32::MAX,
        forall|b: int|
            0 <= b < old(small_weight_buckets).spec_small_weight_max() ==> #[trigger] old(
                small_weight_buckets,
            ).spec_head(b, col as int) == NO_BUCKET_ROW || old(small_weight_buckets).spec_head(
                b,
                col as int,
            ) < old(next_in_bucket)@.len(),
        has_bucket(old(next_in_bucket)@, old(bucket_heads)@[col as int]),
        forall|i: int|
            0 <= i < bucket_rows(old(next_in_bucket)@, old(bucket_heads)@[col as int]).len()
                ==> #[trigger] bucket_rows(old(next_in_bucket)@, old(bucket_heads)@[col as int])[i]
                < row_weights@.len() && row_weights@[bucket_rows(
                old(next_in_bucket)@,
                old(bucket_heads)@[col as int],
            )[i] as int] > old(small_weight_buckets).spec_small_weight_max(),
    ensures
        final(small_weight_buckets).wf(),
        final(small_weight_buckets).spec_width() == old(small_weight_buckets).spec_width(),
        final(small_weight_buckets).spec_small_weight_max() == old(
            small_weight_buckets,
        ).spec_small_weight_max(),
        (exists|b: int|
            0 <= b < old(small_weight_buckets).spec_small_weight_max() && #[trigger] old(
                small_weight_buckets,
            ).spec_head(b, col as int) != NO_BUCKET_ROW) ==> popped_lightest(
            *old(small_weight_buckets),
            old(next_in_bucket)@,
            col as int,
            r,
            *final(small_weight_buckets),
            final(next_in_bucket)@,
        ) && final(bucket_heads)@ == old(bucket_heads)@,
        (forall|b: int|
            0 <= b < old(small_weight_buckets).spec_small_weight_max() ==> #[trigger] old(
                small_weight_buckets,
            ).spec_head(b, col as int) == NO_BUCKET_ROW) ==> *final(small_weight_buckets) == *old(
            small_weight_buckets,
        ) && ({
            let l = bucket_rows(old(next_in_bucket)@, old(bucket_heads)@[col as int]);
            match r {
                None => l.len() == 0 && final(bucket_heads)@ == old(bucket_heads)@
                    && final(next_in_bucket)@ == old(next_in_bucket)@,
                Some(row) => exists|k: int|
                    #![trigger l[k]]
                    is_first_lowest_weight(row_weights@, l, k) && l[k] == row && unlinked(
                        old(bucket_heads)@,
                        old(next_in_bucket)@,
                        col as int,
                        l,
                        k,
                        final(bucket_heads)@,
                        final(next_in_bucket)@,
                    ),
            }
        }),
{
    let ghost small0 = *small_weight_buckets;
    let ghost heads0 = bucket_heads@;
    let ghost next0 = next_in_bucket@;
    let ghost l = bucket_rows(next0, heads0[col as int]);
    if let Some(row) = small_weight_buckets.pop_lightest(next_in_bucket, col, row_weights) {
        return Some(row);
    }
    assert(is_bucket(next0, heads0[col as int], l));
    let head = bucket_heads[col];
    if head == NO_BUCKET_ROW {
        proof {
            if l.len() > 0 {
                assert(l[0] != NO_BUCKET_ROW);
            }
        }
        return None;
    }
    assert(l.len() > 0 && l[0] == head);
    let small_weight_max = small_weight_buckets.small_weight_max() as u32;
    if next_in_bucket[head] == NO_BUCKET_ROW {
        proof {
            if l.len() > 1 {
                assert(l[1] != NO_BUCKET_ROW);
            }
        }
        bucket_heads.set(col, NO_BUCKET_ROW);
        proof {
            assert(next0.update(head as int, NO_BUCKET_ROW) =~= next0);
            lemma_unlink_bucket(next0, head, l, 0);
            assert(is_first_lowest_weight(row_weights@, l, 0));
        }
        return Some(head);
    }
    let min_general_weight = small_weight_max + 1;
    if row_weights[head] == min_general_weight {
        let following = next_in_bucket[head];
        bucket_heads.set(col, following);
        next_in_bucket.set(head, NO_BUCKET_ROW);
        proof {
            lemma_unlink_bucket(next0, head, l, 0);
            assert forall|i: int| 0 <= i < l.len() implies row_weights@[l[0] as int]
                <= row_weights@[#[trigger] l[i] as int] by {}
        }
        return Some(head);
    }
    let mut best = head;
    let mut best_previous = NO_BUCKET_ROW;
    let mut best_weight = row_weights[head];
    let mut previous = head;
    let mut current = next_in_bucket[head];
    let ghost mut i: int = 1;
    let ghost mut bk: int = 0;
    while current != NO_BUCKET_ROW
        invariant_except_break
            0 <= bk < i,
            best_weight != min_general_weight,
            forall|j: int|
                0 <= j < i ==> best_weight <= row_weights@[#[trigger] l[j] as int],
        invariant
            bucket_heads@ == heads0,
            next_in_bucket@ == next0,
            is_bucket(next0, heads0[col as int], l),
            min_general_weight == small_weight_max + 1,
            forall|j: int|
                0 <= j < l.len() ==> #[trigger] l[j] < row_weights@.len() && row_weights@[l[j]
                    as int] > small_weight_max,
            1 <= i <= l.len(),
            current == (if i < l.len() {
                l[i]
            } else {
                NO_BUCKET_ROW
            }),
            previous == l[i - 1],
            best == l[bk],
            best_previous == (if bk == 0 {
                NO_BUCKET_ROW
            } else {
                l[bk - 1]
            }),
            best_weight == row_weights@[best as int],
            forall|j: int| 0 <= j < bk ==> best_weight < row_weights@[#[trigger] l[j] as int],
        ensures
            0 <= bk < l.len(),
            best == l[bk],
            best_previous == (if bk == 0 {
                NO_BUCKET_ROW
            } else {
                l[bk - 1]
            }),
            is_first_lowest_weight(row_weights@, l, bk),
        decreases l.len() - i,
    {
        let row = current;
        assert(row == l[i]);
        let weight = row_weights[row];
        if weight < best_weight {
            best = row;
            best_previous = previous;
            best_weight = weight;
            proof {
                bk = i;
            }
            if weight == min_general_weight {
                break;
            }
        }
        previous = row;
        current = next_in_bucket[row];
        proof {
            i = i + 1;
        }
    }
    if best_previous == NO_BUCKET_ROW {
        let following = next_in_bucket[best];
        bucket_heads.set(col, following);
    } else {
        let following = next_in_bucket[best];
        next_in_bucket.set(best_previous, following);
    }
    next_in_bucket.set(best, NO_BUCKET_ROW);
    proof {
        if bk > 0 {
            assert(l[bk - 1] != NO_BUCKET_ROW);
        }
        lemma_unlink_bucket(next0, heads0[col as int], l, bk);
    }
    Some(best)
}

} // verus!

verus! {

/// The number of set columns of each row at or after `col`.
pub open spec fn suffix_weights(rows: PackedBinaryRows, col: int) -> Seq<u32> {
    Seq::new(rows.spec_height(), |r: int| rows.ones(r, col, rows.spec_width() as int) as u32)
}

/// Takes the row with the fewest set columns at or after `col` out of the bucket of `col`,
/// the first such row; the scan stops at a row with a single one, which no row beats.
pub fn pop_lightest_binary_row_bucket(
    rows: &PackedBinaryRows,
    bucket_heads: &mut Vec<usize>,
    next_in_bucket: &mut Vec<usize>,
    col: usize,
) -> (r: Option<usize>)
    requires
        rows.wf(),
        rows.spec_width() <= u32::MAX,
        col < old(bucket_heads)@.len(),
        has_bucket(old(next_in_bucket)@, old(bucket_heads)@[col as int]),
        forall|i: int|
            0 <= i < bucket_rows(old(next_in_bucket)@, old(bucket_heads)@[col as int]).len()
                ==> #[trigger] bucket_rows(old(next_in_bucket)@, old(bucket_heads)@[col as int])[i]
                < rows.spec_height() && rows.ones(
                bucket_rows(old(next_in_bucket)@, old(bucket_heads)@[col as int])[i] as int,
                col as int,
                rows.spec_width() as int,
            ) >= 1,
    ensures
        ({
            let l = bucket_rows(old(next_in_bucket)@, old(bucket_heads)@[col as int]);
            match r {
                None => l.len() == 0 && final(bucket_heads)@ == old(bucket_heads)@
                    && final(next_in_bucket)@ == old(next_in_bucket)@,
                Some(row) => exists|k: int|
                    #![trigger l[k]]
                    is_first_lowest_weight(suffix_weights(*rows, col as int), l, k) && l[k] == row
                        && unlinked(
                        old(bucket_heads)@,
                        old(next_in_bucket)@,
                        col as int,
                        l,
                        k,
                        final(bucket_heads)@,
                        final(next_in_bucket)@,
                    ),
            }
        }),
{
    let ghost heads0 = bucket_heads@;
    let ghost next0 = next_in_bucket@;
    let ghost l = bucket_rows(next0, heads0[col as int]);
    let ghost ws = suffix_weights(*rows, col as int);
    assert(is_bucket(next0, heads0[col as int], l));
    let head = bucket_heads[col];
    if head == NO_BUCKET_ROW {
        proof {
            if l.len() > 0 {
                assert(l[0] != NO_BUCKET_ROW);
            }
        }
        return None;
    }
    assert(l.len() > 0 && l[0] == head);
    if next_in_bucket[head] == NO_BUCKET_ROW {
        proof {
            if l.len() > 1 {
                assert(l[1] != NO_BUCKET_ROW);
            }
        }
        bucket_heads.set(col, NO_BUCKET_ROW);
        proof {
            assert(next0.update(head as int, NO_BUCKET_ROW) =~= next0);
            lemma_unlink_bucket(next0, head, l, 0);
            assert(is_first_lowest_weight(ws, l, 0));
        }
        return Some(head);
    }
    proof {
        assert forall|j: int| 0 <= j < l.len() implies #[trigger] l[j] < rows.spec_height()
            && ws[l[j] as int] >= 1 by {
            let r = l[j] as int;
            if col < rows.spec_width() {
                rows.lemma_ones_bound(r, col as int, rows.spec_width() as int);
            }
        }
    }
    let mut best = head;
    let mut best_previous = NO_BUCKET_ROW;
    let mut best_weight = rows.weight_at_or_after(head, col);
    let mut previous = head;
    let mut current = next_in_bucket[head];
    let ghost mut i: int = 1;
    let ghost mut bk: int = 0;
    while current != NO_BUCKET_ROW
        invariant_except_break
            0 <= bk < i,
            forall|j: int| 0 <= j < i ==> best_weight <= ws[#[trigger] l[j] as int],
        invariant
            bucket_heads@ == heads0,
            next_in_bucket@ == next0,
            is_bucket(next0, heads0[col as int], l),
            rows.wf(),
            rows.spec_width() <= u32::MAX,
            ws == suffix_weights(*rows, col as int),
            forall|j: int|
                0 <= j < l.len() ==> #[trigger] l[j] < rows.spec_height() && ws[l[j] as int] >= 1,
            1 <= i <= l.len(),
            current == (if i < l.len() {
                l[i]
            } else {
                NO_BUCKET_ROW
            }),
            previous == l[i - 1],
            best == l[bk],
            best_previous == (if bk == 0 {
                NO_BUCKET_ROW
            } else {
                l[bk - 1]
            }),
            best_weight == ws[best as int],
            forall|j: int| 0 <= j < bk ==> best_weight < ws[#[trigger] l[j] as int],
        ensures
            0 <= bk < l.len(),
            best == l[bk],
            best_previous == (if bk == 0 {
                NO_BUCKET_ROW
            } else {
                l[bk - 1]
            }),
            is_first_lowest_weight(ws, l, bk),
        decreases l.len() - i,
    {
        let row = current;
        assert(row == l[i]);
        let weight = rows.weight_at_or_after(row, col);
        if weight < best_weight {
            best = row;
            best_previous = previous;
            best_weight = weight;
            proof {
                bk = i;
            }
            if weight == 1 {
                break;
            }
        }
        previous = row;
        current = next_in_bucket[row];
        proof {
            i = i + 1;
        }
    }
    if best_previous == NO_BUCKET_ROW {
        let following = next_in_bucket[best];
        bucket_heads.set(col, following);
    } else {
        let following = next_in_bucket[best];
        next_in_bucket.set(best_previous, following);
    }
    next_in_bucket.set(best, NO_BUCKET_ROW);
    proof {
        if bk > 0 {
            assert(l[bk - 1] != NO_BUCKET_ROW);
        }
        lemma_unlink_bucket(next0, heads0[col as int], l, bk);
    }
    Some(best)
}

} // verus!

verus! {

/// What pushing `row` with weight `weight` onto column `col` does: a small weight goes to
/// the small bucket for that weight, any other weight to the general bucket of `col`.
pub open spec fn weighted_pushed<Mask: SmallWeightBucketMask>(
    heads: Seq<usize>,
    small: SmallWeightBinaryBuckets<Mask>,
    next: Seq<usize>,
    col: int,
    row: usize,
    weight: u32,
    heads2: Seq<usize>,
    small2: SmallWeightBinaryBuckets<Mask>,
    next2: Seq<usize>,
) -> bool {
    &&& small2.wf()
    &&& small2.spec_width() == small.spec_width()
    &&& small2.spec_small_weight_max() == small.spec_small_weight_max()
    &&& if 1 <= weight <= small.spec_small_weight_max() {
        let b = weight - 1;
        &&& heads2 == heads
        &&& next2 == next.update(row as int, small.spec_head(b, col))
        &&& forall|b2: int, c2: int|
            0 <= b2 < small.spec_small_weight_max() && 0 <= c2 < small.spec_width()
                ==> #[trigger] small2.spec_head(b2, c2) == if b2 == b && c2 == col {
                row
            } else {
                small.spec_head(b2, c2)
            }
    } else {
        &&& small2 == small
        &&& heads2 == heads.update(col, row)
        &&& next2 == next.update(row as int, heads[col])
    }
}

/// Puts `row` in front of the bucket of `col` that its weight selects.
pub fn push_weighted_binary_row_bucket<Mask: SmallWeightBucketMask>(
    row_weights: &Vec<u32>,
    bucket_heads: &mut Vec<usize>,
    small_weight_buckets: &mut SmallWeightBinaryBuckets<Mask>,
    next_in_bucket: &mut Vec<usize>,
    col: usize,
    row: usize,
)
    requires
        row < row_weights@.len(),
        old(small_weight_buckets).wf(),
        col < old(small_weight_buckets).spec_width(),
        col < old(bucket_heads)@.len(),
        row < old(next_in_bucket)@.len(),
    ensures
        weighted_pushed(
            old(bucket_heads)@,
            *old(small_weight_buckets),
            old(next_in_bucket)@,
            col as int,
            row,
            row_weights@[row as int],
            final(bucket_heads)@,
            *final(small_weight_buckets),
            final(next_in_bucket)@,
        ),
{
    let weight = row_weights[row];
    if !small_weight_buckets.push(next_in_bucket, col, row, weight) {
        push_row_bucket(bucket_heads, next_in_bucket, col, row);
    }
}

/// Takes a row out of column `col`: the first row of its lightest non-empty small bucket,
/// or else the first row of its general bucket.
pub fn pop_weighted_binary_row_bucket<Mask: SmallWeightBucketMask>(
    bucket_heads: &mut Vec<usize>,
    small_weight_buckets: &mut SmallWeightBinaryBuckets<Mask>,
    next_in_bucket: &mut Vec<usize>,
    col: usize,
) -> (r: Option<usize>)
    requires
        old(small_weight_buckets).wf(),
        col < old(small_weight_buckets).spec_width(),
        col < old(bucket_heads)@.len(),
        forall|b: int|
            0 <= b < old(small_weight_buckets).spec_small_weight_max() ==> #[trigger] old(
                small_weight_buckets,
            ).spec_head(b, col as int) == NO_BUCKET_ROW || old(small_weight_buckets).spec_head(
                b,
                col as int,
            ) < old(next_in_bucket)@.len(),
        old(bucket_heads)@[col as int] == NO_BUCKET_ROW || old(bucket_heads)@[col as int] < old(
            next_in_bucket,
        )@.len(),
    ensures
        final(small_weight_buckets).wf(),
        final(small_weight_buckets).spec_width() == old(small_weight_buckets).spec_width(),
        final(small_weight_buckets).spec_small_weight_max() == old(
            small_weight_buckets,
        ).spec_small_weight_max(),
        (exists|b: int|
            0 <= b < old(small_weight_buckets).spec_small_weight_max() && #[trigger] old(
                small_weight_buckets,
            ).spec_head(b, col as int) != NO_BUCKET_ROW) ==> popped_lightest(
            *old(small_weight_buckets),
            old(next_in_bucket)@,
            col as int,
            r,
            *final(small_weight_buckets),
            final(next_in_bucket)@,
        ) && final(bucket_heads)@ == old(bucket_heads)@,
        (forall|b: int|
            0 <= b < old(small_weight_buckets).spec_small_weight_max() ==> #[trigger] old(
                small_weight_buckets,
            ).spec_head(b, col as int) == NO_BUCKET_ROW) ==> {
            let head = old(bucket_heads)@[col as int];
            &&& *final(small_weight_buckets) == *old(small_weight_buckets)
            &&& head == NO_BUCKET_ROW ==> r is None && final(bucket_heads)@ == old(bucket_heads)@
                && final(next_in_bucket)@ == old(next_in_bucket)@
            &&& head != NO_BUCKET_ROW ==> r == Some(head) && final(bucket_heads)@ == old(
                bucket_heads,
            )@.update(col as int, old(next_in_bucket)@[head as int]) && final(next_in_bucket)@
                == old(next_in_bucket)@.update(head as int, NO_BUCKET_ROW)
        },
{
    let ghost small0 = *small_weight_buckets;
    match small_weight_buckets.pop_any(next_in_bucket, col) {
        Some(row) => Some(row),
        None => {
            proof {
                if exists|b: int|
                    0 <= b < small0.spec_small_weight_max() && #[trigger] small0.spec_head(
                        b,
                        col as int,
                    ) != NO_BUCKET_ROW {
                    let b = choose|b: int|
                        0 <= b < small0.spec_small_weight_max() && #[trigger] small0.spec_head(
                            b,
                            col as int,
                        ) != NO_BUCKET_ROW;
                    if !(forall|b: int|
                        0 <= b < small0.spec_small_weight_max() ==> #[trigger] small0.spec_head(
                            b,
                            col as int,
                        ) == NO_BUCKET_ROW) {
                        let b1 = choose|b1: int|
                            0 <= b1 < small0.spec_small_weight_max() && small0.spec_head(
                                b1,
                                col as int,
                            ) != NO_BUCKET_ROW && (forall|b2: int|
                                0 <= b2 < b1 ==> #[trigger] small0.spec_head(b2, col as int)
                                    == NO_BUCKET_ROW) && #[trigger] popped(
                                small0,
                                next_in_bucket@,
                                col as int,
                                b1,
                                None,
                                *small_weight_buckets,
                                next_in_bucket@,
                            );
                    }
                }
            }
            pop_row_bucket(bucket_heads, next_in_bucket, col)
        },
    }
}

} // verus!
