//! A binary matrix stored as the list of set columns of each row.

use crate::gf2::PackedBinaryRows;
use crate::matrix::{BinaryMatrix, lists_row, packable};
use crate::octet::Octet;
use vstd::prelude::*;

verus! {

/// From this width on, rows are built by appending and sorted only when read.
pub const APPEND_BUILD_MIN_WIDTH: usize = 512;

/// No column occurs twice.
pub open spec fn distinct(s: Seq<usize>) -> bool {
    forall|i: int, j: int| 0 <= i < j < s.len() ==> s[i] != s[j]
}

/// Columns strictly increase.
pub open spec fn increasing(s: Seq<usize>) -> bool {
    forall|i: int, j: int| 0 <= i < j < s.len() ==> s[i] < s[j]
}

/// A binary matrix that stores the set columns of each row.
#[derive(Clone, Debug)]
pub struct SparseBinaryMatrix {
    width: usize,
    rows: Vec<Vec<usize>>,
    rows_normalized: bool,
}

/// The entries in increasing order.
pub fn sorted_entries(entries: &[usize]) -> (r: Vec<usize>)
    requires
        distinct(entries@),
    ensures
        increasing(r@),
        r@.len() == entries@.len(),
        forall|x: usize| r@.contains(x) <==> entries@.contains(x),
{
    let mut sorted: Vec<usize> = Vec::new();
    let mut i: usize = 0;
    while i < entries.len()
        invariant
            i <= entries@.len(),
            distinct(entries@),
            increasing(sorted@),
            sorted@.len() == i,
            forall|x: usize|
                sorted@.contains(x) <==> (exists|j: int| 0 <= j < i && #[trigger] entries@[j] == x),
        decreases entries@.len() - i,
    {
        let x = entries[i];
        let p = insertion_point(&sorted, x);
        proof {
            assert(!sorted@.contains(x)) by {
                if sorted@.contains(x) {
                    let j = choose|j: int| 0 <= j < i && #[trigger] entries@[j] == x;
                    assert(entries@[j] == entries@[i as int]);
                }
            }
        }
        let ghost before = sorted@;
        sorted.insert(p, x);
        proof {
            lemma_inserted(before, p as int, x, sorted@);
            assert forall|y: usize|
                sorted@.contains(y) <==> (exists|j: int| 0 <= j < i + 1 && #[trigger] entries@[j]
                    == y) by {
                if y == x {
                    assert(entries@[i as int] == x);
                }
                if exists|j: int| 0 <= j < i + 1 && #[trigger] entries@[j] == y {
                    let j = choose|j: int| 0 <= j < i + 1 && #[trigger] entries@[j] == y;
                    if j < i {
                        assert(before.contains(y));
                    }
                }
            }
        }
        i += 1;
    }
    proof {
        assert forall|x: usize| sorted@.contains(x) <==> entries@.contains(x) by {
            if entries@.contains(x) {
                let j = choose|j: int| 0 <= j < entries@.len() && entries@[j] == x;
                assert(entries@[j] == x);
            }
        }
    }
    sorted
}

impl SparseBinaryMatrix {
    /// The stored column lists.
    pub closed spec fn spec_rows(&self) -> Seq<Vec<usize>> {
        self.rows@
    }

    /// Whether every stored row is in increasing order.
    pub closed spec fn spec_rows_normalized(&self) -> bool {
        self.rows_normalized
    }

    /// Whether every stored row is currently in increasing order.
    pub fn rows_normalized(&self) -> (r: bool)
        ensures
            r == self.spec_rows_normalized(),
    {
        self.rows_normalized
    }

    /// The stored column list of row `row`, in the order it is kept.
    pub fn stored_row(&self, row: usize) -> (r: &Vec<usize>)
        requires
            row < self.spec_rows().len(),
        ensures
            *r == self.spec_rows()[row as int],
    {
        &self.rows[row]
    }
}

/// Every listed column is below `width`, and none is listed twice.
pub open spec fn valid_row(entries: Seq<usize>, width: nat) -> bool {
    &&& distinct(entries)
    &&& forall|i: int| 0 <= i < entries.len() ==> #[trigger] entries[i] < width
}

/// Whether the listed columns are distinct and below `width`.
pub fn row_entries_valid(entries: &Vec<usize>, width: usize) -> (r: bool)
    ensures
        r == valid_row(entries@, width as nat),
{
    let n = entries.len();
    let mut i: usize = 0;
    while i < n
        invariant
            n == entries@.len(),
            i <= n,
            forall|k: int| 0 <= k < i ==> #[trigger] entries@[k] < width,
            forall|a: int, b: int| 0 <= a < b < i ==> entries@[a] != entries@[b],
        decreases n - i,
    {
        if entries[i] >= width {
            return false;
        }
        let mut j: usize = 0;
        while j < i
            invariant
                n == entries@.len(),
                j <= i < n,
                forall|a: int| 0 <= a < j ==> entries@[a] != entries@[i as int],
            decreases i - j,
        {
            if entries[j] == entries[i] {
                return false;
            }
            j += 1;
        }
        i += 1;
    }
    true
}

impl SparseBinaryMatrix {
    /// Rebuilds a matrix from its column lists, each kept in increasing order; `None` when a
    /// row lists a column twice or a column outside the width.
    pub fn from_parts(width: usize, rows: Vec<Vec<usize>>) -> (r: Option<SparseBinaryMatrix>)
        ensures
            r is Some <==> forall|k: int| 0 <= k < rows@.len() ==> valid_row(
                #[trigger] rows@[k]@,
                width as nat,
            ),
            r matches Some(m) ==> {
                &&& m.inv()
                &&& m.spec_height() == rows@.len()
                &&& m.spec_width() == width
                &&& forall|i: int, j: int| #[trigger]
                    m.spec_bit(i, j) == (0 <= i < rows@.len() && 0 <= j < width
                        && rows@[i]@.contains(j as usize))
            },
    {
        let height = rows.len();
        let mut sorted_rows: Vec<Vec<usize>> = Vec::new();
        let mut k: usize = 0;
        while k < height
            invariant
                height == rows@.len(),
                k <= height,
                sorted_rows@.len() == k,
                forall|a: int| 0 <= a < k ==> valid_row(#[trigger] rows@[a]@, width as nat),
                forall|a: int|
                    0 <= a < k ==> valid_row(#[trigger] sorted_rows@[a]@, width as nat)
                        && increasing(sorted_rows@[a]@) && forall|x: usize|
                        sorted_rows@[a]@.contains(x) <==> rows@[a]@.contains(x),
            decreases height - k,
        {
            if !row_entries_valid(&rows[k], width) {
                return None;
            }
            let sorted = sorted_entries(rows[k].as_slice());
            proof {
                assert forall|i: int| 0 <= i < sorted@.len() implies #[trigger] sorted@[i]
                    < width by {
                    assert(sorted@.contains(sorted@[i]));
                    let j = choose|j: int| 0 <= j < rows@[k as int]@.len() && rows@[k as int]@[j]
                        == sorted@[i];
                }
            }
            sorted_rows.push(sorted);
            k += 1;
        }
        let m = SparseBinaryMatrix { width, rows: sorted_rows, rows_normalized: true };
        proof {
            assert forall|i: int, j: int| #[trigger]
                m.spec_bit(i, j) == (0 <= i < rows@.len() && 0 <= j < width && rows@[i]@.contains(
                    j as usize,
                )) by {
                if 0 <= i < rows@.len() && 0 <= j < width {
                    assert(sorted_rows@[i]@.contains(j as usize) <==> rows@[i]@.contains(
                        j as usize,
                    ));
                }
            }
        }
        Some(m)
    }

    /// The column list of every row, in stored order.
    pub fn stored_rows(&self) -> (r: &Vec<Vec<usize>>)
        ensures
            r@ == self.spec_rows(),
    {
        &self.rows
    }
}

impl BinaryMatrix for SparseBinaryMatrix {
    closed spec fn spec_height(&self) -> nat {
        self.rows@.len()
    }

    closed spec fn spec_width(&self) -> nat {
        self.width as nat
    }

    closed spec fn spec_bit(&self, row: int, col: int) -> bool {
        &&& 0 <= row < self.rows@.len()
        &&& 0 <= col < self.width
        &&& self.rows@[row]@.contains(col as usize)
    }

    closed spec fn inv(&self) -> bool {
        &&& forall|r: int|
            0 <= r < self.rows@.len() ==> distinct(#[trigger] self.rows@[r]@) && forall|i: int|
                0 <= i < self.rows@[r]@.len() ==> (#[trigger] self.rows@[r]@[i]) < self.width
        &&& self.rows_normalized ==> forall|r: int|
            0 <= r < self.rows@.len() ==> increasing(#[trigger] self.rows@[r]@)
        &&& self.width < APPEND_BUILD_MIN_WIDTH ==> self.rows_normalized
    }

    fn new(height: usize, width: usize) -> (r: SparseBinaryMatrix) {
        let mut rows: Vec<Vec<usize>> = Vec::new();
        let mut i: usize = 0;
        while i < height
            invariant
                i <= height,
                rows@.len() == i,
                forall|r: int| 0 <= r < i ==> (#[trigger] rows@[r])@.len() == 0,
            decreases height - i,
        {
            rows.push(Vec::new());
            i += 1;
        }
        SparseBinaryMatrix { width, rows, rows_normalized: true }
    }

    fn height(&self) -> (r: usize) {
        self.rows.len()
    }

    fn width(&self) -> (r: usize) {
        self.width
    }

    fn get(&self, row: usize, col: usize) -> (r: Octet) {
        let entries = &self.rows[row];
        let mut found = false;
        let mut i: usize = 0;
        while i < entries.len()
            invariant
                i <= entries@.len(),
                found == exists|j: int| 0 <= j < i && entries@[j] == col,
            decreases entries@.len() - i,
        {
            if entries[i] == col {
                found = true;
            }
            i += 1;
        }
        if found {
            Octet::one()
        } else {
            Octet::zero()
        }
    }

    fn set(&mut self, row: usize, col: usize, value: bool) {
        let ghost old_self = *self;
        let ghost entries = self.rows@[row as int]@;
        let index = position(&self.rows[row], col);
        match index {
            Some(index) => {
                if !value {
                    if self.width < APPEND_BUILD_MIN_WIDTH {
                        self.rows[row].remove(index);
                    } else {
                        self.rows[row].swap_remove(index);
                        self.rows_normalized = false;
                    }
                    proof {
                        lemma_removed(entries, index as int, self.rows@[row as int]@, self.width
                            < APPEND_BUILD_MIN_WIDTH);
                    }
                }
            },
            None => {
                if value {
                    if self.width < APPEND_BUILD_MIN_WIDTH {
                        let p = insertion_point(&self.rows[row], col);
                        self.rows[row].insert(p, col);
                        proof {
                            lemma_inserted(entries, p as int, col, self.rows@[row as int]@);
                        }
                    } else {
                        self.rows[row].push(col);
                        self.rows_normalized = false;
                        proof {
                            lemma_pushed(entries, col, self.rows@[row as int]@);
                        }
                    }
                }
            },
        }
        proof {
            assert forall|i: int, j: int| #[trigger]
                self.spec_bit(i, j) == if i == row && j == col {
                    value
                } else {
                    old_self.spec_bit(i, j)
                } by {
                if i != row && 0 <= i < self.rows@.len() {
                    assert(self.rows@[i] == old_self.rows@[i]);
                }
                if i == row && 0 <= j < self.width {
                    let x = j as usize;
                    assert(self.rows@[row as int]@.contains(x) <==> (if x == col {
                        value
                    } else {
                        entries.contains(x)
                    }));
                }
            }
            assert forall|r: int|
                0 <= r < self.rows@.len() implies distinct(#[trigger] self.rows@[r]@) && forall|
                i: int,
            | 0 <= i < self.rows@[r]@.len() ==> (#[trigger] self.rows@[r]@[i]) < self.width by {
                if r != row {
                    assert(self.rows@[r] == old_self.rows@[r]);
                }
            }
            if self.rows_normalized {
                assert forall|r: int| 0 <= r < self.rows@.len() implies increasing(
                    #[trigger] self.rows@[r]@,
                ) by {
                    if r != row {
                        assert(self.rows@[r] == old_self.rows@[r]);
                    }
                }
            }
        }
    }

    fn toggle(&mut self, row: usize, col: usize) {
        let present = position(&self.rows[row], col).is_some();
        self.set(row, col, !present);
    }

    fn toggle_unique(&mut self, row: usize, col: usize) {
        if self.width < APPEND_BUILD_MIN_WIDTH {
            self.set(row, col, true);
            return ;
        }
        let ghost old_self = *self;
        let ghost entries = self.rows@[row as int]@;
        self.rows[row].push(col);
        self.rows_normalized = false;
        proof {
            lemma_pushed(entries, col, self.rows@[row as int]@);
            assert forall|i: int, j: int| #[trigger]
                self.spec_bit(i, j) == if i == row && j == col {
                    true
                } else {
                    old_self.spec_bit(i, j)
                } by {
                if i != row && 0 <= i < self.rows@.len() {
                    assert(self.rows@[i] == old_self.rows@[i]);
                }
                if i == row && 0 <= j < self.width {
                    let x = j as usize;
                    assert(self.rows@[row as int]@.contains(x) <==> (if x == col {
                        true
                    } else {
                        entries.contains(x)
                    }));
                }
            }
            assert forall|r: int|
                0 <= r < self.rows@.len() implies distinct(#[trigger] self.rows@[r]@) && forall|
                i: int,
            | 0 <= i < self.rows@[r]@.len() ==> (#[trigger] self.rows@[r]@[i]) < self.width by {
                if r != row {
                    assert(self.rows@[r] == old_self.rows@[r]);
                }
            }
        }
    }

    /// Sorts every stored column list into increasing order and marks the rows normalized.
    fn normalize_rows(&mut self)
        ensures
            final(self).spec_rows_normalized(),
            final(self).spec_rows().len() == old(self).spec_rows().len(),
            forall|r: int| 0 <= r < final(self).spec_rows().len() ==> increasing(
                #[trigger] final(self).spec_rows()[r]@,
            ),
            forall|r: int, x: usize| 0 <= r < old(self).spec_rows().len() ==> (
                #[trigger] final(self).spec_rows()[r]@.contains(x) <==> old(self).spec_rows()[r]@.contains(x)),
    {
        if self.rows_normalized {
            return ;
        }
        let ghost old_self = *self;
        let n = self.rows.len();
        let mut r: usize = 0;
        while r < n
            invariant
                n == self.rows@.len(),
                n == old_self.rows@.len(),
                r <= n,
                self.width == old_self.width,
                self.rows_normalized == old_self.rows_normalized,
                old_self.inv(),
                forall|i: int|
                    0 <= i < n ==> distinct(#[trigger] self.rows@[i]@) && forall|j: int|
                        0 <= j < self.rows@[i]@.len() ==> (#[trigger] self.rows@[i]@[j])
                            < self.width,
                forall|i: int| 0 <= i < r ==> increasing(#[trigger] self.rows@[i]@),
                forall|i: int, x: usize|
                    0 <= i < n ==> (#[trigger] self.rows@[i]@.contains(x) <==> old_self.rows@[i]@.contains(
                        x,
                    )),
            decreases n - r,
        {
            let sorted = sorted_entries(self.rows[r].as_slice());
            let ghost before = self.rows@;
            self.rows.set(r, sorted);
            proof {
                assert forall|i: int|
                    0 <= i < n implies distinct(#[trigger] self.rows@[i]@) && forall|j: int|
                    0 <= j < self.rows@[i]@.len() ==> (#[trigger] self.rows@[i]@[j]) < self.width by {
                    if i == r {
                        assert forall|j: int| 0 <= j < self.rows@[i]@.len() implies (#[trigger] self.rows@[i]@[j])
                            < self.width by {
                            assert(self.rows@[i]@.contains(self.rows@[i]@[j]));
                            assert(before[i]@.contains(self.rows@[i]@[j]));
                        }
                    } else {
                        assert(self.rows@[i] == before[i]);
                    }
                }
                assert forall|i: int, x: usize|
                    0 <= i < n implies (#[trigger] self.rows@[i]@.contains(x)
                    <==> old_self.rows@[i]@.contains(x)) by {
                    if i != r {
                        assert(self.rows@[i] == before[i]);
                    }
                }
                assert forall|i: int| 0 <= i < r + 1 implies increasing(#[trigger] self.rows@[i]@) by {
                    if i != r {
                        assert(self.rows@[i] == before[i]);
                    }
                }
            }
            r += 1;
        }
        self.rows_normalized = true;
    }

    fn row_entries(&self, row: usize) -> (r: Vec<usize>) {
        let entries = sorted_entries(self.rows[row].as_slice());
        proof {
            assert forall|i: int| 0 <= i < entries@.len() implies (#[trigger] entries@[i])
                < self.width && self.spec_bit(row as int, entries@[i] as int) by {
                assert(entries@.contains(entries@[i]));
                assert(self.rows@[row as int]@.contains(entries@[i]));
            }
            assert forall|c: int|
                0 <= c < self.width && #[trigger] self.spec_bit(row as int, c) implies entries@.contains(
                c as usize,
            ) by {}
        }
        entries
    }
}

/// The index of `col` in a row's column list, if present.
fn position(entries: &Vec<usize>, col: usize) -> (r: Option<usize>)
    ensures
        r matches Some(i) ==> i < entries@.len() && entries@[i as int] == col,
        r is None ==> !entries@.contains(col),
{
    let mut i: usize = 0;
    while i < entries.len()
        invariant
            i <= entries@.len(),
            forall|j: int| 0 <= j < i ==> entries@[j] != col,
        decreases entries@.len() - i,
    {
        if entries[i] == col {
            return Some(i);
        }
        i += 1;
    }
    None
}

/// Where `col` goes in an increasing column list that does not contain it.
fn insertion_point(entries: &Vec<usize>, col: usize) -> (p: usize)
    ensures
        p <= entries@.len(),
        forall|j: int| 0 <= j < p ==> entries@[j] < col,
        p < entries@.len() ==> entries@[p as int] >= col,
{
    let mut p: usize = 0;
    while p < entries.len() && entries[p] < col
        invariant
            p <= entries@.len(),
            forall|j: int| 0 <= j < p ==> entries@[j] < col,
        decreases entries@.len() - p,
    {
        p += 1;
    }
    p
}

proof fn lemma_removed(entries: Seq<usize>, index: int, after: Seq<usize>, ordered: bool)
    requires
        distinct(entries),
        0 <= index < entries.len(),
        ordered ==> after == entries.remove(index),
        !ordered ==> after == entries.update(index, entries.last()).drop_last(),
    ensures
        distinct(after),
        forall|x: usize| after.contains(x) <==> (entries.contains(x) && x != entries[index]),
        ordered && increasing(entries) ==> increasing(after),
        forall|i: int| 0 <= i < after.len() ==> exists|j: int| 0 <= j < entries.len() && #[trigger] after[i] == entries[j],
{
    assert forall|i: int| 0 <= i < after.len() implies exists|j: int| 0 <= j < entries.len() && #[trigger] after[i] == entries[j] by {
        if ordered {
            if i < index {
                assert(after[i] == entries[i]);
            } else {
                assert(after[i] == entries[i + 1]);
            }
        } else {
            if i == index {
                assert(after[i] == entries[entries.len() - 1]);
            } else {
                assert(after[i] == entries[i]);
            }
        }
    }
    assert forall|x: usize| after.contains(x) <==> (entries.contains(x) && x != entries[index]) by {
        if after.contains(x) {
            let i = choose|i: int| 0 <= i < after.len() && after[i] == x;
            if ordered {
                if i < index {
                    assert(after[i] == entries[i]);
                } else {
                    assert(after[i] == entries[i + 1]);
                }
            } else {
                if i == index {
                    assert(after[i] == entries[entries.len() - 1]);
                } else {
                    assert(after[i] == entries[i]);
                }
            }
        }
        if entries.contains(x) && x != entries[index] {
            let j = choose|j: int| 0 <= j < entries.len() && entries[j] == x;
            if ordered {
                if j < index {
                    assert(after[j] == x);
                } else {
                    assert(after[j - 1] == x);
                }
            } else {
                if j == entries.len() - 1 {
                    assert(after[index] == x);
                } else {
                    assert(after[j] == x);
                }
            }
        }
    }
}

proof fn lemma_inserted(entries: Seq<usize>, p: int, col: usize, after: Seq<usize>)
    requires
        distinct(entries),
        increasing(entries),
        !entries.contains(col),
        0 <= p <= entries.len(),
        forall|j: int| 0 <= j < p ==> entries[j] < col,
        p < entries.len() ==> entries[p] >= col,
        after == entries.insert(p, col),
    ensures
        distinct(after),
        increasing(after),
        forall|x: usize| after.contains(x) <==> (entries.contains(x) || x == col),
{
    if p < entries.len() {
        assert(entries[p] != col);
    }
    assert forall|a: int, b: int| 0 <= a < b < after.len() implies after[a] < after[b] by {
        if b < p {
        } else if a < p && b == p {
        } else if a < p && b > p {
            assert(after[b] == entries[b - 1]);
            if p < entries.len() {
                assert(entries[p] <= entries[b - 1]);
            }
        } else if a == p {
            assert(after[b] == entries[b - 1]);
            if b - 1 > p {
                assert(entries[p] < entries[b - 1]);
            }
        } else {
            assert(after[a] == entries[a - 1]);
            assert(after[b] == entries[b - 1]);
        }
    }
    assert forall|x: usize| after.contains(x) <==> (entries.contains(x) || x == col) by {
        if after.contains(x) {
            let k = choose|k: int| 0 <= k < after.len() && after[k] == x;
            if k < p {
                assert(entries[k] == x);
            } else if k > p {
                assert(entries[k - 1] == x);
            }
        }
        if entries.contains(x) {
            let k = choose|k: int| 0 <= k < entries.len() && entries[k] == x;
            if k < p {
                assert(after[k] == x);
            } else {
                assert(after[k + 1] == x);
            }
        }
        if x == col {
            assert(after[p] == col);
        }
    }
}

proof fn lemma_pushed(entries: Seq<usize>, col: usize, after: Seq<usize>)
    requires
        distinct(entries),
        !entries.contains(col),
        after == entries.push(col),
    ensures
        distinct(after),
        forall|x: usize| after.contains(x) <==> (entries.contains(x) || x == col),
{
    assert forall|a: int, b: int| 0 <= a < b < after.len() implies after[a] != after[b] by {
        if b == entries.len() {
            assert(after[a] == entries[a]);
        }
    }
    assert forall|x: usize| after.contains(x) <==> (entries.contains(x) || x == col) by {
        if after.contains(x) {
            let k = choose|k: int| 0 <= k < after.len() && after[k] == x;
            if k < entries.len() {
                assert(entries[k] == x);
            }
        }
        if entries.contains(x) {
            let k = choose|k: int| 0 <= k < entries.len() && entries[k] == x;
            assert(after[k] == x);
        }
        if x == col {
            assert(after[entries.len() as int] == col);
        }
    }
}

} // verus!
