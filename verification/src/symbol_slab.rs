//! Contiguous storage for a run of equally sized symbols.

use vstd::prelude::*;

verus! {

/// For `0 <= i < count`, the `i`-th block of `size` bytes lies inside `count * size` bytes.
pub proof fn lemma_block_in_bounds(i: int, count: int, size: int)
    requires
        0 <= i < count,
        0 <= size,
    ensures
        0 <= i * size,
        i * size + size <= count * size,
{
    assert(0 <= i * size) by (nonlinear_arith)
        requires
            0 <= i,
            0 <= size,
    ;
    assert(i * size + size <= count * size) by (nonlinear_arith)
        requires
            i < count,
            0 <= size,
    ;
}

/// Symbols stored back to back in one byte vector.
#[derive(Debug, PartialEq, Eq)]
pub struct SymbolSlab {
    bytes: Vec<u8>,
    symbol_size: usize,
}

/// The `i`-th block of `size` bytes of `bytes`.
pub open spec fn block<T>(bytes: Seq<T>, size: nat, i: int) -> Seq<T> {
    bytes.subrange(i * size, i * size + size)
}

impl SymbolSlab {
    /// The stored bytes.
    pub closed spec fn spec_bytes(&self) -> Seq<u8> {
        self.bytes@
    }

    /// The size of one symbol in bytes.
    pub closed spec fn spec_symbol_size(&self) -> nat {
        self.symbol_size as nat
    }

    /// The slab holds a whole number of nonempty symbols.
    pub open spec fn wf(&self) -> bool {
        &&& self.spec_symbol_size() > 0
        &&& self.spec_bytes().len() % self.spec_symbol_size() == 0
    }

    /// The number of symbols.
    pub open spec fn spec_len(&self) -> nat {
        self.spec_bytes().len() / self.spec_symbol_size()
    }

    pub proof fn lemma_symbol_bounds(&self, i: int)
        requires
            self.wf(),
            0 <= i < self.spec_len(),
        ensures
            0 <= i * self.spec_symbol_size(),
            i * self.spec_symbol_size() + self.spec_symbol_size() <= self.spec_bytes().len(),
            self.spec_bytes().len() == self.spec_len() * self.spec_symbol_size(),
    {
        let n = self.spec_bytes().len() as int;
        let s = self.spec_symbol_size() as int;
        vstd::arithmetic::div_mod::lemma_fundamental_div_mod(n, s);
        lemma_block_in_bounds(i, self.spec_len() as int, s);
    }
}

impl View for SymbolSlab {
    type V = Seq<Seq<u8>>;

    open spec fn view(&self) -> Seq<Seq<u8>> {
        Seq::new(
            self.spec_len(),
            |i: int| block(self.spec_bytes(), self.spec_symbol_size(), i),
        )
    }
}

impl Clone for SymbolSlab {
    fn clone(&self) -> (r: SymbolSlab)
        ensures
            r.spec_bytes() == self.spec_bytes(),
            r.spec_symbol_size() == self.spec_symbol_size(),
    {
        SymbolSlab { bytes: self.bytes.clone(), symbol_size: self.symbol_size }
    }
}

impl SymbolSlab {
    /// `symbols` zero symbols of `symbol_size` bytes each.
    pub fn with_zeros(symbols: usize, symbol_size: usize) -> (r: SymbolSlab)
        requires
            symbol_size != 0,
            symbols * symbol_size <= usize::MAX,
        ensures
            r.wf(),
            r.spec_symbol_size() == symbol_size,
            r.spec_bytes() == Seq::new((symbols * symbol_size) as nat, |i: int| 0u8),
            r.spec_len() == symbols,
    {
        let n = symbols * symbol_size;
        let bytes = vec![0u8; n];
        proof {
            vstd::arithmetic::div_mod::lemma_mod_multiples_basic(symbols as int, symbol_size as int);
            vstd::arithmetic::div_mod::lemma_div_multiples_vanish(
                symbols as int,
                symbol_size as int,
            );
            assert(symbol_size * symbols == symbols * symbol_size) by (nonlinear_arith);
            assert(bytes@ =~= Seq::new((symbols * symbol_size) as nat, |i: int| 0u8));
        }
        SymbolSlab { bytes, symbol_size }
    }

    /// Takes ownership of `bytes`, which must hold a whole number of symbols.
    pub fn from_bytes(bytes: Vec<u8>, symbol_size: usize) -> (r: SymbolSlab)
        requires
            symbol_size != 0,
            bytes@.len() % symbol_size as nat == 0,
        ensures
            r.wf(),
            r.spec_bytes() == bytes@,
            r.spec_symbol_size() == symbol_size,
    {
        SymbolSlab { bytes, symbol_size }
    }

    /// Concatenates symbols that each hold exactly `symbol_size` bytes.
    pub fn from_symbols(symbols: Vec<Vec<u8>>, symbol_size: usize) -> (r: SymbolSlab)
        requires
            symbol_size != 0,
            forall|i: int| 0 <= i < symbols@.len() ==> #[trigger] symbols@[i]@.len() == symbol_size,
            symbols@.len() * symbol_size <= usize::MAX,
        ensures
            r.wf(),
            r.spec_symbol_size() == symbol_size,
            r.spec_len() == symbols@.len(),
            forall|i: int| 0 <= i < symbols@.len() ==> #[trigger] r@[i] == symbols@[i]@,
    {
        let mut bytes: Vec<u8> = Vec::new();
        let mut k: usize = 0;
        while k < symbols.len()
            invariant
                k <= symbols@.len(),
                symbol_size != 0,
                symbols@.len() * symbol_size <= usize::MAX,
                forall|i: int|
                    0 <= i < symbols@.len() ==> #[trigger] symbols@[i]@.len() == symbol_size,
                bytes@.len() == k * symbol_size,
                forall|i: int|
                    0 <= i < k ==> #[trigger] block(bytes@, symbol_size as nat, i)
                        == symbols@[i]@,
            decreases symbols@.len() - k,
        {
            let symbol = &symbols[k];
            let ghost before = bytes@;
            proof {
                assert((k + 1) * symbol_size <= symbols@.len() * symbol_size) by (nonlinear_arith)
                    requires
                        k + 1 <= symbols@.len(),
                ;
                assert((k + 1) * symbol_size == k * symbol_size + symbol_size) by (nonlinear_arith);
            }
            let mut j: usize = 0;
            while j < symbol.len()
                invariant
                    j <= symbol@.len(),
                    symbol@.len() == symbol_size,
                    bytes@.len() == before.len() + j,
                    before.len() == k * symbol_size,
                    forall|t: int| 0 <= t < before.len() ==> bytes@[t] == before[t],
                    forall|t: int| 0 <= t < j ==> bytes@[before.len() + t] == symbol@[t],
                decreases symbol@.len() - j,
            {
                bytes.push(symbol[j]);
                j += 1;
            }
            proof {
                assert forall|i: int| 0 <= i < k + 1 implies #[trigger] block(
                    bytes@,
                    symbol_size as nat,
                    i,
                ) == symbols@[i]@ by {
                    if i < k {
                        lemma_block_in_bounds(i, k as int, symbol_size as int);
                        assert(block(bytes@, symbol_size as nat, i) =~= block(
                            before,
                            symbol_size as nat,
                            i,
                        ));
                    } else {
                        assert(i * symbol_size == k * symbol_size);
                        assert(block(bytes@, symbol_size as nat, i) =~= symbols@[i]@);
                    }
                }
            }
            k += 1;
        }
        proof {
            vstd::arithmetic::div_mod::lemma_mod_multiples_basic(k as int, symbol_size as int);
            vstd::arithmetic::div_mod::lemma_div_multiples_vanish(k as int, symbol_size as int);
            assert(symbol_size * k == k * symbol_size) by (nonlinear_arith);
        }
        let r = SymbolSlab { bytes, symbol_size };
        assert(r.spec_len() == k);
        assert forall|i: int| 0 <= i < symbols@.len() implies #[trigger] r@[i] == symbols@[i]@ by {
            assert(r@[i] == block(bytes@, symbol_size as nat, i));
        }
        r
    }

    /// The number of symbols.
    pub fn len(&self) -> (r: usize)
        requires
            self.wf(),
        ensures
            r == self.spec_len(),
    {
        self.bytes.len() / self.symbol_size
    }

    /// Whether the slab holds no bytes.
    pub fn is_empty(&self) -> (r: bool)
        ensures
            r == (self.spec_bytes().len() == 0),
    {
        self.bytes.len() == 0
    }

    /// The size of one symbol in bytes.
    pub fn symbol_size(&self) -> (r: usize)
        ensures
            r == self.spec_symbol_size(),
    {
        self.symbol_size
    }

    /// Gives up the slab for its bytes.
    pub fn into_bytes(self) -> (r: Vec<u8>)
        ensures
            r@ == self.spec_bytes(),
    {
        self.bytes
    }

    /// All stored bytes.
    pub fn as_bytes(&self) -> (r: &[u8])
        ensures
            r@ == self.spec_bytes(),
    {
        self.bytes.as_slice()
    }

    /// All stored bytes, writable in place.
    pub fn as_mut_bytes(&mut self) -> (r: &mut [u8])
        ensures
            r@ == old(self).spec_bytes(),
            final(self).spec_bytes() == final(r)@,
            final(self).spec_symbol_size() == old(self).spec_symbol_size(),
    {
        self.bytes.as_mut_slice()
    }

    /// The bytes of symbol `index`.
    pub fn get(&self, index: usize) -> (r: &[u8])
        requires
            self.wf(),
            index < self.spec_len(),
        ensures
            r@ == self@[index as int],
    {
        let _ = self.bytes.len();
        proof {
            self.lemma_symbol_bounds(index as int);
        }
        let start = index * self.symbol_size;
        &self.bytes.as_slice()[start..start + self.symbol_size]
    }
}

/// `bytes` with its `i`-th block of `size` bytes replaced by `new`.
pub open spec fn with_block<T>(bytes: Seq<T>, size: nat, i: int, new: Seq<T>) -> Seq<T> {
    bytes.subrange(0, i * size) + new + bytes.subrange(i * size + size, bytes.len() as int)
}

/// Replacing one block of a whole number of blocks changes that block and no other.
pub proof fn lemma_with_block<T>(bytes: Seq<T>, size: nat, count: nat, index: int, new: Seq<T>)
    requires
        size > 0,
        bytes.len() == count * size,
        0 <= index < count,
        new.len() == size,
    ensures
        with_block(bytes, size, index, new).len() == bytes.len(),
        Seq::new(count, |i: int| block(with_block(bytes, size, index, new), size, i)) =~= Seq::new(
            count,
            |i: int| block(bytes, size, i),
        ).update(index, new),
{
    let nb = with_block(bytes, size, index, new);
    lemma_block_in_bounds(index, count as int, size as int);
    assert forall|i: int| 0 <= i < count implies #[trigger] block(nb, size, i) == (if i == index {
        new
    } else {
        block(bytes, size, i)
    }) by {
        lemma_block_in_bounds(i, count as int, size as int);
        if i < index {
            assert(i * size + size <= index * size) by (nonlinear_arith)
                requires
                    i < index,
            ;
            assert(block(nb, size, i) =~= block(bytes, size, i));
        } else if i > index {
            assert(index * size + size <= i * size) by (nonlinear_arith)
                requires
                    index < i,
            ;
            assert(block(nb, size, i) =~= block(bytes, size, i));
        } else {
            assert(block(nb, size, i) =~= new);
        }
    }
}

/// The view of a slab whose bytes are a whole number of blocks.
pub proof fn lemma_view_of_bytes(s: &SymbolSlab, count: nat)
    requires
        s.wf(),
        s.spec_bytes().len() == count * s.spec_symbol_size(),
    ensures
        s.spec_len() == count,
        s@ == Seq::new(count, |i: int| block(s.spec_bytes(), s.spec_symbol_size(), i)),
{
    vstd::arithmetic::div_mod::lemma_div_multiples_vanish(
        count as int,
        s.spec_symbol_size() as int,
    );
    assert(s.spec_symbol_size() * count == count * s.spec_symbol_size()) by (nonlinear_arith);
}

impl SymbolSlab {
    /// The bytes of symbol `index`, writable in place.
    pub fn get_mut(&mut self, index: usize) -> (r: &mut [u8])
        requires
            old(self).wf(),
            index < old(self).spec_len(),
        ensures
            r@ == old(self)@[index as int],
            final(self).spec_symbol_size() == old(self).spec_symbol_size(),
            final(self).spec_bytes() == with_block(
                old(self).spec_bytes(),
                old(self).spec_symbol_size(),
                index as int,
                final(r)@,
            ),
    {
        let _ = self.bytes.len();
        proof {
            self.lemma_symbol_bounds(index as int);
        }
        let start = index * self.symbol_size;
        let size = self.symbol_size;
        let all = self.bytes.as_mut_slice();
        let (_, tail) = all.split_at_mut(start);
        let (symbol, _) = tail.split_at_mut(size);
        symbol
    }

    /// Two distinct symbols, writable in place at the same time.
    pub fn get_disjoint_mut(&mut self, first: usize, second: usize) -> (r: (&mut [u8], &mut [u8]))
        requires
            old(self).wf(),
            first < old(self).spec_len(),
            second < old(self).spec_len(),
            first != second,
        ensures
            r.0@ == old(self)@[first as int],
            r.1@ == old(self)@[second as int],
            final(self).spec_symbol_size() == old(self).spec_symbol_size(),
            final(self).spec_bytes() == with_two_blocks(
                old(self).spec_bytes(),
                old(self).spec_symbol_size(),
                first as int,
                final(r.0)@,
                second as int,
                final(r.1)@,
            ),
    {
        let _ = self.bytes.len();
        proof {
            self.lemma_symbol_bounds(first as int);
            self.lemma_symbol_bounds(second as int);
        }
        let symbol_size = self.symbol_size;
        let first_start = first * symbol_size;
        let second_start = second * symbol_size;
        proof {
            if first < second {
                assert(first * symbol_size + symbol_size <= second * symbol_size) by (nonlinear_arith)
                    requires
                        first < second,
                ;
            } else {
                assert(second * symbol_size + symbol_size <= first * symbol_size) by (nonlinear_arith)
                    requires
                        second < first,
                ;
            }
        }
        let all = self.bytes.as_mut_slice();
        if first_start < second_start {
            split_two_blocks(all, first_start, second_start, symbol_size)
        } else {
            let (b, a) = split_two_blocks(all, second_start, first_start, symbol_size);
            (a, b)
        }
    }
}

/// `bytes` with the block at `a` replaced by `x` and the later block at `b` replaced by `y`.
pub open spec fn with_ordered_blocks(bytes: Seq<u8>, size: nat, a: int, x: Seq<u8>, b: int, y: Seq<u8>) -> Seq<u8> {
    bytes.subrange(0, a) + x + bytes.subrange(a + size, b) + y + bytes.subrange(
        b + size,
        bytes.len() as int,
    )
}

/// `bytes` with blocks `i` and `j` (distinct) replaced by `x` and `y`.
pub open spec fn with_two_blocks(bytes: Seq<u8>, size: nat, i: int, x: Seq<u8>, j: int, y: Seq<u8>) -> Seq<u8> {
    if i < j {
        with_ordered_blocks(bytes, size, i * size, x, j * size, y)
    } else {
        with_ordered_blocks(bytes, size, j * size, y, i * size, x)
    }
}

/// Replacing two distinct blocks of a whole number of blocks changes those two and no other.
pub proof fn lemma_with_two_blocks(
    bytes: Seq<u8>,
    size: nat,
    count: nat,
    i: int,
    x: Seq<u8>,
    j: int,
    y: Seq<u8>,
)
    requires
        size > 0,
        bytes.len() == count * size,
        0 <= i < count,
        0 <= j < count,
        i != j,
        x.len() == size,
        y.len() == size,
    ensures
        with_two_blocks(bytes, size, i, x, j, y).len() == bytes.len(),
        Seq::new(count, |k: int| block(with_two_blocks(bytes, size, i, x, j, y), size, k))
            =~= Seq::new(count, |k: int| block(bytes, size, k)).update(i, x).update(j, y),
{
    let nb = with_two_blocks(bytes, size, i, x, j, y);
    lemma_block_in_bounds(i, count as int, size as int);
    lemma_block_in_bounds(j, count as int, size as int);
    let lo = if i < j { i } else { j };
    let hi = if i < j { j } else { i };
    assert(lo * size + size <= hi * size) by (nonlinear_arith)
        requires
            lo < hi,
    ;
    assert forall|k: int| 0 <= k < count implies #[trigger] block(nb, size, k) == (if k == j {
        y
    } else if k == i {
        x
    } else {
        block(bytes, size, k)
    }) by {
        lemma_block_in_bounds(k, count as int, size as int);
        if k < lo {
            assert(k * size + size <= lo * size) by (nonlinear_arith)
                requires
                    k < lo,
            ;
            assert(block(nb, size, k) =~= block(bytes, size, k));
        } else if k == lo {
            assert(block(nb, size, k) =~= (if k == j { y } else { x }));
        } else if k < hi {
            assert(lo * size + size <= k * size) by (nonlinear_arith)
                requires
                    lo < k,
            ;
            assert(k * size + size <= hi * size) by (nonlinear_arith)
                requires
                    k < hi,
            ;
            assert(block(nb, size, k) =~= block(bytes, size, k));
        } else if k == hi {
            assert(block(nb, size, k) =~= (if k == j { y } else { x }));
        } else {
            assert(hi * size + size <= k * size) by (nonlinear_arith)
                requires
                    hi < k,
            ;
            assert(block(nb, size, k) =~= block(bytes, size, k));
        }
    }
}

fn swap_slices(a: &mut [u8], b: &mut [u8])
    requires
        old(a)@.len() == old(b)@.len(),
    ensures
        final(a)@ == old(b)@,
        final(b)@ == old(a)@,
{
    let ghost a0 = a@;
    let ghost b0 = b@;
    let n = a.len();
    let mut k: usize = 0;
    while k < n
        invariant
            n == a0.len(),
            a0.len() == b0.len(),
            a@.len() == n,
            b@.len() == n,
            k <= n,
            forall|t: int| 0 <= t < k ==> a@[t] == b0[t] && b@[t] == a0[t],
            forall|t: int| k <= t < n ==> a@[t] == a0[t] && b@[t] == b0[t],
        decreases n - k,
    {
        let tmp = a[k];
        let other = b[k];
        a[k] = other;
        b[k] = tmp;
        k += 1;
    }
    assert(a@ =~= b0);
    assert(b@ =~= a0);
}

impl SymbolSlab {
    /// Exchanges the contents of symbols `a` and `b`.
    pub fn swap_symbols(&mut self, a: usize, b: usize)
        requires
            old(self).wf(),
            a < old(self).spec_len(),
            b < old(self).spec_len(),
        ensures
            final(self).wf(),
            final(self).spec_symbol_size() == old(self).spec_symbol_size(),
            final(self)@ == old(self)@.update(a as int, old(self)@[b as int]).update(
                b as int,
                old(self)@[a as int],
            ),
    {
        if a == b {
            assert(self@ =~= old(self)@.update(a as int, old(self)@[b as int]).update(
                b as int,
                old(self)@[a as int],
            ));
            return ;
        }
        let ghost old_self = *self;
        proof {
            old_self.lemma_symbol_bounds(a as int);
            old_self.lemma_symbol_bounds(b as int);
            assert(old_self@[a as int].len() == old_self.spec_symbol_size());
            assert(old_self@[b as int].len() == old_self.spec_symbol_size());
        }
        let (a_symbol, b_symbol) = self.get_disjoint_mut(a, b);
        swap_slices(a_symbol, b_symbol);
        proof {
            lemma_with_two_blocks(
                old_self.spec_bytes(),
                old_self.spec_symbol_size(),
                old_self.spec_len(),
                a as int,
                old_self@[b as int],
                b as int,
                old_self@[a as int],
            );
            lemma_view_of_bytes(self, old_self.spec_len());
        }
    }

    /// Overwrites whole symbols starting at `start_symbol` with the bytes of `src`.
    pub fn copy_block_from(&mut self, start_symbol: usize, src: &[u8])
        requires
            old(self).wf(),
            src@.len() % old(self).spec_symbol_size() == 0,
            start_symbol * old(self).spec_symbol_size() + src@.len() <= old(self).spec_bytes().len(),
        ensures
            final(self).wf(),
            final(self).spec_symbol_size() == old(self).spec_symbol_size(),
            final(self).spec_bytes() == old(self).spec_bytes().subrange(
                0,
                start_symbol * old(self).spec_symbol_size(),
            ) + src@ + old(self).spec_bytes().subrange(
                start_symbol * old(self).spec_symbol_size() + src@.len(),
                old(self).spec_bytes().len() as int,
            ),
    {
        let ghost b0 = self.bytes@;
        let n = self.bytes.len();
        let start = start_symbol * self.symbol_size;
        let len = src.len();
        let mut k: usize = 0;
        while k < len
            invariant
                b0 == old(self).spec_bytes(),
                self.symbol_size == old(self).spec_symbol_size(),
                self.bytes@.len() == n,
                n == b0.len(),
                start + len <= n,
                len == src@.len(),
                k <= len,
                forall|t: int| 0 <= t < start ==> self.bytes@[t] == b0[t],
                forall|t: int| start + len <= t < n ==> self.bytes@[t] == b0[t],
                forall|t: int| start <= t < start + k ==> self.bytes@[t] == src@[t - start],
                forall|t: int| start + k <= t < start + len ==> self.bytes@[t] == b0[t],
            decreases len - k,
        {
            self.bytes.set(start + k, src[k]);
            k += 1;
        }
        assert(self.bytes@ =~= b0.subrange(0, start as int) + src@ + b0.subrange(
            start + len,
            n as int,
        ));
    }
}

fn split_block(slice: &mut [u8], start: usize, size: usize) -> (r: &mut [u8])
    requires
        start + size <= old(slice)@.len(),
    ensures
        r@ == old(slice)@.subrange(start as int, start + size),
        final(slice)@ == old(slice)@.subrange(0, start as int) + final(r)@ + old(slice)@.subrange(
            start + size,
            old(slice)@.len() as int,
        ),
{
    let (_, tail) = slice.split_at_mut(start);
    let (symbol, _) = tail.split_at_mut(size);
    symbol
}

fn split_two_blocks(slice: &mut [u8], a: usize, b: usize, size: usize) -> (r: (&mut [u8], &mut [u8]))
    requires
        a + size <= b,
        b + size <= old(slice)@.len(),
    ensures
        r.0@ == old(slice)@.subrange(a as int, a + size),
        r.1@ == old(slice)@.subrange(b as int, b + size),
        final(slice)@ == with_ordered_blocks(
            old(slice)@,
            size as nat,
            a as int,
            final(r.0)@,
            b as int,
            final(r.1)@,
        ),
{
    let (left, right) = slice.split_at_mut(b);
    let x = split_block(left, a, size);
    let y = split_block(right, 0, size);
    (x, y)
}

} // verus!
verus! {

/// After one symbol is rewritten in place, the slab holds the same symbols with that one replaced.
pub proof fn lemma_after_get_mut(old_slab: SymbolSlab, new_slab: SymbolSlab, index: int, new: Seq<u8>)
    requires
        old_slab.wf(),
        0 <= index < old_slab.spec_len(),
        new.len() == old_slab.spec_symbol_size(),
        new_slab.spec_symbol_size() == old_slab.spec_symbol_size(),
        new_slab.spec_bytes() == with_block(
            old_slab.spec_bytes(),
            old_slab.spec_symbol_size(),
            index,
            new,
        ),
    ensures
        new_slab.wf(),
        new_slab.spec_len() == old_slab.spec_len(),
        new_slab@ == old_slab@.update(index, new),
{
    let n = old_slab.spec_len();
    old_slab.lemma_symbol_bounds(index);
    lemma_with_block(old_slab.spec_bytes(), old_slab.spec_symbol_size(), n, index, new);
    assert(new_slab.spec_bytes().len() == n * new_slab.spec_symbol_size());
    assert((n * new_slab.spec_symbol_size()) % new_slab.spec_symbol_size() == 0) by {
        vstd::arithmetic::div_mod::lemma_mod_multiples_basic(
            n as int,
            new_slab.spec_symbol_size() as int,
        );
    }
    lemma_view_of_bytes(&new_slab, n);
    lemma_view_of_bytes(&old_slab, n);
}

/// After two distinct symbols are rewritten in place, the slab holds the same symbols with
/// those two replaced.
pub proof fn lemma_after_get_disjoint_mut(
    old_slab: SymbolSlab,
    new_slab: SymbolSlab,
    i: int,
    x: Seq<u8>,
    j: int,
    y: Seq<u8>,
)
    requires
        old_slab.wf(),
        0 <= i < old_slab.spec_len(),
        0 <= j < old_slab.spec_len(),
        i != j,
        x.len() == old_slab.spec_symbol_size(),
        y.len() == old_slab.spec_symbol_size(),
        new_slab.spec_symbol_size() == old_slab.spec_symbol_size(),
        new_slab.spec_bytes() == with_two_blocks(
            old_slab.spec_bytes(),
            old_slab.spec_symbol_size(),
            i,
            x,
            j,
            y,
        ),
    ensures
        new_slab.wf(),
        new_slab.spec_len() == old_slab.spec_len(),
        new_slab@ == old_slab@.update(i, x).update(j, y),
{
    let n = old_slab.spec_len();
    old_slab.lemma_symbol_bounds(i);
    lemma_with_two_blocks(old_slab.spec_bytes(), old_slab.spec_symbol_size(), n, i, x, j, y);
    assert(new_slab.spec_bytes().len() == n * new_slab.spec_symbol_size());
    assert((n * new_slab.spec_symbol_size()) % new_slab.spec_symbol_size() == 0) by {
        vstd::arithmetic::div_mod::lemma_mod_multiples_basic(
            n as int,
            new_slab.spec_symbol_size() as int,
        );
    }
    lemma_view_of_bytes(&new_slab, n);
    lemma_view_of_bytes(&old_slab, n);
}

/// Every symbol of a well-formed slab is `symbol_size` bytes long.
pub proof fn lemma_symbol_len(slab: SymbolSlab, i: int)
    requires
        slab.wf(),
        0 <= i < slab.spec_len(),
    ensures
        slab@[i].len() == slab.spec_symbol_size(),
{
    slab.lemma_symbol_bounds(i);
}

/// Two slabs of the same symbol size holding the same symbols hold the same bytes.
pub proof fn lemma_same_symbols_same_bytes(a: SymbolSlab, b: SymbolSlab)
    requires
        a.wf(),
        b.wf(),
        a.spec_symbol_size() == b.spec_symbol_size(),
        a@ == b@,
    ensures
        a.spec_bytes() == b.spec_bytes(),
{
    let size = a.spec_symbol_size() as int;
    let n = a.spec_len() as int;
    assert(a@.len() == a.spec_len());
    assert(b@.len() == b.spec_len());
    assert(b.spec_len() == n);
    if n > 0 {
        a.lemma_symbol_bounds(0);
        b.lemma_symbol_bounds(0);
    } else {
        vstd::arithmetic::div_mod::lemma_fundamental_div_mod(a.spec_bytes().len() as int, size);
        vstd::arithmetic::div_mod::lemma_fundamental_div_mod(b.spec_bytes().len() as int, size);
        assert(size * 0 == 0);
    }
    assert(a.spec_bytes().len() == n * size);
    assert(b.spec_bytes().len() == n * size);
    assert forall|j: int| 0 <= j < n * size implies a.spec_bytes()[j] == b.spec_bytes()[j] by {
        let i = j / size;
        let k = j % size;
        vstd::arithmetic::div_mod::lemma_fundamental_div_mod(j, size);
        assert(0 <= k < size);
        assert(0 <= i < n) by {
            if i >= n {
                assert(i * size >= n * size) by (nonlinear_arith)
                    requires
                        i >= n,
                        size > 0,
                ;
            }
        }
        a.lemma_symbol_bounds(i);
        b.lemma_symbol_bounds(i);
        assert(a@[i][k] == a.spec_bytes()[i * size + k]);
        assert(b@[i][k] == b.spec_bytes()[i * size + k]);
        assert(j == size * i + k);
        assert(size * i == i * size) by (nonlinear_arith);
    }
    assert(a.spec_bytes() =~= b.spec_bytes());
}

} // verus!
