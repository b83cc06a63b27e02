//! Byte-slice arithmetic over GF(256): each byte of a symbol is one field element.

use crate::octet::{Octet, gf_mul_spec, lemma_gf_mul_identities, xtime};
use vstd::prelude::*;

verus! {

/// Element-wise XOR of two equally long byte sequences.
pub open spec fn xor_seq(a: Seq<u8>, b: Seq<u8>) -> Seq<u8> {
    Seq::new(a.len(), |i: int| a[i] ^ b[i])
}

/// Every byte multiplied by `scalar`.
pub open spec fn scale_seq(a: Seq<u8>, scalar: u8) -> Seq<u8> {
    Seq::new(a.len(), |i: int| gf_mul_spec(scalar, a[i]))
}

/// `dest + scalar * src`, element-wise.
pub open spec fn fused_add_seq(dest: Seq<u8>, src: Seq<u8>, scalar: u8) -> Seq<u8> {
    Seq::new(dest.len(), |i: int| dest[i] ^ gf_mul_spec(scalar, src[i]))
}

/// `alpha * dest + src`, element-wise.
pub open spec fn alpha_add_seq(dest: Seq<u8>, src: Seq<u8>) -> Seq<u8> {
    Seq::new(dest.len(), |i: int| xtime(dest[i]) ^ src[i])
}

/// All bytes are zero.
pub open spec fn all_zero(a: Seq<u8>) -> bool {
    forall|i: int| 0 <= i < a.len() ==> a[i] == 0
}

/// XOR of column `offset` over the first `k` of the given byte sequences.
pub open spec fn xor_column(slices: Seq<&[u8]>, offset: int, k: nat) -> u8
    decreases k,
{
    if k == 0 {
        0u8
    } else {
        xor_column(slices, offset, (k - 1) as nat) ^ slices[k - 1]@[offset]
    }
}

proof fn lemma_xor_facts(a: u8, b: u8)
    ensures
        a ^ 0u8 == a,
        0u8 ^ a == a,
        a ^ a == 0u8,
        (a ^ b) ^ b == a,
        a ^ b == b ^ a,
        (a | b == 0u8) <==> (a == 0u8 && b == 0u8),
{
    assert(a ^ 0u8 == a) by (bit_vector);
    assert(0u8 ^ a == a) by (bit_vector);
    assert(a ^ a == 0u8) by (bit_vector);
    assert((a ^ b) ^ b == a) by (bit_vector);
    assert(a ^ b == b ^ a) by (bit_vector);
    assert((a | b == 0u8) <==> (a == 0u8 && b == 0u8)) by (bit_vector);
}

/// Chooses the byte-wise XOR routine for symbols of one length.
#[derive(Clone, Copy, Debug)]
pub struct AddAssignFastPath {}

/// Chooses the multiply-and-add routine for symbols of one length.
#[derive(Clone, Copy, Debug)]
pub struct FusedAddAssignMulScalarFastPath {}

/// Chooses the alpha-multiply-and-add routine for symbols of one length.
#[derive(Clone, Copy, Debug)]
pub struct FusedMulAssignAlphaAddAssignFastPath {}

impl AddAssignFastPath {
    pub fn new(symbol_len: usize) -> (r: AddAssignFastPath) {
        AddAssignFastPath {  }
    }

    /// `dest += src`.
    pub fn apply(self, dest: &mut [u8], src: &[u8])
        requires
            old(dest)@.len() == src@.len(),
        ensures
            final(dest)@ == xor_seq(old(dest)@, src@),
    {
        self.apply_same_len(dest, src);
    }

    /// `dest += src` for slices already known to have the same length.
    pub fn apply_same_len(self, dest: &mut [u8], src: &[u8])
        requires
            old(dest)@.len() == src@.len(),
        ensures
            final(dest)@ == xor_seq(old(dest)@, src@),
    {
        add_assign_scalar(dest, src);
    }
}

impl FusedAddAssignMulScalarFastPath {
    pub fn new(symbol_len: usize) -> (r: FusedAddAssignMulScalarFastPath) {
        FusedAddAssignMulScalarFastPath {  }
    }

    /// `dest += scalar * src`.
    pub fn apply(self, dest: &mut [u8], src: &[u8], scalar: &Octet)
        requires
            old(dest)@.len() == src@.len(),
        ensures
            final(dest)@ == fused_add_seq(old(dest)@, src@, scalar@),
    {
        if scalar.is_zero() {
            proof {
                assert forall|i: int| 0 <= i < old(dest)@.len() implies #[trigger] dest@[i]
                    == fused_add_seq(old(dest)@, src@, scalar@)[i] by {
                    lemma_gf_mul_identities(src@[i]);
                    lemma_xor_facts(dest@[i], 0);
                }
                assert(dest@ =~= fused_add_seq(old(dest)@, src@, scalar@));
            }
            return ;
        }
        self.apply_nonzero(dest, src, scalar);
    }

    /// `dest += scalar * src` for a nonzero scalar.
    pub fn apply_nonzero(self, dest: &mut [u8], src: &[u8], scalar: &Octet)
        requires
            old(dest)@.len() == src@.len(),
        ensures
            final(dest)@ == fused_add_seq(old(dest)@, src@, scalar@),
    {
        if scalar.value() == 1 {
            let ghost d0 = dest@;
            AddAssignFastPath {  }.apply(dest, src);
            proof {
                assert forall|i: int| 0 <= i < d0.len() implies #[trigger] dest@[i]
                    == fused_add_seq(d0, src@, scalar@)[i] by {
                    lemma_gf_mul_identities(src@[i]);
                }
                assert(dest@ =~= fused_add_seq(d0, src@, scalar@));
            }
            return ;
        }
        let table = scalar.mul_table();
        fused_addassign_table(dest, src, &table);
        proof {
            assert(dest@ =~= fused_add_seq(old(dest)@, src@, scalar@));
        }
    }
}

impl FusedMulAssignAlphaAddAssignFastPath {
    pub fn new(symbol_len: usize) -> (r: FusedMulAssignAlphaAddAssignFastPath) {
        FusedMulAssignAlphaAddAssignFastPath {  }
    }

    /// `dest = alpha * dest + src`.
    pub fn apply(self, dest: &mut [u8], src: &[u8])
        requires
            old(dest)@.len() == src@.len(),
        ensures
            final(dest)@ == alpha_add_seq(old(dest)@, src@),
    {
        fused_mulassign_alpha_addassign_scalar(dest, src);
    }
}

/// `dest += src`, byte by byte.
pub fn add_assign(dest: &mut [u8], src: &[u8])
    requires
        old(dest)@.len() == src@.len(),
    ensures
        final(dest)@ == xor_seq(old(dest)@, src@),
{
    AddAssignFastPath::new(dest.len()).apply(dest, src);
}

/// `dest += src`, returning whether the result is all zeros.
pub fn add_assign_and_check_zero(dest: &mut [u8], src: &[u8]) -> (r: bool)
    requires
        old(dest)@.len() == src@.len(),
    ensures
        final(dest)@ == xor_seq(old(dest)@, src@),
        r == all_zero(final(dest)@),
{
    add_assign_and_check_zero_scalar(dest, src)
}

fn add_assign_scalar(dest: &mut [u8], src: &[u8])
    requires
        old(dest)@.len() == src@.len(),
    ensures
        final(dest)@ == xor_seq(old(dest)@, src@),
{
    let ghost d0 = dest@;
    let n = dest.len();
    let mut i: usize = 0;
    while i < n
        invariant
            n == d0.len(),
            src@.len() == n,
            dest@.len() == n,
            i <= n,
            forall|j: int| 0 <= j < i ==> dest@[j] == d0[j] ^ src@[j],
            forall|j: int| i <= j < n ==> dest@[j] == d0[j],
        decreases n - i,
    {
        let v = dest[i] ^ src[i];
        dest[i] = v;
        i += 1;
    }
    assert(dest@ =~= xor_seq(d0, src@));
}

fn add_assign_and_check_zero_scalar(dest: &mut [u8], src: &[u8]) -> (r: bool)
    requires
        old(dest)@.len() == src@.len(),
    ensures
        final(dest)@ == xor_seq(old(dest)@, src@),
        r == all_zero(final(dest)@),
{
    let ghost d0 = dest@;
    let n = dest.len();
    let mut combined = 0u8;
    let mut i: usize = 0;
    while i < n
        invariant
            n == d0.len(),
            src@.len() == n,
            dest@.len() == n,
            i <= n,
            forall|j: int| 0 <= j < i ==> dest@[j] == d0[j] ^ src@[j],
            forall|j: int| i <= j < n ==> dest@[j] == d0[j],
            (combined == 0) == (forall|j: int| 0 <= j < i ==> dest@[j] == 0),
        decreases n - i,
    {
        let ghost before = dest@;
        let ghost old_combined = combined;
        let v = dest[i] ^ src[i];
        dest[i] = v;
        proof {
            lemma_xor_facts(combined, v);
        }
        combined = combined | v;
        proof {
            assert forall|j: int| 0 <= j < i implies dest@[j] == before[j] by {}
            if combined == 0 {
                assert forall|j: int| 0 <= j < i + 1 implies dest@[j] == 0 by {
                    if j < i {
                        assert(before[j] == 0);
                    }
                }
            } else if v != 0 {
                assert(dest@[i as int] != 0);
            } else {
                assert(old_combined != 0);
                let j = choose|j: int| 0 <= j < i && before[j] != 0;
                assert(dest@[j] != 0);
            }
        }
        i += 1;
    }
    assert(dest@ =~= xor_seq(d0, src@));
    combined == 0
}

/// `dest *= scalar`, byte by byte.
pub fn mulassign_scalar(dest: &mut [u8], scalar: &Octet)
    ensures
        final(dest)@ == scale_seq(old(dest)@, scalar@),
{
    let ghost d0 = dest@;
    if scalar.is_zero() {
        let n = dest.len();
        let mut i: usize = 0;
        while i < n
            invariant
                n == d0.len(),
                dest@.len() == n,
                i <= n,
                scalar@ == 0,
                forall|j: int| 0 <= j < i ==> dest@[j] == 0,
            decreases n - i,
        {
            dest[i] = 0;
            i += 1;
        }
        proof {
            assert forall|j: int| 0 <= j < n implies #[trigger] dest@[j] == scale_seq(
                d0,
                scalar@,
            )[j] by {
                lemma_gf_mul_identities(d0[j]);
            }
            assert(dest@ =~= scale_seq(d0, scalar@));
        }
    } else if scalar.value() != 1 {
        if bytes_are_zero(dest) {
            proof {
                assert forall|j: int| 0 <= j < d0.len() implies #[trigger] dest@[j] == scale_seq(
                    d0,
                    scalar@,
                )[j] by {
                    lemma_gf_mul_identities(scalar@);
                }
                assert(dest@ =~= scale_seq(d0, scalar@));
            }
            return ;
        }
        let table = scalar.mul_table();
        mulassign_table(dest, &table);
        proof {
            assert(dest@ =~= scale_seq(d0, scalar@));
        }
    } else {
        proof {
            assert forall|j: int| 0 <= j < d0.len() implies #[trigger] dest@[j] == scale_seq(
                d0,
                scalar@,
            )[j] by {
                lemma_gf_mul_identities(d0[j]);
            }
            assert(dest@ =~= scale_seq(d0, scalar@));
        }
    }
}

/// `dest = alpha * dest + src`.
pub fn fused_mulassign_alpha_add_assign(dest: &mut [u8], src: &[u8])
    requires
        old(dest)@.len() == src@.len(),
    ensures
        final(dest)@ == alpha_add_seq(old(dest)@, src@),
{
    FusedMulAssignAlphaAddAssignFastPath::new(dest.len()).apply(dest, src);
}

/// `dest += scalar * src`.
pub fn fused_addassign_mul_scalar(dest: &mut [u8], src: &[u8], scalar: &Octet)
    requires
        old(dest)@.len() == src@.len(),
    ensures
        final(dest)@ == fused_add_seq(old(dest)@, src@, scalar@),
{
    FusedAddAssignMulScalarFastPath::new(dest.len()).apply(dest, src, scalar);
}

/// Whether every byte is zero.
pub fn bytes_are_zero(bytes: &[u8]) -> (r: bool)
    ensures
        r == all_zero(bytes@),
{
    let prefix_len = if bytes.len() < 16 {
        bytes.len()
    } else {
        16
    };
    if !bytes_are_zero_scalar(&bytes[0..prefix_len]) {
        proof {
            let p = bytes@.subrange(0, prefix_len as int);
            let j = choose|j: int| 0 <= j < p.len() && p[j] != 0;
            assert(bytes@[j] != 0);
        }
        return false;
    }
    let rest = &bytes[prefix_len..bytes.len()];
    let r = bytes_are_zero_scalar(rest);
    proof {
        let p = bytes@.subrange(0, prefix_len as int);
        let q = bytes@.subrange(prefix_len as int, bytes@.len() as int);
        if r {
            assert forall|j: int| 0 <= j < bytes@.len() implies bytes@[j] == 0 by {
                if j < prefix_len {
                    assert(p[j] == bytes@[j]);
                } else {
                    assert(q[j - prefix_len] == bytes@[j]);
                }
            }
        } else {
            let j = choose|j: int| 0 <= j < q.len() && q[j] != 0;
            assert(bytes@[j + prefix_len] != 0);
        }
    }
    r
}

/// Whether the XOR of the given equally long slices is all zeros.
pub fn xor_slices_are_zero<const N: usize>(slices: [&[u8]; N]) -> (r: bool)
    requires
        N > 0,
        forall|k: int| 0 <= k < N ==> #[trigger] slices@[k]@.len() == slices@[0]@.len(),
    ensures
        r == (forall|offset: int|
            0 <= offset < slices@[0]@.len() ==> #[trigger] xor_column(slices@, offset, N as nat) == 0),
{
    xor_slices_are_zero_scalar(slices, 0)
}

fn bytes_are_zero_scalar(bytes: &[u8]) -> (r: bool)
    ensures
        r == all_zero(bytes@),
{
    let n = bytes.len();
    let mut i: usize = 0;
    while i < n
        invariant
            n == bytes@.len(),
            i <= n,
            forall|j: int| 0 <= j < i ==> bytes@[j] == 0,
        decreases n - i,
    {
        if bytes[i] != 0 {
            return false;
        }
        i += 1;
    }
    true
}

fn xor_slices_are_zero_scalar<const N: usize>(slices: [&[u8]; N], start: usize) -> (r: bool)
    requires
        N > 0,
        start == 0,
        forall|k: int| 0 <= k < N ==> #[trigger] slices@[k]@.len() == slices@[0]@.len(),
    ensures
        r == (forall|offset: int|
            0 <= offset < slices@[0]@.len() ==> #[trigger] xor_column(slices@, offset, N as nat) == 0),
{
    let ghost views = slices@;
    let len = slices[0].len();
    let mut offset = start;
    while offset < len
        invariant
            len == slices@[0]@.len(),
            start <= offset <= len,
            start == 0,
            views == slices@,
            views.len() == N,
            forall|k: int| 0 <= k < N ==> #[trigger] slices@[k]@.len() == slices@[0]@.len(),
            forall|o: int| 0 <= o < offset ==> #[trigger] xor_column(views, o, N as nat) == 0,
        decreases len - offset,
    {
        let mut combined = 0u8;
        let mut k: usize = 0;
        while k < N
            invariant
                k <= N,
                offset < len,
                len == slices@[0]@.len(),
                views == slices@,
                views.len() == N,
                forall|k: int| 0 <= k < N ==> #[trigger] slices@[k]@.len() == slices@[0]@.len(),
                combined == xor_column(views, offset as int, k as nat),
            decreases N - k,
        {
            combined = combined ^ slices[k][offset];
            k += 1;
        }
        if combined != 0 {
            return false;
        }
        offset += 1;
    }
    true
}

fn mulassign_table(dest: &mut [u8], table: &Vec<u8>)
    requires
        table@.len() == 256,
    ensures
        final(dest)@ == Seq::new(old(dest)@.len(), |i: int| table@[old(dest)@[i] as int]),
{
    let ghost d0 = dest@;
    let n = dest.len();
    let mut i: usize = 0;
    while i < n
        invariant
            n == d0.len(),
            dest@.len() == n,
            table@.len() == 256,
            i <= n,
            forall|j: int| 0 <= j < i ==> dest@[j] == table@[d0[j] as int],
            forall|j: int| i <= j < n ==> dest@[j] == d0[j],
        decreases n - i,
    {
        let v = table[dest[i] as usize];
        dest[i] = v;
        i += 1;
    }
    assert(dest@ =~= Seq::new(d0.len(), |i: int| table@[d0[i] as int]));
}

fn fused_addassign_table(dest: &mut [u8], src: &[u8], table: &Vec<u8>)
    requires
        table@.len() == 256,
        old(dest)@.len() == src@.len(),
    ensures
        final(dest)@ == Seq::new(
            old(dest)@.len(),
            |i: int| old(dest)@[i] ^ table@[src@[i] as int],
        ),
{
    let ghost d0 = dest@;
    let n = dest.len();
    let mut i: usize = 0;
    while i < n
        invariant
            n == d0.len(),
            dest@.len() == n,
            src@.len() == n,
            table@.len() == 256,
            i <= n,
            forall|j: int| 0 <= j < i ==> dest@[j] == d0[j] ^ table@[src@[j] as int],
            forall|j: int| i <= j < n ==> dest@[j] == d0[j],
        decreases n - i,
    {
        let v = dest[i] ^ table[src[i] as usize];
        dest[i] = v;
        i += 1;
    }
    assert(dest@ =~= Seq::new(d0.len(), |i: int| d0[i] ^ table@[src@[i] as int]));
}

fn fused_mulassign_alpha_addassign_scalar(dest: &mut [u8], src: &[u8])
    requires
        old(dest)@.len() == src@.len(),
    ensures
        final(dest)@ == alpha_add_seq(old(dest)@, src@),
{
    let ghost d0 = dest@;
    let n = dest.len();
    let mut i: usize = 0;
    while i < n
        invariant
            n == d0.len(),
            dest@.len() == n,
            src@.len() == n,
            i <= n,
            forall|j: int| 0 <= j < i ==> dest@[j] == xtime(d0[j]) ^ src@[j],
            forall|j: int| i <= j < n ==> dest@[j] == d0[j],
        decreases n - i,
    {
        let d = dest[i];
        let carry = d & 0x80;
        let mut v = d << 1;
        if carry != 0 {
            v = v ^ 0x1d;
        }
        v = v ^ src[i];
        dest[i] = v;
        i += 1;
    }
    assert(dest@ =~= alpha_add_seq(d0, src@));
}

} // verus!
