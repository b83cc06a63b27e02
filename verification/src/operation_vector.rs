//! Symbol operations recorded by the solver, and their replay on a slab of symbols.

use crate::octet::{
    Octet,
    gf_mul_spec,
    lemma_gf_mul_distributive_left,
    lemma_gf_mul_identities,
};
use crate::octets::{
    AddAssignFastPath,
    FusedAddAssignMulScalarFastPath,
    add_assign,
    all_zero,
    bytes_are_zero,
    fused_add_seq,
    fused_addassign_mul_scalar,
    mulassign_scalar,
    scale_seq,
    xor_seq,
};
use crate::symbol_slab::{
    SymbolSlab,
    lemma_after_get_disjoint_mut,
    lemma_after_get_mut,
    lemma_symbol_len,
};
use vstd::prelude::*;
use crate::sparse_spec::lemma_xor_basics;

verus! {

pub const REPLAY_BATCH_FAST_PATH_MIN_SYMBOLS: usize = 500;

pub const REPLAY_BATCH_FAST_PATH_MIN_DESTS_FOR_LARGE_SYMBOLS: usize = 2;

pub const REPLAY_BATCH_FAST_PATH_LARGE_SYMBOLS: usize = 20_000;

pub const REPLAY_BATCH_FAST_PATH_MAX_SYMBOLS: usize = 65535;

/// One recorded row operation on the right-hand side symbols.
#[derive(Clone, Debug, PartialEq, Eq)]
pub enum SymbolOps {
    /// Exchange two symbols.
    Swap(usize, usize),
    /// Multiply one symbol by a scalar.
    Scale(usize, Octet),
    /// `dest += scalar * src`.
    FusedAdd { dest: usize, src: usize, scalar: Octet },
    /// `dest += scalar * src` for each listed destination, in order.
    FusedAddBatch { src: usize, dests: Vec<(usize, Octet)> },
}

/// Every symbol has `size` bytes.
pub open spec fn uniform(s: Seq<Seq<u8>>, size: nat) -> bool {
    forall|k: int| 0 <= k < s.len() ==> #[trigger] s[k].len() == size
}

/// `dest += scalar * src` on a sequence of symbols; a zero scalar or a destination
/// outside the sequence leaves it unchanged.
pub open spec fn fused_add_symbols(s: Seq<Seq<u8>>, dest: int, src: int, scalar: u8) -> Seq<
    Seq<u8>,
> {
    if scalar == 0 || !(0 <= dest < s.len()) {
        s
    } else {
        s.update(dest, fused_add_seq(s[dest], s[src], scalar))
    }
}

/// The destinations of a batch applied in order.
pub open spec fn batch_effect(s: Seq<Seq<u8>>, src: int, dests: Seq<(usize, Octet)>) -> Seq<
    Seq<u8>,
>
    decreases dests.len(),
{
    if dests.len() == 0 {
        s
    } else {
        fused_add_symbols(
            batch_effect(s, src, dests.drop_last()),
            dests.last().0 as int,
            src,
            dests.last().1@,
        )
    }
}

/// `dest += scalar * src`; when both are the same symbol it is multiplied by `1 + scalar`.
pub open spec fn fused_add_effect(s: Seq<Seq<u8>>, dest: int, src: int, scalar: u8) -> Seq<
    Seq<u8>,
> {
    if dest == src {
        s.update(dest, scale_seq(s[dest], 1u8 ^ scalar))
    } else {
        s.update(dest, fused_add_seq(s[dest], s[src], scalar))
    }
}

/// What one operation does to a sequence of symbols.
pub open spec fn op_effect(op: SymbolOps, s: Seq<Seq<u8>>) -> Seq<Seq<u8>> {
    match op {
        SymbolOps::Swap(a, b) => s.update(a as int, s[b as int]).update(b as int, s[a as int]),
        SymbolOps::Scale(row, scalar) => s.update(row as int, scale_seq(s[row as int], scalar@)),
        SymbolOps::FusedAdd { dest, src, scalar } => fused_add_effect(
            s,
            dest as int,
            src as int,
            scalar@,
        ),
        SymbolOps::FusedAddBatch { src, dests } => batch_effect(s, src as int, dests@),
    }
}

/// The operations applied one after another.
pub open spec fn ops_effect(ops: Seq<SymbolOps>, s: Seq<Seq<u8>>) -> Seq<Seq<u8>>
    decreases ops.len(),
{
    if ops.len() == 0 {
        s
    } else {
        op_effect(ops.last(), ops_effect(ops.drop_last(), s))
    }
}

/// The batch may run on these symbols: unless it is empty its source exists, and unless the
/// source is zero every destination with a nonzero scalar exists and differs from the source.
pub open spec fn batch_valid(s: Seq<Seq<u8>>, src: int, dests: Seq<(usize, Octet)>) -> bool {
    &&& dests.len() > 0 ==> 0 <= src < s.len()
    &&& (all_zero(s[src]) || forall|i: int|
        0 <= i < dests.len() && #[trigger] dests[i].1@ != 0 ==> dests[i].0 < s.len()
            && dests[i].0 != src)
}

/// The operation may run on these symbols.
pub open spec fn op_valid(op: SymbolOps, s: Seq<Seq<u8>>) -> bool {
    match op {
        SymbolOps::Swap(a, b) => a < s.len() && b < s.len(),
        SymbolOps::Scale(row, _) => row < s.len(),
        SymbolOps::FusedAdd { dest, src, .. } => dest < s.len() && src < s.len(),
        SymbolOps::FusedAddBatch { src, dests } => batch_valid(s, src as int, dests@),
    }
}

/// Adding `c` times a source to itself multiplies it by `1 + c`.
proof fn lemma_self_fused_add(x: Seq<u8>, c: u8)
    ensures
        fused_add_seq(x, x, c) == scale_seq(x, 1u8 ^ c),
{
    assert forall|i: int| 0 <= i < x.len() implies #[trigger] fused_add_seq(x, x, c)[i] == scale_seq(
        x,
        1u8 ^ c,
    )[i] by {
        lemma_gf_mul_distributive_left(1u8, c, x[i]);
        lemma_gf_mul_identities(x[i]);
    }
    assert(fused_add_seq(x, x, c) =~= scale_seq(x, 1u8 ^ c));
}

/// Adding a multiple of a zero symbol changes nothing.
pub proof fn lemma_fused_add_zero(x: Seq<u8>, z: Seq<u8>, c: u8)
    requires
        all_zero(z),
        z.len() >= x.len(),
    ensures
        fused_add_seq(x, z, c) == x,
{
    assert forall|i: int| 0 <= i < x.len() implies #[trigger] fused_add_seq(x, z, c)[i] == x[i] by {
        lemma_gf_mul_identities(c);
        let v = x[i];
        lemma_xor_basics(v, 0, 0);
    }
    assert(fused_add_seq(x, z, c) =~= x);
}

/// A batch whose source is zero leaves every symbol as it was.
pub proof fn lemma_batch_zero_source(s: Seq<Seq<u8>>, src: int, dests: Seq<(usize, Octet)>, size: nat)
    requires
        0 <= src < s.len(),
        uniform(s, size),
        all_zero(s[src]),
    ensures
        batch_effect(s, src, dests) == s,
    decreases dests.len(),
{
    if dests.len() > 0 {
        lemma_batch_zero_source(s, src, dests.drop_last(), size);
        let d = dests.last().0 as int;
        if dests.last().1@ != 0 && 0 <= d < s.len() {
            lemma_fused_add_zero(s[d], s[src], dests.last().1@);
            assert(s.update(d, s[d]) =~= s);
        }
    }
}

/// Each step of a batch keeps the length, the symbol sizes, and the source.
pub proof fn lemma_batch_step(s: Seq<Seq<u8>>, src: int, dest: int, c: u8, size: nat)
    requires
        0 <= src < s.len(),
        uniform(s, size),
        c != 0 && 0 <= dest < s.len() ==> dest != src,
    ensures
        fused_add_symbols(s, dest, src, c).len() == s.len(),
        uniform(fused_add_symbols(s, dest, src, c), size),
        fused_add_symbols(s, dest, src, c)[src] == s[src],
{
    let r = fused_add_symbols(s, dest, src, c);
    assert forall|k: int| 0 <= k < r.len() implies #[trigger] r[k].len() == size by {}
}

/// `dest += src`; a symbol added to itself becomes zero.
fn addassign_symbol(symbols: &mut SymbolSlab, dest: usize, src: usize)
    requires
        old(symbols).wf(),
        dest < old(symbols).spec_len(),
        src < old(symbols).spec_len(),
    ensures
        final(symbols).wf(),
        final(symbols).spec_symbol_size() == old(symbols).spec_symbol_size(),
        final(symbols)@ == fused_add_effect(old(symbols)@, dest as int, src as int, 1u8),
{
    let ghost s0 = *symbols;
    proof {
        lemma_symbol_len(s0, dest as int);
        lemma_symbol_len(s0, src as int);
    }
    if dest == src {
        let zero = Octet::zero();
        mulassign_scalar(symbols.get_mut(dest), &zero);
        proof {
            let x = s0@[dest as int];
            lemma_after_get_mut(s0, *symbols, dest as int, scale_seq(x, 0u8));
            lemma_xor_basics(1, 0, 0);
        }
    } else {
        let (src_symbol, dest_symbol) = symbols.get_disjoint_mut(src, dest);
        add_assign(dest_symbol, src_symbol);
        proof {
            let x = s0@[dest as int];
            let y = s0@[src as int];
            lemma_after_get_disjoint_mut(s0, *symbols, src as int, y, dest as int, xor_seq(x, y));
            assert forall|i: int| 0 <= i < x.len() implies #[trigger] xor_seq(x, y)[i]
                == fused_add_seq(x, y, 1u8)[i] by {
                lemma_gf_mul_identities(y[i]);
            }
            assert(xor_seq(x, y) =~= fused_add_seq(x, y, 1u8));
            assert(s0@.update(src as int, y) =~= s0@);
        }
    }
}

/// `dest += scalar * src`, also when `dest` and `src` are the same symbol.
fn fused_addassign_symbol(symbols: &mut SymbolSlab, dest: usize, src: usize, scalar: Octet)
    requires
        old(symbols).wf(),
        dest < old(symbols).spec_len(),
        src < old(symbols).spec_len(),
    ensures
        final(symbols).wf(),
        final(symbols).spec_symbol_size() == old(symbols).spec_symbol_size(),
        final(symbols)@ == op_effect(SymbolOps::FusedAdd { dest, src, scalar }, old(symbols)@),
{
    let ghost s0 = *symbols;
    proof {
        lemma_symbol_len(s0, dest as int);
        lemma_symbol_len(s0, src as int);
    }
    if scalar.value() == 1 {
        addassign_symbol(symbols, dest, src);
    } else if dest == src {
        let combined = Octet::one().add(scalar);
        mulassign_scalar(symbols.get_mut(dest), &combined);
        proof {
            lemma_after_get_mut(s0, *symbols, dest as int, scale_seq(s0@[dest as int], combined@));
        }
    } else {
        let (src_symbol, dest_symbol) = symbols.get_disjoint_mut(src, dest);
        fused_addassign_mul_scalar(dest_symbol, src_symbol, &scalar);
        proof {
            let x = s0@[dest as int];
            let y = s0@[src as int];
            lemma_after_get_disjoint_mut(
                s0,
                *symbols,
                src as int,
                y,
                dest as int,
                fused_add_seq(x, y, scalar@),
            );
            assert(s0@.update(src as int, y) =~= s0@);
        }
    }
}

/// Applies one recorded operation to the symbols.
pub fn perform_op(op: &SymbolOps, symbols: &mut SymbolSlab)
    requires
        old(symbols).wf(),
        op_valid(*op, old(symbols)@),
    ensures
        final(symbols).wf(),
        final(symbols).spec_symbol_size() == old(symbols).spec_symbol_size(),
        final(symbols)@ == op_effect(*op, old(symbols)@),
{
    let ghost s0 = *symbols;
    match op {
        SymbolOps::Swap(a, b) => {
            symbols.swap_symbols(*a, *b);
        },
        SymbolOps::Scale(row, scalar) => {
            proof {
                lemma_symbol_len(s0, *row as int);
            }
            mulassign_scalar(symbols.get_mut(*row), scalar);
            proof {
                lemma_after_get_mut(s0, *symbols, *row as int, scale_seq(s0@[*row as int], scalar@));
            }
        },
        SymbolOps::FusedAdd { dest, src, scalar } => {
            fused_addassign_symbol(symbols, *dest, *src, *scalar);
        },
        SymbolOps::FusedAddBatch { src, dests } => {
            fused_addassign_symbol_batch_for_replay(symbols, *src, dests.as_slice());
        },
    }
}

/// Applies `dests[i] += scalar_i * symbols[src]` in order, as the solver records it.
pub(crate) fn fused_addassign_symbol_batch(
    symbols: &mut SymbolSlab,
    src: usize,
    dests: &[(usize, Octet)],
)
    requires
        old(symbols).wf(),
        batch_valid(old(symbols)@, src as int, dests@),
    ensures
        final(symbols).wf(),
        final(symbols).spec_symbol_size() == old(symbols).spec_symbol_size(),
        final(symbols)@ == batch_effect(old(symbols)@, src as int, dests@),
{
    fused_addassign_symbol_batch_inner::<false>(symbols, src, dests);
}

fn fused_addassign_symbol_batch_for_replay(
    symbols: &mut SymbolSlab,
    src: usize,
    dests: &[(usize, Octet)],
)
    requires
        old(symbols).wf(),
        batch_valid(old(symbols)@, src as int, dests@),
    ensures
        final(symbols).wf(),
        final(symbols).spec_symbol_size() == old(symbols).spec_symbol_size(),
        final(symbols)@ == batch_effect(old(symbols)@, src as int, dests@),
{
    fused_addassign_symbol_batch_inner::<true>(symbols, src, dests);
}

/// Whether a replayed batch of this shape takes the chunked fast paths.
pub fn use_replay_batch_fast_paths(symbol_count: usize, dest_count: usize) -> (r: bool)
    ensures
        r == (REPLAY_BATCH_FAST_PATH_MIN_SYMBOLS <= symbol_count
            <= REPLAY_BATCH_FAST_PATH_MAX_SYMBOLS && dest_count > 1 && (symbol_count
            < REPLAY_BATCH_FAST_PATH_LARGE_SYMBOLS || dest_count
            >= REPLAY_BATCH_FAST_PATH_MIN_DESTS_FOR_LARGE_SYMBOLS)),
{
    REPLAY_BATCH_FAST_PATH_MIN_SYMBOLS <= symbol_count && symbol_count
        <= REPLAY_BATCH_FAST_PATH_MAX_SYMBOLS && dest_count > 1 && (symbol_count
        < REPLAY_BATCH_FAST_PATH_LARGE_SYMBOLS || dest_count
        >= REPLAY_BATCH_FAST_PATH_MIN_DESTS_FOR_LARGE_SYMBOLS)
}

/// One step of a batch whose source symbol is nonzero: `dest += scalar * src`.
fn batch_step(
    symbols: &mut SymbolSlab,
    src: usize,
    dest: usize,
    scalar: Octet,
    add_fast_path: AddAssignFastPath,
    fused_fast_path: FusedAddAssignMulScalarFastPath,
)
    requires
        old(symbols).wf(),
        src < old(symbols).spec_len(),
        scalar@ != 0 ==> dest < old(symbols).spec_len() && dest != src,
    ensures
        final(symbols).wf(),
        final(symbols).spec_symbol_size() == old(symbols).spec_symbol_size(),
        final(symbols)@ == fused_add_symbols(old(symbols)@, dest as int, src as int, scalar@),
{
    if scalar.is_zero() {
        return ;
    }
    let ghost s0 = *symbols;
    proof {
        lemma_symbol_len(s0, dest as int);
        lemma_symbol_len(s0, src as int);
    }
    let (src_symbol, dest_symbol) = symbols.get_disjoint_mut(src, dest);
    let ghost x = s0@[dest as int];
    let ghost y = s0@[src as int];
    if scalar.value() == 1 {
        add_fast_path.apply_same_len(dest_symbol, src_symbol);
        proof {
            assert forall|i: int| 0 <= i < x.len() implies #[trigger] xor_seq(x, y)[i]
                == fused_add_seq(x, y, scalar@)[i] by {
                lemma_gf_mul_identities(y[i]);
            }
            assert(xor_seq(x, y) =~= fused_add_seq(x, y, scalar@));
        }
    } else {
        fused_fast_path.apply_nonzero(dest_symbol, src_symbol, &scalar);
    }
    proof {
        lemma_after_get_disjoint_mut(s0, *symbols, src as int, y, dest as int, fused_add_seq(x, y, scalar@));
        assert(s0@.update(src as int, y) =~= s0@);
    }
}

fn fused_addassign_symbol_batch_inner<const REUSE_FAST_PATHS: bool>(
    symbols: &mut SymbolSlab,
    src: usize,
    dests: &[(usize, Octet)],
)
    requires
        old(symbols).wf(),
        batch_valid(old(symbols)@, src as int, dests@),
    ensures
        final(symbols).wf(),
        final(symbols).spec_symbol_size() == old(symbols).spec_symbol_size(),
        final(symbols)@ == batch_effect(old(symbols)@, src as int, dests@),
{
    let ghost s0 = *symbols;
    let ghost size = s0.spec_symbol_size();
    proof {
        assert forall|k: int| 0 <= k < s0@.len() implies #[trigger] s0@[k].len() == size by {
            lemma_symbol_len(s0, k);
        }
    }
    if dests.len() == 0 {
        return ;
    }
    let symbol_size = symbols.symbol_size();
    let symbol_count = symbols.len();
    if bytes_are_zero(symbols.get(src)) {
        proof {
            lemma_batch_zero_source(s0@, src as int, dests@, size);
        }
        return ;
    }
    let add_fast_path = AddAssignFastPath::new(symbol_size);
    let fused_fast_path = FusedAddAssignMulScalarFastPath::new(symbol_size);
    if REUSE_FAST_PATHS && use_replay_batch_fast_paths(symbol_count, dests.len()) {
        let mut all_unit = true;
        let mut k: usize = 0;
        while k < dests.len()
            invariant
                k <= dests@.len(),
                all_unit == forall|j: int| 0 <= j < k ==> #[trigger] dests@[j].1@ == 1,
            decreases dests@.len() - k,
        {
            if dests[k].1.value() != 1 {
                all_unit = false;
            }
            k += 1;
        }
        if all_unit {
            addassign_unit_symbol_batch_for_replay(symbols, src, dests, add_fast_path);
            return ;
        }
    }
    let mut i: usize = 0;
    while i < dests.len()
        invariant
            i <= dests@.len(),
            symbols.wf(),
            symbols.spec_symbol_size() == size,
            batch_valid(s0@, src as int, dests@),
            !all_zero(s0@[src as int]),
            uniform(s0@, size),
            symbols@ == batch_effect(s0@, src as int, dests@.subrange(0, i as int)),
            symbols@.len() == s0@.len(),
            symbols@[src as int] == s0@[src as int],
            uniform(symbols@, size),
        decreases dests@.len() - i,
    {
        let (dest, scalar) = dests[i];
        let ghost before = symbols@;
        batch_step(symbols, src, dest, scalar, add_fast_path, fused_fast_path);
        proof {
            lemma_batch_step(before, src as int, dest as int, scalar@, size);
            assert(dests@.subrange(0, i + 1).drop_last() =~= dests@.subrange(0, i as int));
        }
        i += 1;
    }
    proof {
        assert(dests@.subrange(0, dests@.len() as int) =~= dests@);
    }
}

/// Adds the source to every destination of an all-unit batch, eight or four at a time
/// where a chunk's destinations are distinct from each other and from the source.
fn addassign_unit_symbol_batch_for_replay(
    symbols: &mut SymbolSlab,
    src: usize,
    dests: &[(usize, Octet)],
    add_fast_path: AddAssignFastPath,
)
    requires
        old(symbols).wf(),
        batch_valid(old(symbols)@, src as int, dests@),
        !all_zero(old(symbols)@[src as int]),
        forall|j: int| 0 <= j < dests@.len() ==> #[trigger] dests@[j].1@ == 1,
    ensures
        final(symbols).wf(),
        final(symbols).spec_symbol_size() == old(symbols).spec_symbol_size(),
        final(symbols)@ == batch_effect(old(symbols)@, src as int, dests@),
{
    let ghost s0 = *symbols;
    let ghost size = s0.spec_symbol_size();
    proof {
        assert forall|k: int| 0 <= k < s0@.len() implies #[trigger] s0@[k].len() == size by {
            lemma_symbol_len(s0, k);
        }
    }
    let fused_fast_path = FusedAddAssignMulScalarFastPath::new(symbols.symbol_size());
    let n = dests.len();
    let mut index: usize = 0;
    while index < n
        invariant
            n == dests@.len(),
            index <= n,
            symbols.wf(),
            symbols.spec_symbol_size() == size,
            batch_valid(s0@, src as int, dests@),
            !all_zero(s0@[src as int]),
            uniform(s0@, size),
            forall|j: int| 0 <= j < dests@.len() ==> #[trigger] dests@[j].1@ == 1,
            symbols@ == batch_effect(s0@, src as int, dests@.subrange(0, index as int)),
            symbols@.len() == s0@.len(),
            symbols@[src as int] == s0@[src as int],
            uniform(symbols@, size),
        decreases n - index,
    {
        let chunk_len: usize = if n - index >= 8 {
            8
        } else if n - index >= 4 {
            4
        } else {
            1
        };
        let step: usize = if chunk_len > 1 && unit_dest_chunk_is_disjoint(
            src,
            &dests[index..index + chunk_len],
        ) {
            chunk_len
        } else {
            1
        };
        let end = index + step;
        while index < end
            invariant
                n == dests@.len(),
                index <= end <= n,
                symbols.wf(),
                symbols.spec_symbol_size() == size,
                batch_valid(s0@, src as int, dests@),
                !all_zero(s0@[src as int]),
                uniform(s0@, size),
                forall|j: int| 0 <= j < dests@.len() ==> #[trigger] dests@[j].1@ == 1,
                symbols@ == batch_effect(s0@, src as int, dests@.subrange(0, index as int)),
                symbols@.len() == s0@.len(),
                symbols@[src as int] == s0@[src as int],
                uniform(symbols@, size),
            decreases end - index,
        {
            let (dest, scalar) = dests[index];
            let ghost before = symbols@;
            batch_step(symbols, src, dest, scalar, add_fast_path, fused_fast_path);
            proof {
                lemma_batch_step(before, src as int, dest as int, scalar@, size);
                assert(dests@.subrange(0, index + 1).drop_last() =~= dests@.subrange(
                    0,
                    index as int,
                ));
            }
            index += 1;
        }
    }
    proof {
        assert(dests@.subrange(0, n as int) =~= dests@);
    }
}

/// Whether a chunk's destinations differ from the source and from each other.
fn unit_dest_chunk_is_disjoint(src: usize, chunk: &[(usize, Octet)]) -> (r: bool)
    ensures
        r == ((forall|i: int| 0 <= i < chunk@.len() ==> #[trigger] chunk@[i].0 != src) && (forall|
            i: int,
            j: int,
        | 0 <= i < j < chunk@.len() ==> chunk@[i].0 != chunk@[j].0)),
{
    let mut offset: usize = 0;
    while offset < chunk.len()
        invariant
            offset <= chunk@.len(),
            forall|i: int| 0 <= i < offset ==> #[trigger] chunk@[i].0 != src,
            forall|i: int, j: int| 0 <= i < j < offset ==> chunk@[i].0 != chunk@[j].0,
        decreases chunk@.len() - offset,
    {
        let dest = chunk[offset].0;
        if dest == src {
            proof {
                assert(chunk@[offset as int].0 == src);
            }
            return false;
        }
        let mut other: usize = 0;
        while other < offset
            invariant
                other <= offset < chunk@.len(),
                dest == chunk@[offset as int].0,
                forall|i: int| 0 <= i < other ==> chunk@[i].0 != dest,
            decreases offset - other,
        {
            if chunk[other].0 == dest {
                proof {
                    assert(chunk@[other as int].0 == chunk@[offset as int].0);
                }
                return false;
            }
            other += 1;
        }
        offset += 1;
    }
    true
}

} // verus!

verus! {

/// Each operation may run on the symbols that the ones before it leave.
pub open spec fn ops_valid(ops: Seq<SymbolOps>, s: Seq<Seq<u8>>) -> bool
    decreases ops.len(),
{
    if ops.len() == 0 {
        true
    } else {
        ops_valid(ops.drop_last(), s) && op_valid(ops.last(), ops_effect(ops.drop_last(), s))
    }
}

/// Every symbol is zero.
pub open spec fn all_symbols_zero(s: Seq<Seq<u8>>) -> bool {
    forall|k: int| 0 <= k < s.len() ==> all_zero(#[trigger] s[k])
}

/// Two zero symbols of one size are equal.
pub proof fn lemma_zero_symbols_equal(a: Seq<u8>, b: Seq<u8>)
    requires
        all_zero(a),
        all_zero(b),
        a.len() == b.len(),
    ensures
        a == b,
{
    assert(a =~= b);
}

/// Scaling a zero symbol leaves it zero.
pub proof fn lemma_scale_zero(a: Seq<u8>, c: u8)
    requires
        all_zero(a),
    ensures
        scale_seq(a, c) == a,
{
    assert forall|i: int| 0 <= i < a.len() implies #[trigger] scale_seq(a, c)[i] == a[i] by {
        lemma_gf_mul_identities(c);
    }
    assert(scale_seq(a, c) =~= a);
}

/// A valid operation on symbols that are all zero leaves them all zero and unchanged.
pub proof fn lemma_op_on_zero(op: SymbolOps, s: Seq<Seq<u8>>, size: nat)
    requires
        uniform(s, size),
        all_symbols_zero(s),
        op_valid(op, s),
    ensures
        op_effect(op, s) == s,
{
    match op {
        SymbolOps::Swap(a, b) => {
            lemma_zero_symbols_equal(s[a as int], s[b as int]);
            assert(s.update(a as int, s[b as int]).update(b as int, s[a as int]) =~= s);
        },
        SymbolOps::Scale(row, c) => {
            lemma_scale_zero(s[row as int], c@);
            assert(s.update(row as int, s[row as int]) =~= s);
        },
        SymbolOps::FusedAdd { dest, src, scalar } => {
            if dest == src {
                lemma_scale_zero(s[dest as int], 1u8 ^ scalar@);
            } else {
                lemma_fused_add_zero(s[dest as int], s[src as int], scalar@);
            }
            assert(s.update(dest as int, s[dest as int]) =~= s);
        },
        SymbolOps::FusedAddBatch { src, dests } => {
            if dests@.len() > 0 {
                lemma_batch_zero_source(s, src as int, dests@, size);
            }
        },
    }
}

} // verus!
