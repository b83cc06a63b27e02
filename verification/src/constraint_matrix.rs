//! The columns that one encoding symbol's row of the constraint matrix sets, from its tuple.

use vstd::prelude::*;

verus! {

/// `value + addend` reduced once modulo `modulus`.
pub open spec fn add_mod(value: int, addend: int, modulus: int) -> int {
    if value + addend >= modulus {
        value + addend - modulus
    } else {
        value + addend
    }
}

/// Starting at `v` and adding `a1` modulo `p1`, a value below `pi` comes within `fuel` steps.
pub open spec fn reaches_pi(v: int, a1: int, p1: int, pi: int, fuel: nat) -> bool
    decreases fuel,
{
    v < pi || (fuel > 0 && reaches_pi(add_mod(v, a1, p1), a1, p1, pi, (fuel - 1) as nat))
}

/// The first value below `pi` met from `v` by adding `a1` modulo `p1`, within `fuel` steps.
pub open spec fn skip_to_pi(v: int, a1: int, p1: int, pi: int, fuel: nat) -> int
    decreases fuel,
{
    if v < pi || fuel == 0 {
        v
    } else {
        skip_to_pi(add_mod(v, a1, p1), a1, p1, pi, (fuel - 1) as nat)
    }
}

/// The `i`-th LT column: `b` plus `i` times `a`, each step reduced modulo `lt`.
pub open spec fn lt_value(b: int, a: int, lt: int, i: nat) -> int
    decreases i,
{
    if i == 0 {
        b
    } else {
        add_mod(lt_value(b, a, lt, (i - 1) as nat), a, lt)
    }
}

/// The `i`-th PI column offset: from `b1`, stepping by `a1` modulo `p1` and skipping every
/// value that is not below `pi`.
pub open spec fn pi_value(b1: int, a1: int, p1: int, pi: int, i: nat) -> int
    decreases i,
{
    if i == 0 {
        skip_to_pi(b1, a1, p1, pi, p1 as nat)
    } else {
        skip_to_pi(add_mod(pi_value(b1, a1, p1, pi, (i - 1) as nat), a1, p1), a1, p1, pi, p1 as nat)
    }
}

/// The columns of an encoding symbol's row: `max(d, 1)` LT columns, then `max(d1, 1)`
/// columns among the `pi` PI columns that follow the `lt` LT columns.
pub open spec fn enc_seq(tuple: (u32, u32, u32, u32, u32, u32), lt: int, pi: int, p1: int) -> Seq<usize> {
    let (d, a, b, d1, a1, b1) = tuple;
    let n = if d == 0 { 1nat } else { d as nat };
    let n1 = if d1 == 0 { 1nat } else { d1 as nat };
    Seq::new(n, |i: int| lt_value(b as int, a as int, lt, i as nat) as usize) + Seq::new(
        n1,
        |i: int| (lt + pi_value(b1 as int, a1 as int, p1, pi, i as nat)) as usize,
    )
}

/// `value + addend` reduced once modulo `modulus`.
fn add_mod_once(value: u32, addend: u32, modulus: u32) -> (r: u32)
    requires
        value + addend <= u32::MAX,
    ensures
        r == add_mod(value as int, addend as int, modulus as int),
{
    let sum = value + addend;
    if sum >= modulus {
        sum - modulus
    } else {
        sum
    }
}

/// Steps from `b1` by `a1` modulo `p1` until the value is below `pi_symbols`.
fn skip_past_pi(b1: u32, a1: u32, p1: u32, pi_symbols: u32) -> (r: u32)
    requires
        b1 < p1,
        a1 < p1,
        p1 + a1 <= u32::MAX + 1,
        forall|v: int| 0 <= v < p1 ==> #[trigger] reaches_pi(v, a1 as int, p1 as int, pi_symbols as int, p1 as nat),
    ensures
        r < pi_symbols,
        r < p1,
        r == skip_to_pi(b1 as int, a1 as int, p1 as int, pi_symbols as int, p1 as nat),
{
    let mut v = b1;
    let ghost mut fuel: nat = p1 as nat;
    proof {
        assert(reaches_pi(b1 as int, a1 as int, p1 as int, pi_symbols as int, p1 as nat));
    }
    while v >= pi_symbols
        invariant
            v < p1,
            a1 < p1,
            p1 + a1 <= u32::MAX + 1,
            reaches_pi(v as int, a1 as int, p1 as int, pi_symbols as int, fuel),
            skip_to_pi(b1 as int, a1 as int, p1 as int, pi_symbols as int, p1 as nat)
                == skip_to_pi(v as int, a1 as int, p1 as int, pi_symbols as int, fuel),
        decreases fuel,
    {
        v = add_mod_once(v, a1, p1);
        proof {
            fuel = (fuel - 1) as nat;
        }
    }
    v
}

/// The columns that an encoding symbol with tuple `(d, a, b, d1, a1, b1)` sets: `b`, then
/// `a` added modulo `lt_symbols` until there are `d`, then `lt_symbols` plus the PI offsets
/// from `b1` stepped by `a1` modulo `p1`, skipping those not below `pi_symbols`, until there
/// are `d1`.
pub fn enc_indices(
    source_tuple: (u32, u32, u32, u32, u32, u32),
    lt_symbols: u32,
    pi_symbols: u32,
    p1: u32,
) -> (r: Vec<usize>)
    requires
        source_tuple.0 > 1 ==> source_tuple.2 < lt_symbols && source_tuple.1 < lt_symbols,
        lt_symbols + source_tuple.1 <= u32::MAX + 1,
        source_tuple.5 < p1,
        source_tuple.4 < p1,
        p1 + source_tuple.4 <= u32::MAX + 1,
        lt_symbols + pi_symbols <= u32::MAX + 1,
        forall|v: int| 0 <= v < p1 ==> #[trigger] reaches_pi(
            v,
            source_tuple.4 as int,
            p1 as int,
            pi_symbols as int,
            p1 as nat,
        ),
    ensures
        r@ == enc_seq(source_tuple, lt_symbols as int, pi_symbols as int, p1 as int),
{
    let (d, a, b0, d1, a1, b1_0) = source_tuple;
    let mut out: Vec<usize> = Vec::new();
    let mut b = b0;
    out.push(b as usize);
    let mut i: u32 = 1;
    while i < d
        invariant
            1 <= i,
            i <= (if d == 0 { 1u32 } else { d }),
            d > 1 ==> b0 < lt_symbols && a < lt_symbols && b < lt_symbols,
            lt_symbols + a <= u32::MAX + 1,
            out@.len() == i,
            b == lt_value(b0 as int, a as int, lt_symbols as int, (i - 1) as nat),
            forall|j: int| 0 <= j < i ==> #[trigger] out@[j] == lt_value(b0 as int, a as int, lt_symbols as int, j as nat) as usize,
        decreases d - i,
    {
        b = add_mod_once(b, a, lt_symbols);
        out.push(b as usize);
        i += 1;
    }
    let ghost n: nat = if d == 0 { 1nat } else { d as nat };
    assert(out@.len() == n);
    let mut b1 = skip_past_pi(b1_0, a1, p1, pi_symbols);
    out.push((lt_symbols + b1) as usize);
    let mut k: u32 = 1;
    while k < d1
        invariant
            1 <= k,
            k <= (if d1 == 0 { 1u32 } else { d1 }),
            b1 < pi_symbols,
            b1 < p1,
            a1 < p1,
            p1 + a1 <= u32::MAX + 1,
            lt_symbols + pi_symbols <= u32::MAX + 1,
            forall|v: int| 0 <= v < p1 ==> #[trigger] reaches_pi(v, a1 as int, p1 as int, pi_symbols as int, p1 as nat),
            b1 == pi_value(b1_0 as int, a1 as int, p1 as int, pi_symbols as int, (k - 1) as nat),
            out@.len() == n + k,
            forall|j: int| 0 <= j < n ==> #[trigger] out@[j] == lt_value(b0 as int, a as int, lt_symbols as int, j as nat) as usize,
            forall|j: int| 0 <= j < k ==> #[trigger] out@[n + j] == (lt_symbols + pi_value(
                b1_0 as int,
                a1 as int,
                p1 as int,
                pi_symbols as int,
                j as nat,
            )) as usize,
        decreases d1 - k,
    {
        let next = add_mod_once(b1, a1, p1);
        b1 = skip_past_pi(next, a1, p1, pi_symbols);
        out.push((lt_symbols + b1) as usize);
        k += 1;
    }
    proof {
        let expected = enc_seq(source_tuple, lt_symbols as int, pi_symbols as int, p1 as int);
        let n1: nat = if d1 == 0 { 1nat } else { d1 as nat };
        let first = Seq::new(n, |j: int| lt_value(b0 as int, a as int, lt_symbols as int, j as nat) as usize);
        let second = Seq::new(
            n1,
            |j: int| (lt_symbols + pi_value(b1_0 as int, a1 as int, p1 as int, pi_symbols as int, j as nat)) as usize,
        );
        assert(expected == first + second);
        assert(k == n1);
        assert forall|j: int| 0 <= j < out@.len() implies out@[j] == (first + second)[j] by {
            if j < n {
                assert(out@[j] == first[j]);
            } else {
                let jj = j - n;
                assert(out@[n + jj] == second[jj]);
            }
        }
        assert(out@ =~= first + second);
    }
    out
}

} // verus!
