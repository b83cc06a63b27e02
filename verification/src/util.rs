//! Small integer helpers.

use vstd::prelude::*;

verus! {

/// `numerator / denominator` rounded up, as a `u32`.
pub fn int_div_ceil(numerator: u64, denominator: u64) -> (r: u32)
    requires
        denominator != 0,
        (numerator + denominator - 1) / (denominator as int) <= u32::MAX,
    ensures
        r == (numerator + denominator - 1) / (denominator as int),
        r * denominator >= numerator,
        r == 0 || (r - 1) * denominator < numerator,
{
    let q_exec = numerator / denominator;
    let rem_exec = numerator % denominator;
    proof {
        let n = numerator as int;
        let d = denominator as int;
        let q = n / d;
        let rem = n % d;
        vstd::arithmetic::div_mod::lemma_fundamental_div_mod(n, d);
        if rem != 0 {
            assert((n + d - 1) / d == q + 1) by {
                vstd::arithmetic::div_mod::lemma_div_plus_one(n - rem + d, d);
                assert(n + d - 1 == (q + 1) * d + (rem - 1)) by (nonlinear_arith)
                    requires
                        n == d * q + rem,
                ;
                vstd::arithmetic::div_mod::lemma_fundamental_div_mod_converse(
                    n + d - 1,
                    d,
                    q + 1,
                    rem - 1,
                );
            }
        } else {
            assert((n + d - 1) / d == q) by {
                assert(n + d - 1 == q * d + (d - 1)) by (nonlinear_arith)
                    requires
                        n == d * q,
                ;
                vstd::arithmetic::div_mod::lemma_fundamental_div_mod_converse(n + d - 1, d, q, d - 1);
            }
        }
        let r = (n + d - 1) / d;
        assert(r * d >= n) by (nonlinear_arith)
            requires
                n == d * q + rem,
                0 <= rem < d,
                rem != 0 ==> r == q + 1,
                rem == 0 ==> r == q,
        ;
        assert(r == 0 || (r - 1) * d < n) by (nonlinear_arith)
            requires
                n == d * q + rem,
                0 <= rem < d,
                rem != 0 ==> r == q + 1,
                rem == 0 ==> r == q,
                d > 0,
        ;
    }
    let quotient = q_exec + if rem_exec != 0 {
        1
    } else {
        0
    };
    quotient as u32
}

} // verus!
