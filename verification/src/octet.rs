//! Elements of GF(256) with the RFC 6330 reduction polynomial x^8 + x^4 + x^3 + x^2 + 1.

use vstd::prelude::*;
use vstd::std_specs::ops::{AddSpec, DivSpec, MulSpec, SubSpec};

verus! {

/// Multiplication by alpha (the element 2), reducing by 0x11d.
pub open spec fn xtime(a: u8) -> u8 {
    if a & 0x80u8 != 0u8 {
        (a << 1u8) ^ 0x1du8
    } else {
        a << 1u8
    }
}

/// alpha^k * a
pub open spec fn xtime_pow(a: u8, k: nat) -> u8
    decreases k,
{
    if k == 0 {
        a
    } else {
        xtime(xtime_pow(a, (k - 1) as nat))
    }
}

/// The XOR of the first `k` partial products of the shift-and-add product of `a` and `b`.
pub open spec fn gf_mul_prefix(a: u8, b: u8, k: nat) -> u8
    decreases k,
{
    if k == 0 {
        0u8
    } else {
        let j = (k - 1) as nat;
        let term = if (b >> (j as u8)) & 1u8 != 0u8 {
            xtime_pow(a, j)
        } else {
            0u8
        };
        gf_mul_prefix(a, b, j) ^ term
    }
}

/// The product of `a` and `b` in GF(256).
pub open spec fn gf_mul_spec(a: u8, b: u8) -> u8 {
    gf_mul_prefix(a, b, 8)
}

/// The same product written out term by term, for the bit-vector solver.
pub open spec fn gf_mul_closed(a: u8, b: u8) -> u8 {
    (if b & 1u8 != 0u8 { a } else { 0u8 }) ^ (if (b >> 1u8) & 1u8 != 0u8 {
        xtime(a)
    } else {
        0u8
    }) ^ (if (b >> 2u8) & 1u8 != 0u8 {
        xtime(xtime(a))
    } else {
        0u8
    }) ^ (if (b >> 3u8) & 1u8 != 0u8 {
        xtime(xtime(xtime(a)))
    } else {
        0u8
    }) ^ (if (b >> 4u8) & 1u8 != 0u8 {
        xtime(xtime(xtime(xtime(a))))
    } else {
        0u8
    }) ^ (if (b >> 5u8) & 1u8 != 0u8 {
        xtime(xtime(xtime(xtime(xtime(a)))))
    } else {
        0u8
    }) ^ (if (b >> 6u8) & 1u8 != 0u8 {
        xtime(xtime(xtime(xtime(xtime(xtime(a))))))
    } else {
        0u8
    }) ^ (if (b >> 7u8) & 1u8 != 0u8 {
        xtime(xtime(xtime(xtime(xtime(xtime(xtime(a)))))))
    } else {
        0u8
    })
}

pub proof fn lemma_gf_mul_closed_form(a: u8, b: u8)
    ensures
        gf_mul_spec(a, b) == gf_mul_closed(a, b),
{
    reveal_with_fuel(gf_mul_prefix, 9);
    reveal_with_fuel(xtime_pow, 8);
    assert(gf_mul_spec(a, b) == gf_mul_closed(a, b)) by (bit_vector)
        requires
            gf_mul_spec(a, b) == (0u8 ^ (if (b >> 0u8) & 1u8 != 0u8 { a } else { 0u8 })) ^ (if (b
                >> 1u8) & 1u8 != 0u8 {
                xtime(a)
            } else {
                0u8
            }) ^ (if (b >> 2u8) & 1u8 != 0u8 {
                xtime(xtime(a))
            } else {
                0u8
            }) ^ (if (b >> 3u8) & 1u8 != 0u8 {
                xtime(xtime(xtime(a)))
            } else {
                0u8
            }) ^ (if (b >> 4u8) & 1u8 != 0u8 {
                xtime(xtime(xtime(xtime(a))))
            } else {
                0u8
            }) ^ (if (b >> 5u8) & 1u8 != 0u8 {
                xtime(xtime(xtime(xtime(xtime(a)))))
            } else {
                0u8
            }) ^ (if (b >> 6u8) & 1u8 != 0u8 {
                xtime(xtime(xtime(xtime(xtime(xtime(a))))))
            } else {
                0u8
            }) ^ (if (b >> 7u8) & 1u8 != 0u8 {
                xtime(xtime(xtime(xtime(xtime(xtime(xtime(a)))))))
            } else {
                0u8
            }),
    ;
}

/// Multiplication in GF(256) is commutative.
#[verifier::rlimit(100)]
pub proof fn lemma_gf_mul_commutative(a: u8, b: u8)
    ensures
        gf_mul_spec(a, b) == gf_mul_spec(b, a),
{
    lemma_gf_mul_closed_form(a, b);
    lemma_gf_mul_closed_form(b, a);
    assert(gf_mul_closed(a, b) == gf_mul_closed(b, a)) by (bit_vector);
}

/// Multiplication distributes over addition (XOR) in its right argument.
#[verifier::rlimit(100)]
pub proof fn lemma_gf_mul_distributive(a: u8, b: u8, c: u8)
    ensures
        gf_mul_spec(a, b ^ c) == gf_mul_spec(a, b) ^ gf_mul_spec(a, c),
{
    lemma_gf_mul_closed_form(a, b);
    lemma_gf_mul_closed_form(a, c);
    lemma_gf_mul_closed_form(a, b ^ c);
    assert(gf_mul_closed(a, b ^ c) == gf_mul_closed(a, b) ^ gf_mul_closed(a, c)) by (bit_vector);
}

/// Multiplying by alpha can move from one factor to the other.
#[verifier::rlimit(100)]
pub proof fn lemma_gf_mul_xtime_swap(a: u8, c: u8)
    ensures
        gf_mul_spec(xtime(a), c) == gf_mul_spec(a, xtime(c)),
{
    lemma_gf_mul_closed_form(xtime(a), c);
    lemma_gf_mul_closed_form(a, xtime(c));
    assert(gf_mul_closed(xtime(a), c) == gf_mul_closed(a, xtime(c))) by (bit_vector);
}

/// Zero and one behave as the additive and multiplicative identities.
pub proof fn lemma_gf_mul_identities(a: u8)
    ensures
        gf_mul_spec(a, 0) == 0,
        gf_mul_spec(0, a) == 0,
        gf_mul_spec(a, 1) == a,
        gf_mul_spec(1, a) == a,
{
    lemma_gf_mul_closed_form(a, 0);
    lemma_gf_mul_closed_form(0, a);
    lemma_gf_mul_closed_form(a, 1);
    lemma_gf_mul_closed_form(1, a);
    assert(gf_mul_closed(a, 0) == 0 && gf_mul_closed(0, a) == 0 && gf_mul_closed(a, 1) == a
        && gf_mul_closed(1, a) == a) by (bit_vector);
}

/// Multiplication distributes over addition (XOR) in its left argument.
pub proof fn lemma_gf_mul_distributive_left(a: u8, b: u8, c: u8)
    ensures
        gf_mul_spec(a ^ b, c) == gf_mul_spec(a, c) ^ gf_mul_spec(b, c),
{
    lemma_gf_mul_commutative(a ^ b, c);
    lemma_gf_mul_commutative(a, c);
    lemma_gf_mul_commutative(b, c);
    lemma_gf_mul_distributive(c, a, b);
}

proof fn lemma_xtime_pow_shift(c: u8, n: nat)
    ensures
        xtime_pow(xtime(c), n) == xtime_pow(c, n + 1),
    decreases n,
{
    reveal_with_fuel(xtime_pow, 2);
    if n > 0 {
        lemma_xtime_pow_shift(c, (n - 1) as nat);
    }
}

proof fn lemma_xtime_pow_swap(a: u8, c: u8, j: nat)
    ensures
        gf_mul_spec(xtime_pow(a, j), c) == gf_mul_spec(a, xtime_pow(c, j)),
    decreases j,
{
    if j > 0 {
        let j1 = (j - 1) as nat;
        lemma_gf_mul_xtime_swap(xtime_pow(a, j1), c);
        lemma_xtime_pow_swap(a, xtime(c), j1);
        lemma_xtime_pow_shift(c, j1);
    }
}

spec fn mul_prefix_left(a: u8, b: u8, c: u8, k: nat) -> u8
    decreases k,
{
    if k == 0 {
        0u8
    } else {
        let j = (k - 1) as nat;
        let term = if (b >> (j as u8)) & 1u8 != 0u8 {
            gf_mul_spec(xtime_pow(a, j), c)
        } else {
            0u8
        };
        mul_prefix_left(a, b, c, j) ^ term
    }
}

spec fn mul_prefix_right(a: u8, b: u8, c: u8, k: nat) -> u8
    decreases k,
{
    if k == 0 {
        0u8
    } else {
        let j = (k - 1) as nat;
        let term = if (b >> (j as u8)) & 1u8 != 0u8 {
            gf_mul_spec(a, xtime_pow(c, j))
        } else {
            0u8
        };
        mul_prefix_right(a, b, c, j) ^ term
    }
}

proof fn lemma_mul_prefix_left(a: u8, b: u8, c: u8, k: nat)
    ensures
        gf_mul_spec(gf_mul_prefix(a, b, k), c) == mul_prefix_left(a, b, c, k),
    decreases k,
{
    if k == 0 {
        lemma_gf_mul_identities(c);
    } else {
        let j = (k - 1) as nat;
        lemma_mul_prefix_left(a, b, c, j);
        let term = if (b >> (j as u8)) & 1u8 != 0u8 {
            xtime_pow(a, j)
        } else {
            0u8
        };
        lemma_gf_mul_distributive_left(gf_mul_prefix(a, b, j), term, c);
        lemma_gf_mul_identities(c);
    }
}

proof fn lemma_mul_prefix_right(a: u8, b: u8, c: u8, k: nat)
    ensures
        gf_mul_spec(a, gf_mul_prefix(c, b, k)) == mul_prefix_right(a, b, c, k),
    decreases k,
{
    if k == 0 {
        lemma_gf_mul_identities(a);
    } else {
        let j = (k - 1) as nat;
        lemma_mul_prefix_right(a, b, c, j);
        let term = if (b >> (j as u8)) & 1u8 != 0u8 {
            xtime_pow(c, j)
        } else {
            0u8
        };
        lemma_gf_mul_distributive(a, gf_mul_prefix(c, b, j), term);
        lemma_gf_mul_identities(a);
    }
}

proof fn lemma_mul_prefix_left_right(a: u8, b: u8, c: u8, k: nat)
    ensures
        mul_prefix_left(a, b, c, k) == mul_prefix_right(a, b, c, k),
    decreases k,
{
    if k > 0 {
        let j = (k - 1) as nat;
        lemma_mul_prefix_left_right(a, b, c, j);
        lemma_xtime_pow_swap(a, c, j);
    }
}

/// Multiplication in GF(256) is associative.
pub proof fn lemma_gf_mul_associative(a: u8, b: u8, c: u8)
    ensures
        gf_mul_spec(gf_mul_spec(a, b), c) == gf_mul_spec(a, gf_mul_spec(b, c)),
{
    lemma_mul_prefix_left(a, b, c, 8);
    lemma_gf_mul_commutative(b, c);
    lemma_mul_prefix_right(a, b, c, 8);
    lemma_mul_prefix_left_right(a, b, c, 8);
}

/// `a` raised to the power `n` by repeated multiplication.
pub open spec fn gf_pow(a: u8, n: nat) -> u8
    decreases n,
{
    if n == 0 {
        1u8
    } else {
        gf_mul_spec(a, gf_pow(a, (n - 1) as nat))
    }
}

/// Powers add: a^(m+n) = a^m * a^n.
pub proof fn lemma_gf_pow_add(a: u8, m: nat, n: nat)
    ensures
        gf_pow(a, m + n) == gf_mul_spec(gf_pow(a, m), gf_pow(a, n)),
    decreases m,
{
    if m == 0 {
        lemma_gf_mul_identities(gf_pow(a, n));
    } else {
        let m1 = (m - 1) as nat;
        lemma_gf_pow_add(a, m1, n);
        assert(gf_pow(a, m + n) == gf_mul_spec(a, gf_pow(a, (m1 + n) as nat)));
        lemma_gf_mul_associative(a, gf_pow(a, m1), gf_pow(a, n));
    }
}

/// (a*a)^m = a^(2m).
pub proof fn lemma_gf_pow_square(a: u8, m: nat)
    ensures
        gf_pow(gf_mul_spec(a, a), m) == gf_pow(a, 2 * m),
    decreases m,
{
    if m > 0 {
        let m1 = (m - 1) as nat;
        lemma_gf_pow_square(a, m1);
        lemma_gf_pow_add(a, 2, 2 * m1);
        reveal_with_fuel(gf_pow, 3);
        lemma_gf_mul_identities(a);
        assert(2 * m == 2 + 2 * m1);
    }
}

/// Every nonzero element satisfies a^255 = 1, so a^254 is its multiplicative inverse.
#[verifier::rlimit(100)]
pub proof fn lemma_gf_inverse(a: u8)
    requires
        a != 0,
    ensures
        gf_mul_spec(a, gf_pow(a, 254)) == 1,
{
    reveal_with_fuel(gf_pow, 3);
    lemma_gf_mul_identities(a);
    let x2 = gf_pow(a, 2);
    assert(x2 == gf_mul_spec(a, a));
    lemma_gf_pow_add(a, 2, 2);
    let x4 = gf_pow(a, 4);
    lemma_gf_pow_add(a, 4, 4);
    let x8 = gf_pow(a, 8);
    lemma_gf_pow_add(a, 8, 8);
    let x16 = gf_pow(a, 16);
    lemma_gf_pow_add(a, 16, 16);
    let x32 = gf_pow(a, 32);
    lemma_gf_pow_add(a, 32, 32);
    let x64 = gf_pow(a, 64);
    lemma_gf_pow_add(a, 64, 64);
    let x128 = gf_pow(a, 128);
    lemma_gf_pow_add(a, 2, 252);
    lemma_gf_pow_add(a, 4, 248);
    lemma_gf_pow_add(a, 8, 240);
    lemma_gf_pow_add(a, 16, 224);
    lemma_gf_pow_add(a, 32, 192);
    lemma_gf_pow_add(a, 64, 128);
    lemma_gf_mul_closed_form(a, a);
    lemma_gf_mul_closed_form(x2, x2);
    lemma_gf_mul_closed_form(x4, x4);
    lemma_gf_mul_closed_form(x8, x8);
    lemma_gf_mul_closed_form(x16, x16);
    lemma_gf_mul_closed_form(x32, x32);
    lemma_gf_mul_closed_form(x64, x64);
    let y64 = gf_pow(a, 192);
    lemma_gf_mul_closed_form(x64, x128);
    let y32 = gf_pow(a, 224);
    lemma_gf_mul_closed_form(x32, y64);
    let y16 = gf_pow(a, 240);
    lemma_gf_mul_closed_form(x16, y32);
    let y8 = gf_pow(a, 248);
    lemma_gf_mul_closed_form(x8, y16);
    let y4 = gf_pow(a, 252);
    lemma_gf_mul_closed_form(x4, y8);
    let y2 = gf_pow(a, 254);
    lemma_gf_mul_closed_form(x2, y4);
    lemma_gf_mul_closed_form(a, y2);
    assert(gf_mul_closed(a, y2) == 1u8) by (bit_vector)
        requires
            a != 0u8,
            x2 == gf_mul_closed(a, a),
            x4 == gf_mul_closed(x2, x2),
            x8 == gf_mul_closed(x4, x4),
            x16 == gf_mul_closed(x8, x8),
            x32 == gf_mul_closed(x16, x16),
            x64 == gf_mul_closed(x32, x32),
            x128 == gf_mul_closed(x64, x64),
            y64 == gf_mul_closed(x64, x128),
            y32 == gf_mul_closed(x32, y64),
            y16 == gf_mul_closed(x16, y32),
            y8 == gf_mul_closed(x8, y16),
            y4 == gf_mul_closed(x4, y8),
            y2 == gf_mul_closed(x2, y4),
    ;
}

/// GF(256) has no zero divisors.
pub proof fn lemma_gf_mul_nonzero(a: u8, b: u8)
    requires
        a != 0,
        b != 0,
    ensures
        gf_mul_spec(a, b) != 0,
{
    let inv = gf_pow(a, 254);
    lemma_gf_inverse(a);
    lemma_gf_mul_commutative(a, inv);
    lemma_gf_mul_associative(inv, a, b);
    lemma_gf_mul_identities(b);
    lemma_gf_mul_identities(inv);
}

/// Shifts, masks and XOR with zero on a single byte.
proof fn lemma_byte_facts(x: u8, k: u8, j: u8)
    by (bit_vector)
    ensures
        x >> 0u8 == x,
        x ^ 0u8 == x,
        x >> 8u8 == 0u8,
        x != 0u8 ==> x >> 1u8 < x,
        k < 8u8 ==> (x >> k) >> 1u8 == x >> ((k + 1) as u8),
        (x >> k) & 1u8 == (x >> k) % 2,
        (x >> k == 0u8 && k <= j && j < 8u8) ==> (x >> j) & 1u8 == 0u8,
{
}

proof fn lemma_shift_step(x: u8, k: u8)
    requires
        k < 8,
    ensures
        (x >> k) >> 1u8 == x >> ((k + 1) as u8),
        (x >> k) & 1u8 == (x >> k) % 2,
{
    lemma_byte_facts(x, k, k);
}

proof fn lemma_prefix_stable(a: u8, b: u8, k: nat, n: nat)
    requires
        k <= n <= 8,
        b >> (k as u8) == 0,
    ensures
        gf_mul_prefix(a, b, n) == gf_mul_prefix(a, b, k),
    decreases n - k,
{
    if n > k {
        let j = (n - 1) as nat;
        lemma_prefix_stable(a, b, k, j);
        let ku = k as u8;
        let ju = j as u8;
        lemma_byte_facts(b, ku, ju);
        let p = gf_mul_prefix(a, b, j);
        lemma_byte_facts(p, 0, 0);
    }
}

/// Shift-and-add multiplication in GF(256).
pub fn gf_mul_slow(a: u8, b: u8) -> (r: u8)
    ensures
        r == gf_mul_spec(a, b),
{
    let ghost a0 = a;
    let ghost b0 = b;
    let mut a = a;
    let mut b = b;
    let mut product = 0u8;
    let ghost mut k: nat = 0;
    proof {
        lemma_byte_facts(b0, 0, 0);
    }
    while b != 0
        invariant
            k <= 8,
            a == xtime_pow(a0, k),
            b == b0 >> (k as u8),
            product == gf_mul_prefix(a0, b0, k),
        decreases b,
    {
        proof {
            if k == 8 {
                lemma_byte_facts(b0, 0, 0);
            }
            lemma_shift_step(b0, k as u8);
        }
        if b & 1 != 0 {
            product ^= a;
        } else {
            proof {
                lemma_byte_facts(product, 0, 0);
            }
        }
        proof {
            lemma_byte_facts(b, 0, 0);
        }
        b >>= 1;
        let carry = a & 0x80;
        a <<= 1;
        if carry != 0 {
            a ^= 0x1d;
        }
        proof {
            k = k + 1;
        }
    }
    proof {
        lemma_prefix_stable(a0, b0, k, 8);
    }
    product
}

/// Multiplication in GF(256), with the shortcuts for zero and one.
pub fn gf_mul(a: u8, b: u8) -> (r: u8)
    ensures
        r == gf_mul_spec(a, b),
{
    proof {
        lemma_gf_mul_identities(a);
        lemma_gf_mul_identities(b);
    }
    if a == 0 || b == 0 {
        0
    } else if a == 1 {
        b
    } else if b == 1 {
        a
    } else {
        gf_mul_slow(a, b)
    }
}

/// An element of GF(256).
#[derive(Clone, Copy, Debug, PartialEq, Eq, PartialOrd, Ord, Hash, Structural)]
pub struct Octet {
    value: u8,
}

impl View for Octet {
    type V = u8;

    closed spec fn view(&self) -> u8 {
        self.value
    }
}

/// Two octets with the same value are the same octet.
pub proof fn lemma_octet_ext(a: Octet, b: Octet)
    requires
        a@ == b@,
    ensures
        a == b,
{
}

impl Octet {
    pub fn new(value: u8) -> (r: Octet)
        ensures
            r@ == value,
    {
        Octet { value }
    }

    pub fn zero() -> (r: Octet)
        ensures
            r@ == 0,
    {
        Octet { value: 0 }
    }

    pub fn one() -> (r: Octet)
        ensures
            r@ == 1,
    {
        Octet { value: 1 }
    }

    pub fn value(self) -> (r: u8)
        ensures
            r == self@,
    {
        self.value
    }

    /// alpha^power, where alpha is the element 2.
    pub fn alpha_pow(power: usize) -> (r: Octet)
        ensures
            r@ == gf_pow(2, (power % 255) as nat),
    {
        let mut result = Octet::one();
        let alpha = Octet::new(2);
        let n = power % 255;
        let mut i: usize = 0;
        while i < n
            invariant
                i <= n,
                alpha@ == 2,
                result@ == gf_pow(2, i as nat),
            decreases n - i,
        {
            proof {
                lemma_gf_mul_commutative(result@, 2);
            }
            result = result.mul(alpha);
            i += 1;
        }
        result
    }

    /// The multiplicative inverse of a nonzero element.
    pub fn inverse(self) -> (r: Octet)
        requires
            self@ != 0,
        ensures
            r@ == gf_pow(self@, 254),
            gf_mul_spec(self@, r@) == 1,
    {
        proof {
            lemma_gf_inverse(self@);
        }
        self.pow(254)
    }

    /// self^power by square-and-multiply.
    pub fn pow(self, power: usize) -> (r: Octet)
        ensures
            r@ == gf_pow(self@, power as nat),
    {
        let mut power = power;
        let ghost p0 = power;
        let mut base = self;
        let mut result = Octet::one();
        proof {
            lemma_gf_mul_identities(gf_pow(self@, p0 as nat));
        }
        while power > 0
            invariant
                gf_mul_spec(result@, gf_pow(base@, power as nat)) == gf_pow(self@, p0 as nat),
            decreases power,
        {
            let ghost old_base = base@;
            let ghost old_result = result@;
            let ghost old_power = power;
            proof {
                assert(power & 1 == power % 2 && power >> 1 == power / 2) by (bit_vector);
                lemma_gf_pow_square(old_base, (old_power / 2) as nat);
            }
            if power & 1 == 1 {
                result = result.mul(base);
                proof {
                    assert(old_power as nat == 2 * (old_power / 2) as nat + 1);
                    lemma_gf_pow_add(old_base, 1, 2 * (old_power / 2) as nat);
                    reveal_with_fuel(gf_pow, 2);
                    lemma_gf_mul_identities(old_base);
                    lemma_gf_mul_associative(
                        old_result,
                        old_base,
                        gf_pow(old_base, 2 * (old_power / 2) as nat),
                    );
                }
            } else {
                assert(old_power as nat == 2 * (old_power / 2) as nat);
            }
            base = base.mul(base);
            power >>= 1;
        }
        proof {
            lemma_gf_mul_identities(result@);
        }
        result
    }

    pub fn is_zero(self) -> (r: bool)
        ensures
            r == (self@ == 0),
    {
        self.value == 0
    }

    /// The row of the multiplication table for this element: entry `v` is `self * v`.
    pub fn mul_table(self) -> (table: Vec<u8>)
        ensures
            table@.len() == 256,
            forall|v: int| 0 <= v < 256 ==> table@[v] == gf_mul_spec(self@, v as u8),
    {
        let mut table: Vec<u8> = Vec::with_capacity(256);
        let mut v: usize = 0;
        while v < 256
            invariant
                v <= 256,
                table@.len() == v,
                forall|u: int| 0 <= u < v ==> table@[u] == gf_mul_spec(self@, u as u8),
            decreases 256 - v,
        {
            table.push(gf_mul(self.value, v as u8));
            v += 1;
        }
        table
    }

    /// Field addition (XOR).
    pub fn add(self, rhs: Octet) -> (r: Octet)
        ensures
            r@ == self@ ^ rhs@,
    {
        Octet { value: self.value ^ rhs.value }
    }

    /// Field multiplication.
    pub fn mul(self, rhs: Octet) -> (r: Octet)
        ensures
            r@ == gf_mul_spec(self@, rhs@),
    {
        Octet { value: gf_mul(self.value, rhs.value) }
    }

    /// Field division by a nonzero element.
    pub fn div(self, rhs: Octet) -> (r: Octet)
        requires
            rhs@ != 0,
        ensures
            r@ == gf_mul_spec(self@, gf_pow(rhs@, 254)),
            gf_mul_spec(r@, rhs@) == self@,
    {
        let inv = rhs.inverse();
        proof {
            lemma_gf_mul_identities(self@);
            lemma_gf_mul_identities(inv@);
            lemma_gf_mul_identities(rhs@);
            lemma_gf_mul_associative(self@, inv@, rhs@);
            lemma_gf_mul_commutative(inv@, rhs@);
        }
        if self.value == 0 {
            Octet::zero()
        } else {
            self.mul(inv)
        }
    }
}

impl core::ops::Add for Octet {
    type Output = Octet;

    fn add(self, rhs: Octet) -> (r: Octet) {
        Octet { value: self.value ^ rhs.value }
    }
}

impl vstd::std_specs::ops::AddSpecImpl for Octet {
    open spec fn obeys_add_spec() -> bool {
        true
    }

    open spec fn add_req(self, rhs: Octet) -> bool {
        true
    }

    closed spec fn add_spec(self, rhs: Octet) -> Octet {
        Octet { value: self.value ^ rhs.value }
    }
}

impl core::ops::Sub for Octet {
    type Output = Octet;

    fn sub(self, rhs: Octet) -> (r: Octet) {
        Octet { value: self.value ^ rhs.value }
    }
}

impl vstd::std_specs::ops::SubSpecImpl for Octet {
    open spec fn obeys_sub_spec() -> bool {
        true
    }

    open spec fn sub_req(self, rhs: Octet) -> bool {
        true
    }

    closed spec fn sub_spec(self, rhs: Octet) -> Octet {
        Octet { value: self.value ^ rhs.value }
    }
}

impl core::ops::Mul for Octet {
    type Output = Octet;

    fn mul(self, rhs: Octet) -> (r: Octet) {
        Octet { value: gf_mul(self.value, rhs.value) }
    }
}

impl vstd::std_specs::ops::MulSpecImpl for Octet {
    open spec fn obeys_mul_spec() -> bool {
        true
    }

    open spec fn mul_req(self, rhs: Octet) -> bool {
        true
    }

    closed spec fn mul_spec(self, rhs: Octet) -> Octet {
        Octet { value: gf_mul_spec(self.value, rhs.value) }
    }
}

impl core::ops::Div for Octet {
    type Output = Octet;

    fn div(self, rhs: Octet) -> (r: Octet) {
        Octet::div(self, rhs)
    }
}

impl vstd::std_specs::ops::DivSpecImpl for Octet {
    open spec fn obeys_div_spec() -> bool {
        true
    }

    open spec fn div_req(self, rhs: Octet) -> bool {
        rhs@ != 0
    }

    closed spec fn div_spec(self, rhs: Octet) -> Octet {
        Octet { value: gf_mul_spec(self.value, gf_pow(rhs.value, 254)) }
    }
}

/// The meaning of the operators on octets.
pub proof fn lemma_octet_operators(a: Octet, b: Octet)
    ensures
        a.add_spec(b)@ == a@ ^ b@,
        a.sub_spec(b)@ == a@ ^ b@,
        a.mul_spec(b)@ == gf_mul_spec(a@, b@),
        b@ != 0 ==> a.div_spec(b)@ == gf_mul_spec(a@, gf_pow(b@, 254)),
{
}

impl From<u8> for Octet {
    fn from(value: u8) -> (r: Octet)
        ensures
            r@ == value,
    {
        Octet { value }
    }
}

impl vstd::std_specs::convert::FromSpecImpl<u8> for Octet {
    open spec fn obeys_from_spec() -> bool {
        true
    }

    closed spec fn from_spec(v: u8) -> Octet {
        Octet { value: v }
    }
}

impl From<Octet> for u8 {
    fn from(value: Octet) -> (r: u8)
        ensures
            r == value@,
    {
        value.value
    }
}

impl vstd::std_specs::convert::FromSpecImpl<Octet> for u8 {
    open spec fn obeys_from_spec() -> bool {
        true
    }

    open spec fn from_spec(v: Octet) -> u8 {
        v@
    }
}

/// Converting a byte to an octet keeps its value, and converting back gives the byte.
pub proof fn lemma_octet_from(v: u8)
    ensures
        <Octet as vstd::std_specs::convert::FromSpec<u8>>::from_spec(v)@ == v,
        <u8 as vstd::std_specs::convert::FromSpec<Octet>>::from_spec(
            <Octet as vstd::std_specs::convert::FromSpec<u8>>::from_spec(v),
        ) == v,
{
}

impl Default for Octet {
    fn default() -> (r: Octet)
        ensures
            r@ == 0,
    {
        Octet { value: 0 }
    }
}

} // verus!
