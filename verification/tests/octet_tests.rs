use raptorq::octet::gf_mul;
use raptorq::octet::gf_mul_slow;
use raptorq::octet::Octet;

#[test]
fn gf_mul_table_matches_shift_multiply() {
    for a in u8::MIN..=u8::MAX {
        for b in u8::MIN..=u8::MAX {
            assert_eq!(gf_mul(a, b), gf_mul_slow(a, b));
        }
    }
}

#[test]
fn nonzero_octets_have_multiplicative_inverses() {
    for value in 1..=u8::MAX {
        let octet = Octet::new(value);
        assert_eq!(octet * octet.inverse(), Octet::one());
    }
}

#[test]
fn known_products_in_gf256() {
    // x * x^7 = x^8 = x^4 + x^3 + x^2 + 1 under the reducing polynomial 0x11d.
    assert_eq!(gf_mul(2, 0x80), 0x1d);
    assert_eq!(gf_mul(3, 7), 9);
    assert_eq!(Octet::new(0x53) * Octet::new(0xca), Octet::new(gf_mul_slow(0x53, 0xca)));
    assert_eq!(Octet::alpha_pow(8), Octet::new(0x1d));
    assert_eq!(Octet::alpha_pow(255), Octet::one());
    assert_eq!(Octet::new(2).pow(8), Octet::new(0x1d));
    assert_eq!(Octet::new(9).pow(0), Octet::one());
}

#[test]
fn addition_is_xor_and_self_inverse() {
    for a in [0u8, 1, 7, 0x80, 0xff] {
        for b in [0u8, 3, 0x55, 0xaa] {
            assert_eq!((Octet::new(a) + Octet::new(b)).value(), a ^ b);
            assert_eq!(Octet::new(a) - Octet::new(b), Octet::new(a) + Octet::new(b));
        }
        assert_eq!(Octet::new(a) + Octet::new(a), Octet::zero());
    }
}

#[test]
fn field_laws_hold_on_samples() {
    let samples = [0u8, 1, 2, 3, 0x1d, 0x53, 0x80, 0xca, 0xff];
    for &a in &samples {
        let a = Octet::new(a);
        assert_eq!(a * Octet::one(), a);
        assert_eq!(a * Octet::zero(), Octet::zero());
        for &b in &samples {
            let b = Octet::new(b);
            assert_eq!(a * b, b * a);
            for &c in &samples {
                let c = Octet::new(c);
                assert_eq!((a * b) * c, a * (b * c));
                assert_eq!(a * (b + c), a * b + a * c);
            }
            if !b.is_zero() {
                assert_eq!((a / b) * b, a);
            }
        }
    }
}

#[test]
fn mul_table_row_matches_products() {
    let octet = Octet::new(29);
    let table = octet.mul_table();
    assert_eq!(table.len(), 256);
    for v in 0..=255u8 {
        assert_eq!(table[v as usize], gf_mul(29, v));
    }
}

#[test]
fn conversions_keep_the_byte() {
    assert_eq!(Octet::from(0x42u8).value(), 0x42);
    assert_eq!(u8::from(Octet::new(0x17)), 0x17);
    assert_eq!(Octet::default(), Octet::zero());
    assert!(Octet::zero().is_zero());
    assert!(!Octet::one().is_zero());
}

#[test]
fn octet_byte_conversions_round_trip() {
    for v in [0u8, 1, 0x17, 0x80, 0xff] {
        assert_eq!(u8::from(Octet::from(v)), v);
        assert_eq!(Octet::new(v), Octet::from(v));
    }
}
