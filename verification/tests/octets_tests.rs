use raptorq::octet::Octet;
use raptorq::octets::add_assign;
use raptorq::octets::add_assign_and_check_zero;
use raptorq::octets::bytes_are_zero;
use raptorq::octets::fused_addassign_mul_scalar;
use raptorq::octets::fused_mulassign_alpha_add_assign;
use raptorq::octets::mulassign_scalar;
use raptorq::octets::xor_slices_are_zero;
use raptorq::octets::AddAssignFastPath;
use raptorq::octets::FusedAddAssignMulScalarFastPath;
use raptorq::octets::FusedMulAssignAlphaAddAssignFastPath;

fn scalar_xor(mut dest: Vec<u8>, src: &[u8]) -> Vec<u8> {
    for (dest_byte, src_byte) in dest.iter_mut().zip(src.iter()) {
        *dest_byte ^= *src_byte;
    }
    dest
}

fn patterned_bytes(len: usize) -> Vec<u8> {
    (0..len)
        .map(|index| (index as u8).wrapping_mul(37).wrapping_add(11))
        .collect()
}

#[test]
fn mulassign_scalar_matches_table() {
    for scalar in [0, 1, 2, 29, 255] {
        for len in [0usize, 1, 31, 32, 33, 64, 79] {
            let mut data = patterned_bytes(len);
            let mut expected = data.clone();
            let octet = Octet::new(scalar);
            let table = octet.mul_table();
            if scalar == 0 {
                expected.fill(0);
            } else if scalar != 1 {
                for byte in expected.iter_mut() {
                    *byte = table[*byte as usize];
                }
            }

            mulassign_scalar(&mut data, &octet);
            assert_eq!(data, expected);
        }
    }
}

#[test]
fn mulassign_scalar_keeps_zero_symbol_zero() {
    let mut data = vec![0u8; 129];

    mulassign_scalar(&mut data, &Octet::new(7));

    assert_eq!(data, vec![0u8; 129]);
}

#[test]
fn fused_mulassign_alpha_add_assign_matches_split_ops() {
    for len in [0usize, 1, 31, 32, 33, 64, 129] {
        let mut fused = patterned_bytes(len);
        let src = patterned_bytes(len)
            .into_iter()
            .map(|byte| byte.rotate_left(1))
            .collect::<Vec<_>>();
        let mut expected = fused.clone();

        mulassign_scalar(&mut expected, &Octet::new(2));
        add_assign(&mut expected, &src);
        fused_mulassign_alpha_add_assign(&mut fused, &src);

        assert_eq!(fused, expected, "fused alpha add failed for length {len}");
    }
}

#[test]
fn fused_addassign_mul_scalar_matches_table() {
    for scalar in [0, 1, 2, 29, 255] {
        for len in [0usize, 1, 31, 32, 33, 64, 79] {
            let mut dest = patterned_bytes(len);
            let src = patterned_bytes(len)
                .into_iter()
                .map(|byte| byte.rotate_left(1))
                .collect::<Vec<_>>();
            let mut expected = dest.clone();
            let octet = Octet::new(scalar);
            let table = octet.mul_table();
            if scalar == 1 {
                for (d, s) in expected.iter_mut().zip(src.iter()) {
                    *d ^= *s;
                }
            } else if scalar != 0 {
                for (d, s) in expected.iter_mut().zip(src.iter()) {
                    *d ^= table[*s as usize];
                }
            }

            fused_addassign_mul_scalar(&mut dest, &src, &octet);
            assert_eq!(dest, expected);

            let mut fast_path_dest = patterned_bytes(len);
            FusedAddAssignMulScalarFastPath::new(len).apply(&mut fast_path_dest, &src, &octet);
            assert_eq!(fast_path_dest, expected);
        }
    }
}

#[test]
fn add_assign_and_check_zero_matches_add_then_scan() {
    for len in [0usize, 1, 31, 32, 63, 64, 95, 127, 128, 129] {
        let src = patterned_bytes(len)
            .into_iter()
            .map(|byte| byte.rotate_left(3) ^ 0xa5)
            .collect::<Vec<_>>();

        let mut zero_result = src.clone();
        let mut expected_zero_result = zero_result.clone();
        add_assign(&mut expected_zero_result, &src);
        assert_eq!(
            add_assign_and_check_zero(&mut zero_result, &src),
            bytes_are_zero(&expected_zero_result),
            "zero result mismatch for length {len}"
        );
        assert_eq!(zero_result, expected_zero_result);

        let mut nonzero_result = patterned_bytes(len);
        let mut expected_nonzero_result = nonzero_result.clone();
        add_assign(&mut expected_nonzero_result, &src);
        assert_eq!(
            add_assign_and_check_zero(&mut nonzero_result, &src),
            bytes_are_zero(&expected_nonzero_result),
            "nonzero result mismatch for length {len}"
        );
        assert_eq!(nonzero_result, expected_nonzero_result);
    }
}

#[test]
fn bytes_are_zero_matches_scalar_for_boundary_lengths() {
    for len in [0usize, 1, 15, 16, 17, 63, 64, 65, 127, 128, 129] {
        let zeros = vec![0u8; len];
        assert!(bytes_are_zero(&zeros), "zero check failed for length {len}");

        for index in [0usize, len.saturating_sub(1), len / 2] {
            if index >= len {
                continue;
            }
            let mut bytes = zeros.clone();
            bytes[index] = 1;
            assert!(
                !bytes_are_zero(&bytes),
                "nonzero byte at {index} was missed for length {len}"
            );
        }
    }
}

#[test]
fn xor_slices_are_zero_matches_scalar_for_boundary_lengths() {
    for len in [0usize, 1, 31, 32, 63, 64, 65, 127, 128, 129] {
        let first = patterned_bytes(len);
        let second = patterned_bytes(len)
            .into_iter()
            .map(|byte| byte.rotate_left(1) ^ 0x3d)
            .collect::<Vec<_>>();
        let third = scalar_xor(first.clone(), &second);

        assert!(
            xor_slices_are_zero([first.as_slice(), second.as_slice(), third.as_slice()]),
            "xor zero check failed for length {len}"
        );

        if len > 0 {
            let mut corrupted = third.clone();
            corrupted[len / 2] ^= 1;
            assert!(
                !xor_slices_are_zero([
                    first.as_slice(),
                    second.as_slice(),
                    corrupted.as_slice()
                ]),
                "xor zero check missed corruption for length {len}"
            );
        }
    }
}

#[test]
fn add_assign_xors_bytes() {
    let mut dest = vec![0x0f, 0xf0, 0xaa];
    add_assign(&mut dest, &[0xff, 0xff, 0xaa]);
    assert_eq!(dest, vec![0xf0, 0x0f, 0x00]);

    let mut fast = vec![1u8, 2, 3];
    AddAssignFastPath::new(3).apply(&mut fast, &[1, 2, 4]);
    assert_eq!(fast, vec![0, 0, 7]);
    AddAssignFastPath::new(3).apply_same_len(&mut fast, &[0, 0, 7]);
    assert_eq!(fast, vec![0, 0, 0]);
}

#[test]
fn alpha_fast_path_doubles_then_adds() {
    // 0x80 * 2 = 0x1d, then + 0x01.
    let mut dest = vec![0x80u8, 0x01];
    FusedMulAssignAlphaAddAssignFastPath::new(2).apply(&mut dest, &[0x01, 0x00]);
    assert_eq!(dest, vec![0x1c, 0x02]);
}

#[test]
fn apply_nonzero_scales_source() {
    let mut dest = vec![0u8, 5];
    FusedAddAssignMulScalarFastPath::new(2).apply_nonzero(&mut dest, &[0x80, 3], &Octet::new(2));
    assert_eq!(dest, vec![0x1d, 5 ^ 6]);
}

#[test]
fn add_assign_boundary_lengths_match_scalar_xor() {
    for len in [64usize, 95, 127, 128, 129] {
        let original = patterned_bytes(len);
        let src = patterned_bytes(len)
            .into_iter()
            .map(|byte| byte.rotate_left(3) ^ 0xa5)
            .collect::<Vec<_>>();
        let expected = scalar_xor(original.clone(), &src);

        let mut direct = original.clone();
        add_assign(&mut direct, &src);
        assert_eq!(direct, expected, "add_assign failed for length {len}");

        let mut fast_path_direct = original.clone();
        AddAssignFastPath::new(len).apply(&mut fast_path_direct, &src);
        assert_eq!(
            fast_path_direct, expected,
            "AddAssignFastPath failed for length {len}"
        );
    }
}
