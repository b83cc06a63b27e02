use raptorq::octet::Octet;
use raptorq::octets::add_assign;
use raptorq::operation_vector::perform_op;
use raptorq::operation_vector::use_replay_batch_fast_paths;
use raptorq::operation_vector::SymbolOps;
use raptorq::symbol_slab::SymbolSlab;

#[test]
fn unit_add_matches_fused_add_with_one() {
    let mut fused = SymbolSlab::from_bytes(vec![3, 5, 7, 11, 13, 17, 19, 23, 29, 31, 37, 41], 4);
    let mut add = fused.clone();

    perform_op(
        &SymbolOps::FusedAdd {
            dest: 1,
            src: 0,
            scalar: Octet::one(),
        },
        &mut fused,
    );
    let (src_symbol, dest_symbol) = add.get_disjoint_mut(0, 1);
    add_assign(dest_symbol, src_symbol);

    assert_eq!(add, fused);
}

#[test]
fn batch_fused_add_matches_individual_ops() {
    let mut batch = SymbolSlab::from_bytes(
        vec![3, 5, 7, 11, 13, 17, 19, 23, 29, 31, 37, 41, 43, 47, 53, 59],
        4,
    );
    let mut individual = batch.clone();
    let dests = vec![(1, Octet::one()), (2, Octet::new(7)), (3, Octet::new(19))];

    perform_op(
        &SymbolOps::FusedAddBatch {
            src: 0,
            dests: dests.clone(),
        },
        &mut batch,
    );
    for (dest, scalar) in dests {
        perform_op(&SymbolOps::FusedAdd { dest, src: 0, scalar }, &mut individual);
    }

    assert_eq!(individual, batch);
}

#[test]
fn zero_source_batch_does_not_change_destinations() {
    let mut symbols = SymbolSlab::from_bytes(vec![0, 0, 0, 0, 13, 17, 19, 23, 29, 31, 37, 41], 4);
    let expected = symbols.clone();

    perform_op(
        &SymbolOps::FusedAddBatch {
            src: 0,
            dests: vec![(1, Octet::one()), (2, Octet::new(7))],
        },
        &mut symbols,
    );

    assert_eq!(expected, symbols);
}

#[test]
fn replay_batch_fast_path_covers_mid_ci_rows() {
    assert!(!use_replay_batch_fast_paths(10, 2));
    assert!(!use_replay_batch_fast_paths(100, 2));
    assert!(!use_replay_batch_fast_paths(250, 2));
    assert!(use_replay_batch_fast_paths(500, 2));
    assert!(use_replay_batch_fast_paths(1_000, 2));
    assert!(use_replay_batch_fast_paths(5_000, 2));
    assert!(use_replay_batch_fast_paths(20_000, 2));
    assert!(use_replay_batch_fast_paths(50_000, 4));
}

#[test]
fn unit_replay_batch_matches_individual_ops() {
    let mut bytes = vec![0u8; 600 * 64];
    for (index, byte) in bytes.iter_mut().enumerate() {
        *byte = (index % 251) as u8;
    }
    let mut batch = SymbolSlab::from_bytes(bytes, 64);
    let mut individual = batch.clone();
    let dests = (1..15).map(|dest| (dest, Octet::one())).collect::<Vec<_>>();

    perform_op(
        &SymbolOps::FusedAddBatch {
            src: 0,
            dests: dests.clone(),
        },
        &mut batch,
    );
    for (dest, scalar) in dests {
        perform_op(&SymbolOps::FusedAdd { dest, src: 0, scalar }, &mut individual);
    }

    assert_eq!(individual, batch);
}

#[test]
fn duplicate_unit_replay_batch_preserves_ordered_semantics() {
    let mut bytes = vec![0u8; 600 * 64];
    for (index, byte) in bytes.iter_mut().enumerate() {
        *byte = (index % 251) as u8;
    }
    let mut batch = SymbolSlab::from_bytes(bytes, 64);
    let mut individual = batch.clone();
    let dests = vec![
        (1, Octet::one()),
        (1, Octet::one()),
        (2, Octet::one()),
        (3, Octet::one()),
        (4, Octet::one()),
        (5, Octet::one()),
        (6, Octet::one()),
        (7, Octet::one()),
        (8, Octet::one()),
    ];

    perform_op(
        &SymbolOps::FusedAddBatch {
            src: 0,
            dests: dests.clone(),
        },
        &mut batch,
    );
    for (dest, scalar) in dests {
        perform_op(&SymbolOps::FusedAdd { dest, src: 0, scalar }, &mut individual);
    }

    assert_eq!(individual, batch);
}

#[test]
fn swap_and_scale_ops_act_on_symbols() {
    let mut symbols = SymbolSlab::from_bytes(vec![1, 2, 0x80, 4], 2);
    perform_op(&SymbolOps::Swap(0, 1), &mut symbols);
    assert_eq!(symbols.as_bytes(), &[0x80, 4, 1, 2]);
    perform_op(&SymbolOps::Swap(0, 1), &mut symbols);
    assert_eq!(symbols.as_bytes(), &[1, 2, 0x80, 4]);
    perform_op(&SymbolOps::Scale(1, Octet::new(2)), &mut symbols);
    assert_eq!(symbols.as_bytes(), &[1, 2, 0x1d, 8]);
}

#[test]
fn fused_add_with_scalar_adds_scaled_source() {
    let mut symbols = SymbolSlab::from_bytes(vec![0x80, 1, 5, 5], 2);
    perform_op(
        &SymbolOps::FusedAdd {
            dest: 1,
            src: 0,
            scalar: Octet::new(2),
        },
        &mut symbols,
    );
    assert_eq!(symbols.as_bytes(), &[0x80, 1, 5 ^ 0x1d, 5 ^ 2]);
}
