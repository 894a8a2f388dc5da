use mineblock::block::{construct_block, create_coinbase_transaction, serialize_candidate, split_block};

fn coinbase_literal() -> Vec<u8> {
    vec![
        0x01, 0x00, 0x00, 0x00, 0x01, 0x00, 0x00, 0x00, 0x00, 0x00, 0x00, 0x00, 0x00, 0x00, 0x00,
        0x00, 0x00, 0x00, 0x00, 0x00, 0x00, 0x00, 0x00, 0x00, 0x00, 0x00, 0x00, 0x00, 0x00, 0x00,
        0x00, 0x00, 0x00, 0x00, 0x00, 0x00, 0x00, 0xff, 0xff, 0xff, 0xff, 0x07, 0x04, 0xff, 0xff,
        0x00, 0x1d, 0x01, 0x04, 0x00, 0x00, 0x00, 0x00, 0x01, 0x00, 0xf2, 0x05, 0x2a, 0x01, 0x00,
        0x00, 0x00, 0x19, 0x76, 0xa9, 0x14, 0x00, 0x00, 0x00, 0x00, 0x00, 0x00, 0x00, 0x00, 0x00,
        0x00, 0x00, 0x00, 0x00, 0x00, 0x00, 0x00, 0x00, 0x00, 0x00, 0x00, 0x88, 0xac, 0x00, 0x00,
        0x00, 0x00,
    ]
}

#[test]
fn coinbase_has_the_fixed_bytes() {
    let tx = create_coinbase_transaction();
    assert_eq!(tx.len(), 92);
    assert_eq!(tx, coinbase_literal());
}

#[test]
fn empty_block_is_header_and_framed_coinbase() {
    let coinbase = vec![0xaa, 0xbb, 0xcc];
    let block = construct_block(&coinbase, &[]);
    let mut expected = vec![0u8; 80];
    expected.extend_from_slice(&[3, 0, 0, 0, 0, 0, 0, 0]);
    expected.extend_from_slice(&[0xaa, 0xbb, 0xcc]);
    assert_eq!(block, expected);
}

#[test]
fn block_with_empty_coinbase_has_a_zero_prefix() {
    let block = construct_block(&[], &[]);
    assert_eq!(block, vec![0u8; 88]);
}

#[test]
fn candidate_is_framed_with_its_witness_items() {
    let tx = vec![1u8, 2, 3];
    let witness = vec![vec![vec![9u8, 8], vec![]], vec![vec![7u8]]];
    let block = construct_block(&[0x55], &[(tx, witness)]);
    let mut expected = vec![0u8; 80];
    expected.extend_from_slice(&[1, 0, 0, 0, 0, 0, 0, 0, 0x55]);
    // body: 3 + (8 + 2) + (8 + 0) + (8 + 1) = 30 bytes
    expected.extend_from_slice(&[30, 0, 0, 0, 0, 0, 0, 0]);
    expected.extend_from_slice(&[1, 2, 3]);
    expected.extend_from_slice(&[2, 0, 0, 0, 0, 0, 0, 0, 9, 8]);
    expected.extend_from_slice(&[0, 0, 0, 0, 0, 0, 0, 0]);
    expected.extend_from_slice(&[1, 0, 0, 0, 0, 0, 0, 0, 7]);
    assert_eq!(block, expected);
}

#[test]
fn serialize_candidate_without_witness_is_the_transaction() {
    let tx = vec![4u8, 5, 6, 7];
    assert_eq!(serialize_candidate(&tx, &vec![]), tx);
    assert_eq!(serialize_candidate(&tx, &vec![vec![], vec![]]), tx);
}

#[test]
fn long_body_uses_all_prefix_bytes_in_little_endian() {
    let tx = vec![0x11u8; 0x0102];
    let block = construct_block(&[], &[(tx.clone(), vec![])]);
    assert_eq!(&block[88..96], &[0x02, 0x01, 0, 0, 0, 0, 0, 0]);
    assert_eq!(&block[96..], &tx[..]);
}

#[test]
fn swapping_two_candidates_changes_the_block() {
    let a = (vec![1u8, 2, 3], vec![vec![vec![0xaau8]]]);
    let b = (vec![4u8, 5], vec![]);
    let coinbase = create_coinbase_transaction();
    let first = construct_block(&coinbase, &[a.clone(), b.clone()]);
    let second = construct_block(&coinbase, &[b, a]);
    assert_eq!(first.len(), second.len());
    assert_ne!(first, second);
}

#[test]
fn split_block_gives_the_bodies_back() {
    let a = (vec![1u8, 2, 3], vec![vec![vec![0xaau8]]]);
    let b = (vec![4u8, 5], vec![]);
    let coinbase = create_coinbase_transaction();
    let block = construct_block(&coinbase, &[a.clone(), b.clone()]);
    let bodies = split_block(&block).expect("well-formed block");
    assert_eq!(bodies.len(), 3);
    assert_eq!(bodies[0], coinbase);
    assert_eq!(bodies[1], serialize_candidate(&a.0, &a.1));
    assert_eq!(&bodies[1][..3], &a.0[..]);
    assert_eq!(bodies[2], b.0);
}

#[test]
fn split_block_rejects_short_and_cut_blocks() {
    assert_eq!(split_block(&[0u8; 79]), None);
    assert_eq!(split_block(&[0u8; 80]), Some(vec![]));
    // a prefix that is cut short
    assert_eq!(split_block(&[0u8; 85]), None);
    // a prefix that promises more than is left
    let mut block = vec![0u8; 80];
    block.extend_from_slice(&[2, 0, 0, 0, 0, 0, 0, 0, 1]);
    assert_eq!(split_block(&block), None);
    block.push(1);
    assert_eq!(split_block(&block), Some(vec![vec![1u8, 1]]));
}
