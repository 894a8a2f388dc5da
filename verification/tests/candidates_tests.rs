use mineblock::candidates::select_candidates;
use mineblock::codec::{encode_transaction, Transaction, TxError, TxInput, TxOutput};
use mineblock::transaction::validate_transaction;

fn p2pkh() -> Vec<u8> {
    let mut s = vec![0x76, 0xa9, 0x14];
    s.extend_from_slice(&[0x5a; 20]);
    s.extend_from_slice(&[0x88, 0xac]);
    s
}

fn input(prev_index: u32, witness: Vec<Vec<u8>>) -> TxInput {
    TxInput { prev_txid: [0x22; 32], prev_index, script_sig: vec![], sequence: 0, witness }
}

fn raw(version: u32, inputs: Vec<TxInput>) -> Vec<u8> {
    encode_transaction(&Transaction {
        version,
        segwit: true,
        inputs,
        outputs: vec![TxOutput { value: 1, script_pubkey: p2pkh() }],
        lock_time: 0,
    })
}

/// A transaction without inputs: nothing can fail, so it validates.
fn accepted(version: u32) -> Vec<u8> {
    raw(version, vec![])
}

/// A transaction whose only input presents no signature.
fn rejected() -> Vec<u8> {
    raw(1, vec![input(0, vec![])])
}

fn unsupported() -> Vec<u8> {
    raw(1, vec![input(0, vec![vec![0x01; 5]])])
}

fn out_of_range() -> Vec<u8> {
    raw(1, vec![input(3, vec![])])
}

#[test]
fn fixtures_validate_as_they_are_named() {
    assert_eq!(validate_transaction(&accepted(1)), Ok(Some(vec![])));
    assert_eq!(validate_transaction(&rejected()), Ok(None));
    assert_eq!(validate_transaction(&unsupported()), Err(TxError::UnsupportedScript));
    assert_eq!(validate_transaction(&out_of_range()), Err(TxError::OutputOutOfRange));
}

#[test]
fn empty_pool_gives_empty_lists() {
    let (candidates, failed) = select_candidates(&vec![]);
    assert!(candidates.is_empty());
    assert!(failed.is_empty());
}

#[test]
fn accepted_transactions_keep_their_order() {
    let pool = vec![accepted(3), accepted(1), accepted(2)];
    let (candidates, failed) = select_candidates(&pool);
    assert!(failed.is_empty());
    assert_eq!(candidates.len(), 3);
    for (candidate, tx) in candidates.iter().zip(pool.iter()) {
        assert_eq!(&candidate.0, tx);
        assert_eq!(candidate.1, Vec::<Vec<Vec<u8>>>::new());
    }
}

#[test]
fn rejected_transactions_are_left_out_in_silence() {
    let pool = vec![rejected(), accepted(7), rejected(), accepted(8), rejected()];
    let (candidates, failed) = select_candidates(&pool);
    assert!(failed.is_empty());
    assert_eq!(candidates, vec![(accepted(7), vec![]), (accepted(8), vec![])]);
}

#[test]
fn hard_errors_are_reported_with_their_position() {
    let pool = vec![
        accepted(1),
        unsupported(),
        rejected(),
        vec![0x01, 0x00],
        accepted(2),
        out_of_range(),
    ];
    let (candidates, failed) = select_candidates(&pool);
    assert_eq!(candidates, vec![(accepted(1), vec![]), (accepted(2), vec![])]);
    assert_eq!(
        failed,
        vec![
            (1, TxError::UnsupportedScript),
            (3, TxError::MalformedEncoding),
            (5, TxError::OutputOutOfRange),
        ]
    );
}

#[test]
fn every_candidate_validates_to_its_bundle() {
    let pool = vec![rejected(), accepted(4), unsupported(), accepted(5)];
    let (candidates, _) = select_candidates(&pool);
    for (tx, bundle) in &candidates {
        assert_eq!(validate_transaction(tx), Ok(Some(bundle.clone())));
    }
    assert_eq!(candidates.len(), 2);
}

#[test]
fn equal_transactions_are_each_selected() {
    let pool = vec![accepted(1), accepted(1)];
    let (candidates, failed) = select_candidates(&pool);
    assert!(failed.is_empty());
    assert_eq!(candidates, vec![(accepted(1), vec![]), (accepted(1), vec![])]);
}
