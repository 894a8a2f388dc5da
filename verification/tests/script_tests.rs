use mineblock::codec::{TxError, TxInput, TxOutput};
use mineblock::script::{classify, matches_p2pkh, script_valid, unlocks_wrapped_program};
use mineblock::script::ScriptKind;

fn p2pkh(hash: [u8; 20]) -> Vec<u8> {
    let mut s = vec![0x76, 0xa9, 0x14];
    s.extend_from_slice(&hash);
    s.extend_from_slice(&[0x88, 0xac]);
    s
}

fn program(hash: [u8; 20]) -> Vec<u8> {
    let mut s = vec![0x00, 0x14];
    s.extend_from_slice(&hash);
    s
}

fn wrapper(program: &[u8]) -> Vec<u8> {
    let mut s = vec![0x00, 0x20];
    s.extend_from_slice(program);
    s
}

fn input(prev_index: u32, script_sig: Vec<u8>, witness: Vec<Vec<u8>>) -> TxInput {
    TxInput { prev_txid: [0x22; 32], prev_index, script_sig, sequence: 0, witness }
}

fn outputs(scripts: Vec<Vec<u8>>) -> Vec<TxOutput> {
    scripts.into_iter().map(|script_pubkey| TxOutput { value: 1, script_pubkey }).collect()
}

#[test]
fn p2pkh_pattern_is_recognised_for_any_hash() {
    assert!(matches_p2pkh(&p2pkh([0x00; 20])));
    assert!(matches_p2pkh(&p2pkh([0xab; 20])));
    let mut hash = [0u8; 20];
    for (i, b) in hash.iter_mut().enumerate() {
        *b = i as u8;
    }
    assert!(matches_p2pkh(&p2pkh(hash)));
}

#[test]
fn changing_an_opcode_of_the_pattern_is_not_recognised() {
    let script = p2pkh([0x5a; 20]);
    for position in [0usize, 1, 2, 23, 24] {
        for flip in [0x01u8, 0x80, 0xff] {
            let mut changed = script.clone();
            changed[position] ^= flip;
            assert!(!matches_p2pkh(&changed), "position {}", position);
        }
    }
}

#[test]
fn changing_a_hash_byte_keeps_the_pattern() {
    let script = p2pkh([0x5a; 20]);
    for position in 3..23 {
        let mut changed = script.clone();
        changed[position] ^= 0xff;
        assert!(matches_p2pkh(&changed));
    }
}

#[test]
fn other_lengths_are_not_the_pattern() {
    let script = p2pkh([0x5a; 20]);
    assert!(!matches_p2pkh(&[]));
    assert!(!matches_p2pkh(&script[..24]));
    let mut longer = script.clone();
    longer.push(0xac);
    assert!(!matches_p2pkh(&longer));
}

#[test]
fn script_valid_accepts_the_pattern_whatever_unlocks_it() {
    assert!(script_valid(&[], &p2pkh([1; 20])));
    assert!(script_valid(&[0xde, 0xad], &p2pkh([1; 20])));
    assert!(script_valid(&program([7; 20]), &p2pkh([0; 20])));
}

#[test]
fn script_valid_rejects_every_other_locking_script() {
    let prog = program([7; 20]);
    let mut script_sig = vec![0x16];
    script_sig.extend_from_slice(&prog);
    // a wrapper script is not the pattern, even where the unlocking script
    // ends in its program
    assert!(!script_valid(&script_sig, &wrapper(&prog)));
    assert!(!script_valid(&prog, &wrapper(&prog)));
    assert!(!script_valid(&script_sig, &prog));
    assert!(!script_valid(&script_sig, &[]));
    assert!(!script_valid(&[], &[0x51]));
    for position in [0usize, 1, 2, 23, 24] {
        let mut changed = p2pkh([1; 20]);
        changed[position] ^= 0x04;
        assert!(!script_valid(&[], &changed), "position {}", position);
    }
    let mut longer = p2pkh([1; 20]);
    longer.push(0x00);
    assert!(!script_valid(&[], &longer));
}

#[test]
fn wrapped_program_is_unlocked_by_a_script_that_ends_in_it() {
    let prog = program([7; 20]);
    let mut script_sig = vec![0x16];
    script_sig.extend_from_slice(&prog);
    assert!(unlocks_wrapped_program(&script_sig, &wrapper(&prog)));
    assert!(unlocks_wrapped_program(&prog, &wrapper(&prog)));
}

#[test]
fn wrapped_program_is_not_unlocked_by_anything_else() {
    let prog = program([7; 20]);
    let mut script_sig = vec![0x16];
    script_sig.extend_from_slice(&prog);
    // unlocking script too short
    assert!(!unlocks_wrapped_program(&prog[1..], &wrapper(&prog)));
    assert!(!unlocks_wrapped_program(&[], &wrapper(&prog)));
    // unlocking script ends in another program
    assert!(!unlocks_wrapped_program(&script_sig, &wrapper(&program([8; 20]))));
    let mut other = script_sig.clone();
    other[22] ^= 1;
    assert!(!unlocks_wrapped_program(&other, &wrapper(&prog)));
    // not a wrapper: wrong opcodes, wrong program header, wrong length
    let mut bad = wrapper(&prog);
    bad[0] = 0x51;
    assert!(!unlocks_wrapped_program(&script_sig, &bad));
    let mut bad = wrapper(&prog);
    bad[1] = 0x14;
    assert!(!unlocks_wrapped_program(&script_sig, &bad));
    let mut bad_prog = prog.clone();
    bad_prog[0] = 0x01;
    let mut sig = vec![0x16];
    sig.extend_from_slice(&bad_prog);
    assert!(!unlocks_wrapped_program(&sig, &wrapper(&bad_prog)));
    let mut bad_prog = prog.clone();
    bad_prog[1] = 0x20;
    let mut sig = vec![0x16];
    sig.extend_from_slice(&bad_prog);
    assert!(!unlocks_wrapped_program(&sig, &wrapper(&bad_prog)));
    assert!(!unlocks_wrapped_program(&script_sig, &prog));
    assert!(!unlocks_wrapped_program(&script_sig, &[]));
    // the pattern of a legacy spend is no wrapper
    assert!(!unlocks_wrapped_program(&script_sig, &p2pkh([7; 20])));
}

#[test]
fn legacy_input_spending_a_wrapper_script_is_unrecognised() {
    let prog = program([7; 20]);
    let mut script_sig = vec![0x16];
    script_sig.extend_from_slice(&prog);
    let outs = outputs(vec![wrapper(&prog)]);
    assert_eq!(classify(&input(0, script_sig, vec![]), &outs), Ok(ScriptKind::Unrecognized));
}

#[test]
fn input_without_witness_is_legacy_iff_the_output_has_the_pattern() {
    let outs = outputs(vec![vec![0x51], p2pkh([3; 20])]);
    assert_eq!(classify(&input(1, vec![], vec![]), &outs), Ok(ScriptKind::LegacyPKH));
    assert_eq!(classify(&input(0, vec![], vec![]), &outs), Ok(ScriptKind::Unrecognized));
    assert_eq!(classify(&input(1, vec![1, 2, 3], vec![]), &outs), Ok(ScriptKind::LegacyPKH));
}

#[test]
fn mutating_the_pattern_flips_legacy_to_unrecognised() {
    let script = p2pkh([3; 20]);
    for position in [0usize, 1, 2, 23, 24] {
        let mut changed = script.clone();
        changed[position] = changed[position].wrapping_add(1);
        let outs = outputs(vec![changed]);
        assert_eq!(classify(&input(0, vec![], vec![]), &outs), Ok(ScriptKind::Unrecognized));
    }
    let outs = outputs(vec![script]);
    assert_eq!(classify(&input(0, vec![], vec![]), &outs), Ok(ScriptKind::LegacyPKH));
}

#[test]
fn legacy_input_with_missing_output_is_an_error() {
    let outs = outputs(vec![p2pkh([3; 20])]);
    assert_eq!(classify(&input(1, vec![], vec![]), &outs), Err(TxError::OutputOutOfRange));
    assert_eq!(classify(&input(u32::MAX, vec![], vec![]), &outs), Err(TxError::OutputOutOfRange));
    assert_eq!(classify(&input(0, vec![], vec![]), &vec![]), Err(TxError::OutputOutOfRange));
}

#[test]
fn witness_ending_in_twenty_bytes_is_witness_pkh() {
    let witness = vec![vec![0x30], vec![0x02], vec![0x44; 20]];
    // the output index plays no part
    assert_eq!(classify(&input(9, vec![], witness.clone()), &vec![]), Ok(ScriptKind::WitnessPKH));
    assert_eq!(classify(&input(0, vec![0x01], witness), &vec![]), Ok(ScriptKind::WitnessPKH));
    assert_eq!(classify(&input(0, vec![], vec![vec![0; 20]]), &vec![]), Ok(ScriptKind::WitnessPKH));
}

#[test]
fn witness_ending_in_a_program_is_wrapped_iff_the_script_ends_in_it() {
    let prog = program([0x44; 20]);
    let mut script_sig = vec![0x16];
    script_sig.extend_from_slice(&prog);
    let witness = vec![vec![0x30], vec![0x02], prog.clone()];
    assert_eq!(
        classify(&input(0, script_sig.clone(), witness.clone()), &vec![]),
        Ok(ScriptKind::WrappedWitnessPKH)
    );
    assert_eq!(classify(&input(0, vec![], witness.clone()), &vec![]), Ok(ScriptKind::Unrecognized));
    let mut other = script_sig.clone();
    other[5] ^= 0x01;
    assert_eq!(classify(&input(0, other, witness), &vec![]), Ok(ScriptKind::Unrecognized));
    // 22 bytes that are no key-hash program
    let not_a_program = vec![0x51; 22];
    assert_eq!(
        classify(&input(0, not_a_program.clone(), vec![not_a_program]), &vec![]),
        Ok(ScriptKind::Unrecognized)
    );
}

#[test]
fn other_witness_program_lengths_are_unsupported() {
    for len in [0usize, 1, 19, 21, 23, 32, 33] {
        let witness = vec![vec![0x30], vec![0x02; len]];
        assert_eq!(
            classify(&input(0, vec![], witness), &outputs(vec![p2pkh([0; 20])])),
            Err(TxError::UnsupportedScript),
            "length {}",
            len
        );
    }
}
