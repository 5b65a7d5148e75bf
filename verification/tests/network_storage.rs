use atc_chain::blockchain::Block;
use atc_chain::consensus::Vote;
use atc_chain::mempool::{Transaction, TxType};
use atc_chain::network::{
    accept_greeting, block_decode, block_encode, check_frame_header, check_greeting_reply, decode,
    encode, frame_message, NetworkMessage,
};
use atc_chain::ordmap::OrdMap;
use atc_chain::state::Account;
use atc_chain::storage::{ChainStorage, JournalKind};

#[test]
fn block_decode_rejects_excessive_transaction_count_before_allocation() {
    let mut bytes = Vec::new();
    bytes.extend_from_slice(&1u64.to_be_bytes());
    bytes.extend_from_slice(&[0u8; 32]);
    bytes.extend_from_slice(&0u32.to_be_bytes());
    bytes.extend_from_slice(&0u64.to_be_bytes());
    bytes.extend_from_slice(&u32::MAX.to_be_bytes());

    let err = block_decode(&bytes).unwrap_err();
    assert_eq!(err, "block transaction count exceeds protocol limit");
}

fn sample_tx() -> Transaction {
    Transaction::new_with_chain_id(
        658467,
        TxType::Transfer,
        "alice".into(),
        Some("bob".into()),
        40,
        2,
        1500,
        0,
        1_700_000_000,
        b"memo".to_vec(),
        [3; 64],
        [4; 32],
        [5; 32],
    )
}

#[test]
fn block_wire_form_reads_back() {
    let b = Block::new(8, [7; 32], "node-a".into(), 8, vec![sample_tx()], [8; 32], [0; 32], [0; 64]);
    let bytes = block_encode(&b);
    assert_eq!(block_decode(&bytes), Ok(b));
}

#[test]
fn tampered_block_commitment_is_rejected() {
    let b = Block::new(8, [7; 32], "node-a".into(), 8, Vec::new(), [8; 32], [0; 32], [0; 64]);
    let mut bytes = block_encode(&b);
    let last = bytes.len() - 1;
    bytes[last] ^= 1;
    assert_eq!(block_decode(&bytes), Err("block commitment mismatch".to_string()));
}

#[test]
fn messages_read_back_from_their_payloads() {
    let msgs = vec![
        NetworkMessage::Hello { chain_id: 658467, node_id: "node-a".into(), height: 7, best_block: [7; 32] },
        NetworkMessage::Transaction(sample_tx()),
        NetworkMessage::Vote(Vote { block: [1; 32], voter: "v".into(), approve: true, signature: [2; 64], public_key: [3; 32] }),
        NetworkMessage::BlockRequest { from_height: 3 },
        NetworkMessage::StatusRequest,
        NetworkMessage::Status { height: 4, best_block: [4; 32], finalized: Some((3, [3; 32])) },
        NetworkMessage::Status { height: 4, best_block: [4; 32], finalized: None },
    ];
    for m in msgs {
        let payload = encode(&m).unwrap();
        assert_eq!(decode(&payload), Ok(m));
    }
}

#[test]
fn unknown_and_trailing_messages_are_rejected() {
    assert_eq!(decode(&[9]), Err("unknown network message".to_string()));
    assert_eq!(decode(&[5, 0]), Err("trailing network message bytes".to_string()));
    assert_eq!(decode(&[]), Err("truncated fixed field".to_string()));
}

#[test]
fn snapshot_with_missing_key_is_not_encoded() {
    let b = Block::new(1, [0; 32], "v".into(), 1, Vec::new(), [1; 32], [2; 32], [0; 64]);
    let mut validators = OrdMap::new();
    validators.insert("a".to_string(), 10u64);
    let keys: OrdMap<String, [u8; 32]> = OrdMap::new();
    let m = NetworkMessage::BlockWithValidatorSnapshot { block: b, activation_height: 1, validators, validator_keys: keys };
    assert_eq!(encode(&m), Err("invalid validator snapshot size or key cardinality".to_string()));
}

#[test]
fn frames_carry_magic_version_and_length() {
    let frame = frame_message(&NetworkMessage::StatusRequest).unwrap();
    assert_eq!(&frame[..4], b"ATCP");
    assert_eq!(frame[4], 2);
    assert_eq!(check_frame_header(&frame[..9]), Ok(1));
    let mut bad = frame.clone();
    bad[4] = 3;
    assert_eq!(check_frame_header(&bad[..9]), Err("unsupported network protocol version".to_string()));
    bad[0] = b'X';
    assert_eq!(check_frame_header(&bad[..9]), Err("invalid network magic".to_string()));
}

#[test]
fn greetings_are_checked_against_the_local_chain() {
    let hello = NetworkMessage::Hello { chain_id: 1, node_id: "b".into(), height: 2, best_block: [2; 32] };
    assert_eq!(accept_greeting(2, Some(hello.clone())), Err("chain-id mismatch: local 2, peer 1".to_string()));
    assert_eq!(accept_greeting(1, Some(hello.clone())), Ok(("b".to_string(), 2, [2; 32])));
    assert_eq!(accept_greeting(1, None), Err("invalid peer handshake".to_string()));
    assert_eq!(check_greeting_reply(1, Some(hello.clone())), Ok("b".to_string()));
    assert_eq!(check_greeting_reply(2, Some(hello)), Err("peer handshake rejected".to_string()));
    assert_eq!(check_greeting_reply(2, None), Err("peer closed during handshake".to_string()));
}

#[test]
fn canonical_commit_rejects_conflicting_height_and_parent() {
    let mut s = ChainStorage::new();
    let genesis = Block::new(0, [0; 32], "v".into(), 1, Vec::new(), [1; 32], [2; 32], [0; 64]);
    s.commit(genesis.clone()).unwrap();

    let h1 = Block::new(1, genesis.id, "v".into(), 2, Vec::new(), [3; 32], [4; 32], [0; 64]);
    s.commit(h1.clone()).unwrap();
    assert!(s.commit(h1.clone()).is_ok());
    let conflicting = Block::new(1, genesis.id, "v".into(), 3, Vec::new(), [5; 32], [6; 32], [0; 64]);
    assert!(s.commit(conflicting).is_err());
    let wrong_parent = Block::new(2, [9; 32], "v".into(), 4, Vec::new(), [7; 32], [8; 32], [0; 64]);
    assert!(s.commit(wrong_parent).is_err());
}

#[test]
fn round_trip() {
    let mut s = ChainStorage::new();
    let b = Block::new(0, [0; 32], "v".into(), 1, Vec::new(), [1; 32], [2; 32], [0; 64]);
    s.commit(b.clone()).unwrap();
    assert_eq!(s.block(0), Some(b));
}

#[test]
fn incomplete_validator_snapshot_is_rejected() {
    let mut storage = ChainStorage::new();
    let mut validators = OrdMap::new();
    validators.insert("validator-a".to_string(), 100u64);
    let keys: OrdMap<String, [u8; 32]> = OrdMap::new();
    let err = storage.commit_validators(1, &validators, &keys).unwrap_err();
    assert!(err.contains("every validator needs a public key"));
}

fn empty() -> Vec<String> {
    Vec::new()
}

fn journaled() -> ChainStorage {
    ChainStorage::open(empty(), empty(), empty(), empty(), empty(), empty()).unwrap()
}

#[test]
fn reopened_journal_recovers_committed_blocks() {
    let mut s = journaled();
    let genesis = Block::new(0, [0; 32], "v".into(), 1, Vec::new(), [1; 32], [2; 32], [0; 64]);
    let h1 = Block::new(1, genesis.id, "v".into(), 2, vec![sample_tx()], [3; 32], [4; 32], [0; 64]);
    s.commit(genesis.clone()).unwrap();
    s.commit(h1.clone()).unwrap();
    let lines = s.journal_lines(JournalKind::Blocks).unwrap().clone();
    assert_eq!(lines.len(), 2);
    let reopened = ChainStorage::open(lines, empty(), empty(), empty(), empty(), empty()).unwrap();
    assert_eq!(reopened.block(0), Some(genesis));
    assert_eq!(reopened.block(1), Some(h1.clone()));
    assert_eq!(reopened.find_block_by_id(h1.id), Some(h1));
    assert_eq!(reopened.state_root(1), Some([3; 32]));
}

#[test]
fn recovery_rejects_conflicting_canonical_height_in_journal() {
    let mut s = journaled();
    let genesis = Block::new(0, [0; 32], "v".into(), 1, Vec::new(), [1; 32], [2; 32], [0; 64]);
    let first = Block::new(1, genesis.id, "v".into(), 2, Vec::new(), [3; 32], [4; 32], [0; 64]);
    s.commit(genesis.clone()).unwrap();
    s.commit(first).unwrap();
    let mut lines = s.journal_lines(JournalKind::Blocks).unwrap().clone();
    let mut other = journaled();
    let conflicting = Block::new(1, genesis.id, "v".into(), 3, Vec::new(), [5; 32], [6; 32], [0; 64]);
    other.commit(genesis).unwrap();
    other.commit(conflicting).unwrap();
    lines.push(other.journal_lines(JournalKind::Blocks).unwrap()[1].clone());
    let err = match ChainStorage::open(lines, empty(), empty(), empty(), empty(), empty()) {
        Ok(_) => panic!("conflicting journal must be rejected"),
        Err(err) => err,
    };
    assert!(err.contains("non-sequential block height"));
}

#[test]
fn recovery_rejects_torn_canonical_block_record() {
    let mut s = journaled();
    let genesis = Block::new(0, [0; 32], "v".into(), 1, Vec::new(), [1; 32], [2; 32], [0; 64]);
    s.commit(genesis).unwrap();
    let line = s.journal_lines(JournalKind::Blocks).unwrap()[0].clone();
    let torn = line[..line.len() - 2].to_string();
    let err = match ChainStorage::open(vec![torn, line], empty(), empty(), empty(), empty(), empty()) {
        Ok(_) => panic!("torn canonical block journal must be rejected"),
        Err(err) => err,
    };
    assert!(err.contains("journal line 1"));
}

#[test]
fn state_issuance_and_finality_journals_read_back() {
    let mut s = journaled();
    let genesis = Block::new(0, [0; 32], "v".into(), 1, Vec::new(), [1; 32], [2; 32], [0; 64]);
    let mut accounts = OrdMap::new();
    accounts.insert("alice".to_string(), Account { balance: 10, staked: 2, nonce: 1 });
    s.commit_block_state_issuance(genesis.clone(), &accounts, &[1, 2, 3], 77).unwrap();
    let (h, (m, dao)) = s.recover_state_with_dao_at_height().unwrap().unwrap();
    assert_eq!(h, 0);
    assert_eq!(m.get(&"alice".to_string()), Some(&Account { balance: 10, staked: 2, nonce: 1 }));
    assert_eq!(dao, vec![1, 2, 3]);
    assert_eq!(s.recover_issuance(), Ok(Some((0, 77))));
    s.commit_finalized(0, genesis.id).unwrap();
    s.commit_finalized(0, genesis.id).unwrap();
    assert!(s.commit_finalized(0, [8; 32]).is_err());
    assert_eq!(s.recover_finalized(), Ok(Some((0, genesis.id))));
    assert_eq!(s.journal_lines(JournalKind::Finality).unwrap().len(), 1);
    assert_eq!(s.commit_issuance(5, 1), Err("issuance record references missing block".to_string()));
}

#[test]
fn recovery_rejects_state_written_before_block_commit_point() {
    let mut record = Vec::new();
    record.extend_from_slice(&1u64.to_be_bytes());
    record.extend_from_slice(&0u32.to_be_bytes());
    record.extend_from_slice(&0u32.to_be_bytes());
    let line = hex::encode(record);
    let storage = ChainStorage::open(empty(), vec![line], empty(), empty(), empty(), empty()).unwrap();
    let err = storage.recover_state_with_dao().unwrap_err();
    assert!(err.contains("missing block"));
}

#[test]
fn slashing_journal_reads_back() {
    let mut s = journaled();
    s.commit_slashing(3, "validator-a", [7; 32], 25).unwrap();
    let recovered = s.recover_slashing().unwrap();
    assert_eq!(recovered, vec![(3, "validator-a".to_string(), [7; 32], 25)]);
}

#[test]
fn validator_snapshot_history_rejects_height_regression() {
    let mut s = journaled();
    let key = ed25519_dalek::SigningKey::from_bytes(&[53u8; 32]).verifying_key().to_bytes();
    let mut validators = OrdMap::new();
    validators.insert("alice".to_string(), 100u64);
    let mut keys = OrdMap::new();
    keys.insert("alice".to_string(), key);
    s.commit_validators(10, &validators, &keys).unwrap();
    s.commit_validators(9, &validators, &keys).unwrap();
    let lines = s.journal_lines(JournalKind::Validators).unwrap().clone();
    let err = match ChainStorage::open(empty(), empty(), lines, empty(), empty(), empty()) {
        Ok(_) => panic!("validator height regression must be rejected"),
        Err(err) => err,
    };
    assert!(err.contains("validator snapshot height regressed"));
}

#[test]
fn recovery_rejects_torn_finality_record() {
    let mut s = journaled();
    let genesis = Block::new(0, [0; 32], "v".into(), 1, Vec::new(), [1; 32], [2; 32], [0; 64]);
    s.commit(genesis.clone()).unwrap();
    s.commit_finalized(0, genesis.id).unwrap();
    let blocks = s.journal_lines(JournalKind::Blocks).unwrap().clone();
    let line = s.journal_lines(JournalKind::Finality).unwrap()[0].clone();
    let torn = line[..line.len() - 4].to_string();
    let err = match ChainStorage::open(blocks, empty(), empty(), vec![torn], empty(), empty()) {
        Ok(_) => panic!("torn finality journal must be rejected"),
        Err(err) => err,
    };
    assert!(err.contains("finality journal line 1"), "{}", err);
}

#[test]
fn recovery_rejects_torn_issuance_record() {
    let mut s = journaled();
    let genesis = Block::new(0, [0; 32], "v".into(), 1, Vec::new(), [1; 32], [2; 32], [0; 64]);
    s.commit(genesis).unwrap();
    s.commit_issuance(0, 0).unwrap();
    let blocks = s.journal_lines(JournalKind::Blocks).unwrap().clone();
    let line = s.journal_lines(JournalKind::Issuance).unwrap()[0].clone();
    let torn = line[..line.len() - 2].to_string();
    let err = match ChainStorage::open(blocks, empty(), empty(), empty(), empty(), vec![torn]) {
        Ok(_) => panic!("torn issuance journal must be rejected"),
        Err(err) => err,
    };
    assert!(err.contains("invalid issuance") || err.contains("range end index"), "{}", err);
}

#[test]
fn consistent_journals_reopen() {
    let mut s = journaled();
    let genesis = Block::new(0, [0; 32], "v".into(), 1, Vec::new(), [1; 32], [2; 32], [0; 64]);
    s.commit(genesis.clone()).unwrap();
    s.commit_finalized(0, genesis.id).unwrap();
    s.commit_issuance(0, 5).unwrap();
    let reopened = ChainStorage::open(
        s.journal_lines(JournalKind::Blocks).unwrap().clone(),
        empty(),
        empty(),
        s.journal_lines(JournalKind::Finality).unwrap().clone(),
        empty(),
        s.journal_lines(JournalKind::Issuance).unwrap().clone(),
    )
    .unwrap();
    assert_eq!(reopened.recover_finalized(), Ok(Some((0, genesis.id))));
    assert_eq!(reopened.recover_issuance(), Ok(Some((0, 5))));
}
