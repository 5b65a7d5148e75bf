use atc_chain::consensus::{vote_signing_bytes, ConsensusEngine, SlashingEvidence, Vote};
use atc_chain::ordmap::OrdMap;
use ed25519_dalek::{Signer, SigningKey};

fn signed_vote(engine: &ConsensusEngine, key: &SigningKey, voter: &str, block: [u8; 32], approve: bool) -> Vote {
    let mut vote = Vote {
        block,
        voter: voter.into(),
        approve,
        signature: [0; 64],
        public_key: key.verifying_key().to_bytes(),
    };
    vote.signature = key.sign(&vote_signing_bytes(engine.chain_id, &vote)).to_bytes();
    vote
}

fn keys_of(entries: &[(&str, &SigningKey)]) -> OrdMap<String, [u8; 32]> {
    let mut m = OrdMap::new();
    for (name, key) in entries {
        m.insert(name.to_string(), key.verifying_key().to_bytes());
    }
    m
}

fn slash_signature(engine: &ConsensusEngine, key: &SigningKey, validator: &str, block: [u8; 32]) -> [u8; 64] {
    let mut bytes = Vec::new();
    bytes.extend_from_slice(b"ATC-SLASH-V1");
    bytes.extend_from_slice(&engine.chain_id.to_be_bytes());
    bytes.extend_from_slice(&1u64.to_be_bytes());
    bytes.extend_from_slice(&block);
    bytes.push(1);
    bytes.extend_from_slice(&(validator.len() as u32).to_be_bytes());
    bytes.extend_from_slice(validator.as_bytes());
    key.sign(&bytes).to_bytes()
}

#[test]
fn vote_for_height_cannot_use_future_validator_snapshot() {
    let mut engine = ConsensusEngine::new(658467, "proposer".into());
    let old_key = SigningKey::from_bytes(&[33u8; 32]);
    let new_key = SigningKey::from_bytes(&[34u8; 32]);
    engine.register_validator("alice".into(), 100).unwrap();
    engine.register_validator_key("alice", old_key.verifying_key().to_bytes()).unwrap();
    let validators = engine.validators_snapshot();
    engine.restore_validator_snapshot(0, validators, keys_of(&[("alice", &old_key)])).unwrap();
    engine.register_validator_key("alice", new_key.verifying_key().to_bytes()).unwrap();
    let validators = engine.validators_snapshot();
    engine.restore_validator_snapshot(2, validators, keys_of(&[("alice", &new_key)])).unwrap();

    let vote = signed_vote(&engine, &old_key, "alice", [54u8; 32], true);
    assert!(engine.vote_at_height(vote.clone(), 0).is_ok());
    let wrong_height = signed_vote(&engine, &old_key, "alice", [55u8; 32], true);
    assert!(engine.vote_at_height(wrong_height, 2).is_err());
}

#[test]
fn conflicting_votes_across_heights_do_not_cross_authentication_boundaries() {
    let mut engine = ConsensusEngine::new(658467, "proposer".into());
    let key = SigningKey::from_bytes(&[37u8; 32]);
    engine.register_validator("alice".into(), 100).unwrap();
    engine.register_validator_key("alice", key.verifying_key().to_bytes()).unwrap();
    let validators = engine.validators_snapshot();
    engine.restore_validator_snapshot(0, validators, keys_of(&[("alice", &key)])).unwrap();
    let validators = engine.validators_snapshot();
    engine.restore_validator_snapshot(1, validators, keys_of(&[("alice", &key)])).unwrap();

    let a = signed_vote(&engine, &key, "alice", [57u8; 32], true);
    let b = signed_vote(&engine, &key, "alice", [58u8; 32], false);
    assert!(engine.vote_at_height(a, 0).is_ok());
    assert!(engine.vote_at_height(b, 1).is_ok());
    assert!(engine.weighted_finality_at_height(&[57u8; 32], 0));
    assert!(!engine.weighted_finality_at_height(&[58u8; 32], 1));
}

#[test]
fn slashing_reduces_voting_weight_and_is_idempotent_by_state() {
    let mut engine = ConsensusEngine::new(658467, "proposer".into());
    engine.register_validator("a".into(), 100).unwrap();
    let key = SigningKey::from_bytes(&[3u8; 32]);
    engine.register_validator_key("a", key.verifying_key().to_bytes()).unwrap();
    let validators = engine.validators_snapshot();
    engine.restore_validator_snapshot(1, validators, keys_of(&[("a", &key)])).unwrap();
    let evidence = SlashingEvidence {
        validator: "a".into(),
        height: 1,
        block_a: [1; 32],
        block_b: [2; 32],
        approve_a: true,
        approve_b: true,
        public_key: key.verifying_key().to_bytes(),
        signature_a: slash_signature(&engine, &key, "a", [1; 32]),
        signature_b: slash_signature(&engine, &key, "a", [2; 32]),
        reason: "double-sign".into(),
    };
    assert_eq!(engine.slash(evidence.clone(), 40).unwrap(), 40);
    assert_eq!(engine.validator_stake("a"), 60);
    assert_eq!(engine.slashed_stake("a"), 40);
    assert_eq!(engine.slash(evidence, 10).unwrap(), 10);
    assert_eq!(engine.validator_stake("a"), 50);
}

#[test]
fn slashing_uses_validator_key_at_evidence_height_after_rotation() {
    let mut engine = ConsensusEngine::new(658467, "proposer".into());
    let old_key = SigningKey::from_bytes(&[81u8; 32]);
    let new_key = SigningKey::from_bytes(&[82u8; 32]);

    engine.register_validator("alice".into(), 100).unwrap();
    engine.register_validator_key("alice", old_key.verifying_key().to_bytes()).unwrap();
    let validators = engine.validators_snapshot();
    engine.restore_validator_snapshot(1, validators, keys_of(&[("alice", &old_key)])).unwrap();
    engine.register_validator_key("alice", new_key.verifying_key().to_bytes()).unwrap();
    let validators = engine.validators_snapshot();
    engine.restore_validator_snapshot(2, validators, keys_of(&[("alice", &new_key)])).unwrap();

    let evidence = SlashingEvidence {
        validator: "alice".into(),
        height: 1,
        block_a: [91; 32],
        block_b: [92; 32],
        approve_a: true,
        approve_b: true,
        public_key: old_key.verifying_key().to_bytes(),
        signature_a: slash_signature(&engine, &old_key, "alice", [91; 32]),
        signature_b: slash_signature(&engine, &old_key, "alice", [92; 32]),
        reason: "double-sign".into(),
    };
    assert_eq!(engine.slash(evidence, 10).unwrap(), 10);

    let bad = SlashingEvidence {
        validator: "alice".into(),
        height: 1,
        block_a: [93; 32],
        block_b: [94; 32],
        approve_a: true,
        approve_b: true,
        public_key: new_key.verifying_key().to_bytes(),
        signature_a: slash_signature(&engine, &new_key, "alice", [93; 32]),
        signature_b: slash_signature(&engine, &new_key, "alice", [94; 32]),
        reason: "double-sign".into(),
    };
    assert_eq!(
        engine.slash(bad, 10).unwrap_err(),
        "slashing evidence public key does not match validator identity at evidence height"
    );
}

#[test]
fn unregistered_votes_are_rejected() {
    let mut engine = ConsensusEngine::new(658467, "proposer".into());
    let key = SigningKey::from_bytes(&[7u8; 32]);
    let vote = signed_vote(&engine, &key, "unknown", [1u8; 32], true);
    assert_eq!(
        engine.vote(vote).unwrap_err(),
        "validator snapshot is unavailable for vote height"
    );
}

#[test]
fn mismatched_vote_key_is_rejected() {
    let mut engine = ConsensusEngine::new(658467, "proposer".into());
    let registered = SigningKey::from_bytes(&[11u8; 32]);
    let attacker = SigningKey::from_bytes(&[12u8; 32]);
    engine.register_validator("alice".into(), 100).unwrap();
    engine.register_validator_key("alice", registered.verifying_key().to_bytes()).unwrap();
    let vote = signed_vote(&engine, &attacker, "alice", [1; 32], true);
    assert_eq!(engine.vote(vote).unwrap_err(), "vote public key does not match validator identity");
}

#[test]
fn historical_finality_does_not_use_future_validator_weights() {
    let mut engine = ConsensusEngine::new(658467, "proposer".into());
    let a = SigningKey::from_bytes(&[35u8; 32]);
    let b = SigningKey::from_bytes(&[36u8; 32]);
    engine.register_validator("a".into(), 60).unwrap();
    engine.register_validator("b".into(), 40).unwrap();
    engine.register_validator_key("a", a.verifying_key().to_bytes()).unwrap();
    engine.register_validator_key("b", b.verifying_key().to_bytes()).unwrap();
    let validators = engine.validators_snapshot();
    engine.restore_validator_snapshot(0, validators, keys_of(&[("a", &a), ("b", &b)])).unwrap();
    let mut only_a: OrdMap<String, u128> = OrdMap::new();
    only_a.insert("a".to_string(), 100);
    let _ = engine.restore_validator_snapshot(1, only_a, keys_of(&[("a", &a)]));

    let block0 = [56u8; 32];
    engine.vote_at_height(signed_vote(&engine, &a, "a", block0, true), 0).unwrap();
    engine.vote_at_height(signed_vote(&engine, &b, "b", block0, true), 0).unwrap();
    assert!(engine.weighted_finality_at_height(&block0, 0));
    assert!(!engine.weighted_finality_at_height(&block0, 1));
}

#[test]
fn bootstrap_key_binding_records_the_first_snapshot() {
    let mut engine = ConsensusEngine::new(658467, "proposer".into());
    let a = SigningKey::from_bytes(&[13u8; 32]);
    let b = SigningKey::from_bytes(&[14u8; 32]);
    engine.register_validator("a".into(), 2).unwrap();
    engine.register_validator("b".into(), 1).unwrap();
    engine.register_validator_key("a", a.verifying_key().to_bytes()).unwrap();
    assert!(engine.validator_snapshot_for_height(0).is_none());
    engine.register_validator_key("b", b.verifying_key().to_bytes()).unwrap();
    let (vals, keys) = engine.validator_snapshot_for_height(0).unwrap();
    assert_eq!(vals.len(), 2);
    assert_eq!(keys.len(), 2);
    let vote = signed_vote(&engine, &a, "a", [3; 32], true);
    assert!(engine.vote(vote).is_ok());
}
