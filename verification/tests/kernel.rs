use atc_chain::dao_state::DaoState;
use atc_chain::execution::{AtcVmExecutor, VmExecutor};
use atc_chain::blockchain::{Block, BlockChain};
use atc_chain::consensus::{ConsensusEngine, EPOCH_LENGTH_BLOCKS};
use atc_chain::economics::{
    block_reward_at_height, ATC_BASE_UNITS, BLOCK_TIME_SECONDS, HALVING_EVENTS,
    HALVING_INTERVAL_BLOCKS, MAX_ATC_SUPPLY,
};
use atc_chain::fork_choice::{choose_tip, ForkChoiceError};
use atc_chain::genesis::Genesis;
use atc_chain::state::StateDb;
use atc_chain::validator_state::{ValidatorState, ValidatorTransition};

#[test]
fn genesis_sets_chain_height_and_allows_first_append() {
    let mut chain = BlockChain::new();
    let genesis = Block::new(0, [0; 32], "validator-0".into(), 1, Vec::new(), [1; 32], [0; 32], [0; 64]);

    chain.genesis(genesis.clone()).unwrap();

    assert_eq!(chain.height(), 0);
    assert_eq!(chain.last(), Some(genesis.clone()));

    let block1 = Block::new(1, genesis.id, "validator-0".into(), 361, Vec::new(), [2; 32], [0; 32], [0; 64]);

    chain.append(block1.clone()).unwrap();

    assert_eq!(chain.height(), 1);
    assert_eq!(chain.last(), Some(block1));
}

#[test]
fn epoch_is_height_deterministic() {
    assert_eq!(ConsensusEngine::epoch(0), 0);
    assert_eq!(ConsensusEngine::epoch(EPOCH_LENGTH_BLOCKS - 1), 0);
    assert_eq!(ConsensusEngine::epoch(EPOCH_LENGTH_BLOCKS), 1);
    assert!(ConsensusEngine::is_epoch_boundary(EPOCH_LENGTH_BLOCKS));
}

#[test]
fn canonical_supply_and_timing() {
    assert_eq!(MAX_ATC_SUPPLY, 360_000_000);
    assert_eq!(BLOCK_TIME_SECONDS, 360);
    assert_eq!(HALVING_INTERVAL_BLOCKS, 360_000);
    assert_eq!(HALVING_EVENTS, 36);
}

#[test]
fn reward_halves_at_boundaries() {
    assert_eq!(block_reward_at_height(0), 0);
    assert_eq!(block_reward_at_height(1), 500);
    assert_eq!(block_reward_at_height(360_000), 500);
    assert_eq!(block_reward_at_height(360_001), 250);
    assert_eq!(block_reward_at_height(720_000), 250);
    assert_eq!(block_reward_at_height(720_001), 125);
    assert_eq!(block_reward_at_height(360_000 * 36 + 1), 0);
}

fn block(height: u64, id: u8) -> Block {
    Block {
        id: [id; 32],
        height,
        parent_hash: [0; 32],
        proposer: "p".into(),
        timestamp: 0,
        transactions: Vec::new(),
        tx_root: [0; 32],
        state_root: [0; 32],
        receipt_root: [0; 32],
        signature: [0; 64],
    }
}

#[test]
fn conflicting_finalized_height_is_not_selectable() {
    let a = block(5, 1);
    let b = block(5, 2);
    assert_eq!(choose_tip(&a, &b, Some(5)), Err(ForkChoiceError::FinalityViolation));
}

#[test]
fn conflicting_unfinalized_height_remains_deterministic() {
    let a = block(5, 1);
    let b = block(5, 2);
    assert_eq!(choose_tip(&a, &b, Some(4)).unwrap().id, a.id);
}

#[test]
fn higher_tip_is_selected_only_above_finality_boundary() {
    let a = block(5, 1);
    let b = block(6, 2);
    assert_eq!(choose_tip(&a, &b, Some(5)).unwrap().id, b.id);
}

#[test]
fn canonical_genesis_accepts_valid_configuration() {
    let g = Genesis::new(658467, 1, vec![(String::from("genesis"), 100)]);
    assert_eq!(g.validate(), Ok(()));
}

#[test]
fn canonical_genesis_rejects_supply_overflow() {
    let g = Genesis::new(658467, 1, vec![(String::from("a"), MAX_ATC_SUPPLY), (String::from("b"), 1)]);
    assert!(g.validate().is_err());
}

#[test]
fn genesis_supply_cannot_exceed_360_million_atc() {
    let mut state = StateDb::new();
    state.genesis_credit("alice", MAX_ATC_SUPPLY).unwrap();
    assert_eq!(state.total_supply(), MAX_ATC_SUPPLY);
    assert!(state.genesis_credit("bob", 1).is_err());
}

#[test]
fn genesis_allocation_is_sealed_after_genesis() {
    let mut state = StateDb::new();
    state.genesis_credit("alice", 100).unwrap();
    state.seal_genesis();
    assert!(state.genesis_credit("bob", 1).is_err());
    assert_eq!(state.total_supply(), 100);
}

#[test]
fn block_reward_uses_canonical_policy_and_tracks_base_units() {
    let mut state = StateDb::new();
    state.genesis_credit("genesis", 1_000_000).unwrap();
    let before = state.issued_base_units();
    assert_eq!(state.apply_block_reward(0, "validator"), Ok(500));
    assert_eq!(state.balance("validator"), 500);
    assert_eq!(state.issued_base_units(), before + 500 * ATC_BASE_UNITS);
}

#[test]
fn supply_is_part_of_state_root() {
    let mut a = StateDb::new();
    let b = StateDb::new();
    a.genesis_credit("alice", 100).unwrap();
    assert_ne!(a.root(), b.root());
}

fn key(n: u8) -> [u8; 32] {
    [n; 32]
}

#[test]
fn validator_root_changes_for_key_rotation_and_slash() {
    let mut state = ValidatorState::new();
    state
        .apply(&ValidatorTransition::Register {
            address: "validator-a".into(),
            stake: 100,
            public_key: key(1),
            activation_height: 1,
        })
        .unwrap();
    let registered = state.root();
    state
        .apply(&ValidatorTransition::RotateKey {
            address: "validator-a".into(),
            public_key: key(2),
            activation_height: 2,
        })
        .unwrap();
    assert_ne!(registered, state.root());
    let rotated = state.root();
    state
        .apply(&ValidatorTransition::Slash {
            address: "validator-a".into(),
            evidence_id: [7; 32],
            evidence_height: 1,
            penalty: 25,
            activation_height: 3,
        })
        .unwrap();
    assert_ne!(rotated, state.root());
    assert_eq!(state.get("validator-a").unwrap().stake, 75);
}

#[test]
fn validator_state_is_replay_deterministic() {
    let transitions = [
        ValidatorTransition::Register { address: "a".into(), stake: 100, public_key: key(1), activation_height: 1 },
        ValidatorTransition::Stake { address: "a".into(), amount: 50 },
        ValidatorTransition::RotateKey { address: "a".into(), public_key: key(2), activation_height: 2 },
        ValidatorTransition::Slash { address: "a".into(), evidence_id: [9; 32], evidence_height: 2, penalty: 20, activation_height: 3 },
        ValidatorTransition::Unregister { address: "a".into(), activation_height: 4 },
    ];
    let mut left = ValidatorState::new();
    let mut right = ValidatorState::new();
    for transition in &transitions {
        left.apply(transition).unwrap();
    }
    for transition in &transitions {
        right.apply(transition).unwrap();
    }
    assert_eq!(left, right);
    assert_eq!(left.root(), right.root());
}

#[test]
fn validator_transition_encoding_reads_back() {
    let t = ValidatorTransition::Slash {
        address: "validator-a".into(),
        evidence_id: [7; 32],
        evidence_height: 9,
        penalty: 25,
        activation_height: 10,
    };
    let bytes = t.encode();
    assert_eq!(ValidatorTransition::decode(&bytes), Ok(t));
}

#[test]
fn dao_snapshot_with_trailing_bytes_is_refused() {
    let d = DaoState::new(3, 6_000).unwrap();
    let mut bytes = d.encode();
    assert!(DaoState::decode(&bytes).is_ok());
    bytes.push(0);
    assert_eq!(DaoState::decode(&bytes).err(), Some("trailing DAO snapshot".to_string()));
}

fn id_tx(nonce: u64, sig: u8, key: u8) -> atc_chain::mempool::Transaction {
    atc_chain::mempool::Transaction::new_with_chain_id(
        658467,
        atc_chain::mempool::TxType::Transfer,
        "alice".into(),
        Some("bob".into()),
        40,
        2,
        1500,
        nonce,
        1_700_000_000,
        b"memo".to_vec(),
        [sig; 64],
        [key; 32],
        [5; 32],
    )
}

#[test]
fn transaction_id_covers_fields_but_not_signature() {
    assert_eq!(id_tx(0, 1, 2).id, id_tx(0, 3, 4).id);
    assert_ne!(id_tx(0, 1, 2).id, id_tx(1, 1, 2).id);
}

#[test]
fn non_contract_transaction_runs_no_program() {
    let exec = AtcVmExecutor { protocol: "p".into(), vm_version: "v".into(), genesis_id: "g".into() };
    let tx = id_tx(0, 1, 2);
    let rc = exec.execute(&tx, [0; 32]).unwrap();
    assert_eq!(rc.tx_id, tx.id);
    assert!(rc.success);
    assert_eq!(rc.gas_used, tx.gas_cost());
    assert!(rc.return_data.is_empty());
}
