use atc_chain::blockchain::{Block, IndexerSink, Node};
use atc_chain::consensus::{vote_signing_bytes, Vote};
use atc_chain::mempool::{Transaction, TxType};
use atc_chain::network::{NetworkMessage, PeerTransport};
use atc_chain::storage::JournalKind;
use ed25519_dalek::{Signer, SigningKey};
use std::sync::{Arc, Mutex};

const CHAIN: u64 = 658467;

#[derive(Default)]
struct CaptureTransport {
    messages: Mutex<Vec<NetworkMessage>>,
}

impl PeerTransport for CaptureTransport {
    fn broadcast(&self, message: NetworkMessage) -> Result<(), String> {
        self.messages.lock().unwrap().push(message);
        Ok(())
    }

    fn send_to(&self, _peer_id: &str, message: NetworkMessage) -> Result<(), String> {
        self.broadcast(message)
    }
}

#[derive(Default)]
struct CaptureIndexer {
    blocks: Mutex<Vec<Block>>,
}

impl IndexerSink for CaptureIndexer {
    fn ingest_finalized(&self, block: &Block) -> Result<(), String> {
        self.blocks.lock().unwrap().push(block.clone());
        Ok(())
    }
}

fn public_key(seed: u8) -> [u8; 32] {
    SigningKey::from_bytes(&[seed; 32]).verifying_key().to_bytes()
}

fn configure_two_validator_node(node: &mut Node, proposer: &str) {
    node.register_validator("validator-a".into(), 2).unwrap();
    node.register_validator("validator-b".into(), 1).unwrap();
    node.register_validator_key("validator-a", public_key(1)).unwrap();
    node.register_validator_key("validator-b", public_key(2)).unwrap();
    node.set_vote_signer(
        proposer.to_string(),
        if proposer == "validator-a" { [1u8; 32] } else { [2u8; 32] },
    );
}

fn signed_vote(block: [u8; 32], voter: &str, seed: u8) -> Vote {
    let key = SigningKey::from_bytes(&[seed; 32]);
    let mut vote = Vote {
        block,
        voter: voter.into(),
        approve: true,
        signature: [0; 64],
        public_key: key.verifying_key().to_bytes(),
    };
    vote.signature = key.sign(&vote_signing_bytes(CHAIN, &vote)).to_bytes();
    vote
}

fn two_validator_node(proposer: &str) -> Node {
    let mut node = Node::new(CHAIN, proposer.into());
    node.create_genesis_with_proposer(1, "genesis".into()).unwrap();
    configure_two_validator_node(&mut node, proposer);
    node
}

fn journals(node: &Node) -> Vec<Vec<String>> {
    [
        JournalKind::Blocks,
        JournalKind::State,
        JournalKind::Validators,
        JournalKind::Finality,
        JournalKind::Slashing,
        JournalKind::Issuance,
    ]
    .into_iter()
    .map(|k| node.storage.journal_lines(k).cloned().unwrap_or_default())
    .collect()
}

fn reopen(lines: &[Vec<String>], proposer: &str) -> Result<Node, String> {
    Node::open_storage(
        CHAIN,
        proposer.into(),
        lines[0].clone(),
        lines[1].clone(),
        lines[2].clone(),
        lines[3].clone(),
        lines[4].clone(),
        lines[5].clone(),
    )
}

fn empty_journals() -> Vec<Vec<String>> {
    vec![Vec::new(); 6]
}

#[test]
fn validator_public_key_survives_node_restart() {
    let key = public_key(19);
    let lines = {
        let mut node = reopen(&empty_journals(), "validator-a").unwrap();
        node.create_genesis_with_proposer(0, "atc-genesis".into()).unwrap();
        node.register_validator("validator-a".into(), 100).unwrap();
        node.register_validator_key("validator-a", key).unwrap();
        assert_eq!(node.consensus.validator_public_key("validator-a"), Some(key));
        journals(&node)
    };
    let node = reopen(&lines, "validator-a").unwrap();
    assert_eq!(node.consensus.validator_stake("validator-a"), 100);
    assert_eq!(node.consensus.validator_public_key("validator-a"), Some(key));
}

#[test]
fn network_vote_before_block_is_buffered_and_replayed() {
    let mut producer = two_validator_node("validator-a");
    let block = producer.produce_reward_block(2).unwrap();

    let mut receiver = two_validator_node("validator-b");
    let vote = signed_vote(block.id, "validator-a", 1);

    receiver.handle_network_message(NetworkMessage::Vote(vote)).unwrap();
    assert_eq!(receiver.consensus.finalized(), None);

    receiver.handle_network_message(NetworkMessage::Block(block.clone())).unwrap();
    assert_eq!(receiver.chain.height(), 1);
    assert_eq!(receiver.consensus.finalized(), Some((1, block.id)));
}

#[test]
fn future_block_is_rejected_without_state_corruption_then_accepts_after_parent() {
    let mut producer = two_validator_node("validator-a");
    let block1 = producer.produce_reward_block(2).unwrap();
    let block2 = producer.produce_reward_block(3).unwrap();

    let mut receiver = two_validator_node("validator-b");
    let before = receiver.state.root();
    assert_eq!(
        receiver.handle_network_message(NetworkMessage::Block(block2.clone())).unwrap_err(),
        "non-sequential height"
    );
    assert_eq!(receiver.chain.height(), 0);
    assert_eq!(receiver.state.root(), before);

    receiver.handle_network_message(NetworkMessage::Block(block1)).unwrap();
    receiver.handle_network_message(NetworkMessage::Block(block2.clone())).unwrap();
    assert_eq!(receiver.chain.height(), 2);
    assert_eq!(receiver.chain.last().unwrap().id, block2.id);
}

#[test]
fn duplicate_network_vote_is_rejected_after_first_acceptance() {
    let mut producer = two_validator_node("validator-a");
    let block = producer.produce_reward_block(2).unwrap();

    let mut receiver = two_validator_node("validator-b");
    let vote = signed_vote(block.id, "validator-a", 1);

    receiver.handle_network_message(NetworkMessage::Block(block.clone())).unwrap();
    receiver.handle_network_message(NetworkMessage::Vote(vote.clone())).unwrap();
    assert_eq!(
        receiver.handle_network_message(NetworkMessage::Vote(vote)).unwrap_err(),
        "duplicate voter"
    );
}

#[test]
fn restart_recovers_chain_and_late_votes_restore_finality() {
    let mut producer = reopen(&empty_journals(), "validator-a").unwrap();
    producer.create_genesis_with_proposer(1, "genesis".into()).unwrap();
    configure_two_validator_node(&mut producer, "validator-a");
    let block = producer.produce_reward_block(2).unwrap();
    assert_eq!(producer.storage.block(block.height), Some(block.clone()));
    let lines = journals(&producer);
    drop(producer);

    let mut receiver = reopen(&lines, "validator-b").unwrap();
    assert_eq!(receiver.chain.height(), block.height);
    assert_eq!(receiver.consensus.finalized(), None);

    let mut source = reopen(&lines, "validator-a").unwrap();
    let capture = Arc::new(CaptureTransport::default());
    source.set_transport(Some(capture.clone() as Arc<dyn PeerTransport>));
    source
        .handle_network_message(NetworkMessage::BlockRequest { from_height: block.height })
        .unwrap();
    let messages = capture.messages.lock().unwrap().clone();
    assert_eq!(messages, vec![NetworkMessage::Block(block.clone())]);
    for message in messages {
        assert_eq!(receiver.handle_network_message(message).unwrap_err(), "non-sequential height");
    }
    assert_eq!(receiver.chain.height(), block.height);
    assert_eq!(receiver.consensus.finalized(), None);

    receiver
        .handle_network_message(NetworkMessage::Vote(signed_vote(block.id, "validator-b", 2)))
        .unwrap();
    assert_eq!(receiver.consensus.finalized(), None);
    receiver
        .handle_network_message(NetworkMessage::Vote(signed_vote(block.id, "validator-a", 1)))
        .unwrap();
    assert_eq!(receiver.consensus.finalized(), Some((block.height, block.id)));

    let lines = journals(&receiver);
    drop(receiver);
    let reopened = reopen(&lines, "validator-b").unwrap();
    assert_eq!(reopened.consensus.finalized(), Some((block.height, block.id)));
    assert_eq!(reopened.storage.recover_finalized().unwrap(), Some((block.height, block.id)));
}

#[test]
fn conflicting_same_height_block_is_rejected_after_finality() {
    let mut producer_a = two_validator_node("validator-a");
    let canonical = producer_a.produce_reward_block(2).unwrap();

    let mut producer_b = two_validator_node("validator-a");
    let conflicting = producer_b.produce_reward_block(3).unwrap();
    assert_ne!(canonical.id, conflicting.id);
    assert_eq!(canonical.height, conflicting.height);
    assert_eq!(canonical.parent_hash, conflicting.parent_hash);

    let mut receiver = two_validator_node("validator-b");
    receiver.handle_network_message(NetworkMessage::Block(canonical.clone())).unwrap();
    receiver
        .handle_network_message(NetworkMessage::Vote(signed_vote(canonical.id, "validator-a", 1)))
        .unwrap();
    receiver
        .handle_network_message(NetworkMessage::Vote(signed_vote(canonical.id, "validator-b", 2)))
        .unwrap();
    assert_eq!(receiver.consensus.finalized(), Some((canonical.height, canonical.id)));

    let before_root = receiver.state.root();
    assert!(receiver.handle_network_message(NetworkMessage::Block(conflicting)).is_err());
    assert_eq!(receiver.chain.height(), canonical.height);
    assert_eq!(receiver.chain.last().unwrap().id, canonical.id);
    assert_eq!(receiver.state.root(), before_root);
    assert_eq!(receiver.consensus.finalized(), Some((canonical.height, canonical.id)));
    assert_eq!(receiver.storage.block(canonical.height).unwrap().id, canonical.id);
}

#[test]
fn longer_divergent_chain_cannot_reorg_finalized_prefix() {
    let mut canonical = two_validator_node("validator-a");
    let canonical_h1 = canonical.produce_reward_block(2).unwrap();
    let canonical_h2 = canonical.produce_reward_block(3).unwrap();

    let mut fork = two_validator_node("validator-a");
    let fork_h1 = fork.produce_reward_block(99).unwrap();
    let fork_h2 = fork.produce_reward_block(100).unwrap();
    assert_ne!(canonical_h1.id, fork_h1.id);
    assert_ne!(canonical_h2.id, fork_h2.id);
    assert_eq!(fork_h2.parent_hash, fork_h1.id);

    let mut receiver = two_validator_node("validator-b");
    receiver.handle_network_message(NetworkMessage::Block(canonical_h1.clone())).unwrap();
    receiver
        .handle_network_message(NetworkMessage::Vote(signed_vote(canonical_h1.id, "validator-a", 1)))
        .unwrap();
    receiver
        .handle_network_message(NetworkMessage::Vote(signed_vote(canonical_h1.id, "validator-b", 2)))
        .unwrap();
    assert_eq!(receiver.consensus.finalized(), Some((canonical_h1.height, canonical_h1.id)));

    assert!(receiver.handle_network_message(NetworkMessage::Block(fork_h1)).is_err());
    assert!(receiver.handle_network_message(NetworkMessage::Block(fork_h2)).is_err());
    assert_eq!(receiver.chain.height(), canonical_h1.height);
    assert_eq!(receiver.chain.last().unwrap().id, canonical_h1.id);
    assert_eq!(receiver.consensus.finalized(), Some((canonical_h1.height, canonical_h1.id)));

    receiver.handle_network_message(NetworkMessage::Block(canonical_h2.clone())).unwrap();
    assert_eq!(receiver.chain.last().unwrap().id, canonical_h2.id);
}

#[test]
fn late_conflicting_block_after_finality_cannot_replace_canonical_state() {
    let mut source = two_validator_node("validator-a");
    let canonical = source.produce_reward_block(2).unwrap();

    let mut fork_source = two_validator_node("validator-a");
    let fork = fork_source.produce_reward_block(3).unwrap();
    assert_ne!(canonical.id, fork.id);

    let mut node = two_validator_node("validator-b");
    node.handle_network_message(NetworkMessage::Block(canonical.clone())).unwrap();
    node.handle_network_message(NetworkMessage::Vote(signed_vote(canonical.id, "validator-a", 1)))
        .unwrap();
    node.handle_network_message(NetworkMessage::Vote(signed_vote(canonical.id, "validator-b", 2)))
        .unwrap();
    assert_eq!(node.consensus.finalized(), Some((canonical.height, canonical.id)));

    let state_root = node.state.root();
    let finalized = node.consensus.finalized();
    assert!(node.import_block(fork).is_err());
    assert_eq!(node.chain.last().unwrap().id, canonical.id);
    assert_eq!(node.state.root(), state_root);
    assert_eq!(node.consensus.finalized(), finalized);
}

#[test]
fn duplicate_canonical_block_after_resync_is_idempotent_without_finality_change() {
    let mut source = two_validator_node("validator-a");
    let block = source.produce_reward_block(2).unwrap();

    let mut receiver = two_validator_node("validator-b");
    receiver.handle_network_message(NetworkMessage::Block(block.clone())).unwrap();
    let root = receiver.state.root();

    assert!(receiver.handle_network_message(NetworkMessage::Block(block.clone())).is_err());
    assert_eq!(receiver.chain.height(), block.height);
    assert_eq!(receiver.chain.last().unwrap().id, block.id);
    assert_eq!(receiver.state.root(), root);
    assert_eq!(receiver.consensus.finalized(), None);
}

#[test]
fn block_request_from_divergent_peer_cannot_replace_finalized_block() {
    let mut canonical = two_validator_node("validator-a");
    let block = canonical.produce_reward_block(2).unwrap();

    let mut divergent = two_validator_node("validator-a");
    let other = divergent.produce_reward_block(99).unwrap();
    assert_ne!(block.id, other.id);

    let mut receiver = two_validator_node("validator-b");
    receiver.handle_network_message(NetworkMessage::Block(block.clone())).unwrap();
    receiver
        .handle_network_message(NetworkMessage::Vote(signed_vote(block.id, "validator-a", 1)))
        .unwrap();
    receiver
        .handle_network_message(NetworkMessage::Vote(signed_vote(block.id, "validator-b", 2)))
        .unwrap();
    assert_eq!(receiver.consensus.finalized(), Some((block.height, block.id)));

    let transport = Arc::new(CaptureTransport::default());
    divergent.set_transport(Some(transport.clone() as Arc<dyn PeerTransport>));
    divergent.handle_network_message(NetworkMessage::BlockRequest { from_height: 1 }).unwrap();
    let messages = transport.messages.lock().unwrap().clone();
    assert!(messages.iter().any(|m| matches!(m, NetworkMessage::Block(b) if b.id == other.id)));

    for message in messages {
        let _ = receiver.handle_network_message(message);
    }
    assert_eq!(receiver.chain.height(), block.height);
    assert_eq!(receiver.chain.last().unwrap().id, block.id);
    assert_eq!(receiver.consensus.finalized(), Some((block.height, block.id)));
}

fn signed_transfer(nonce: u64, amount: u64) -> Transaction {
    let key = SigningKey::from_bytes(&[7u8; 32]);
    let mut tx = Transaction::new_with_chain_id(
        CHAIN,
        TxType::Transfer,
        "alice".into(),
        Some("bob".into()),
        amount,
        1,
        21_000,
        nonce,
        10,
        Vec::new(),
        [0; 64],
        key.verifying_key().to_bytes(),
        [0; 32],
    );
    let bytes = atc_chain::crypto::signing_bytes(&tx);
    tx.signature = key.sign(&bytes).to_bytes();
    tx
}

#[test]
fn produced_transfer_block_is_imported_by_a_peer_with_the_same_state() {
    let mut producer = Node::new(CHAIN, "validator-a".into());
    producer.state.genesis_credit("alice", 1_000_000).unwrap();
    producer.create_genesis_with_proposer(1, "genesis".into()).unwrap();
    configure_two_validator_node(&mut producer, "validator-a");

    let mut receiver = Node::new(CHAIN, "validator-b".into());
    receiver.state.genesis_credit("alice", 1_000_000).unwrap();
    receiver.create_genesis_with_proposer(1, "genesis".into()).unwrap();
    configure_two_validator_node(&mut receiver, "validator-b");

    let id = producer.submit(signed_transfer(0, 500), 10).unwrap();
    let block = producer.produce(20, 10).unwrap();
    assert_eq!(block.transactions.len(), 1);
    assert_eq!(block.transactions[0].id, id);
    assert_eq!(producer.state.balance("bob"), 500);

    receiver.import_block(block.clone()).unwrap();
    assert_eq!(receiver.chain.last().unwrap().id, block.id);
    assert_eq!(receiver.state.root(), producer.state.root());
    assert_eq!(receiver.state.balance("bob"), 500);
}

#[test]
fn produce_without_validated_transactions_is_refused() {
    let mut node = two_validator_node("validator-a");
    assert_eq!(node.produce(5, 10).unwrap_err(), "no validated transactions");
    assert_eq!(node.chain.height(), 0);
}

#[test]
fn submit_rejects_foreign_chain_and_bad_signature() {
    let mut node = two_validator_node("validator-a");
    let mut foreign = signed_transfer(0, 1);
    foreign.chain_id = 1;
    assert_eq!(node.submit(foreign, 0), Err(atc_chain::mempool::MempoolError::WrongChain));
    let mut forged = signed_transfer(0, 1);
    forged.signature[0] ^= 1;
    assert_eq!(node.submit(forged, 0), Err(atc_chain::mempool::MempoolError::InvalidSignature));
    assert_eq!(node.pool.len(), 0);
}

#[test]
fn reward_block_needs_a_configured_signer() {
    let mut node = Node::new(CHAIN, "validator-a".into());
    node.create_genesis_with_proposer(1, "genesis".into()).unwrap();
    assert_eq!(node.produce_reward_block(2).unwrap_err(), "proposer signing key is not configured");
    let mut empty = Node::new(CHAIN, "validator-a".into());
    assert_eq!(empty.produce_reward_block(2).unwrap_err(), "genesis required");
}

#[test]
fn finality_reaches_the_indexer_and_the_journal() {
    let mut producer = two_validator_node("validator-a");
    let block = producer.produce_reward_block(2).unwrap();

    let mut receiver = reopen(&empty_journals(), "validator-b").unwrap();
    receiver.create_genesis_with_proposer(1, "genesis".into()).unwrap();
    configure_two_validator_node(&mut receiver, "validator-b");
    let indexer = Arc::new(CaptureIndexer::default());
    receiver.set_indexer(Some(indexer.clone() as Arc<dyn IndexerSink>));
    receiver.import_block(block.clone()).unwrap();
    receiver.submit_vote(signed_vote(block.id, "validator-a", 1)).unwrap();
    assert_eq!(receiver.finalize_weighted(&block), Ok(true));
    assert_eq!(indexer.blocks.lock().unwrap().len(), 1);
    assert_eq!(receiver.storage.journal_lines(JournalKind::Finality).unwrap().len(), 1);
    assert_eq!(receiver.finalize(&block, 0).unwrap_err(), "quorum must be non-zero");
}

#[test]
fn unknown_vote_target_is_rejected_by_submit_vote() {
    let mut node = two_validator_node("validator-a");
    assert_eq!(
        node.submit_vote(signed_vote([9u8; 32], "validator-a", 1)).unwrap_err(),
        "vote references unknown block"
    );
}

#[test]
fn status_request_needs_genesis() {
    let mut node = Node::new(CHAIN, "validator-a".into());
    assert_eq!(node.handle_network_message(NetworkMessage::StatusRequest).unwrap_err(), "genesis required");
    assert!(!node.transport_attached());
    assert_eq!(node.proposer_id(), "validator-a");
}

#[test]
fn sdk_node_mempool_consensus_vm_state_storage_indexer() {
    let mut node = Node::new(CHAIN, "validator-1".into());
    node.state.genesis_credit("alice", 1_000_000).unwrap();
    node.register_validator("validator-1".into(), 100).unwrap();
    node.register_validator_key("validator-1", public_key(6)).unwrap();
    node.set_vote_signer("validator-1".into(), [6u8; 32]);
    node.create_genesis(1).unwrap();
    let tx = signed_transfer(0, 100);
    let id = node.submit(tx, 2).unwrap();
    let b = node.produce(3, 10).unwrap();
    assert_eq!(b.height, 1);
    assert_eq!(b.transactions[0].id, id);
    assert_eq!(node.state.balance("bob"), 100);
    assert_eq!(node.chain.last().unwrap().id, b.id);
    assert_eq!(node.storage.block(1).unwrap().id, b.id);
    assert_eq!(node.storage.state_root(1), Some(node.state.root()));
    assert_eq!(b.state_root, node.state.root());
}

#[test]
fn restart_restores_the_committed_state() {
    let mut node = reopen(&empty_journals(), "validator-1").unwrap();
    node.state.genesis_credit("alice", 1_000_000).unwrap();
    node.register_validator("validator-1".into(), 100).unwrap();
    node.register_validator_key("validator-1", public_key(6)).unwrap();
    node.set_vote_signer("validator-1".into(), [6u8; 32]);
    node.create_genesis(1).unwrap();
    node.submit(signed_transfer(0, 250), 2).unwrap();
    let b = node.produce(3, 10).unwrap();
    let root = node.state.root();
    let reopened = reopen(&journals(&node), "validator-1").unwrap();
    assert_eq!(reopened.chain.last().unwrap().id, b.id);
    assert_eq!(reopened.state.root(), root);
    assert_eq!(reopened.state.balance("bob"), 250);
    assert_eq!(reopened.consensus.height(), 1);
}

#[test]
fn stores_block() {
    let i = atc_chain::indexer::MemoryIndexer::new();
    assert!(i.blocks().is_empty());
}

#[test]
fn indexer_keeps_each_finalized_block_once() {
    let mut i = atc_chain::indexer::MemoryIndexer::new();
    let b = Block::new(0, [0; 32], "v".into(), 1, Vec::new(), [1; 32], [2; 32], [0; 64]);
    i.ingest_finalized(&b).unwrap();
    i.ingest_finalized(&b).unwrap();
    assert_eq!(i.blocks().len(), 1);
    assert!(i.contains(b.id));
    assert!(!i.contains([9; 32]));
}

#[test]
fn block_fits_check_accepts_an_ordinary_block() {
    let mut node = Node::new(CHAIN, "validator-a".into());
    node.state.genesis_credit("alice", 1_000_000).unwrap();
    let b = Block::new(1, [0; 32], "v".into(), 1, vec![signed_transfer(0, 5)], [1; 32], [2; 32], [0; 64]);
    assert!(node.block_fits_check(&b));
    assert!(atc_chain::node::message_within_limits(&NetworkMessage::Block(b)));
}
