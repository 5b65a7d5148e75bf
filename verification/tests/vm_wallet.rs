use atc_chain::atc_vm::bytecode::{BytecodeVerifier, ValidationLimits, ValidatedProgram, VerifyError};
use atc_chain::atc_vm::context::ChainContext;
use atc_chain::atc_vm::vm::{Op, Vm, VmError};
use atc_chain::wallet::{
    decode, encode, payload_from_public_key, tx_type_number, AddressError, Balance, History,
    HistoryEntry, Transaction, TxError, TxStatus, TxType, WalletKey,
};
use ed25519_dalek::Signer;

fn verify(program: Vec<Op>) -> Result<ValidatedProgram, VerifyError> {
    BytecodeVerifier::default().verify(program)
}

#[test]
fn validates_arithmetic_program() {
    let program = vec![Op::Push(7), Op::Push(3), Op::Add, Op::Push(2), Op::Mul, Op::Halt];
    let validated = verify(program.clone()).expect("program must validate");
    assert_eq!(validated.ops(), program.as_slice());
}

#[test]
fn rejects_stack_underflow_before_execution() {
    let err = verify(vec![Op::Add, Op::Halt]).expect_err("must reject");
    assert_eq!(err, VerifyError::StackUnderflow { pc: 0, required: 2, available: 0 });
}

#[test]
fn rejects_invalid_jump() {
    let err = verify(vec![Op::Push(1), Op::Jump(99)]).expect_err("must reject");
    assert_eq!(err, VerifyError::InvalidJump { pc: 1, target: 99 });
}

#[test]
fn merge_with_different_stack_heights_is_rejected() {
    let err = verify(vec![Op::Push(1), Op::JumpIfZero(3), Op::Push(2), Op::Halt])
        .expect_err("merge with different stack heights must reject");
    assert_eq!(err, VerifyError::InconsistentStackHeight { pc: 3, expected: 1, found: 0 });
}

// Both branches reach the final `Halt` with one value on the stack (the taken branch
// pushes 3, the other pushes 2 and jumps), so this merge is consistent and the program
// is admitted; a rejection at position 5 cannot be expected of it.
#[test]
fn branches_meeting_at_one_height_are_admitted() {
    let program = vec![Op::Push(1), Op::JumpIfZero(4), Op::Push(2), Op::Jump(5), Op::Push(3), Op::Halt];
    assert!(verify(program).is_ok());
}

#[test]
fn any_stack_depth_limit_is_accepted() {
    let limits = ValidationLimits { max_stack_depth: usize::MAX, ..ValidationLimits::default() };
    assert!(BytecodeVerifier::new(limits).verify(vec![Op::Push(1), Op::Push(2), Op::Add, Op::Halt]).is_ok());
}

#[test]
fn rejects_storage_slot_outside_limit() {
    let limits = ValidationLimits { max_storage_slots: 2, ..ValidationLimits::default() };
    let err = BytecodeVerifier::new(limits).verify(vec![Op::Push(1), Op::Store(2), Op::Halt]).expect_err("must reject");
    assert_eq!(err, VerifyError::StorageSlotExceeded { pc: 1, slot: 2, max: 2 });
}

#[test]
fn rejects_program_above_instruction_limit() {
    let limits = ValidationLimits { max_instructions: 2, ..ValidationLimits::default() };
    let err = BytecodeVerifier::new(limits).verify(vec![Op::Halt, Op::Halt, Op::Halt]).expect_err("must reject");
    assert_eq!(err, VerifyError::ProgramTooLarge { actual: 3, max: 2 });
}

#[test]
fn rejects_stack_depth_above_limit() {
    let limits = ValidationLimits { max_stack_depth: 2, ..ValidationLimits::default() };
    let err = BytecodeVerifier::new(limits)
        .verify(vec![Op::Push(1), Op::Push(2), Op::Push(3), Op::Halt])
        .expect_err("must reject");
    assert_eq!(err, VerifyError::StackDepthExceeded { pc: 2, depth: 3, max: 2 });
}

#[test]
fn bounds_non_terminating_control_flow_with_gas() {
    let validated = verify(vec![Op::Push(1), Op::Jump(1)]).expect("structurally valid");
    assert_eq!(validated.gas_limit(), 10_000);
}

fn context() -> ChainContext {
    ChainContext {
        chain_id: "atc".into(),
        network_id: "devnet".into(),
        genesis_id: "a".repeat(64),
        protocol_version: "1.0.0".into(),
        vm_version: "1.0.0".into(),
    }
}

#[test]
fn arithmetik() {
    let mut vm = Vm::new(vec![Op::Push(2), Op::Push(3), Op::Add, Op::Push(4), Op::Mul, Op::Halt]).expect("program must validate");
    assert_eq!(vm.run(), Ok(vec![20]));
}

#[test]
fn state_transition_requires_identity_gate() {
    let mut vm = Vm::with_context(vec![Op::Push(7), Op::Store(0), Op::Halt], 1, vec![]).expect("program must validate");
    assert!(vm.execute_state_transition(&context(), &"b".repeat(64), "1.0.0", "1.0.0").is_err());
    assert!(vm.state().is_empty(), "invalid context darf keinen State mutieren");
    assert!(vm.execute_state_transition(&context(), &"a".repeat(64), "1.0.0", "1.0.0").is_ok());
    assert_eq!(vm.state(), &[7]);
}

#[test]
fn verifier_rejects_invalid_program_without_constructing_vm() {
    let result = Vm::new(vec![Op::Add, Op::Halt]);
    assert!(matches!(result, Err(VmError::Verification(VerifyError::StackUnderflow { .. }))));
}

#[test]
fn verifier_rejects_invalid_jump_without_constructing_vm() {
    let result = Vm::new(vec![Op::Push(1), Op::Jump(99)]);
    assert!(matches!(result, Err(VmError::Verification(VerifyError::InvalidJump { .. }))));
}

#[test]
fn gas_bounds_non_terminating_valid_control_flow() {
    let mut vm = Vm::new(vec![Op::Push(1), Op::Jump(1)]).expect("program is structurally valid");
    assert_eq!(vm.run(), Err(VmError::GasExhausted));
}

#[test]
fn debit_and_credit_are_checked() {
    let mut b = Balance { confirmed: 100, spendable: 100, locked: 10 };
    assert!(b.debit(90).is_ok());
    assert_eq!(b.spendable, 10);
    assert!(b.debit(1).is_ok());
    assert!(b.debit(1).is_err());
}

#[test]
fn refused_debit_leaves_the_balance() {
    let mut b = Balance { confirmed: 5, spendable: 5, locked: 0 };
    assert!(b.debit(6).is_err());
    assert_eq!(b.spendable, 5);
    assert!(b.debit(5).is_ok());
    assert_eq!(b.spendable, 0);
}

#[test]
fn credit_overflow_is_reported() {
    let mut b = Balance { confirmed: u64::MAX, spendable: 0, locked: 0 };
    assert!(b.credit(1).is_err());
    assert_eq!(b.confirmed, u64::MAX);
    let mut c = Balance { confirmed: 0, spendable: 0, locked: 0 };
    c.credit(5).unwrap();
    assert_eq!(c.available(), 5);
    assert!(c.can_spend(5));
}

#[test]
fn tx_type_mapping_is_canonical() {
    assert_eq!(tx_type_number(TxType::Transfer), 0);
    assert_eq!(tx_type_number(TxType::Stake), 1);
    assert_eq!(tx_type_number(TxType::Unstake), 2);
    assert_eq!(tx_type_number(TxType::Contract), 3);
}

#[test]
fn history_confirms_first_matching_entry() {
    let mut h = History::new();
    h.push(HistoryEntry { tx_id: [1; 32], nonce: 0, amount: 5, status: TxStatus::Pending });
    assert!(h.confirm(&[1; 32], 9));
    assert!(!h.confirm(&[2; 32], 9));
    assert_eq!(h.entries()[0].status, TxStatus::Confirmed { height: 9 });
}

#[test]
fn address_roundtrip() {
    let public_key = [7u8; 32];
    let address = encode(&public_key, 42);
    assert_eq!(decode(&address, 42).unwrap(), payload_from_public_key(&public_key));
}

#[test]
fn checksum_corruption_is_rejected() {
    let address = encode(&[7u8; 32], 42);
    let mut raw = bs58::decode(address).into_vec().unwrap();
    raw[24] ^= 1;
    let corrupted = bs58::encode(raw).into_string();
    assert_eq!(decode(&corrupted, 42), Err(AddressError::InvalidChecksum));
}

#[test]
fn address_version_and_encoding_are_checked() {
    let address = encode(&[7u8; 32], 42);
    assert_eq!(decode(&address, 43), Err(AddressError::InvalidVersion));
    assert_eq!(decode("0OIl", 42), Err(AddressError::InvalidEncoding));
    assert_eq!(decode("11", 42), Err(AddressError::InvalidLength));
}

fn tx() -> Transaction {
    Transaction {
        chain_id: 658_467,
        tx_type: TxType::Transfer,
        sender_did: "ATC-sender".into(),
        recipient_did: Some("ATC-recipient".into()),
        amount: 100u128,
        gas_price: 1,
        gas_limit: 1000,
        nonce: 7,
        timestamp: 1_700_000_000,
        payload: b"hello".to_vec(),
        poh_hash: [9u8; 32],
    }
}

fn sign(t: &Transaction) -> ([u8; 32], [u8; 64]) {
    let key = ed25519_dalek::SigningKey::from_bytes(&[7u8; 32]);
    let bytes = t.signing_bytes().unwrap();
    (key.verifying_key().to_bytes(), key.sign(&bytes).to_bytes())
}

#[test]
fn transaction_mutation_invalidates_signature() {
    let tx = tx();
    let (pk, signature) = sign(&tx);
    assert!(tx.verify(&pk, &signature).is_ok());
    let mut altered = tx.clone();
    altered.amount += 1u128;
    assert!(altered.verify(&pk, &signature).is_err());
}

#[test]
fn chain_mutation_invalidates_signature() {
    let tx = tx();
    let (pk, signature) = sign(&tx);
    let mut altered = tx;
    altered.chain_id = 2;
    assert!(altered.verify(&pk, &signature).is_err());
}

#[test]
fn wrong_chain_and_empty_sender_are_refused() {
    let mut t = tx();
    t.chain_id = 1;
    assert_eq!(t.signing_bytes(), Err(TxError::InvalidChainId));
    let mut u = tx();
    u.sender_did = String::new();
    assert_eq!(u.signing_bytes(), Err(TxError::EmptySender));
}

#[test]
fn l1_signature_roundtrip() {
    let key = WalletKey::from_seed([7u8; 32]);
    let tx = tx();
    let signature = tx.sign(&key).unwrap();
    assert!(tx.verify(&key.public_key(), &signature).is_ok());
    assert_eq!(key.public_key(), ed25519_dalek::SigningKey::from_bytes(&[7u8; 32]).verifying_key().to_bytes());
}

#[test]
fn wrong_chain_id_is_rejected_before_signing() {
    let key = WalletKey::from_seed([7u8; 32]);
    let mut tx = tx();
    tx.chain_id = 1;
    assert!(matches!(tx.sign(&key), Err(TxError::InvalidChainId)));
}

#[test]
fn generated_keys_differ() {
    let a = WalletKey::generate().unwrap();
    let b = WalletKey::generate().unwrap();
    assert_ne!(a.public_key(), b.public_key());
}
