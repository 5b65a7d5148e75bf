//! Execution of contract transactions on the ATC-VM, and the receipts it yields.
use crate::atc_vm::bytecode::{
    default_limits, program_valid, verify_error_text, verify_result, BytecodeVerifier, ValidationLimits,
};
use crate::atc_vm::context::ChainContext;
use crate::atc_vm::ops::{parse_error_text, parse_from, parse_ops};
use crate::atc_vm::vm::{after_run, run_from, vm_error_text, Op, Vm};
use crate::codec::{be64, push_u64, utf8_string};
use crate::dao_state::{dao_magic, starts_with};
use crate::mempool::{Transaction, TxModel, TxType};
use vstd::prelude::*;

verus! {

/// What executing one transaction produced.
#[derive(Clone, Debug, PartialEq, Eq)]
pub struct ExecutionReceipt {
    pub tx_id: [u8; 32],
    pub success: bool,
    pub gas_used: u64,
    pub return_data: Vec<u8>,
}

/// Executes transactions against a state root.
pub trait VmExecutor {
    fn execute(&self, tx: &Transaction, state_root: [u8; 32]) -> Result<ExecutionReceipt, String>
        requires
            tx@.gas_cost() <= u64::MAX,
    ;
}

/// Executes contract transactions on the ATC-VM for one protocol, VM version and genesis.
pub struct AtcVmExecutor {
    pub protocol: String,
    pub vm_version: String,
    pub genesis_id: String,
}

/// The words a program returned, each as eight big-endian bytes.
pub open spec fn words_bytes(w: Seq<u64>) -> Seq<u8>
    decreases w.len(),
{
    if w.len() == 0 {
        Seq::empty()
    } else {
        words_bytes(w.drop_last()) + be64(w.last())
    }
}

/// The limits a contract runs under: the default ones, with the gas capped by the
/// transaction's gas limit.
pub open spec fn contract_limits(tx: TxModel) -> ValidationLimits {
    ValidationLimits {
        max_gas: if tx.gas_limit < default_limits().max_gas {
            tx.gas_limit
        } else {
            default_limits().max_gas
        },
        ..default_limits()
    }
}

/// What executing a transaction yields: its returned data or an error text. Only
/// contract calls outside the DAO run; their payload must be the UTF-8 text of a
/// program that the verifier admits under the contract limits.
pub open spec fn execution_outcome(tx: TxModel) -> Result<Seq<u8>, Seq<char>> {
    if tx.tx_type != TxType::Contract || (dao_magic().len() <= tx.payload.len()
        && tx.payload.subrange(0, dao_magic().len() as int) == dao_magic()) {
        Ok(Seq::empty())
    } else if !vstd::utf8::valid_utf8(tx.payload) {
        Err("contract payload is not UTF-8"@)
    } else {
        match parse_from(tx.payload, 0, 1) {
            Err(e) => Err("invalid ATC-VM program: "@ + parse_error_text(e)),
            Ok(ops) => if !program_valid(ops, contract_limits(tx)) {
                Err(
                    "ATC-VM verification rejected program: "@ + verify_error_text(
                        verify_result(ops, contract_limits(tx))->Err_0,
                    ),
                )
            } else {
                match run_from(ops, 0, contract_limits(tx).max_gas as nat, 0, Seq::empty(), Seq::empty()).0 {
                    Ok(w) => Ok(words_bytes(w)),
                    Err(e) => Err("ATC-VM execution: "@ + vm_error_text(e)),
                }
            },
        }
    }
}

/// A transaction that is no contract call, or whose payload is a DAO snapshot, runs no
/// program: executing it succeeds with no returned data, whatever its payload holds.
pub proof fn law_non_program_succeeds(tx: TxModel)
    requires
        tx.tx_type != TxType::Contract || (dao_magic().len() <= tx.payload.len()
            && tx.payload.subrange(0, dao_magic().len() as int) == dao_magic()),
    ensures
        execution_outcome(tx) == Ok::<Seq<u8>, Seq<char>>(Seq::empty()),
{
}

fn words_to_bytes(w: &Vec<u64>) -> (b: Vec<u8>)
    ensures
        b@ == words_bytes(w@),
{
    let mut b: Vec<u8> = Vec::new();
    let mut i: usize = 0;
    assert(w@.take(0) =~= Seq::<u64>::empty());
    while i < w.len()
        invariant
            i <= w@.len(),
            b@ == words_bytes(w@.take(i as int)),
        decreases w@.len() - i,
    {
        push_u64(&mut b, w[i]);
        proof {
            assert(w@.take(i as int + 1).drop_last() =~= w@.take(i as int));
        }
        i = i + 1;
    }
    assert(w@.take(w@.len() as int) =~= w@);
    b
}

impl VmExecutor for AtcVmExecutor {
    fn execute(&self, tx: &Transaction, state_root: [u8; 32]) -> (r: Result<ExecutionReceipt, String>)
        ensures
            match execution_outcome(tx@) {
                Ok(data) => r matches Ok(rc) && rc.tx_id == tx.id && rc.success
                    && rc.gas_used == tx@.gas_cost() && rc.return_data@ == data,
                Err(m) => r matches Err(e) && e@ == m,
            },
    {
        if tx.tx_type != TxType::Contract || starts_with(tx.payload.as_slice(), "ATC-DAO-V2".as_bytes()) {
            return Ok(
                ExecutionReceipt {
                    tx_id: tx.id,
                    success: true,
                    gas_used: tx.gas_cost(),
                    return_data: Vec::new(),
                },
            );
        }
        let text = match utf8_string(tx.payload.as_slice()) {
            Some(t) => t,
            None => return Err("contract payload is not UTF-8".to_string()),
        };
        proof {
            vstd::utf8::decode_utf8_encode_utf8(tx.payload@);
        }
        let program = match parse_ops(text.as_str()) {
            Ok(p) => p,
            Err(e) => {
                let mut m = "invalid ATC-VM program: ".to_string();
                m.append(e.debug_text().as_str());
                return Err(m);
            },
        };
        let defaults = ValidationLimits::default();
        let limits = ValidationLimits {
            max_gas: if tx.gas_limit < defaults.max_gas {
                tx.gas_limit
            } else {
                defaults.max_gas
            },
            ..defaults
        };
        let validated = match BytecodeVerifier::new(limits).verify(program) {
            Ok(v) => v,
            Err(e) => {
                let mut m = "ATC-VM verification rejected program: ".to_string();
                m.append(e.debug_text().as_str());
                return Err(m);
            },
        };
        let mut vm = Vm::from_validated(validated);
        proof {
            assert(limits == contract_limits(tx@));
            assert(vm@.stack =~= Seq::<u64>::empty());
            assert(vm@.storage =~= Seq::<u64>::empty());
        }
        let context = ChainContext {
            chain_id: "atc".to_string(),
            network_id: "devnet".to_string(),
            genesis_id: self.genesis_id.clone(),
            protocol_version: self.protocol.clone(),
            vm_version: self.vm_version.clone(),
        };
        assert(crate::atc_vm::context::gate_check(
            context,
            self.genesis_id@,
            self.protocol@,
            self.vm_version@,
        ) is None);
        let out = match vm.execute_state_transition(
            &context,
            self.genesis_id.as_str(),
            self.protocol.as_str(),
            self.vm_version.as_str(),
        ) {
            Ok(o) => o,
            Err(e) => {
                let mut m = "ATC-VM execution: ".to_string();
                m.append(e.debug_text().as_str());
                return Err(m);
            },
        };
        Ok(
            ExecutionReceipt {
                tx_id: tx.id,
                success: true,
                gas_used: tx.gas_cost(),
                return_data: words_to_bytes(&out),
            },
        )
    }
}

} // verus!
