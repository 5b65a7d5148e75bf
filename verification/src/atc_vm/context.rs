//! Chain context that a state transition of the VM must match.
use crate::ordmap::str_equal;
use vstd::prelude::*;

verus! {

/// The chain a program is executed for.
#[derive(Clone, Debug, PartialEq, Eq)]
pub struct ChainContext {
    pub chain_id: String,
    pub network_id: String,
    pub genesis_id: String,
    pub protocol_version: String,
    pub vm_version: String,
}

#[derive(Clone, Copy, Debug, PartialEq, Eq, Structural)]
pub enum ContextError {
    GenesisMismatch,
    ProtocolMismatch,
    VmVersionMismatch,
}

/// Why a context does not admit execution, if it does not: its genesis must be the
/// computed one, and its protocol and VM versions the expected ones.
pub open spec fn gate_check(
    context: ChainContext,
    computed_genesis_id: Seq<char>,
    expected_protocol: Seq<char>,
    expected_vm: Seq<char>,
) -> Option<ContextError> {
    if context.genesis_id@ != computed_genesis_id {
        Some(ContextError::GenesisMismatch)
    } else if context.protocol_version@ != expected_protocol {
        Some(ContextError::ProtocolMismatch)
    } else if context.vm_version@ != expected_vm {
        Some(ContextError::VmVersionMismatch)
    } else {
        None
    }
}

pub fn execution_gate(
    context: &ChainContext,
    computed_genesis_id: &str,
    expected_protocol: &str,
    expected_vm: &str,
) -> (r: Result<(), ContextError>)
    ensures
        match gate_check(*context, computed_genesis_id@, expected_protocol@, expected_vm@) {
            None => r is Ok,
            Some(e) => r == Err::<(), ContextError>(e),
        },
{
    if !str_equal(context.genesis_id.as_str(), computed_genesis_id) {
        return Err(ContextError::GenesisMismatch);
    }
    if !str_equal(context.protocol_version.as_str(), expected_protocol) {
        return Err(ContextError::ProtocolMismatch);
    }
    if !str_equal(context.vm_version.as_str(), expected_vm) {
        return Err(ContextError::VmVersionMismatch);
    }
    Ok(())
}


/// The text of a context error, as its `Debug` form writes it.
pub open spec fn context_error_text(e: ContextError) -> Seq<char> {
    match e {
        ContextError::GenesisMismatch => "GenesisMismatch"@,
        ContextError::ProtocolMismatch => "ProtocolMismatch"@,
        ContextError::VmVersionMismatch => "VmVersionMismatch"@,
    }
}

impl ContextError {
    pub fn debug_text(&self) -> (s: String)
        ensures
            s@ == context_error_text(*self),
    {
        match self {
            ContextError::GenesisMismatch => "GenesisMismatch".to_string(),
            ContextError::ProtocolMismatch => "ProtocolMismatch".to_string(),
            ContextError::VmVersionMismatch => "VmVersionMismatch".to_string(),
        }
    }
}

} // verus!
