//! Stack machine. It runs only programs the bytecode verifier admitted, and state
//! transitions are further gated by the chain context.
use crate::atc_vm::context::{execution_gate, gate_check, ChainContext, ContextError};
use crate::atc_vm::bytecode::{
    certificate, default_limits, local_ok, program_valid, successors, BytecodeVerifier,
    ValidatedProgram, ValidationLimits, VerifyError,
};
use crate::atc_vm::bytecode::verify_error_text;
use crate::atc_vm::context::context_error_text;
use crate::codec::{decimal, push_decimal};
use vstd::prelude::*;

verus! {

#[derive(Debug, Clone, Copy, PartialEq, Eq, Structural)]
pub enum Op {
    Push(u64),
    Add,
    Sub,
    Mul,
    Div,
    Dup,
    Swap,
    Jump(usize),
    JumpIfNotZero(usize),
    Eq,
    Lt,
    Load(usize),
    Store(usize),
    Caller,
    JumpIfZero(usize),
    Halt,
}

#[derive(Debug, Clone, PartialEq, Eq)]
pub enum VmError {
    Verification(VerifyError),
    StackUnderflow,
    InvalidJump(usize),
    DivisionByZero,
    GasExhausted,
    Context(ContextError),
}

/// `a + b` modulo 2^64.
pub open spec fn wrap_add(a: u64, b: u64) -> u64 {
    ((a + b) % 0x1_0000_0000_0000_0000) as u64
}

/// `a - b` modulo 2^64.
pub open spec fn wrap_sub(a: u64, b: u64) -> u64 {
    ((a - b + 0x1_0000_0000_0000_0000) % 0x1_0000_0000_0000_0000) as u64
}

/// `a * b` modulo 2^64.
pub open spec fn wrap_mul(a: u64, b: u64) -> u64 {
    ((a * b) % 0x1_0000_0000_0000_0000) as u64
}

/// The value of a binary operation other than division on its two operands.
pub open spec fn binop_value(op: Op, a: u64, b: u64) -> u64 {
    match op {
        Op::Add => wrap_add(a, b),
        Op::Sub => wrap_sub(a, b),
        Op::Mul => wrap_mul(a, b),
        Op::Eq => if a == b { 1 } else { 0 },
        _ => if a < b { 1 } else { 0 },
    }
}

/// Storage after writing `v` at `slot`, zero-filling up to it.
pub open spec fn stored(storage: Seq<u64>, slot: int, v: u64) -> Seq<u64> {
    let grown = if slot >= storage.len() {
        storage + Seq::new((slot + 1 - storage.len()) as nat, |i: int| 0u64)
    } else {
        storage
    };
    grown.update(slot, v)
}

/// One machine step from `pc`: the next program counter, stack and storage, or the
/// error with the stack and storage it leaves; `Ok(None)` stands for a halt.
pub enum Step {
    Next(int, Seq<u64>, Seq<u64>),
    Halt(Seq<u64>, Seq<u64>),
    Fail(VmError, Seq<u64>, Seq<u64>),
}

pub open spec fn step(ops: Seq<Op>, caller: u64, pc: int, stack: Seq<u64>, storage: Seq<u64>) -> Step {
    let n = ops.len() as int;
    let jump = |t: usize, st: Seq<u64>|
        if t < n {
            Step::Next(t as int, st, storage)
        } else {
            Step::Fail(VmError::InvalidJump(t), st, storage)
        };
    match ops[pc] {
        Op::Push(v) => Step::Next(pc + 1, stack.push(v), storage),
        Op::Div => if stack.len() == 0 {
            Step::Fail(VmError::StackUnderflow, stack, storage)
        } else if stack.len() == 1 {
            Step::Fail(VmError::StackUnderflow, Seq::empty(), storage)
        } else {
            let b = stack.last();
            let a = stack.drop_last().last();
            let rest = stack.drop_last().drop_last();
            if b == 0 {
                Step::Fail(VmError::DivisionByZero, rest, storage)
            } else {
                Step::Next(pc + 1, rest.push(a / b), storage)
            }
        },
        Op::Add | Op::Sub | Op::Mul | Op::Eq | Op::Lt => if stack.len() == 0 {
            Step::Fail(VmError::StackUnderflow, stack, storage)
        } else if stack.len() == 1 {
            Step::Fail(VmError::StackUnderflow, Seq::empty(), storage)
        } else {
            let b = stack.last();
            let a = stack.drop_last().last();
            Step::Next(
                pc + 1,
                stack.drop_last().drop_last().push(binop_value(ops[pc], a, b)),
                storage,
            )
        },
        Op::Dup => if stack.len() == 0 {
            Step::Fail(VmError::StackUnderflow, stack, storage)
        } else {
            Step::Next(pc + 1, stack.push(stack.last()), storage)
        },
        Op::Swap => if stack.len() < 2 {
            Step::Fail(VmError::StackUnderflow, stack, storage)
        } else {
            let n = stack.len() as int;
            Step::Next(
                pc + 1,
                stack.update(n - 1, stack[n - 2]).update(n - 2, stack[n - 1]),
                storage,
            )
        },
        Op::Load(slot) => Step::Next(
            pc + 1,
            stack.push(
                if slot < storage.len() {
                    storage[slot as int]
                } else {
                    0
                },
            ),
            storage,
        ),
        Op::Store(slot) => if stack.len() == 0 {
            Step::Fail(VmError::StackUnderflow, stack, storage)
        } else {
            Step::Next(pc + 1, stack.drop_last(), stored(storage, slot as int, stack.last()))
        },
        Op::Caller => Step::Next(pc + 1, stack.push(caller), storage),
        Op::JumpIfZero(t) => if stack.len() == 0 {
            Step::Fail(VmError::StackUnderflow, stack, storage)
        } else if stack.last() == 0 {
            jump(t, stack.drop_last())
        } else {
            Step::Next(pc + 1, stack.drop_last(), storage)
        },
        Op::JumpIfNotZero(t) => if stack.len() == 0 {
            Step::Fail(VmError::StackUnderflow, stack, storage)
        } else if stack.last() != 0 {
            jump(t, stack.drop_last())
        } else {
            Step::Next(pc + 1, stack.drop_last(), storage)
        },
        Op::Jump(t) => jump(t, stack),
        Op::Halt => Step::Halt(stack, storage),
    }
}

/// Running from `pc` with `gas` steps left: the result, and the stack and storage the
/// machine is left with. Each executed instruction costs one unit of gas; running off
/// the end of the program or halting returns the stack.
pub open spec fn run_from(
    ops: Seq<Op>,
    caller: u64,
    gas: nat,
    pc: int,
    stack: Seq<u64>,
    storage: Seq<u64>,
) -> (Result<Seq<u64>, VmError>, Seq<u64>, Seq<u64>)
    decreases gas,
{
    if pc < 0 || pc >= ops.len() {
        (Ok(stack), Seq::empty(), storage)
    } else if gas == 0 {
        (Err(VmError::GasExhausted), stack, storage)
    } else {
        match step(ops, caller, pc, stack, storage) {
            Step::Next(pc2, st2, sto2) => run_from(ops, caller, (gas - 1) as nat, pc2, st2, sto2),
            Step::Halt(st2, sto2) => (Ok(st2), Seq::empty(), sto2),
            Step::Fail(e, st2, sto2) => (Err(e), st2, sto2),
        }
    }
}


/// A stack machine loaded with an admitted program.
pub struct Vm {
    program: ValidatedProgram,
    stack: Vec<u64>,
    caller: u64,
    storage: Vec<u64>,
}

/// Program, stack, caller and storage of a machine.
pub struct VmModel {
    pub ops: Seq<Op>,
    pub gas_limit: u64,
    pub stack: Seq<u64>,
    pub caller: u64,
    pub storage: Seq<u64>,
}

impl View for Vm {
    type V = VmModel;

    closed spec fn view(&self) -> VmModel {
        VmModel {
            ops: self.program.spec_ops(),
            gas_limit: self.program.spec_gas_limit(),
            stack: self.stack@,
            caller: self.caller,
            storage: self.storage@,
        }
    }
}

/// The machine after a run: the stack and storage the run left.
pub open spec fn after_run(m: VmModel) -> (Result<Seq<u64>, VmError>, VmModel) {
    let (r, st, sto) = run_from(m.ops, m.caller, m.gas_limit as nat, 0, m.stack, m.storage);
    (r, VmModel { stack: st, storage: sto, ..m })
}

impl Vm {
    /// A machine for `program` once the default verifier admits it.
    pub fn new(program: Vec<Op>) -> (r: Result<Self, VmError>)
        ensures
            program_valid(program@, default_limits()) ==> (r matches Ok(vm) && vm@.ops == program@
                && vm@.gas_limit == default_limits().max_gas && vm@.stack.len() == 0 && vm@.caller
                == 0 && vm@.storage.len() == 0),
            !program_valid(program@, default_limits()) ==> r matches Err(VmError::Verification(_)),
    {
        match BytecodeVerifier::default().verify(program) {
            Ok(validated) => Ok(Self::from_validated(validated)),
            Err(e) => Err(VmError::Verification(e)),
        }
    }

    /// A machine for a program that was already admitted.
    pub fn from_validated(program: ValidatedProgram) -> (vm: Self)
        ensures
            vm@.ops == program.spec_ops(),
            vm@.gas_limit == program.spec_gas_limit(),
            vm@.stack.len() == 0,
            vm@.caller == 0,
            vm@.storage.len() == 0,
    {
        Vm { program, stack: Vec::new(), caller: 0, storage: Vec::new() }
    }

    /// A machine for `program`, once admitted, with a caller and initial storage.
    pub fn with_context(program: Vec<Op>, caller: u64, storage: Vec<u64>) -> (r: Result<Self, VmError>)
        ensures
            program_valid(program@, default_limits()) ==> (r matches Ok(vm) && vm@.ops == program@
                && vm@.gas_limit == default_limits().max_gas && vm@.stack.len() == 0 && vm@.caller
                == caller && vm@.storage == storage@),
            !program_valid(program@, default_limits()) ==> r matches Err(VmError::Verification(_)),
    {
        let mut vm = Self::new(program)?;
        vm.caller = caller;
        vm.storage = storage;
        Ok(vm)
    }

    pub fn caller(&self) -> (c: u64)
        ensures
            c == self@.caller,
    {
        self.caller
    }

    /// The storage.
    pub fn state(&self) -> (s: &[u64])
        ensures
            s@ == self@.storage,
    {
        self.storage.as_slice()
    }

    /// Runs the program when the chain context admits it; otherwise nothing changes.
    pub fn execute_state_transition(
        &mut self,
        context: &ChainContext,
        computed_genesis_id: &str,
        expected_protocol: &str,
        expected_vm: &str,
    ) -> (r: Result<Vec<u64>, VmError>)
        ensures
            match gate_check(*context, computed_genesis_id@, expected_protocol@, expected_vm@) {
                Some(e) => r == Err::<Vec<u64>, VmError>(VmError::Context(e)) && final(self)@
                    == old(self)@,
                None => final(self)@ == after_run(old(self)@).1 && match after_run(old(self)@).0 {
                    Ok(v) => r matches Ok(x) && x@ == v,
                    Err(e) => r == Err::<Vec<u64>, VmError>(e),
                },
            },
    {
        match execution_gate(context, computed_genesis_id, expected_protocol, expected_vm) {
            Err(e) => return Err(VmError::Context(e)),
            Ok(()) => {},
        }
        self.run()
    }

    fn valid_jump(&self, t: usize) -> (r: Result<usize, VmError>)
        ensures
            t < self@.ops.len() ==> r == Ok::<usize, VmError>(t),
            t >= self@.ops.len() ==> r == Err::<usize, VmError>(VmError::InvalidJump(t)),
    {
        if t < self.program.ops().len() {
            Ok(t)
        } else {
            Err(VmError::InvalidJump(t))
        }
    }

    /// Executes the admitted program from its first instruction, one unit of gas per
    /// instruction, giving back the stack when it halts or runs off its end.
    pub fn run(&mut self) -> (r: Result<Vec<u64>, VmError>)
        ensures
            final(self)@ == after_run(old(self)@).1,
            match after_run(old(self)@).0 {
                Ok(v) => r matches Ok(x) && x@ == v,
                Err(e) => r == Err::<Vec<u64>, VmError>(e),
            },
    {
        let ops = self.program.ops();
        let n = ops.len();
        let ghost ovs = ops@;
        let ghost lim = self.program.spec_limits();
        let ghost d = choose|d: Map<int, int>| certificate(ovs, lim, d);
        let ghost m0 = self@;
        let mut pc: usize = 0;
        let mut gas: u64 = self.program.gas_limit();
        while pc < n
            invariant
                n == ovs.len(),
                ovs == self@.ops,
                certificate(ovs, lim, d),
                lim.max_storage_slots <= usize::MAX,
                pc < n ==> d.contains_key(pc as int),
                m0 == old(self)@,
                self@.ops == m0.ops,
                self@.gas_limit == m0.gas_limit,
                self@.caller == m0.caller,
                run_from(ovs, m0.caller, m0.gas_limit as nat, 0, m0.stack, m0.storage) == run_from(
                    ovs,
                    m0.caller,
                    gas as nat,
                    pc as int,
                    self@.stack,
                    self@.storage,
                ),
            decreases gas,
        {
            if gas == 0 {
                return Err(VmError::GasExhausted);
            }
            gas = gas - 1;
            let op = self.program.ops()[pc];
            proof {
                assert(certificate(ovs, lim, d));
                assert(local_ok(ovs, lim, pc as int, d[pc as int]));
            }
            let next: usize = match op {
                Op::Push(v) => {
                    self.stack.push(v);
                    pc + 1
                },
                Op::Add | Op::Sub | Op::Mul | Op::Eq | Op::Lt | Op::Div => {
                    let b = match self.stack.pop() {
                        Some(b) => b,
                        None => return Err(VmError::StackUnderflow),
                    };
                    let a = match self.stack.pop() {
                        Some(a) => a,
                        None => {
                            proof {
                                assert(self.stack@ =~= Seq::<u64>::empty());
                            }
                            return Err(VmError::StackUnderflow);
                        },
                    };
                    let v = match op {
                        Op::Add => a.wrapping_add(b),
                        Op::Sub => a.wrapping_sub(b),
                        Op::Mul => a.wrapping_mul(b),
                        Op::Eq => if a == b {
                            1
                        } else {
                            0
                        },
                        Op::Lt => if a < b {
                            1
                        } else {
                            0
                        },
                        _ => match a.checked_div(b) {
                            Some(q) => q,
                            None => return Err(VmError::DivisionByZero),
                        },
                    };
                    self.stack.push(v);
                    pc + 1
                },
                Op::Dup => {
                    let len = self.stack.len();
                    if len == 0 {
                        return Err(VmError::StackUnderflow);
                    }
                    let v = self.stack[len - 1];
                    self.stack.push(v);
                    pc + 1
                },
                Op::Swap => {
                    let len = self.stack.len();
                    if len < 2 {
                        return Err(VmError::StackUnderflow);
                    }
                    let x = self.stack[len - 1];
                    let y = self.stack[len - 2];
                    self.stack.set(len - 1, y);
                    self.stack.set(len - 2, x);
                    pc + 1
                },
                Op::Load(slot) => {
                    let v = if slot < self.storage.len() {
                        self.storage[slot]
                    } else {
                        0
                    };
                    self.stack.push(v);
                    pc + 1
                },
                Op::Store(slot) => {
                    let v = match self.stack.pop() {
                        Some(v) => v,
                        None => return Err(VmError::StackUnderflow),
                    };
                    let ghost sto0 = self.storage@;
                    if slot >= self.storage.len() {
                        self.storage.resize(slot + 1, 0);
                        proof {
                            assert(self.storage@ =~= sto0 + Seq::new(
                                (slot + 1 - sto0.len()) as nat,
                                |i: int| 0u64,
                            ));
                        }
                    }
                    self.storage.set(slot, v);
                    proof {
                        assert(self.storage@ =~= stored(sto0, slot as int, v));
                    }
                    pc + 1
                },
                Op::Caller => {
                    self.stack.push(self.caller);
                    pc + 1
                },
                Op::JumpIfZero(t) => {
                    let v = match self.stack.pop() {
                        Some(v) => v,
                        None => return Err(VmError::StackUnderflow),
                    };
                    if v == 0 {
                        self.valid_jump(t)?
                    } else {
                        pc + 1
                    }
                },
                Op::JumpIfNotZero(t) => {
                    let v = match self.stack.pop() {
                        Some(v) => v,
                        None => return Err(VmError::StackUnderflow),
                    };
                    if v != 0 {
                        self.valid_jump(t)?
                    } else {
                        pc + 1
                    }
                },
                Op::Jump(t) => self.valid_jump(t)?,
                Op::Halt => {
                    let mut out: Vec<u64> = Vec::new();
                    std::mem::swap(&mut out, &mut self.stack);
                    return Ok(out);
                },
            };
            proof {
                if next < n {
                    let sc = successors(ovs[pc as int], pc as int);
                    match ovs[pc as int] {
                        Op::Jump(t) => {
                            assert(sc[0] == next as int);
                        },
                        Op::JumpIfZero(t) => {
                            if next as int == t as int {
                                assert(sc[0] == next as int);
                            } else {
                                assert(sc[1] == next as int);
                            }
                        },
                        Op::JumpIfNotZero(t) => {
                            if next as int == t as int {
                                assert(sc[0] == next as int);
                            } else {
                                assert(sc[1] == next as int);
                            }
                        },
                        _ => {
                            assert(sc[0] == next as int);
                        },
                    }
                }
            }
            pc = next;
        }
        let mut out: Vec<u64> = Vec::new();
        std::mem::swap(&mut out, &mut self.stack);
        Ok(out)
    }
}


/// Whether a run ended in a stack underflow or a jump out of the program.
pub open spec fn structural_failure(r: Result<Seq<u64>, VmError>) -> bool {
    r matches Err(e) && (e matches VmError::StackUnderflow || e matches VmError::InvalidJump(_))
}

proof fn lemma_run_within_certificate(
    ops: Seq<Op>,
    limits: ValidationLimits,
    d: Map<int, int>,
    caller: u64,
    gas: nat,
    pc: int,
    stack: Seq<u64>,
    storage: Seq<u64>,
)
    requires
        certificate(ops, limits, d),
        0 <= pc,
        pc < ops.len() ==> d.contains_key(pc) && stack.len() == d[pc],
    ensures
        !structural_failure(run_from(ops, caller, gas, pc, stack, storage).0),
    decreases gas,
{
    if pc < ops.len() && gas > 0 {
        assert(local_ok(ops, limits, pc, d[pc]));
        let sc = successors(ops[pc], pc);
        match step(ops, caller, pc, stack, storage) {
            Step::Next(pc2, st2, sto2) => {
                if pc2 < ops.len() {
                    match ops[pc] {
                        Op::Jump(t) => {
                            assert(sc[0] == pc2);
                        },
                        Op::JumpIfZero(t) => {
                            if pc2 == t as int {
                                assert(sc[0] == pc2);
                            } else {
                                assert(sc[1] == pc2);
                            }
                        },
                        Op::JumpIfNotZero(t) => {
                            if pc2 == t as int {
                                assert(sc[0] == pc2);
                            } else {
                                assert(sc[1] == pc2);
                            }
                        },
                        _ => {
                            assert(sc[0] == pc2);
                        },
                    }
                }
                lemma_run_within_certificate(ops, limits, d, caller, (gas - 1) as nat, pc2, st2, sto2);
            },
            Step::Halt(_, _) => {},
            Step::Fail(e, _, _) => {
                match ops[pc] {
                    Op::Jump(t) => {
                        assert(d.contains_key(sc[0]));
                    },
                    Op::JumpIfZero(t) => {
                        assert(d.contains_key(sc[0]));
                    },
                    Op::JumpIfNotZero(t) => {
                        assert(d.contains_key(sc[0]));
                    },
                    _ => {},
                }
            },
        }
    }
}

/// An admitted program, run from an empty stack, never underflows its stack and never
/// jumps out of the program: only division by zero and exhausted gas can stop it.
pub proof fn law_admitted_programs_run_safely(
    ops: Seq<Op>,
    limits: ValidationLimits,
    caller: u64,
    gas: nat,
    storage: Seq<u64>,
)
    requires
        program_valid(ops, limits),
    ensures
        !structural_failure(run_from(ops, caller, gas, 0, Seq::empty(), storage).0),
{
    let d = choose|d: Map<int, int>| certificate(ops, limits, d);
    lemma_run_within_certificate(ops, limits, d, caller, gas, 0, Seq::empty(), storage);
}


/// What each arithmetic and comparison instruction does to the two values on top of
/// the stack, `a` below `b`: they are replaced by `a + b`, `a - b` and `a * b`, each
/// modulo 2^64, by `a / b` rounded down (division by zero fails, the operands gone), or
/// by 1 where `a == b` (for `Eq`) or `a < b` (for `Lt`) holds and 0 otherwise.
pub proof fn law_arithmetic_step(
    ops: Seq<Op>,
    caller: u64,
    pc: int,
    stack: Seq<u64>,
    storage: Seq<u64>,
)
    requires
        0 <= pc < ops.len(),
        stack.len() >= 2,
    ensures
        ({
            let n = stack.len() as int;
            let a = stack[n - 2] as int;
            let b = stack[n - 1] as int;
            let rest = stack.subrange(0, n - 2);
            let m = 0x1_0000_0000_0000_0000int;
            let s = step(ops, caller, pc, stack, storage);
            let gives = |v: int| s == Step::Next(pc + 1, rest.push(v as u64), storage) && 0 <= v < m;
            &&& ops[pc] == Op::Add && a + b < m ==> gives(a + b)
            &&& ops[pc] == Op::Add && a + b >= m ==> gives(a + b - m)
            &&& ops[pc] == Op::Sub && a >= b ==> gives(a - b)
            &&& ops[pc] == Op::Sub && a < b ==> gives(m + a - b)
            &&& ops[pc] == Op::Mul ==> gives((a * b) % m)
            &&& ops[pc] == Op::Div && b != 0 ==> gives(a / b)
            &&& ops[pc] == Op::Div && b == 0 ==> s == Step::Fail(VmError::DivisionByZero, rest, storage)
            &&& ops[pc] == Op::Eq ==> gives(if a == b { 1 } else { 0 })
            &&& ops[pc] == Op::Lt ==> gives(if a < b { 1 } else { 0 })
        }),
{
    let n = stack.len() as int;
    let rest = stack.subrange(0, n - 2);
    assert(stack.drop_last().drop_last() =~= rest);
    assert(stack.drop_last().last() == stack[n - 2]);
    let a = stack[n - 2] as int;
    let b = stack[n - 1] as int;
    let m = 0x1_0000_0000_0000_0000int;
    assert(0 <= (a * b) % m < m) by (nonlinear_arith)
        requires
            m > 0,
    ;
    if b > 0 {
        assert(0 <= a / b <= a) by (nonlinear_arith)
            requires
                0 <= a,
                b > 0,
        ;
    }
}

/// What the stack and storage instructions do: `Push` and `Caller` push a value, `Dup`
/// pushes a copy of the top, `Swap` exchanges the two top values, `Load` pushes the
/// slot's value (0 for a slot never written) and `Store` pops the top into its slot,
/// growing the storage with zeros up to it and leaving every other slot as it was.
pub proof fn law_stack_step(ops: Seq<Op>, caller: u64, pc: int, stack: Seq<u64>, storage: Seq<u64>)
    requires
        0 <= pc < ops.len(),
    ensures
        ({
            let n = stack.len() as int;
            let s = step(ops, caller, pc, stack, storage);
            &&& ops[pc] matches Op::Push(v) ==> s == Step::Next(pc + 1, stack.push(v), storage)
            &&& ops[pc] == Op::Caller ==> s == Step::Next(pc + 1, stack.push(caller), storage)
            &&& ops[pc] == Op::Dup && n >= 1 ==> s == Step::Next(pc + 1, stack.push(stack[n - 1]), storage)
            &&& ops[pc] == Op::Swap && n >= 2 ==> s == Step::Next(
                pc + 1,
                stack.subrange(0, n - 2).push(stack[n - 1]).push(stack[n - 2]),
                storage,
            )
            &&& ops[pc] matches Op::Load(slot) ==> s == Step::Next(
                pc + 1,
                stack.push(if slot < storage.len() { storage[slot as int] } else { 0 }),
                storage,
            )
            &&& ops[pc] is Store && n >= 1 ==> ({
                let slot = ops[pc]->Store_0;
                s matches Step::Next(pc2, st2, sto2)
                && pc2 == pc + 1 && st2 == stack.subrange(0, n - 1) && sto2.len() == (if slot
                < storage.len() {
                storage.len() as int
            } else {
                slot + 1
            }) && sto2[slot as int] == stack[n - 1] && forall|i: int|
                0 <= i < sto2.len() && i != slot ==> #[trigger] sto2[i] == (if i < storage.len() {
                    storage[i]
                } else {
                    0
                })
            })
        }),
{
    let n = stack.len() as int;
    if n >= 2 {
        assert(stack.update(n - 1, stack[n - 2]).update(n - 2, stack[n - 1]) =~= stack.subrange(
            0,
            n - 2,
        ).push(stack[n - 1]).push(stack[n - 2]));
    }
    if n >= 1 {
        assert(stack.drop_last() =~= stack.subrange(0, n - 1));
    }
}

/// What the jumps do: `Jump` always goes to its target; `JumpIfZero` pops the top and
/// goes to its target when it was 0, else on; `JumpIfNotZero` the other way round; a
/// target outside the program fails the jump.
pub proof fn law_jump_step(ops: Seq<Op>, caller: u64, pc: int, stack: Seq<u64>, storage: Seq<u64>)
    requires
        0 <= pc < ops.len(),
    ensures
        ({
            let n = stack.len() as int;
            let s = step(ops, caller, pc, stack, storage);
            let go = |t: usize, st: Seq<u64>| if t < ops.len() {
                s == Step::Next(t as int, st, storage)
            } else {
                s == Step::Fail(VmError::InvalidJump(t), st, storage)
            };
            &&& ops[pc] matches Op::Jump(t) ==> go(t, stack)
            &&& ops[pc] is JumpIfZero && n >= 1 && stack[n - 1] == 0 ==> go(
                ops[pc]->JumpIfZero_0,
                stack.subrange(0, n - 1),
            )
            &&& ops[pc] is JumpIfZero && n >= 1 && stack[n - 1] != 0 ==> s == Step::Next(
                pc + 1,
                stack.subrange(0, n - 1),
                storage,
            )
            &&& ops[pc] is JumpIfNotZero && n >= 1 && stack[n - 1] != 0 ==> go(
                ops[pc]->JumpIfNotZero_0,
                stack.subrange(0, n - 1),
            )
            &&& ops[pc] is JumpIfNotZero && n >= 1 && stack[n - 1] == 0 ==> s
                == Step::Next(pc + 1, stack.subrange(0, n - 1), storage)
            &&& ops[pc] == Op::Halt ==> s == Step::Halt(stack, storage)
        }),
{
    let n = stack.len() as int;
    if n >= 1 {
        assert(stack.drop_last() =~= stack.subrange(0, n - 1));
    }
}

/// Subtraction takes the value on top from the one below it: running
/// `[Push(x), Push(y), Sub, Halt]` with enough gas returns the stack `[x - y]`, the
/// difference taken modulo 2^64.
pub proof fn law_subtraction_program(x: u64, y: u64, caller: u64, gas: nat, storage: Seq<u64>)
    requires
        gas >= 4,
    ensures
        run_from(
            seq![Op::Push(x), Op::Push(y), Op::Sub, Op::Halt],
            caller,
            gas,
            0,
            Seq::empty(),
            storage,
        ).0 == Ok::<Seq<u64>, VmError>(seq![
            (if x >= y { x - y } else { 0x1_0000_0000_0000_0000int + x - y }) as u64,
        ]),
{
    let ops = seq![Op::Push(x), Op::Push(y), Op::Sub, Op::Halt];
    let v = (if x >= y { x - y } else { 0x1_0000_0000_0000_0000int + x - y }) as u64;
    let s1 = Seq::<u64>::empty().push(x);
    let s2 = s1.push(y);
    let s3 = Seq::<u64>::empty().push(v);
    assert(ops[0] == Op::Push(x) && ops[1] == Op::Push(y) && ops[2] == Op::Sub && ops[3] == Op::Halt);
    law_arithmetic_step(ops, caller, 2, s2, storage);
    assert(s2.subrange(0, 0) =~= Seq::<u64>::empty());
    assert(s2[0] == x && s2[1] == y);
    assert(step(ops, caller, 2, s2, storage) == Step::Next(3, s3, storage));
    assert(run_from(ops, caller, (gas - 3) as nat, 3, s3, storage) == (
        Ok::<Seq<u64>, VmError>(s3),
        Seq::<u64>::empty(),
        storage,
    ));
    assert(run_from(ops, caller, (gas - 2) as nat, 2, s2, storage).0 == Ok::<Seq<u64>, VmError>(s3));
    assert(step(ops, caller, 1, s1, storage) == Step::Next(2, s2, storage));
    assert(run_from(ops, caller, (gas - 1) as nat, 1, s1, storage).0 == Ok::<Seq<u64>, VmError>(s3));
    assert(step(ops, caller, 0, Seq::empty(), storage) == Step::Next(1, s1, storage));
    assert(s3 =~= seq![v]);
}


/// The text of a machine error, as its `Debug` form writes it.
pub open spec fn vm_error_text(e: VmError) -> Seq<char> {
    match e {
        VmError::Verification(v) => "Verification("@ + verify_error_text(v) + ")"@,
        VmError::StackUnderflow => "StackUnderflow"@,
        VmError::InvalidJump(t) => "InvalidJump("@ + decimal(t as nat) + ")"@,
        VmError::DivisionByZero => "DivisionByZero"@,
        VmError::GasExhausted => "GasExhausted"@,
        VmError::Context(c) => "Context("@ + context_error_text(c) + ")"@,
    }
}

impl VmError {
    pub fn debug_text(&self) -> (s: String)
        ensures
            s@ == vm_error_text(*self),
    {
        let s = match self {
            VmError::Verification(v) => {
                let mut s = "Verification(".to_string();
                s.append(v.debug_text().as_str());
                s.append(")");
                s
            },
            VmError::StackUnderflow => "StackUnderflow".to_string(),
            VmError::InvalidJump(t) => {
                let mut s = "InvalidJump(".to_string();
                push_decimal(&mut s, *t as u64);
                s.append(")");
                s
            },
            VmError::DivisionByZero => "DivisionByZero".to_string(),
            VmError::GasExhausted => "GasExhausted".to_string(),
            VmError::Context(c) => {
                let mut s = "Context(".to_string();
                s.append(c.debug_text().as_str());
                s.append(")");
                s
            },
        };
        proof {
            assert(s@ =~= vm_error_text(*self));
        }
        s
    }
}

} // verus!
