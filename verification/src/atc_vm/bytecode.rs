//! Structural validation of ATC-VM programs. A program is admitted when every
//! instruction reachable from the entry has one stack height on every path into it,
//! never underflows, stays within the stack and storage limits, and only jumps into
//! the program; its size bounds the gas it needs before it can loop.
use crate::atc_vm::vm::Op;
use crate::codec::{decimal, push_decimal};
use vstd::prelude::*;
use vstd::set_lib::{lemma_int_range, lemma_len_subset, set_int_range};

verus! {

#[derive(Debug, Clone, Copy, PartialEq, Eq, Structural)]
pub struct ValidationLimits {
    pub max_instructions: usize,
    pub max_stack_depth: usize,
    pub max_storage_slots: usize,
    pub max_gas: u64,
}

pub open spec fn default_limits() -> ValidationLimits {
    ValidationLimits {
        max_instructions: 1_024,
        max_stack_depth: 256,
        max_storage_slots: 1_024,
        max_gas: 10_000,
    }
}

impl Default for ValidationLimits {
    fn default() -> (l: Self)
        ensures
            l == default_limits(),
    {
        ValidationLimits {
            max_instructions: 1_024,
            max_stack_depth: 256,
            max_storage_slots: 1_024,
            max_gas: 10_000,
        }
    }
}

#[derive(Debug, Clone, Copy, PartialEq, Eq, Structural)]
pub enum VerifyError {
    EmptyProgram,
    ProgramTooLarge { actual: usize, max: usize },
    InvalidJump { pc: usize, target: usize },
    StackUnderflow { pc: usize, required: usize, available: usize },
    StackDepthExceeded { pc: usize, depth: usize, max: usize },
    InconsistentStackHeight { pc: usize, expected: usize, found: usize },
    StorageSlotExceeded { pc: usize, slot: usize, max: usize },
    GasLimitExceeded { required: u64, max: u64 },
}

/// Stack values an instruction consumes before it can run.
pub open spec fn required(op: Op) -> int {
    match op {
        Op::Add | Op::Sub | Op::Mul | Op::Div | Op::Eq | Op::Lt | Op::Swap => 2,
        Op::Dup | Op::Store(_) | Op::JumpIfZero(_) | Op::JumpIfNotZero(_) => 1,
        _ => 0,
    }
}

/// Stack height after an instruction that starts at height `depth`.
pub open spec fn next_depth(op: Op, depth: int) -> int {
    match op {
        Op::Push(_) | Op::Load(_) | Op::Caller | Op::Dup => depth + 1,
        Op::Add | Op::Sub | Op::Mul | Op::Div | Op::Eq | Op::Lt => depth - 1,
        Op::Store(_) | Op::JumpIfZero(_) | Op::JumpIfNotZero(_) => depth - 1,
        Op::Swap | Op::Jump(_) | Op::Halt => depth,
    }
}

/// The instructions that may run after the one at `pc`.
pub open spec fn successors(op: Op, pc: int) -> Seq<int> {
    match op {
        Op::Jump(t) => seq![t as int],
        Op::JumpIfZero(t) | Op::JumpIfNotZero(t) => seq![t as int, pc + 1],
        Op::Halt => Seq::empty(),
        _ => seq![pc + 1],
    }
}

/// The first check an instruction at `pc` fails when it starts at height `depth`.
pub open spec fn instruction_error(op: Op, limits: ValidationLimits, pc: usize, depth: usize) -> Option<VerifyError> {
    if depth < required(op) {
        Some(
            VerifyError::StackUnderflow {
                pc,
                required: required(op) as usize,
                available: depth,
            },
        )
    } else if (op matches Op::Load(s) && s >= limits.max_storage_slots) {
        Some(
            VerifyError::StorageSlotExceeded {
                pc,
                slot: op->Load_0,
                max: limits.max_storage_slots,
            },
        )
    } else if (op matches Op::Store(s) && s >= limits.max_storage_slots) {
        Some(
            VerifyError::StorageSlotExceeded {
                pc,
                slot: op->Store_0,
                max: limits.max_storage_slots,
            },
        )
    } else if next_depth(op, depth as int) > limits.max_stack_depth {
        Some(
            VerifyError::StackDepthExceeded {
                pc,
                depth: next_depth(op, depth as int) as usize,
                max: limits.max_stack_depth,
            },
        )
    } else {
        None
    }
}

/// Whether the instruction at `pc` passes every local check at height `depth`.
pub open spec fn local_ok(ops: Seq<Op>, limits: ValidationLimits, pc: int, depth: int) -> bool {
    let op = ops[pc];
    &&& depth >= required(op)
    &&& !(op matches Op::Load(s) && s >= limits.max_storage_slots)
    &&& !(op matches Op::Store(s) && s >= limits.max_storage_slots)
    &&& next_depth(op, depth) <= limits.max_stack_depth
}

/// A stack height for each instruction reachable from the entry, consistent along
/// every edge, under which every such instruction passes its checks.
pub open spec fn certificate(ops: Seq<Op>, limits: ValidationLimits, d: Map<int, int>) -> bool {
    &&& d.contains_key(0)
    &&& d[0] == 0
    &&& forall|pc: int| #[trigger]
        d.contains_key(pc) ==> {
            &&& 0 <= pc < ops.len()
            &&& local_ok(ops, limits, pc, d[pc])
            &&& forall|i: int|
                0 <= i < successors(ops[pc], pc).len() ==> d.contains_key(
                    #[trigger] successors(ops[pc], pc)[i],
                ) && d[successors(ops[pc], pc)[i]] == next_depth(ops[pc], d[pc])
        }
}

/// Whether the verifier admits a program: it is non-empty, within the instruction
/// and gas limits, and has a certificate.
pub open spec fn program_valid(ops: Seq<Op>, limits: ValidationLimits) -> bool {
    &&& 0 < ops.len() <= limits.max_instructions
    &&& ops.len() <= limits.max_gas
    &&& exists|d: Map<int, int>| certificate(ops, limits, d)
}

/// A program the verifier admitted, with the gas budget it runs under.
#[derive(Debug, PartialEq, Eq)]
pub struct ValidatedProgram {
    ops: Vec<Op>,
    gas_limit: u64,
    limits: ValidationLimits,
}

impl ValidatedProgram {
    pub closed spec fn spec_ops(&self) -> Seq<Op> {
        self.ops@
    }

    pub closed spec fn spec_gas_limit(&self) -> u64 {
        self.gas_limit
    }

    pub closed spec fn spec_limits(&self) -> ValidationLimits {
        self.limits
    }

    /// The program has a certificate under the limits it was admitted with.
    #[verifier::type_invariant]
    closed spec fn wf(&self) -> bool {
        program_valid(self.ops@, self.limits)
    }

    /// The instructions; every admitted program is valid under the limits it was
    /// admitted with.
    pub fn ops(&self) -> (o: &[Op])
        ensures
            o@ == self.spec_ops(),
            program_valid(self.spec_ops(), self.spec_limits()),
    {
        proof {
            use_type_invariant(self);
        }
        self.ops.as_slice()
    }

    pub fn gas_limit(&self) -> (g: u64)
        ensures
            g == self.spec_gas_limit(),
    {
        self.gas_limit
    }
}

impl Clone for ValidatedProgram {
    fn clone(&self) -> (c: Self)
        ensures
            c.spec_ops() == self.spec_ops(),
            c.spec_gas_limit() == self.spec_gas_limit(),
            c.spec_limits() == self.spec_limits(),
    {
        proof {
            use_type_invariant(self);
        }
        let mut ops: Vec<Op> = Vec::new();
        let mut i: usize = 0;
        while i < self.ops.len()
            invariant
                i <= self.ops@.len(),
                ops@ == self.ops@.subrange(0, i as int),
            decreases self.ops@.len() - i,
        {
            ops.push(self.ops[i]);
            i = i + 1;
        }
        assert(ops@ =~= self.ops@);
        ValidatedProgram { ops, gas_limit: self.gas_limit, limits: self.limits }
    }
}

pub struct BytecodeVerifier {
    limits: ValidationLimits,
}

impl BytecodeVerifier {
    pub closed spec fn spec_limits(&self) -> ValidationLimits {
        self.limits
    }

    pub fn new(limits: ValidationLimits) -> (v: Self)
        ensures
            v.spec_limits() == limits,
    {
        BytecodeVerifier { limits }
    }

    fn pop(&self, pc: usize, depth: usize, required: usize) -> (r: Result<usize, VerifyError>)
        ensures
            depth < required ==> r == Err::<usize, VerifyError>(
                VerifyError::StackUnderflow { pc, required, available: depth },
            ),
            depth >= required ==> r == Ok::<usize, VerifyError>((depth - required) as usize),
    {
        if depth < required {
            return Err(VerifyError::StackUnderflow { pc, required, available: depth });
        }
        Ok(depth - required)
    }

    fn validate_instruction(&self, program: &Vec<Op>, pc: usize, depth: usize) -> (r: Result<
        (usize, Vec<usize>),
        VerifyError,
    >)
        requires
            pc < program@.len(),
            depth <= self.limits.max_stack_depth,
            depth < usize::MAX,
        ensures
            match r {
                Ok((nd, s)) => local_ok(program@, self.limits, pc as int, depth as int)
                    && instruction_error(program@[pc as int], self.limits, pc, depth) is None
                    && nd == next_depth(program@[pc as int], depth as int) && s@.len()
                    == successors(program@[pc as int], pc as int).len() && s@.len() <= 2 && forall|
                    i: int,
                | 0 <= i < s@.len() ==> s@[i] as int == #[trigger] successors(
                    program@[pc as int],
                    pc as int,
                )[i],
                Err(e) => !local_ok(program@, self.limits, pc as int, depth as int)
                    && instruction_error(program@[pc as int], self.limits, pc, depth) == Some(e),
            },
    {
        let n = program.len();
        let op = program[pc];
        let (next_depth, successors): (usize, Vec<usize>) = match op {
            Op::Push(_) | Op::Load(_) | Op::Caller => (depth + 1, vec![pc + 1]),
            Op::Add | Op::Sub | Op::Mul | Op::Div | Op::Eq | Op::Lt => {
                (self.pop(pc, depth, 2)? + 1, vec![pc + 1])
            },
            Op::Dup => {
                self.pop(pc, depth, 1)?;
                (depth + 1, vec![pc + 1])
            },
            Op::Swap => {
                self.pop(pc, depth, 2)?;
                (depth, vec![pc + 1])
            },
            Op::Store(_) => (self.pop(pc, depth, 1)?, vec![pc + 1]),
            Op::Jump(target) => (depth, vec![target]),
            Op::JumpIfZero(target) | Op::JumpIfNotZero(target) => {
                let after_pop = self.pop(pc, depth, 1)?;
                (after_pop, vec![target, pc + 1])
            },
            Op::Halt => (depth, Vec::new()),
        };
        match op {
            Op::Load(slot) => {
                if slot >= self.limits.max_storage_slots {
                    return Err(
                        VerifyError::StorageSlotExceeded {
                            pc,
                            slot,
                            max: self.limits.max_storage_slots,
                        },
                    );
                }
            },
            Op::Store(slot) => {
                if slot >= self.limits.max_storage_slots {
                    return Err(
                        VerifyError::StorageSlotExceeded {
                            pc,
                            slot,
                            max: self.limits.max_storage_slots,
                        },
                    );
                }
            },
            _ => {},
        }
        if next_depth > self.limits.max_stack_depth {
            return Err(
                VerifyError::StackDepthExceeded {
                    pc,
                    depth: next_depth,
                    max: self.limits.max_stack_depth,
                },
            );
        }
        Ok((next_depth, successors))
    }
}


/// Whether the successor `s` entered at height `nd` is either visited at that height or
/// still waiting in the work list.
pub open spec fn settled(incoming: Seq<Option<usize>>, work: Seq<(usize, usize)>, s: int, nd: int) -> bool {
    incoming[s] == Some(nd as usize) || work.contains((s as usize, nd as usize))
}

/// Whether the visited instruction `p` passes its checks and all its successors are
/// in range and settled.
pub open spec fn closed_at(
    ops: Seq<Op>,
    limits: ValidationLimits,
    incoming: Seq<Option<usize>>,
    work: Seq<(usize, usize)>,
    p: int,
) -> bool {
    let x = incoming[p]->Some_0 as int;
    &&& local_ok(ops, limits, p, x)
    &&& x <= limits.max_stack_depth
    &&& forall|i: int|
        0 <= i < successors(ops[p], p).len() ==> 0 <= #[trigger] successors(ops[p], p)[i] < ops.len()
            && settled(incoming, work, successors(ops[p], p)[i], next_depth(ops[p], x))
}

proof fn lemma_settled_after_step(
    incoming0: Seq<Option<usize>>,
    work0: Seq<(usize, usize)>,
    incoming1: Seq<Option<usize>>,
    work1: Seq<(usize, usize)>,
    pc: usize,
    depth: usize,
    s: int,
    nd: int,
)
    requires
        settled(incoming0, work0, s, nd),
        work0.len() > 0,
        work0.last() == (pc, depth),
        work0.drop_last().is_prefix_of(work1),
        incoming1[pc as int] == Some(depth),
        incoming0[s] is Some ==> incoming1[s] == incoming0[s],
        0 <= s < incoming0.len(),
        0 <= nd,
        nd <= usize::MAX,
        s <= usize::MAX,
    ensures
        settled(incoming1, work1, s, nd),
{
    if incoming0[s] != Some(nd as usize) {
        let w = choose|w: int| 0 <= w < work0.len() && work0[w] == (s as usize, nd as usize);
        if w == work0.len() - 1 {
            assert(s == pc as int);
        } else {
            assert(work1[w] == work0.drop_last()[w]);
        }
    }
}

/// How many instructions a walk has entered.
pub open spec fn count_entered(s: Seq<Option<usize>>) -> nat
    decreases s.len(),
{
    if s.len() == 0 {
        0
    } else {
        count_entered(s.drop_last()) + if s.last() is Some {
            1nat
        } else {
            0nat
        }
    }
}

pub proof fn lemma_count_entered_le(s: Seq<Option<usize>>)
    ensures
        count_entered(s) <= s.len(),
    decreases s.len(),
{
    if s.len() > 0 {
        lemma_count_entered_le(s.drop_last());
    }
}

pub proof fn lemma_count_entered_update(s: Seq<Option<usize>>, i: int, x: usize)
    requires
        0 <= i < s.len(),
        s[i] is None,
    ensures
        count_entered(s.update(i, Some(x))) == count_entered(s) + 1,
    decreases s.len(),
{
    if i == s.len() - 1 {
        assert(s.update(i, Some(x)).drop_last() =~= s.drop_last());
    } else {
        lemma_count_entered_update(s.drop_last(), i, x);
        assert(s.update(i, Some(x)).drop_last() =~= s.drop_last().update(i, Some(x)));
    }
}

/// The verifier's walk over a program, from the heights entered so far (`incoming`)
/// and the work list of (instruction, height) pairs still to visit, taken from its
/// end: the first error it meets, in the order it meets them. An instruction is
/// entered once; entering it again must be at the same height. On entry its checks
/// run at its height, then its successors, each checked to be in range, join the
/// work list in order.
pub open spec fn walk(
    ops: Seq<Op>,
    lim: ValidationLimits,
    incoming: Seq<Option<usize>>,
    work: Seq<(usize, usize)>,
) -> Result<(), VerifyError>
    decreases 3 * (incoming.len() - count_entered(incoming)) + work.len(),
{
    if work.len() == 0 {
        Ok(())
    } else {
        let (pc, depth) = work.last();
        let rest = work.drop_last();
        proof {
            lemma_count_entered_le(incoming);
        }
        if pc >= ops.len() || pc >= incoming.len() {
            Err(VerifyError::InvalidJump { pc, target: pc })
        } else {
            match incoming[pc as int] {
                Some(e) => if e != depth {
                    Err(VerifyError::InconsistentStackHeight { pc, expected: e, found: depth })
                } else {
                    walk(ops, lim, incoming, rest)
                },
                None => match instruction_error(ops[pc as int], lim, pc, depth) {
                    Some(err) => Err(err),
                    None => {
                        let sc = successors(ops[pc as int], pc as int);
                        let nd = next_depth(ops[pc as int], depth as int) as usize;
                        if sc.len() > 0 && sc[0] >= ops.len() {
                            Err(VerifyError::InvalidJump { pc, target: sc[0] as usize })
                        } else if sc.len() > 1 && sc[1] >= ops.len() {
                            Err(VerifyError::InvalidJump { pc, target: sc[1] as usize })
                        } else {
                            let w1 = if sc.len() > 0 {
                                rest.push((sc[0] as usize, nd))
                            } else {
                                rest
                            };
                            let w2 = if sc.len() > 1 {
                                w1.push((sc[1] as usize, nd))
                            } else {
                                w1
                            };
                            proof {
                                lemma_count_entered_update(incoming, pc as int, depth);
                                lemma_count_entered_le(incoming.update(pc as int, Some(depth)));
                            }
                            walk(ops, lim, incoming.update(pc as int, Some(depth)), w2)
                        }
                    },
                },
            }
        }
    }
}

/// The verifier's walk over a whole program, from its first instruction at height
/// zero.
pub open spec fn verify_walk(ops: Seq<Op>, lim: ValidationLimits) -> Result<(), VerifyError> {
    walk(ops, lim, Seq::new(ops.len(), |i: int| None::<usize>), seq![(0usize, 0usize)])
}

/// What the verifier answers for a program: an empty program, one over the
/// instruction or gas limit, and otherwise the outcome of its walk.
pub open spec fn verify_result(ops: Seq<Op>, lim: ValidationLimits) -> Result<(), VerifyError> {
    if ops.len() == 0 {
        Err(VerifyError::EmptyProgram)
    } else if ops.len() > lim.max_instructions {
        Err(VerifyError::ProgramTooLarge { actual: ops.len() as usize, max: lim.max_instructions })
    } else if ops.len() > lim.max_gas {
        Err(VerifyError::GasLimitExceeded { required: ops.len() as u64, max: lim.max_gas })
    } else {
        verify_walk(ops, lim)
    }
}

/// A check of one instruction never reports an empty program.
proof fn lemma_instruction_error_not_empty(op: Op, limits: ValidationLimits, pc: usize, depth: usize)
    ensures
        !(instruction_error(op, limits, pc, depth) matches Some(VerifyError::EmptyProgram)),
{
}

impl BytecodeVerifier {
    /// Admits `program` when it is non-empty, within the instruction and gas limits,
    /// and every reachable instruction checks out with one stack height; the admitted
    /// program runs with the maximal gas of the limits.
    pub fn verify(&self, program: Vec<Op>) -> (r: Result<ValidatedProgram, VerifyError>)
        ensures
            r is Ok <==> program_valid(program@, self.spec_limits()),
            r matches Ok(p) ==> p.spec_ops() == program@ && p.spec_gas_limit()
                == self.spec_limits().max_gas && p.spec_limits() == self.spec_limits(),
            program@.len() == 0 ==> r == Err::<ValidatedProgram, VerifyError>(
                VerifyError::EmptyProgram,
            ),
            0 < program@.len() && program@.len() > self.spec_limits().max_instructions ==> r
                == Err::<ValidatedProgram, VerifyError>(
                VerifyError::ProgramTooLarge {
                    actual: program@.len() as usize,
                    max: self.spec_limits().max_instructions,
                },
            ),
            0 < program@.len() <= self.spec_limits().max_instructions && program@.len()
                > self.spec_limits().max_gas ==> r == Err::<ValidatedProgram, VerifyError>(
                VerifyError::GasLimitExceeded {
                    required: program@.len() as u64,
                    max: self.spec_limits().max_gas,
                },
            ),
            0 < program@.len() <= self.spec_limits().max_instructions && program@.len()
                <= self.spec_limits().max_gas ==> (instruction_error(
                program@[0],
                self.spec_limits(),
                0,
                0,
            ) matches Some(e) ==> r == Err::<ValidatedProgram, VerifyError>(e)),
            r matches Err(VerifyError::EmptyProgram) ==> program@.len() == 0,
            0 < program@.len() <= self.spec_limits().max_instructions && program@.len()
                <= self.spec_limits().max_gas ==> match verify_walk(program@, self.spec_limits()) {
                Ok(()) => r is Ok,
                Err(e) => r == Err::<ValidatedProgram, VerifyError>(e),
            },
            match verify_result(program@, self.spec_limits()) {
                Ok(()) => r is Ok,
                Err(e) => r == Err::<ValidatedProgram, VerifyError>(e),
            },
    {
        let n = program.len();
        if n == 0 {
            return Err(VerifyError::EmptyProgram);
        }
        if n > self.limits.max_instructions {
            return Err(VerifyError::ProgramTooLarge { actual: n, max: self.limits.max_instructions });
        }
        let static_gas = n as u64;
        if static_gas > self.limits.max_gas {
            return Err(VerifyError::GasLimitExceeded { required: static_gas, max: self.limits.max_gas });
        }
        let ghost ops = program@;
        let ghost lim = self.limits;
        let ghost valid = program_valid(ops, lim);
        let ghost dc = choose|d: Map<int, int>| certificate(ops, lim, d);
        let mut incoming: Vec<Option<usize>> = Vec::new();
        let mut k: usize = 0;
        while k < n
            invariant
                k <= n,
                incoming@.len() == k,
                forall|i: int| 0 <= i < k ==> incoming@[i] is None,
            decreases n - k,
        {
            incoming.push(None);
            k = k + 1;
        }
        let mut work: Vec<(usize, usize)> = Vec::new();
        work.push((0, 0));
        let ghost mut visited: Set<int> = Set::empty();
        let ghost mut first: bool = true;
        proof {
            lemma_int_range(0, n as int);
            assert(work@[0] == (0usize, 0usize));
            assert(work@ =~= seq![(0usize, 0usize)]);
            assert(incoming@ =~= Seq::new(n as nat, |i: int| None::<usize>));
        }
        while work.len() > 0
            invariant
                n == ops.len(),
                n > 0,
                n <= lim.max_instructions,
                n <= lim.max_gas,
                ops == program@,
                lim == self.limits,
                valid == program_valid(ops, lim),
                valid ==> certificate(ops, lim, dc),
                set_int_range(0, n as int).finite(),
                set_int_range(0, n as int).len() == n,
                incoming@.len() == n,
                visited.finite(),
                visited.subset_of(set_int_range(0, n as int)),
                forall|i: int| 0 <= i < n ==> (incoming@[i] is Some <==> visited.contains(i)),
                forall|w: int|
                    0 <= w < work@.len() ==> (#[trigger] work@[w]).0 < n && work@[w].1
                        <= lim.max_stack_depth && work@[w].1 <= visited.len(),
                forall|p: int| #[trigger]
                    visited.contains(p) ==> closed_at(ops, lim, incoming@, work@, p),
                settled(incoming@, work@, 0, 0),
                valid ==> forall|w: int|
                    0 <= w < work@.len() ==> dc.contains_key((#[trigger] work@[w]).0 as int)
                        && dc[work@[w].0 as int] == work@[w].1,
                valid ==> forall|p: int| #[trigger]
                    visited.contains(p) ==> dc.contains_key(p) && dc[p] == incoming@[p]->Some_0,
                first ==> work@ == seq![(0usize, 0usize)] && visited == Set::<int>::empty(),
                !first ==> instruction_error(ops[0], lim, 0, 0) is None,
                walk(ops, lim, incoming@, work@) == verify_walk(ops, lim),
            decreases 3 * (n - visited.len()) + work@.len(),
        {
            proof {
                lemma_len_subset(visited, set_int_range(0, n as int));
            }
            let ghost work0 = work@;
            let ghost incoming0 = incoming@;
            let (pc, depth) = match work.pop() {
                Some(x) => x,
                None => (0, 0),
            };
            assert(work0.last() == (pc, depth));
            assert(work@ =~= work0.drop_last());
            if pc >= n {
                return Err(VerifyError::InvalidJump { pc, target: pc });
            }
            match incoming[pc] {
                Some(expected) => {
                    proof {
                        if first {
                            assert(incoming@[pc as int] is Some);
                            assert(visited.contains(pc as int));
                        }
                    }
                    if expected != depth {
                        proof {
                            if valid {
                                assert(work0[work0.len() - 1] == (pc, depth));
                                assert(visited.contains(pc as int));
                                assert(dc[pc as int] == depth);
                            }
                        }
                        return Err(
                            VerifyError::InconsistentStackHeight { pc, expected, found: depth },
                        );
                    }
                    proof {
                        assert forall|p: int| #[trigger]
                            visited.contains(p) implies closed_at(ops, lim, incoming@, work@, p) by {
                            let x = incoming@[p]->Some_0 as int;
                            assert(closed_at(ops, lim, incoming0, work0, p));
                            assert forall|i: int|
                                0 <= i < successors(ops[p], p).len() implies 0
                                <= #[trigger] successors(ops[p], p)[i] < ops.len() && settled(
                                incoming@,
                                work@,
                                successors(ops[p], p)[i],
                                next_depth(ops[p], x),
                            ) by {
                                let sc = successors(ops[p], p)[i];
                                lemma_settled_after_step(
                                    incoming0,
                                    work0,
                                    incoming@,
                                    work@,
                                    pc,
                                    depth,
                                    sc,
                                    next_depth(ops[p], x),
                                );
                            }
                        }
                        lemma_settled_after_step(incoming0, work0, incoming@, work@, pc, depth, 0, 0);
                    }
                },
                None => {
                    incoming.set(pc, Some(depth));
                    proof {
                        assert(!visited.contains(pc as int));
                        assert(depth <= visited.len());
                        visited = visited.insert(pc as int);
                        lemma_len_subset(visited, set_int_range(0, n as int));
                        assert(depth < n);
                        if valid {
                            assert(work0[work0.len() - 1] == (pc, depth));
                            assert(dc.contains_key(pc as int) && dc[pc as int] == depth);
                        }
                    }
                    let ghost incoming1 = incoming@;
                    let ghost work1 = work@;
                    let (next_depth, successors) = match self.validate_instruction(
                        &program,
                        pc,
                        depth,
                    ) {
                        Ok(x) => x,
                        Err(e) => {
                            proof {
                                lemma_instruction_error_not_empty(ops[pc as int], lim, pc, depth);
                            }
                            return Err(e);
                        },
                    };
                    proof {
                        first = false;
                    }
                    if successors.len() > 0 {
                        let target = successors[0];
                        if target >= n {
                            proof {
                                if valid {
                                    assert(crate::atc_vm::bytecode::successors(ops[pc as int], pc as int)[0]
                                        == target);
                                }
                            }
                            return Err(VerifyError::InvalidJump { pc, target });
                        }
                        work.push((target, next_depth));
                    }
                    if successors.len() > 1 {
                        let target = successors[1];
                        if target >= n {
                            proof {
                                if valid {
                                    assert(crate::atc_vm::bytecode::successors(ops[pc as int], pc as int)[1]
                                        == target);
                                }
                            }
                            return Err(VerifyError::InvalidJump { pc, target });
                        }
                        work.push((target, next_depth));
                    }
                    proof {
                        assert(work1.is_prefix_of(work@));
                        assert(work0.drop_last().is_prefix_of(work@));
                        let succ = crate::atc_vm::bytecode::successors(ops[pc as int], pc as int);
                        assert forall|i: int| 0 <= i < succ.len() implies work@.contains(
                            (succ[i] as usize, next_depth),
                        ) by {
                            if i == 0 {
                                assert(work@[work1.len() as int] == (succ[i] as usize, next_depth));
                            } else {
                                assert(work@[work1.len() as int + 1] == (succ[i] as usize, next_depth));
                            }
                        }
                        assert forall|p: int| #[trigger]
                            visited.contains(p) implies closed_at(ops, lim, incoming@, work@, p) by {
                            if p != pc as int {
                                let x = incoming@[p]->Some_0 as int;
                                assert(incoming0[p] == incoming@[p]);
                                assert(closed_at(ops, lim, incoming0, work0, p));
                                assert forall|i: int|
                                    0 <= i < crate::atc_vm::bytecode::successors(
                                        ops[p],
                                        p,
                                    ).len() implies 0 <= #[trigger] crate::atc_vm::bytecode::successors(
                                    ops[p],
                                    p,
                                )[i] < ops.len() && settled(
                                    incoming@,
                                    work@,
                                    crate::atc_vm::bytecode::successors(ops[p], p)[i],
                                    crate::atc_vm::bytecode::next_depth(ops[p], x),
                                ) by {
                                    let sc = crate::atc_vm::bytecode::successors(ops[p], p)[i];
                                    lemma_settled_after_step(
                                        incoming0,
                                        work0,
                                        incoming@,
                                        work@,
                                        pc,
                                        depth,
                                        sc,
                                        crate::atc_vm::bytecode::next_depth(ops[p], x),
                                    );
                                }
                            }
                        }
                        lemma_settled_after_step(incoming0, work0, incoming@, work@, pc, depth, 0, 0);
                    }
                },
            }
        }
        proof {
            let d = Map::new(|p: int| visited.contains(p), |p: int| incoming@[p]->Some_0 as int);
            assert(incoming@[0] == Some(0usize));
            assert(certificate(ops, lim, d)) by {
                assert forall|pc: int| #[trigger] d.contains_key(pc) implies {
                    &&& 0 <= pc < ops.len()
                    &&& local_ok(ops, lim, pc, d[pc])
                    &&& forall|i: int|
                        0 <= i < crate::atc_vm::bytecode::successors(ops[pc], pc).len()
                            ==> d.contains_key(
                            #[trigger] crate::atc_vm::bytecode::successors(ops[pc], pc)[i],
                        ) && d[crate::atc_vm::bytecode::successors(ops[pc], pc)[i]]
                            == crate::atc_vm::bytecode::next_depth(ops[pc], d[pc])
                } by {
                    assert(closed_at(ops, lim, incoming@, work@, pc));
                    assert forall|i: int|
                        0 <= i < crate::atc_vm::bytecode::successors(ops[pc], pc).len()
                            implies d.contains_key(
                        #[trigger] crate::atc_vm::bytecode::successors(ops[pc], pc)[i],
                    ) && d[crate::atc_vm::bytecode::successors(ops[pc], pc)[i]]
                        == crate::atc_vm::bytecode::next_depth(ops[pc], d[pc]) by {
                        let sc = crate::atc_vm::bytecode::successors(ops[pc], pc)[i];
                        assert(settled(
                            incoming@,
                            work@,
                            sc,
                            crate::atc_vm::bytecode::next_depth(ops[pc], d[pc]),
                        ));
                    }
                }
            }
        }
        Ok(ValidatedProgram { ops: program, gas_limit: self.limits.max_gas, limits: self.limits })
    }
}

impl Default for BytecodeVerifier {
    fn default() -> (v: Self)
        ensures
            v.spec_limits() == default_limits(),
    {
        BytecodeVerifier::new(ValidationLimits::default())
    }
}


/// The text of a verification error, as its `Debug` form writes it.
pub open spec fn verify_error_text(e: VerifyError) -> Seq<char> {
    match e {
        VerifyError::EmptyProgram => "EmptyProgram"@,
        VerifyError::ProgramTooLarge { actual, max } => "ProgramTooLarge { "@ + "actual: "@ + decimal(actual as nat) + ", max: "@ + decimal(max as nat) + " }"@,
        VerifyError::InvalidJump { pc, target } => "InvalidJump { "@ + "pc: "@ + decimal(pc as nat) + ", target: "@ + decimal(target as nat) + " }"@,
        VerifyError::StackUnderflow { pc, required, available } => "StackUnderflow { "@ + "pc: "@ + decimal(pc as nat) + ", required: "@ + decimal(required as nat) + ", available: "@ + decimal(available as nat) + " }"@,
        VerifyError::StackDepthExceeded { pc, depth, max } => "StackDepthExceeded { "@ + "pc: "@ + decimal(pc as nat) + ", depth: "@ + decimal(depth as nat) + ", max: "@ + decimal(max as nat) + " }"@,
        VerifyError::InconsistentStackHeight { pc, expected, found } => "InconsistentStackHeight { "@ + "pc: "@ + decimal(pc as nat) + ", expected: "@ + decimal(expected as nat) + ", found: "@ + decimal(found as nat) + " }"@,
        VerifyError::StorageSlotExceeded { pc, slot, max } => "StorageSlotExceeded { "@ + "pc: "@ + decimal(pc as nat) + ", slot: "@ + decimal(slot as nat) + ", max: "@ + decimal(max as nat) + " }"@,
        VerifyError::GasLimitExceeded { required, max } => "GasLimitExceeded { "@ + "required: "@ + decimal(required as nat) + ", max: "@ + decimal(max as nat) + " }"@,
    }
}

impl VerifyError {
    pub fn debug_text(&self) -> (s: String)
        ensures
            s@ == verify_error_text(*self),
    {
        let s = match self {
            VerifyError::EmptyProgram => "EmptyProgram".to_string(),
            VerifyError::ProgramTooLarge { actual, max } => {
                let mut s = "ProgramTooLarge { ".to_string();
                s.append("actual: ");
                push_decimal(&mut s, *actual as u64);
                s.append(", max: ");
                push_decimal(&mut s, *max as u64);
                s.append(" }");
                s
            },
            VerifyError::InvalidJump { pc, target } => {
                let mut s = "InvalidJump { ".to_string();
                s.append("pc: ");
                push_decimal(&mut s, *pc as u64);
                s.append(", target: ");
                push_decimal(&mut s, *target as u64);
                s.append(" }");
                s
            },
            VerifyError::StackUnderflow { pc, required, available } => {
                let mut s = "StackUnderflow { ".to_string();
                s.append("pc: ");
                push_decimal(&mut s, *pc as u64);
                s.append(", required: ");
                push_decimal(&mut s, *required as u64);
                s.append(", available: ");
                push_decimal(&mut s, *available as u64);
                s.append(" }");
                s
            },
            VerifyError::StackDepthExceeded { pc, depth, max } => {
                let mut s = "StackDepthExceeded { ".to_string();
                s.append("pc: ");
                push_decimal(&mut s, *pc as u64);
                s.append(", depth: ");
                push_decimal(&mut s, *depth as u64);
                s.append(", max: ");
                push_decimal(&mut s, *max as u64);
                s.append(" }");
                s
            },
            VerifyError::InconsistentStackHeight { pc, expected, found } => {
                let mut s = "InconsistentStackHeight { ".to_string();
                s.append("pc: ");
                push_decimal(&mut s, *pc as u64);
                s.append(", expected: ");
                push_decimal(&mut s, *expected as u64);
                s.append(", found: ");
                push_decimal(&mut s, *found as u64);
                s.append(" }");
                s
            },
            VerifyError::StorageSlotExceeded { pc, slot, max } => {
                let mut s = "StorageSlotExceeded { ".to_string();
                s.append("pc: ");
                push_decimal(&mut s, *pc as u64);
                s.append(", slot: ");
                push_decimal(&mut s, *slot as u64);
                s.append(", max: ");
                push_decimal(&mut s, *max as u64);
                s.append(" }");
                s
            },
            VerifyError::GasLimitExceeded { required, max } => {
                let mut s = "GasLimitExceeded { ".to_string();
                s.append("required: ");
                push_decimal(&mut s, *required);
                s.append(", max: ");
                push_decimal(&mut s, *max);
                s.append(" }");
                s
            },
        };
        proof {
            assert(s@ =~= verify_error_text(*self));
        }
        s
    }
}

} // verus!
