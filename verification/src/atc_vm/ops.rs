//! Text form of ATC-VM programs: one instruction per line, its name followed, for
//! `Push`, `Jump`, `JumpIfZero`, `JumpIfNotZero`, `Load` and `Store`, by one space and
//! a decimal operand. Blank lines are skipped and a trailing carriage return is ignored.
use crate::atc_vm::vm::Op;
use crate::mempool::utf8;
use crate::codec::{decimal, push_decimal, slice_range};
use crate::ordmap::bytes_equal;
use vstd::prelude::*;

verus! {

#[derive(Debug, Clone, Copy, PartialEq, Eq, Structural)]
pub enum ParseError {
    UnknownInstruction { line: usize },
    MissingOperand { line: usize },
    UnexpectedOperand { line: usize },
    InvalidOperand { line: usize },
}

/// Position of the first `x` at or after `start`, or the length.
pub open spec fn find_byte(b: Seq<u8>, start: int, x: u8) -> int
    decreases b.len() - start,
{
    if start >= b.len() {
        b.len() as int
    } else if b[start] == x {
        start
    } else {
        find_byte(b, start + 1, x)
    }
}

/// The value of a non-empty string of decimal digits.
pub open spec fn digits_value(s: Seq<u8>) -> Option<nat>
    decreases s.len(),
{
    if s.len() == 0 || !(48 <= s.last() <= 57) {
        None
    } else if s.len() == 1 {
        Some((s.last() - 48) as nat)
    } else {
        match digits_value(s.drop_last()) {
            None => None,
            Some(v) => Some(v * 10 + (s.last() - 48) as nat),
        }
    }
}

/// The instruction named `name` with no operand, where it takes none.
pub open spec fn plain_op(name: Seq<u8>) -> Option<Op> {
    if name == utf8("Add"@) {
        Some(Op::Add)
    } else if name == utf8("Sub"@) {
        Some(Op::Sub)
    } else if name == utf8("Mul"@) {
        Some(Op::Mul)
    } else if name == utf8("Div"@) {
        Some(Op::Div)
    } else if name == utf8("Dup"@) {
        Some(Op::Dup)
    } else if name == utf8("Swap"@) {
        Some(Op::Swap)
    } else if name == utf8("Eq"@) {
        Some(Op::Eq)
    } else if name == utf8("Lt"@) {
        Some(Op::Lt)
    } else if name == utf8("Caller"@) {
        Some(Op::Caller)
    } else if name == utf8("Halt"@) {
        Some(Op::Halt)
    } else {
        None
    }
}

/// Which instruction with an operand `name` names: 0 for `Push`, 1 `Jump`,
/// 2 `JumpIfZero`, 3 `JumpIfNotZero`, 4 `Load`, 5 `Store`.
pub open spec fn operand_kind(name: Seq<u8>) -> Option<u8> {
    if name == utf8("Push"@) {
        Some(0)
    } else if name == utf8("Jump"@) {
        Some(1)
    } else if name == utf8("JumpIfZero"@) {
        Some(2)
    } else if name == utf8("JumpIfNotZero"@) {
        Some(3)
    } else if name == utf8("Load"@) {
        Some(4)
    } else if name == utf8("Store"@) {
        Some(5)
    } else {
        None
    }
}

/// The instruction of kind `k` with operand `v`, where the operand fits.
pub open spec fn operand_op(k: u8, v: nat) -> Option<Op> {
    if k == 0 {
        if v <= u64::MAX {
            Some(Op::Push(v as u64))
        } else {
            None
        }
    } else if v > usize::MAX {
        None
    } else if k == 1 {
        Some(Op::Jump(v as usize))
    } else if k == 2 {
        Some(Op::JumpIfZero(v as usize))
    } else if k == 3 {
        Some(Op::JumpIfNotZero(v as usize))
    } else if k == 4 {
        Some(Op::Load(v as usize))
    } else {
        Some(Op::Store(v as usize))
    }
}

/// What one line denotes: nothing for a blank line, or one instruction.
pub open spec fn parse_line(l: Seq<u8>, line: usize) -> Result<Option<Op>, ParseError> {
    let l1 = if l.len() > 0 && l.last() == 13 {
        l.drop_last()
    } else {
        l
    };
    if l1.len() == 0 {
        Ok(None)
    } else {
        let sp = find_byte(l1, 0, 32);
        let name = l1.subrange(0, sp);
        let has_operand = sp < l1.len();
        match plain_op(name) {
            Some(op) => if has_operand {
                Err(ParseError::UnexpectedOperand { line })
            } else {
                Ok(Some(op))
            },
            None => match operand_kind(name) {
                None => Err(ParseError::UnknownInstruction { line }),
                Some(k) => if !has_operand {
                    Err(ParseError::MissingOperand { line })
                } else {
                    match digits_value(l1.subrange(sp + 1, l1.len() as int)) {
                        None => Err(ParseError::InvalidOperand { line }),
                        Some(v) => match operand_op(k, v) {
                            None => Err(ParseError::InvalidOperand { line }),
                            Some(op) => Ok(Some(op)),
                        },
                    }
                },
            },
        }
    }
}

/// The instructions of the lines from `start` on, the first of them numbered `line`.
pub open spec fn parse_from(b: Seq<u8>, start: int, line: int) -> Result<Seq<Op>, ParseError>
    decreases b.len() + 1 - start,
{
    if start < 0 || start >= b.len() {
        Ok(Seq::empty())
    } else {
        let e = find_byte(b, start, 10);
        proof {
            lemma_find_byte_bounds(b, start, 10);
        }
        match parse_line(b.subrange(start, e), line as usize) {
            Err(err) => Err(err),
            Ok(o) => match parse_from(b, e + 1, line + 1) {
                Err(err) => Err(err),
                Ok(rest) => Ok(
                    match o {
                        Some(op) => seq![op] + rest,
                        None => rest,
                    },
                ),
            },
        }
    }
}

pub proof fn lemma_find_byte_bounds(b: Seq<u8>, start: int, x: u8)
    requires
        0 <= start,
    ensures
        start <= b.len() ==> start <= find_byte(b, start, x) <= b.len(),
        find_byte(b, start, x) < b.len() ==> b[find_byte(b, start, x)] == x,
        forall|i: int| start <= i < find_byte(b, start, x) ==> b[i] != x,
    decreases b.len() - start,
{
    if start < b.len() && b[start] != x {
        lemma_find_byte_bounds(b, start + 1, x);
    }
}


proof fn lemma_digits_none_extends(s: Seq<u8>, k: int)
    requires
        1 <= k <= s.len(),
        digits_value(s.subrange(0, k)) is None,
    ensures
        digits_value(s) is None,
    decreases s.len(),
{
    if k == s.len() {
        assert(s.subrange(0, k) =~= s);
    } else {
        let t = s.drop_last();
        assert(t.subrange(0, k) =~= s.subrange(0, k));
        lemma_digits_none_extends(t, k);
    }
}

proof fn lemma_digits_grow(s: Seq<u8>)
    requires
        digits_value(s) is Some,
    ensures
        digits_value(s)->Some_0 >= 0,
        s.len() > 1 ==> digits_value(s.drop_last()) is Some && digits_value(s)->Some_0
            >= digits_value(s.drop_last())->Some_0,
    decreases s.len(),
{
}

/// The value of the digits in `b[lo..hi]`, where they are digits and the value fits
/// in a `u64`.
fn read_digits(b: &[u8], lo: usize, hi: usize) -> (r: Option<u64>)
    requires
        lo <= hi <= b@.len(),
    ensures
        match digits_value(b@.subrange(lo as int, hi as int)) {
            None => r is None,
            Some(v) => if v <= u64::MAX {
                r == Some(v as u64)
            } else {
                r is None
            },
        },
{
    if lo == hi {
        return None;
    }
    let ghost s = b@.subrange(lo as int, hi as int);
    let mut acc: u64 = 0;
    let mut over = false;
    let mut i: usize = lo;
    while i < hi
        invariant
            lo <= i <= hi <= b@.len(),
            lo < hi,
            s == b@.subrange(lo as int, hi as int),
            i > lo ==> digits_value(s.subrange(0, i - lo)) is Some,
            i > lo && !over ==> acc == digits_value(s.subrange(0, i - lo))->Some_0,
            i > lo && over ==> digits_value(s.subrange(0, i - lo))->Some_0 > u64::MAX,
            i == lo ==> acc == 0 && !over,
        decreases hi - i,
    {
        let c = b[i];
        let ghost k: int = i - lo + 1;
        proof {
            assert(s.subrange(0, k).drop_last() =~= s.subrange(0, k - 1));
            assert(s.subrange(0, k).last() == c);
        }
        if c < 48 || c > 57 {
            proof {
                lemma_digits_none_extends(s, k);
            }
            return None;
        }
        let d = (c - 48) as u64;
        if !over {
            match acc.checked_mul(10) {
                Some(m) => match m.checked_add(d) {
                    Some(v) => {
                        acc = v;
                    },
                    None => {
                        over = true;
                    },
                },
                None => {
                    over = true;
                },
            }
        }
        i = i + 1;
    }
    assert(s.subrange(0, hi - lo) =~= s);
    if over {
        None
    } else {
        Some(acc)
    }
}

fn plain_op_of(name: &[u8]) -> (r: Option<Op>)
    ensures
        r == plain_op(name@),
{
    if bytes_equal(name, "Add".as_bytes()) {
        Some(Op::Add)
    } else if bytes_equal(name, "Sub".as_bytes()) {
        Some(Op::Sub)
    } else if bytes_equal(name, "Mul".as_bytes()) {
        Some(Op::Mul)
    } else if bytes_equal(name, "Div".as_bytes()) {
        Some(Op::Div)
    } else if bytes_equal(name, "Dup".as_bytes()) {
        Some(Op::Dup)
    } else if bytes_equal(name, "Swap".as_bytes()) {
        Some(Op::Swap)
    } else if bytes_equal(name, "Eq".as_bytes()) {
        Some(Op::Eq)
    } else if bytes_equal(name, "Lt".as_bytes()) {
        Some(Op::Lt)
    } else if bytes_equal(name, "Caller".as_bytes()) {
        Some(Op::Caller)
    } else if bytes_equal(name, "Halt".as_bytes()) {
        Some(Op::Halt)
    } else {
        None
    }
}

fn operand_kind_of(name: &[u8]) -> (r: Option<u8>)
    ensures
        r == operand_kind(name@),
{
    if bytes_equal(name, "Push".as_bytes()) {
        Some(0)
    } else if bytes_equal(name, "Jump".as_bytes()) {
        Some(1)
    } else if bytes_equal(name, "JumpIfZero".as_bytes()) {
        Some(2)
    } else if bytes_equal(name, "JumpIfNotZero".as_bytes()) {
        Some(3)
    } else if bytes_equal(name, "Load".as_bytes()) {
        Some(4)
    } else if bytes_equal(name, "Store".as_bytes()) {
        Some(5)
    } else {
        None
    }
}

fn line_op(b: &[u8], start: usize, end: usize, line: usize) -> (r: Result<Option<Op>, ParseError>)
    requires
        start <= end <= b@.len(),
    ensures
        r == parse_line(b@.subrange(start as int, end as int), line),
{
    let ghost l = b@.subrange(start as int, end as int);
    let end1 = if end > start && b[end - 1] == 13 {
        end - 1
    } else {
        end
    };
    let ghost l1 = b@.subrange(start as int, end1 as int);
    proof {
        if end > start && b@[end - 1] == 13 {
            assert(l.drop_last() =~= l1);
        } else {
            assert(l =~= l1);
        }
    }
    if end1 == start {
        return Ok(None);
    }
    let mut sp: usize = start;
    while sp < end1 && b[sp] != 32
        invariant
            start <= sp <= end1 <= b@.len(),
            l1 == b@.subrange(start as int, end1 as int),
            forall|i: int| start <= i < sp ==> b@[i] != 32,
        decreases end1 - sp,
    {
        sp = sp + 1;
    }
    proof {
        let f = find_byte(l1, 0, 32);
        lemma_find_byte_bounds(l1, 0, 32);
        assert(f == sp - start) by {
            if f < sp - start {
                assert(l1[f] == b@[start + f]);
            }
            if f > sp - start {
                assert(l1[sp - start] == b@[sp as int]);
            }
        }
    }
    let name = slice_range(b, start, sp);
    proof {
        assert(name@ =~= l1.subrange(0, sp - start));
    }
    let has_operand = sp < end1;
    match plain_op_of(name) {
        Some(op) => {
            if has_operand {
                Err(ParseError::UnexpectedOperand { line })
            } else {
                Ok(Some(op))
            }
        },
        None => match operand_kind_of(name) {
            None => Err(ParseError::UnknownInstruction { line }),
            Some(k) => {
                if !has_operand {
                    return Err(ParseError::MissingOperand { line });
                }
                proof {
                    assert(b@.subrange(sp + 1, end1 as int) =~= l1.subrange(
                        sp + 1 - start,
                        l1.len() as int,
                    ));
                }
                match read_digits(b, sp + 1, end1) {
                    None => Err(ParseError::InvalidOperand { line }),
                    Some(v) => {
                        if k == 0 {
                            Ok(Some(Op::Push(v)))
                        } else if v > usize::MAX as u64 {
                            Err(ParseError::InvalidOperand { line })
                        } else if k == 1 {
                            Ok(Some(Op::Jump(v as usize)))
                        } else if k == 2 {
                            Ok(Some(Op::JumpIfZero(v as usize)))
                        } else if k == 3 {
                            Ok(Some(Op::JumpIfNotZero(v as usize)))
                        } else if k == 4 {
                            Ok(Some(Op::Load(v as usize)))
                        } else {
                            Ok(Some(Op::Store(v as usize)))
                        }
                    },
                }
            },
        },
    }
}

/// Parses a program from its text form.
pub fn parse_ops(text: &str) -> (r: Result<Vec<Op>, ParseError>)
    ensures
        match parse_from(utf8(text@), 0, 1) {
            Ok(v) => r matches Ok(x) && x@ == v,
            Err(e) => r == Err::<Vec<Op>, ParseError>(e),
        },
{
    let b = text.as_bytes();
    let n = b.len();
    let mut out: Vec<Op> = Vec::new();
    let mut start: usize = 0;
    let mut line: usize = 1;
    while start < n
        invariant
            n == b@.len(),
            b@ == utf8(text@),
            start <= n,
            1 <= line <= start + 1,
            parse_from(b@, 0, 1) == match parse_from(b@, start as int, line as int) {
                Ok(rest) => Ok::<Seq<Op>, ParseError>(out@ + rest),
                Err(e) => Err(e),
            },
        decreases n - start,
    {
        let mut e: usize = start;
        while e < n && b[e] != 10
            invariant
                start <= e <= n,
                n == b@.len(),
                forall|i: int| start <= i < e ==> b@[i] != 10,
            decreases n - e,
        {
            e = e + 1;
        }
        proof {
            lemma_find_byte_bounds(b@, start as int, 10);
            let f = find_byte(b@, start as int, 10);
            assert(f == e) by {
                if f < e {
                    assert(b@[f] != 10);
                }
                if f > e {
                    assert(b@[e as int] == 10);
                }
            }
        }
        let ghost out0 = out@;
        match line_op(b, start, e, line) {
            Err(err) => {
                return Err(err);
            },
            Ok(o) => {
                match o {
                    Some(op) => {
                        out.push(op);
                    },
                    None => {},
                }
                proof {
                    match parse_from(b@, e + 1, line + 1) {
                        Ok(rest) => {
                            match o {
                                Some(op) => {
                                    assert(out0 + (seq![op] + rest) =~= out@ + rest);
                                },
                                None => {},
                            }
                        },
                        Err(_) => {},
                    }
                }
            },
        }
        if e < n && e + 1 < n {
            start = e + 1;
            line = line + 1;
        } else {
            proof {
                assert(parse_from(b@, e + 1, line + 1) == Ok::<Seq<Op>, ParseError>(Seq::empty()));
                assert(parse_from(b@, n as int, line as int) == Ok::<Seq<Op>, ParseError>(Seq::empty()));
            }
            start = n;
        }
    }
    proof {
        assert(out@ + Seq::<Op>::empty() =~= out@);
    }
    Ok(out)
}


/// The text of a parse error, as its `Debug` form writes it.
pub open spec fn parse_error_text(e: ParseError) -> Seq<char> {
    match e {
        ParseError::UnknownInstruction { line } => "UnknownInstruction { line: "@ + decimal(line as nat) + " }"@,
        ParseError::MissingOperand { line } => "MissingOperand { line: "@ + decimal(line as nat) + " }"@,
        ParseError::UnexpectedOperand { line } => "UnexpectedOperand { line: "@ + decimal(line as nat) + " }"@,
        ParseError::InvalidOperand { line } => "InvalidOperand { line: "@ + decimal(line as nat) + " }"@,
    }
}

impl ParseError {
    pub fn debug_text(&self) -> (s: String)
        ensures
            s@ == parse_error_text(*self),
    {
        let s = match self {
            ParseError::UnknownInstruction { line } => {
                let mut s = "UnknownInstruction { line: ".to_string();
                push_decimal(&mut s, *line as u64);
                s.append(" }");
                s
            },
            ParseError::MissingOperand { line } => {
                let mut s = "MissingOperand { line: ".to_string();
                push_decimal(&mut s, *line as u64);
                s.append(" }");
                s
            },
            ParseError::UnexpectedOperand { line } => {
                let mut s = "UnexpectedOperand { line: ".to_string();
                push_decimal(&mut s, *line as u64);
                s.append(" }");
                s
            },
            ParseError::InvalidOperand { line } => {
                let mut s = "InvalidOperand { line: ".to_string();
                push_decimal(&mut s, *line as u64);
                s.append(" }");
                s
            },
        };
        proof {
            assert(s@ =~= parse_error_text(*self));
        }
        s
    }
}

} // verus!
