//! Instructions, the constant pool, runtime values and the arithmetic and
//! comparisons defined on them.
use vstd::prelude::*;

use crate::text::{chars_of, string_of};

verus! {

/// Position of an entry in a program's constant pool.
#[derive(Clone, Copy, Debug, PartialEq, Eq, Structural)]
pub struct ConstantIndex(pub u32);

/// One machine instruction. Addresses are absolute instruction indices.
#[derive(Clone, Copy, Debug, PartialEq, Eq, Structural)]
pub enum Opcode {
    /// Push a constant of the pool.
    Push(ConstantIndex),
    /// Discard the top of the operand stack.
    Pop,
    /// Enter a new frame and continue at the address.
    Call(usize),
    /// Leave the current frame.
    Return,
    /// Continue at the address.
    Jump(usize),
    /// Continue at the address when the top of the stack is `Int(0)`; it stays there.
    JumpIfZero(usize),
    /// Continue at the address when the top of the stack is a nonzero `Int`; it stays there.
    JumpIfNotZero(usize),
    /// Push a copy of a local slot of the current frame.
    LoadLocal(usize),
    /// Pop into a local slot of the current frame: overwrite it or append it.
    StoreLocal(usize),
    /// Add one to an integer local slot.
    Increment(usize),
    Equals,
    NotEqual,
    GreaterThan,
    GreaterThanEqual,
    LessThan,
    LessThanEqual,
    Add,
    Subtract,
    Multiply,
    Divide,
    Modulo,
    /// Pop a value and emit it as output.
    Print,
    /// Stop; the operand stack must be empty.
    Halt,
}

/// What a constant or a runtime value is, with its text as characters.
/// A float is carried as the bit pattern of an IEEE-754 single.
pub enum Value {
    Int(i32),
    Float(u32),
    Str(Seq<char>),
}

/// An entry of the constant pool. `Float` holds the bit pattern of a
/// 32-bit IEEE-754 number.
#[derive(Debug, PartialEq, Clone)]
pub enum ConstantValue {
    Int(i32),
    Float(u32),
    Str(String),
}

impl View for ConstantValue {
    type V = Value;

    open spec fn view(&self) -> Value {
        match self {
            ConstantValue::Int(x) => Value::Int(*x),
            ConstantValue::Float(x) => Value::Float(*x),
            ConstantValue::Str(s) => Value::Str(s@),
        }
    }
}

/// A value on the operand stack or in a local slot. `Float` holds the bit
/// pattern of a 32-bit IEEE-754 number.
#[derive(Debug, PartialEq, Clone)]
pub enum LeiaValue {
    Int(i32),
    Float(u32),
    Str(String),
}

impl View for LeiaValue {
    type V = Value;

    open spec fn view(&self) -> Value {
        match self {
            LeiaValue::Int(x) => Value::Int(*x),
            LeiaValue::Float(x) => Value::Float(*x),
            LeiaValue::Str(s) => Value::Str(s@),
        }
    }
}

/// A program: where it starts, its instructions and its constant pool.
#[derive(Debug)]
pub struct Program {
    pub entry: usize,
    pub code: Vec<Opcode>,
    pub constants: Vec<ConstantValue>,
}

pub struct ProgramView {
    pub entry: int,
    pub code: Seq<Opcode>,
    pub constants: Seq<Value>,
}

impl View for Program {
    type V = ProgramView;

    open spec fn view(&self) -> ProgramView {
        ProgramView {
            entry: self.entry as int,
            code: self.code@,
            constants: self.constants@.map_values(|c: ConstantValue| c@),
        }
    }
}

/// Why an instruction could not be carried out.
#[derive(Clone, Copy, Debug, PartialEq, Eq, Structural)]
pub enum ErrorKind {
    /// `Push` named an index past the end of the constant pool.
    ConstantOutOfRange,
    /// The operand stack held fewer values than the instruction takes.
    StackUnderflow,
    /// The operands are not two integers or two floats.
    TypeMismatch,
    /// A conditional jump found no integer on top of the stack.
    InvalidCondition,
    /// A local slot that the current frame does not have.
    LocalOutOfRange,
    /// `Increment` on a local slot that does not hold an integer.
    NotAnInt,
    /// `Halt` with values left on the operand stack.
    StackNotEmpty,
    /// `Return` in the top-level frame, with no call to return from.
    ReturnWithoutCall,
    /// An integer result outside the range of `i32`.
    Overflow,
    /// Division or remainder by zero.
    DivisionByZero,
}

/// The binary operations of the machine.
#[derive(Clone, Copy, Debug, PartialEq, Eq, Structural)]
pub enum BinOp {
    Add,
    Sub,
    Mul,
    Div,
    Mod,
    Eq,
    Ne,
    Gt,
    Ge,
    Lt,
    Le,
}

/// What a binary operation on two values comes to: an integer, or, on two
/// floats, the operation and the operands' bit patterns, which the host
/// evaluates.
#[derive(Clone, Copy, Debug, PartialEq, Eq, Structural)]
pub enum Evaluation {
    Int(i32),
    Float(BinOp, u32, u32),
}

pub open spec fn abs(a: int) -> int {
    if a < 0 {
        -a
    } else {
        a
    }
}

/// Quotient rounded toward zero.
pub open spec fn trunc_div(a: int, b: int) -> int {
    if (a < 0) != (b < 0) {
        -(abs(a) / abs(b))
    } else {
        abs(a) / abs(b)
    }
}

/// Remainder of the quotient rounded toward zero; it has the sign of `a`.
pub open spec fn trunc_rem(a: int, b: int) -> int {
    if a < 0 {
        -(abs(a) % abs(b))
    } else {
        abs(a) % abs(b)
    }
}

pub open spec fn truth(b: bool) -> int {
    if b {
        1
    } else {
        0
    }
}

/// The exact result of `op` on two integers, before it is fitted to `i32`.
pub open spec fn int_op(op: BinOp, a: int, b: int) -> Result<int, ErrorKind> {
    match op {
        BinOp::Add => Ok(a + b),
        BinOp::Sub => Ok(a - b),
        BinOp::Mul => Ok(a * b),
        BinOp::Div => if b == 0 {
            Err(ErrorKind::DivisionByZero)
        } else {
            Ok(trunc_div(a, b))
        },
        BinOp::Mod => if b == 0 {
            Err(ErrorKind::DivisionByZero)
        } else if a == i32::MIN && b == -1 {
            Err(ErrorKind::Overflow)
        } else {
            Ok(trunc_rem(a, b))
        },
        BinOp::Eq => Ok(truth(a == b)),
        BinOp::Ne => Ok(truth(a != b)),
        BinOp::Gt => Ok(truth(a > b)),
        BinOp::Ge => Ok(truth(a >= b)),
        BinOp::Lt => Ok(truth(a < b)),
        BinOp::Le => Ok(truth(a <= b)),
    }
}

/// `op` on two `i32`: the exact result, or `Overflow` where it does not fit.
pub open spec fn int_binary(op: BinOp, a: i32, b: i32) -> Result<i32, ErrorKind> {
    match int_op(op, a as int, b as int) {
        Ok(n) => if i32::MIN <= n && n <= i32::MAX {
            Ok(n as i32)
        } else {
            Err(ErrorKind::Overflow)
        },
        Err(e) => Err(e),
    }
}

/// `op` on two values: defined on two integers and on two floats only.
pub open spec fn binary_spec(op: BinOp, a: Value, b: Value) -> Result<Evaluation, ErrorKind> {
    match (a, b) {
        (Value::Int(x), Value::Int(y)) => match int_binary(op, x, y) {
            Ok(n) => Ok(Evaluation::Int(n)),
            Err(e) => Err(e),
        },
        (Value::Float(x), Value::Float(y)) => Ok(Evaluation::Float(op, x, y)),
        _ => Err(ErrorKind::TypeMismatch),
    }
}

/// `op` on two integers.
pub fn int_binary_exec(op: BinOp, a: i32, b: i32) -> (r: Result<i32, ErrorKind>)
    ensures
        r == int_binary(op, a, b),
{
    match op {
        BinOp::Add => match a.checked_add(b) {
            Some(n) => Ok(n),
            None => Err(ErrorKind::Overflow),
        },
        BinOp::Sub => match a.checked_sub(b) {
            Some(n) => Ok(n),
            None => Err(ErrorKind::Overflow),
        },
        BinOp::Mul => match a.checked_mul(b) {
            Some(n) => Ok(n),
            None => Err(ErrorKind::Overflow),
        },
        BinOp::Div => if b == 0 {
            Err(ErrorKind::DivisionByZero)
        } else {
            match a.checked_div(b) {
                Some(n) => Ok(n),
                None => Err(ErrorKind::Overflow),
            }
        },
        BinOp::Mod => if b == 0 {
            Err(ErrorKind::DivisionByZero)
        } else if a == i32::MIN && b == -1 {
            Err(ErrorKind::Overflow)
        } else {
            match a.checked_rem(b) {
                Some(n) => Ok(n),
                None => Err(ErrorKind::Overflow),
            }
        },
        BinOp::Eq => Ok(if a == b { 1 } else { 0 }),
        BinOp::Ne => Ok(if a != b { 1 } else { 0 }),
        BinOp::Gt => Ok(if a > b { 1 } else { 0 }),
        BinOp::Ge => Ok(if a >= b { 1 } else { 0 }),
        BinOp::Lt => Ok(if a < b { 1 } else { 0 }),
        BinOp::Le => Ok(if a <= b { 1 } else { 0 }),
    }
}

impl LeiaValue {
    /// A copy of this value.
    pub fn duplicate(&self) -> (r: LeiaValue)
        ensures
            r@ == self@,
    {
        match self {
            LeiaValue::Int(x) => LeiaValue::Int(*x),
            LeiaValue::Float(x) => LeiaValue::Float(*x),
            LeiaValue::Str(s) => LeiaValue::Str(s.clone()),
        }
    }

    /// The runtime value of a constant-pool entry.
    pub fn from_constant(c: &ConstantValue) -> (r: LeiaValue)
        ensures
            r@ == c@,
    {
        match c {
            ConstantValue::Int(x) => LeiaValue::Int(*x),
            ConstantValue::Float(x) => LeiaValue::Float(*x),
            ConstantValue::Str(s) => LeiaValue::Str(s.clone()),
        }
    }

    /// `op` on this value and `other`. Two integers give the integer result;
    /// two floats are handed back for the host to evaluate; any other pair
    /// is a type mismatch. Strings are never added here: see `add_string`.
    pub fn binary(&self, op: BinOp, other: &LeiaValue) -> (r: Result<Evaluation, ErrorKind>)
        ensures
            r == binary_spec(op, self@, other@),
    {
        match (self, other) {
            (LeiaValue::Int(x), LeiaValue::Int(y)) => match int_binary_exec(op, *x, *y) {
                Ok(n) => Ok(Evaluation::Int(n)),
                Err(e) => Err(e),
            },
            (LeiaValue::Float(x), LeiaValue::Float(y)) => Ok(Evaluation::Float(op, *x, *y)),
            _ => Err(ErrorKind::TypeMismatch),
        }
    }

    /// The concatenation of two strings; any other pair is a type mismatch.
    pub fn add_string(self, other: LeiaValue) -> (r: Result<LeiaValue, ErrorKind>)
        ensures
            (self@, other@) matches (Value::Str(a), Value::Str(b)) ==> r matches Ok(v) && v@
                == Value::Str(a + b),
            !((self@, other@) matches (Value::Str(_), Value::Str(_))) ==> r == Err::<
                LeiaValue,
                ErrorKind,
            >(ErrorKind::TypeMismatch),
    {
        match (self, other) {
            (LeiaValue::Str(a), LeiaValue::Str(b)) => {
                let mut cs = chars_of(a.as_str());
                let tail = chars_of(b.as_str());
                let mut i: usize = 0;
                while i < tail.len()
                    invariant
                        i <= tail@.len(),
                        cs@ == a@ + tail@.take(i as int),
                    decreases tail@.len() - i,
                {
                    cs.push(tail[i]);
                    assert(tail@.take(i + 1) =~= tail@.take(i as int).push(tail@[i as int]));
                    i = i + 1;
                }
                assert(tail@.take(tail@.len() as int) =~= tail@);
                let n = cs.len();
                let s = string_of(&cs, 0, n);
                assert(cs@.subrange(0, n as int) =~= cs@);
                Ok(LeiaValue::Str(s))
            },
            _ => Err(ErrorKind::TypeMismatch),
        }
    }
}

} // verus!
