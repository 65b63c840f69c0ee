//! The machine: an operand stack, a stack of frames with local slots, and a
//! program counter, advanced one instruction at a time.
//!
//! The machine does no output and no floating-point arithmetic itself: a
//! step that prints hands the value out as an event, and a binary operation
//! on two floats hands out the operation and its operands, whose result the
//! host pushes back with `push_result`.
use vstd::prelude::*;

use crate::instruction::{
    binary_spec, int_op, BinOp, ErrorKind, Evaluation, LeiaValue, Opcode, Program,
    ProgramView, Value,
};

verus! {

/// The activation record of one call.
pub struct StackFrame {
    return_address: usize,
    locals: Vec<LeiaValue>,
}

pub struct FrameView {
    pub return_address: int,
    pub locals: Seq<Value>,
}

impl View for StackFrame {
    type V = FrameView;

    closed spec fn view(&self) -> FrameView {
        FrameView {
            return_address: self.return_address as int,
            locals: self.locals@.map_values(|v: LeiaValue| v@),
        }
    }
}

/// The machine state: program counter, operand stack and frames.
pub struct MachineState {
    pub pc: int,
    pub stack: Seq<Value>,
    pub frames: Seq<FrameView>,
}

/// A failed instruction: why, and at which instruction index.
#[derive(Clone, Copy, Debug, PartialEq, Eq, Structural)]
pub struct VmError {
    pub kind: ErrorKind,
    pub at: usize,
}

/// What a step did besides changing the state.
#[derive(Debug, PartialEq, Clone)]
pub enum Event {
    /// Nothing more.
    Continue,
    /// `Print` popped this value.
    Output(LeiaValue),
    /// A binary operation on two floats, given by their bit patterns, was
    /// popped; its result is the host's to push.
    Float(BinOp, u32, u32),
    /// `Halt` on an empty stack: the program is over.
    Halted,
    /// The program counter is past the last instruction: the program is over.
    Finished,
}

pub enum EventView {
    Continue,
    Output(Value),
    Float(BinOp, u32, u32),
    Halted,
    Finished,
}

impl View for Event {
    type V = EventView;

    open spec fn view(&self) -> EventView {
        match self {
            Event::Continue => EventView::Continue,
            Event::Output(v) => EventView::Output(v@),
            Event::Float(op, x, y) => EventView::Float(*op, *x, *y),
            Event::Halted => EventView::Halted,
            Event::Finished => EventView::Finished,
        }
    }
}

/// The machine that runs one program.
pub struct VM {
    pc: usize,
    program: Program,
    stack: Vec<LeiaValue>,
    call_stack: Vec<StackFrame>,
}

pub open spec fn binop_of(op: Opcode) -> Option<BinOp> {
    match op {
        Opcode::Add => Some(BinOp::Add),
        Opcode::Subtract => Some(BinOp::Sub),
        Opcode::Multiply => Some(BinOp::Mul),
        Opcode::Divide => Some(BinOp::Div),
        Opcode::Modulo => Some(BinOp::Mod),
        Opcode::Equals => Some(BinOp::Eq),
        Opcode::NotEqual => Some(BinOp::Ne),
        Opcode::GreaterThan => Some(BinOp::Gt),
        Opcode::GreaterThanEqual => Some(BinOp::Ge),
        Opcode::LessThan => Some(BinOp::Lt),
        Opcode::LessThanEqual => Some(BinOp::Le),
        _ => None,
    }
}

/// The local slots of the current frame.
pub open spec fn top_locals(s: MachineState) -> Seq<Value> {
    s.frames.last().locals
}

/// `s` with the current frame's local slots replaced by `locals`.
pub open spec fn with_locals(s: MachineState, locals: Seq<Value>) -> MachineState {
    MachineState {
        frames: s.frames.update(
            s.frames.len() - 1,
            FrameView { return_address: s.frames.last().return_address, locals },
        ),
        ..s
    }
}

/// `s` moved on to the next instruction.
pub open spec fn advance(s: MachineState) -> MachineState {
    MachineState { pc: s.pc + 1, ..s }
}

pub open spec fn fail(s: MachineState, kind: ErrorKind) -> Result<
    (MachineState, EventView),
    VmError,
> {
    Err(VmError { kind, at: s.pc as usize })
}

pub open spec fn go(s: MachineState) -> Result<(MachineState, EventView), VmError> {
    Ok((s, EventView::Continue))
}

/// One step of program `p` from state `s`: the next state and the event,
/// or the error and the index of the instruction that failed.
pub open spec fn step_spec(p: ProgramView, s: MachineState) -> Result<
    (MachineState, EventView),
    VmError,
> {
    if s.pc < 0 || s.pc >= p.code.len() {
        Ok((s, EventView::Finished))
    } else {
        let n = s.stack.len();
        match p.code[s.pc] {
            Opcode::Push(i) => if i.0 >= p.constants.len() {
                fail(s, ErrorKind::ConstantOutOfRange)
            } else {
                go(advance(MachineState { stack: s.stack.push(p.constants[i.0 as int]), ..s }))
            },
            Opcode::Pop => if n == 0 {
                fail(s, ErrorKind::StackUnderflow)
            } else {
                go(advance(MachineState { stack: s.stack.drop_last(), ..s }))
            },
            Opcode::Jump(a) => go(MachineState { pc: a as int, ..s }),
            Opcode::JumpIfZero(a) => if n == 0 {
                fail(s, ErrorKind::StackUnderflow)
            } else {
                match s.stack.last() {
                    Value::Int(x) => if x == 0 {
                        go(MachineState { pc: a as int, ..s })
                    } else {
                        go(advance(s))
                    },
                    _ => fail(s, ErrorKind::InvalidCondition),
                }
            },
            Opcode::JumpIfNotZero(a) => if n == 0 {
                fail(s, ErrorKind::StackUnderflow)
            } else {
                match s.stack.last() {
                    Value::Int(x) => if x != 0 {
                        go(MachineState { pc: a as int, ..s })
                    } else {
                        go(advance(s))
                    },
                    _ => fail(s, ErrorKind::InvalidCondition),
                }
            },
            Opcode::LoadLocal(i) => if i >= top_locals(s).len() {
                fail(s, ErrorKind::LocalOutOfRange)
            } else {
                go(advance(MachineState { stack: s.stack.push(top_locals(s)[i as int]), ..s }))
            },
            Opcode::StoreLocal(i) => if n == 0 {
                fail(s, ErrorKind::StackUnderflow)
            } else if i > top_locals(s).len() {
                fail(s, ErrorKind::LocalOutOfRange)
            } else {
                let popped = MachineState { stack: s.stack.drop_last(), ..s };
                let locals = if i == top_locals(s).len() {
                    top_locals(s).push(s.stack.last())
                } else {
                    top_locals(s).update(i as int, s.stack.last())
                };
                go(advance(with_locals(popped, locals)))
            },
            Opcode::Increment(i) => if i >= top_locals(s).len() {
                fail(s, ErrorKind::LocalOutOfRange)
            } else {
                match top_locals(s)[i as int] {
                    Value::Int(x) => if x == i32::MAX {
                        fail(s, ErrorKind::Overflow)
                    } else {
                        go(
                            advance(
                                with_locals(
                                    s,
                                    top_locals(s).update(i as int, Value::Int((x + 1) as i32)),
                                ),
                            ),
                        )
                    },
                    _ => fail(s, ErrorKind::NotAnInt),
                }
            },
            Opcode::Print => if n == 0 {
                fail(s, ErrorKind::StackUnderflow)
            } else {
                Ok(
                    (
                        advance(MachineState { stack: s.stack.drop_last(), ..s }),
                        EventView::Output(s.stack.last()),
                    ),
                )
            },
            Opcode::Halt => if n != 0 {
                fail(s, ErrorKind::StackNotEmpty)
            } else {
                Ok((s, EventView::Halted))
            },
            Opcode::Call(a) => go(
                MachineState {
                    pc: a as int,
                    frames: s.frames.push(FrameView { return_address: s.pc, locals: Seq::empty() }),
                    ..s
                },
            ),
            Opcode::Return => if s.frames.len() <= 1 {
                fail(s, ErrorKind::ReturnWithoutCall)
            } else {
                go(
                    MachineState {
                        pc: s.frames.last().return_address + 1,
                        frames: s.frames.drop_last(),
                        ..s
                    },
                )
            },
            other => {
                let op = binop_of(other)->Some_0;
                if n < 2 {
                    fail(s, ErrorKind::StackUnderflow)
                } else {
                    let rest = s.stack.drop_last().drop_last();
                    match binary_spec(op, s.stack[n - 2], s.stack[n - 1]) {
                        Err(kind) => fail(s, kind),
                        Ok(Evaluation::Int(x)) => go(
                            advance(MachineState { stack: rest.push(Value::Int(x)), ..s }),
                        ),
                        Ok(Evaluation::Float(o, x, y)) => Ok(
                            (
                                advance(MachineState { stack: rest, ..s }),
                                EventView::Float(o, x, y),
                            ),
                        ),
                    }
                }
            },
        }
    }
}

impl View for VM {
    type V = MachineState;

    closed spec fn view(&self) -> MachineState {
        MachineState {
            pc: self.pc as int,
            stack: self.stack@.map_values(|v: LeiaValue| v@),
            frames: self.call_stack@.map_values(|f: StackFrame| f@),
        }
    }
}

impl VM {
    /// The program this machine runs.
    pub closed spec fn program_view(&self) -> ProgramView {
        self.program@
    }

    /// The machine is well formed: it has a frame, and the frames above the
    /// first were entered from instructions of the program.
    pub closed spec fn wf(&self) -> bool {
        &&& self.call_stack@.len() >= 1
        &&& forall|k: int|
            1 <= k < self.call_stack@.len() ==> (#[trigger] self.call_stack@[k]).return_address
                < self.program.code@.len()
    }

    /// A machine at the start of `program`, with one empty frame.
    pub fn new(program: Program) -> (r: VM)
        ensures
            r.wf(),
            r.program_view() == program@,
            r@.pc == program.entry,
            r@.stack.len() == 0,
            r@.frames == seq![FrameView { return_address: 0, locals: Seq::empty() }],
    {
        let frame = StackFrame { return_address: 0, locals: Vec::new() };
        let mut call_stack: Vec<StackFrame> = Vec::new();
        call_stack.push(frame);
        let r = VM { pc: program.entry, program, stack: Vec::new(), call_stack };
        assert(r@.stack =~= Seq::<Value>::empty());
        assert(frame@.locals =~= Seq::<Value>::empty());
        assert(r@.frames =~= seq![FrameView { return_address: 0, locals: Seq::empty() }]);
        r
    }

    /// The index of the next instruction.
    pub fn pc(&self) -> (r: usize)
        ensures
            r == self@.pc,
    {
        self.pc
    }

    /// The operand stack, bottom first.
    pub fn stack(&self) -> (r: &Vec<LeiaValue>)
        ensures
            r@.map_values(|v: LeiaValue| v@) == self@.stack,
    {
        &self.stack
    }

    /// Pushes the host's result of a float operation that a step handed out.
    pub fn push_result(&mut self, v: LeiaValue)
        requires
            old(self).wf(),
        ensures
            final(self).wf(),
            final(self).program_view() == old(self).program_view(),
            final(self)@ == (MachineState { stack: old(self)@.stack.push(v@), ..old(self)@ }),
    {
        let ghost before = self.stack@.map_values(|x: LeiaValue| x@);
        self.stack.push(v);
        assert(self.stack@.map_values(|x: LeiaValue| x@) =~= before.push(v@));
    }
}

fn binop_exec(op: Opcode) -> (r: Option<BinOp>)
    ensures
        r == binop_of(op),
{
    match op {
        Opcode::Add => Some(BinOp::Add),
        Opcode::Subtract => Some(BinOp::Sub),
        Opcode::Multiply => Some(BinOp::Mul),
        Opcode::Divide => Some(BinOp::Div),
        Opcode::Modulo => Some(BinOp::Mod),
        Opcode::Equals => Some(BinOp::Eq),
        Opcode::NotEqual => Some(BinOp::Ne),
        Opcode::GreaterThan => Some(BinOp::Gt),
        Opcode::GreaterThanEqual => Some(BinOp::Ge),
        Opcode::LessThan => Some(BinOp::Lt),
        Opcode::LessThanEqual => Some(BinOp::Le),
        _ => None,
    }
}

impl VM {
    fn stack_push(&mut self, v: LeiaValue)
        ensures
            final(self).pc == old(self).pc,
            final(self).program == old(self).program,
            final(self).call_stack == old(self).call_stack,
            final(self)@.stack == old(self)@.stack.push(v@),
    {
        let ghost before = self.stack@.map_values(|x: LeiaValue| x@);
        self.stack.push(v);
        assert(self.stack@.map_values(|x: LeiaValue| x@) =~= before.push(v@));
    }

    fn stack_pop(&mut self) -> (r: LeiaValue)
        requires
            old(self).stack@.len() > 0,
        ensures
            final(self).pc == old(self).pc,
            final(self).program == old(self).program,
            final(self).call_stack == old(self).call_stack,
            final(self)@.stack == old(self)@.stack.drop_last(),
            r@ == old(self)@.stack.last(),
    {
        let ghost before = self.stack@.map_values(|x: LeiaValue| x@);
        let r = self.stack.pop().unwrap();
        assert(self.stack@.map_values(|x: LeiaValue| x@) =~= before.drop_last());
        r
    }

    /// Takes the current frame off the call stack.
    fn take_frame(&mut self) -> (r: StackFrame)
        requires
            old(self).wf(),
        ensures
            final(self).pc == old(self).pc,
            final(self).program == old(self).program,
            final(self).stack == old(self).stack,
            final(self).call_stack@ == old(self).call_stack@.drop_last(),
            r == old(self).call_stack@.last(),
            r@ == old(self)@.frames.last(),
    {
        self.call_stack.pop().unwrap()
    }

    fn put_frame(&mut self, f: StackFrame)
        ensures
            final(self).pc == old(self).pc,
            final(self).program == old(self).program,
            final(self).stack == old(self).stack,
            final(self).call_stack@ == old(self).call_stack@.push(f),
    {
        self.call_stack.push(f);
    }

    /// Carries out the instruction at the program counter. On an error the
    /// machine is left as it was.
    pub fn step(&mut self) -> (r: Result<Event, VmError>)
        requires
            old(self).wf(),
        ensures
            final(self).wf(),
            final(self).program_view() == old(self).program_view(),
            match step_spec(old(self).program_view(), old(self)@) {
                Ok((s, ev)) => r matches Ok(e) && e@ == ev && final(self)@ == s,
                Err(err) => r == Err::<Event, VmError>(err) && final(self)@ == old(self)@,
            },
    {
        let pc = self.pc;
        if pc >= self.program.code.len() {
            return Ok(Event::Finished);
        }
        let ghost s = self@;
        let ghost frames = self.call_stack@;
        let op = self.program.code[pc];
        let n = self.stack.len();
        assert(s.stack.len() == n);
        match op {
            Opcode::Push(i) => {
                let idx = i.0 as usize;
                if idx >= self.program.constants.len() {
                    return Err(VmError { kind: ErrorKind::ConstantOutOfRange, at: pc });
                }
                let v = LeiaValue::from_constant(&self.program.constants[idx]);
                self.stack_push(v);
                self.pc = pc + 1;
                Ok(Event::Continue)
            },
            Opcode::Pop => {
                if n == 0 {
                    return Err(VmError { kind: ErrorKind::StackUnderflow, at: pc });
                }
                self.stack_pop();
                self.pc = pc + 1;
                Ok(Event::Continue)
            },
            Opcode::Jump(a) => {
                self.pc = a;
                Ok(Event::Continue)
            },
            Opcode::JumpIfZero(a) => {
                if n == 0 {
                    return Err(VmError { kind: ErrorKind::StackUnderflow, at: pc });
                }
                match &self.stack[n - 1] {
                    LeiaValue::Int(x) => {
                        if *x == 0 {
                            self.pc = a;
                        } else {
                            self.pc = pc + 1;
                        }
                        Ok(Event::Continue)
                    },
                    _ => Err(VmError { kind: ErrorKind::InvalidCondition, at: pc }),
                }
            },
            Opcode::JumpIfNotZero(a) => {
                if n == 0 {
                    return Err(VmError { kind: ErrorKind::StackUnderflow, at: pc });
                }
                match &self.stack[n - 1] {
                    LeiaValue::Int(x) => {
                        if *x != 0 {
                            self.pc = a;
                        } else {
                            self.pc = pc + 1;
                        }
                        Ok(Event::Continue)
                    },
                    _ => Err(VmError { kind: ErrorKind::InvalidCondition, at: pc }),
                }
            },
            Opcode::LoadLocal(i) => {
                let top = self.call_stack.len() - 1;
                if i >= self.call_stack[top].locals.len() {
                    return Err(VmError { kind: ErrorKind::LocalOutOfRange, at: pc });
                }
                let v = self.call_stack[top].locals[i].duplicate();
                self.stack_push(v);
                self.pc = pc + 1;
                Ok(Event::Continue)
            },
            Opcode::StoreLocal(i) => {
                if n == 0 {
                    return Err(VmError { kind: ErrorKind::StackUnderflow, at: pc });
                }
                let top = self.call_stack.len() - 1;
                let count = self.call_stack[top].locals.len();
                if i > count {
                    return Err(VmError { kind: ErrorKind::LocalOutOfRange, at: pc });
                }
                let v = self.stack_pop();
                let mut frame = self.take_frame();
                let ghost before = frame@.locals;
                if i == count {
                    frame.locals.push(v);
                    assert(frame@.locals =~= before.push(v@));
                } else {
                    frame.locals.set(i, v);
                    assert(frame@.locals =~= before.update(i as int, v@));
                }
                self.put_frame(frame);
                self.pc = pc + 1;
                assert(self@.frames =~= s.frames.update(
                    s.frames.len() - 1,
                    FrameView { return_address: s.frames.last().return_address, locals: frame@.locals },
                ));
                Ok(Event::Continue)
            },
            Opcode::Increment(i) => {
                let top = self.call_stack.len() - 1;
                if i >= self.call_stack[top].locals.len() {
                    return Err(VmError { kind: ErrorKind::LocalOutOfRange, at: pc });
                }
                let x = match &self.call_stack[top].locals[i] {
                    LeiaValue::Int(x) => *x,
                    _ => {
                        return Err(VmError { kind: ErrorKind::NotAnInt, at: pc });
                    },
                };
                if x == i32::MAX {
                    return Err(VmError { kind: ErrorKind::Overflow, at: pc });
                }
                let mut frame = self.take_frame();
                let ghost before = frame@.locals;
                frame.locals.set(i, LeiaValue::Int(x + 1));
                assert(frame@.locals =~= before.update(i as int, Value::Int((x + 1) as i32)));
                self.put_frame(frame);
                self.pc = pc + 1;
                assert(self@.frames =~= s.frames.update(
                    s.frames.len() - 1,
                    FrameView { return_address: s.frames.last().return_address, locals: frame@.locals },
                ));
                Ok(Event::Continue)
            },
            Opcode::Print => {
                if n == 0 {
                    return Err(VmError { kind: ErrorKind::StackUnderflow, at: pc });
                }
                let v = self.stack_pop();
                self.pc = pc + 1;
                Ok(Event::Output(v))
            },
            Opcode::Halt => {
                if n != 0 {
                    return Err(VmError { kind: ErrorKind::StackNotEmpty, at: pc });
                }
                Ok(Event::Halted)
            },
            Opcode::Call(a) => {
                let frame = StackFrame { return_address: pc, locals: Vec::new() };
                assert(frame@.locals =~= Seq::<Value>::empty());
                self.put_frame(frame);
                self.pc = a;
                assert(self.call_stack@ == frames.push(frame));
                assert(self@.frames =~= s.frames.push(
                    FrameView { return_address: pc as int, locals: Seq::empty() },
                ));
                Ok(Event::Continue)
            },
            Opcode::Return => {
                if self.call_stack.len() <= 1 {
                    return Err(VmError { kind: ErrorKind::ReturnWithoutCall, at: pc });
                }
                let frame = self.take_frame();
                assert(frames[frames.len() - 1].return_address < self.program.code@.len());
                self.pc = frame.return_address + 1;
                assert(self@.frames =~= s.frames.drop_last());
                Ok(Event::Continue)
            },
            _ => {
                let bop = binop_exec(op).unwrap();
                if n < 2 {
                    return Err(VmError { kind: ErrorKind::StackUnderflow, at: pc });
                }
                match self.stack[n - 2].binary(bop, &self.stack[n - 1]) {
                    Err(kind) => Err(VmError { kind, at: pc }),
                    Ok(Evaluation::Int(x)) => {
                        self.stack_pop();
                        self.stack_pop();
                        self.stack_push(LeiaValue::Int(x));
                        self.pc = pc + 1;
                        Ok(Event::Continue)
                    },
                    Ok(Evaluation::Float(o, x, y)) => {
                        self.stack_pop();
                        self.stack_pop();
                        self.pc = pc + 1;
                        Ok(Event::Float(o, x, y))
                    },
                }
            },
        }
    }
}

/// How a run ended.
#[derive(Clone, Copy, Debug, PartialEq, Eq, Structural)]
pub enum Stop {
    /// `Halt` on an empty stack.
    Halted,
    /// The program counter went past the last instruction.
    Finished,
    /// A float operation was handed out: the host pushes its result with
    /// `push_result` and runs on.
    Float(BinOp, u32, u32),
    /// The step budget was used up.
    OutOfSteps,
}

/// What a run of at most some number of steps produced.
pub struct RunView {
    pub outputs: Seq<Value>,
    pub state: MachineState,
    pub end: Result<Stop, VmError>,
}

/// At most `fuel` steps of `p` from `s`: the values printed in order, the
/// state reached and how the run ended. A failing step leaves the state as
/// it was.
pub open spec fn run_spec(p: ProgramView, s: MachineState, fuel: nat) -> RunView
    decreases fuel,
{
    if fuel == 0 {
        RunView { outputs: Seq::empty(), state: s, end: Ok(Stop::OutOfSteps) }
    } else {
        match step_spec(p, s) {
            Err(e) => RunView { outputs: Seq::empty(), state: s, end: Err(e) },
            Ok((next, ev)) => match ev {
                EventView::Continue => run_spec(p, next, (fuel - 1) as nat),
                EventView::Output(v) => {
                    let rest = run_spec(p, next, (fuel - 1) as nat);
                    RunView { outputs: seq![v] + rest.outputs, ..rest }
                },
                EventView::Float(op, x, y) => RunView {
                    outputs: Seq::empty(),
                    state: next,
                    end: Ok(Stop::Float(op, x, y)),
                },
                EventView::Halted => RunView {
                    outputs: Seq::empty(),
                    state: next,
                    end: Ok(Stop::Halted),
                },
                EventView::Finished => RunView {
                    outputs: Seq::empty(),
                    state: next,
                    end: Ok(Stop::Finished),
                },
            },
        }
    }
}

pub open spec fn after_outputs(o: Seq<Value>, r: RunView) -> RunView {
    RunView { outputs: o + r.outputs, ..r }
}

impl VM {
    /// Runs at most `max_steps` instructions and returns the values printed,
    /// in order, with how the run ended.
    pub fn run(&mut self, max_steps: u64) -> (r: (Vec<LeiaValue>, Result<Stop, VmError>))
        requires
            old(self).wf(),
        ensures
            final(self).wf(),
            final(self).program_view() == old(self).program_view(),
            ({
                let rv = run_spec(old(self).program_view(), old(self)@, max_steps as nat);
                &&& r.0@.map_values(|v: LeiaValue| v@) == rv.outputs
                &&& r.1 == rv.end
                &&& final(self)@ == rv.state
            }),
    {
        let ghost p = self.program_view();
        let ghost whole = run_spec(p, self@, max_steps as nat);
        let mut outputs: Vec<LeiaValue> = Vec::new();
        let mut fuel = max_steps;
        assert(after_outputs(Seq::empty(), whole).outputs =~= whole.outputs);
        loop
            invariant
                self.wf(),
                self.program_view() == p,
                p == old(self).program_view(),
                whole == run_spec(p, old(self)@, max_steps as nat),
                whole == after_outputs(
                    outputs@.map_values(|v: LeiaValue| v@),
                    run_spec(p, self@, fuel as nat),
                ),
            decreases fuel,
        {
            let ghost o = outputs@.map_values(|v: LeiaValue| v@);
            if fuel == 0 {
                assert(o + Seq::<Value>::empty() =~= o);
                return (outputs, Ok(Stop::OutOfSteps));
            }
            match self.step() {
                Err(e) => {
                    assert(o + Seq::<Value>::empty() =~= o);
                    return (outputs, Err(e));
                },
                Ok(Event::Continue) => {},
                Ok(Event::Output(v)) => {
                    let ghost rest = run_spec(p, self@, (fuel - 1) as nat);
                    outputs.push(v);
                    assert(outputs@.map_values(|v: LeiaValue| v@) =~= o.push(v@));
                    assert(o + (seq![v@] + rest.outputs) =~= o.push(v@) + rest.outputs);
                },
                Ok(Event::Float(op, x, y)) => {
                    assert(o + Seq::<Value>::empty() =~= o);
                    return (outputs, Ok(Stop::Float(op, x, y)));
                },
                Ok(Event::Halted) => {
                    assert(o + Seq::<Value>::empty() =~= o);
                    return (outputs, Ok(Stop::Halted));
                },
                Ok(Event::Finished) => {
                    assert(o + Seq::<Value>::empty() =~= o);
                    return (outputs, Ok(Stop::Finished));
                },
            }
            fuel = fuel - 1;
        }
    }
}

/// `Halt` ends the program only on an empty operand stack; on a non-empty
/// one it fails with `StackNotEmpty` and changes nothing.
pub proof fn lemma_halt_needs_empty_stack(p: ProgramView, s: MachineState)
    requires
        0 <= s.pc < p.code.len(),
        p.code[s.pc] == Opcode::Halt,
    ensures
        s.stack.len() == 0 ==> step_spec(p, s) == Ok::<(MachineState, EventView), VmError>(
            (s, EventView::Halted),
        ),
        s.stack.len() > 0 ==> step_spec(p, s) == fail(s, ErrorKind::StackNotEmpty),
{
}

/// Every run that ends in `Halt` ends with an empty operand stack.
pub proof fn lemma_halted_run_has_empty_stack(p: ProgramView, s: MachineState, fuel: nat)
    ensures
        run_spec(p, s, fuel).end == Ok::<Stop, VmError>(Stop::Halted) ==> run_spec(
            p,
            s,
            fuel,
        ).state.stack.len() == 0,
    decreases fuel,
{
    if fuel > 0 {
        if let Ok((next, ev)) = step_spec(p, s) {
            if ev is Halted {
                if 0 <= s.pc < p.code.len() {
                    assert(p.code[s.pc] == Opcode::Halt);
                }
            }
            lemma_halted_run_has_empty_stack(p, next, (fuel - 1) as nat);
        }
    }
}

/// A binary instruction takes the two top values `a` (below) and `b`: on two
/// integers it pushes the exact result, or fails with `Overflow` or
/// `DivisionByZero`; on two floats it hands the operation out; on any other
/// pair it fails with `TypeMismatch`. Nothing is coerced, and a failure
/// changes nothing.
pub proof fn lemma_binary_instruction(p: ProgramView, s: MachineState)
    requires
        0 <= s.pc < p.code.len(),
        binop_of(p.code[s.pc]) is Some,
        s.stack.len() >= 2,
    ensures
        ({
            let op = binop_of(p.code[s.pc])->Some_0;
            let n = s.stack.len();
            let rest = s.stack.drop_last().drop_last();
            match (s.stack[n - 2], s.stack[n - 1]) {
                (Value::Int(x), Value::Int(y)) => match int_op(op, x as int, y as int) {
                    Ok(m) => if i32::MIN <= m <= i32::MAX {
                        step_spec(p, s) == go(
                            advance(MachineState { stack: rest.push(Value::Int(m as i32)), ..s }),
                        )
                    } else {
                        step_spec(p, s) == fail(s, ErrorKind::Overflow)
                    },
                    Err(e) => step_spec(p, s) == fail(s, e),
                },
                (Value::Float(x), Value::Float(y)) => step_spec(p, s) == Ok::<
                    (MachineState, EventView),
                    VmError,
                >((advance(MachineState { stack: rest, ..s }), EventView::Float(op, x, y))),
                _ => step_spec(p, s) == fail(s, ErrorKind::TypeMismatch),
            }
        }),
{
}

/// `Call` at `s.pc` enters a new frame with no locals whose return address
/// is `s.pc`. A `Return` later run in that frame, with the caller's frames
/// as they were, resumes at the instruction after the `Call` with exactly
/// the caller's frames: the callee's locals are gone.
pub proof fn lemma_call_return(p: ProgramView, s: MachineState, t: MachineState)
    requires
        0 <= s.pc < p.code.len(),
        p.code[s.pc] is Call,
        s.frames.len() >= 1,
        t.frames.len() == s.frames.len() + 1,
        t.frames.drop_last() == s.frames,
        t.frames.last().return_address == s.pc,
        0 <= t.pc < p.code.len(),
        p.code[t.pc] == Opcode::Return,
    ensures
        step_spec(p, s) == go(
            MachineState {
                pc: p.code[s.pc]->Call_0 as int,
                frames: s.frames.push(FrameView { return_address: s.pc, locals: Seq::empty() }),
                ..s
            },
        ),
        step_spec(p, t) == go(MachineState { pc: s.pc + 1, stack: t.stack, frames: s.frames }),
{
}

/// A step keeps the `d` frames below frame `d`, and the return address of
/// frame `d`, unless it is the `Return` that leaves frame `d`.
pub proof fn lemma_step_keeps_frames_below(p: ProgramView, u: MachineState, d: int)
    requires
        0 <= d < u.frames.len(),
        step_spec(p, u) is Ok,
        !(0 <= u.pc < p.code.len() && p.code[u.pc] == Opcode::Return && u.frames.len() == d + 1),
    ensures
        ({
            let t = step_spec(p, u)->Ok_0.0;
            &&& d < t.frames.len()
            &&& t.frames.take(d) == u.frames.take(d)
            &&& t.frames[d].return_address == u.frames[d].return_address
        }),
{
    let t = step_spec(p, u)->Ok_0.0;
    if 0 <= u.pc < p.code.len() {
        match p.code[u.pc] {
            Opcode::StoreLocal(_) | Opcode::Increment(_) => {
                assert(t.frames.take(d) =~= u.frames.take(d));
            },
            Opcode::Call(_) => {
                assert(t.frames.take(d) =~= u.frames.take(d));
            },
            Opcode::Return => {
                assert(t.frames.take(d) =~= u.frames.take(d));
            },
            _ => {},
        }
    }
}

/// Runs from `u` for at most `fuel` steps, until the `Return` that leaves
/// frame `d`: the state right after it. `None` when no such `Return` comes
/// first, or the run fails, ends or hands out a float operation before it.
pub open spec fn return_from(p: ProgramView, u: MachineState, d: int, fuel: nat) -> Option<
    MachineState,
>
    decreases fuel,
{
    if fuel == 0 {
        None
    } else {
        match step_spec(p, u) {
            Err(_) => None,
            Ok((t, ev)) => if 0 <= u.pc < p.code.len() && p.code[u.pc] == Opcode::Return
                && u.frames.len() == d + 1 {
                Some(t)
            } else if ev is Continue || ev is Output {
                return_from(p, t, d, (fuel - 1) as nat)
            } else {
                None
            },
        }
    }
}

proof fn lemma_return_from_frames(
    p: ProgramView,
    u: MachineState,
    d: int,
    fuel: nat,
    below: Seq<FrameView>,
    ret: int,
)
    requires
        0 <= d < u.frames.len(),
        u.frames.take(d) == below,
        below.len() == d,
        u.frames[d].return_address == ret,
        return_from(p, u, d, fuel) is Some,
    ensures
        return_from(p, u, d, fuel)->Some_0 == (MachineState {
            pc: ret + 1,
            stack: return_from(p, u, d, fuel)->Some_0.stack,
            frames: below,
        }),
    decreases fuel,
{
    let t = step_spec(p, u)->Ok_0.0;
    if 0 <= u.pc < p.code.len() && p.code[u.pc] == Opcode::Return && u.frames.len() == d + 1 {
        assert(u.frames.drop_last() =~= below);
    } else {
        lemma_step_keeps_frames_below(p, u, d);
        lemma_return_from_frames(p, t, d, (fuel - 1) as nat, below, ret);
    }
}

/// Call and return match up over a whole run: after the `Call` at `s.pc`,
/// the first `Return` that leaves the callee's frame, however many calls and
/// returns come between, resumes at `s.pc + 1` with exactly the frames that
/// `s` had. The callee's locals are gone, and the caller's are as they were.
pub proof fn lemma_call_return_run(p: ProgramView, s: MachineState, fuel: nat)
    requires
        0 <= s.pc < p.code.len(),
        p.code[s.pc] is Call,
        return_from(p, step_spec(p, s)->Ok_0.0, s.frames.len() as int, fuel) is Some,
    ensures
        ({
            let after = return_from(p, step_spec(p, s)->Ok_0.0, s.frames.len() as int, fuel)->Some_0;
            &&& after.pc == s.pc + 1
            &&& after.frames == s.frames
        }),
{
    let c = step_spec(p, s)->Ok_0.0;
    assert(c.frames.take(s.frames.len() as int) =~= s.frames);
    lemma_return_from_frames(p, c, s.frames.len() as int, fuel, s.frames, s.pc);
}

} // verus!
