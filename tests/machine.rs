use leia_vm::instruction::{
    int_binary_exec, BinOp, ConstantIndex, ConstantValue, ErrorKind, Evaluation, LeiaValue,
    Opcode, Program,
};
use leia_vm::vm::{Event, Stop, VmError, VM};

fn program(code: Vec<Opcode>, constants: Vec<ConstantValue>) -> Program {
    Program { entry: 0, code, constants }
}

fn ints(values: &[i32]) -> Vec<ConstantValue> {
    values.iter().map(|v| ConstantValue::Int(*v)).collect()
}

fn strs(values: &[&str]) -> Vec<ConstantValue> {
    values.iter().map(|v| ConstantValue::Str(v.to_string())).collect()
}

#[test]
fn push_add_print_gives_three() {
    let code = vec![
        Opcode::Push(ConstantIndex(0)),
        Opcode::Push(ConstantIndex(1)),
        Opcode::Add,
        Opcode::Print,
        Opcode::Halt,
    ];
    let mut vm = VM::new(program(code, ints(&[1, 2])));
    let (out, end) = vm.run(100);
    assert_eq!(vec![LeiaValue::Int(3)], out);
    assert_eq!(Ok(Stop::Halted), end);
    assert!(vm.stack().is_empty());
}

#[test]
fn adding_two_strings_is_a_type_mismatch() {
    let code = vec![
        Opcode::Push(ConstantIndex(0)),
        Opcode::Push(ConstantIndex(1)),
        Opcode::Add,
        Opcode::Halt,
    ];
    let mut vm = VM::new(program(code, strs(&["a", "b"])));
    let (out, end) = vm.run(100);
    assert!(out.is_empty());
    assert_eq!(Err(VmError { kind: ErrorKind::TypeMismatch, at: 2 }), end);
    assert_eq!(2, vm.stack().len());
}

#[test]
fn jump_if_zero_on_a_string_keeps_it_on_top() {
    let code = vec![Opcode::Push(ConstantIndex(0)), Opcode::JumpIfZero(0), Opcode::Halt];
    let mut vm = VM::new(program(code, strs(&["x"])));
    let (_, end) = vm.run(100);
    assert_eq!(Err(VmError { kind: ErrorKind::InvalidCondition, at: 1 }), end);
    assert_eq!(&vec![LeiaValue::Str("x".to_string())], vm.stack());
}

#[test]
fn halt_with_a_value_left_fails() {
    let code = vec![Opcode::Push(ConstantIndex(0)), Opcode::Halt];
    let mut vm = VM::new(program(code, ints(&[7])));
    let (_, end) = vm.run(100);
    assert_eq!(Err(VmError { kind: ErrorKind::StackNotEmpty, at: 1 }), end);
}

#[test]
fn running_past_the_end_finishes() {
    let code = vec![Opcode::Push(ConstantIndex(0)), Opcode::Pop];
    let mut vm = VM::new(program(code, ints(&[7])));
    assert_eq!((vec![], Ok(Stop::Finished)), vm.run(100));
    assert_eq!(2, vm.pc());
}

#[test]
fn conditional_jumps_do_not_pop() {
    let code = vec![
        Opcode::Push(ConstantIndex(0)),
        Opcode::JumpIfZero(3),
        Opcode::Halt,
        Opcode::JumpIfNotZero(0),
        Opcode::Print,
        Opcode::Halt,
    ];
    let mut vm = VM::new(program(code, ints(&[0])));
    let (out, end) = vm.run(100);
    assert_eq!(vec![LeiaValue::Int(0)], out);
    assert_eq!(Ok(Stop::Halted), end);
}

#[test]
fn call_and_return_resume_after_the_call() {
    let code = vec![
        Opcode::Push(ConstantIndex(0)),
        Opcode::StoreLocal(0),
        Opcode::Call(6),
        Opcode::LoadLocal(0),
        Opcode::Print,
        Opcode::Halt,
        Opcode::Push(ConstantIndex(1)),
        Opcode::StoreLocal(0),
        Opcode::Return,
    ];
    let mut vm = VM::new(program(code, ints(&[10, 20])));
    assert_eq!(Ok(Event::Continue), vm.step());
    assert_eq!(Ok(Event::Continue), vm.step());
    assert_eq!(Ok(Event::Continue), vm.step());
    assert_eq!(6, vm.pc());
    for _ in 0..3 {
        assert_eq!(Ok(Event::Continue), vm.step());
    }
    assert_eq!(3, vm.pc());
    let (out, end) = vm.run(100);
    assert_eq!(vec![LeiaValue::Int(10)], out);
    assert_eq!(Ok(Stop::Halted), end);
}

#[test]
fn callee_does_not_see_caller_locals() {
    let code = vec![
        Opcode::Push(ConstantIndex(0)),
        Opcode::StoreLocal(0),
        Opcode::Call(3),
        Opcode::LoadLocal(0),
    ];
    let mut vm = VM::new(program(code, ints(&[10])));
    let (_, end) = vm.run(100);
    assert_eq!(Err(VmError { kind: ErrorKind::LocalOutOfRange, at: 3 }), end);
}

#[test]
fn return_at_top_level_fails() {
    let mut vm = VM::new(program(vec![Opcode::Return], vec![]));
    assert_eq!(Err(VmError { kind: ErrorKind::ReturnWithoutCall, at: 0 }), vm.step());
}

#[test]
fn store_local_past_the_next_slot_fails() {
    let code = vec![Opcode::Push(ConstantIndex(0)), Opcode::StoreLocal(1)];
    let mut vm = VM::new(program(code, ints(&[1])));
    let (_, end) = vm.run(100);
    assert_eq!(Err(VmError { kind: ErrorKind::LocalOutOfRange, at: 1 }), end);
    assert_eq!(1, vm.stack().len());
}

#[test]
fn store_local_overwrites_and_increment_adds_one() {
    let code = vec![
        Opcode::Push(ConstantIndex(0)),
        Opcode::StoreLocal(0),
        Opcode::Push(ConstantIndex(1)),
        Opcode::StoreLocal(0),
        Opcode::Increment(0),
        Opcode::LoadLocal(0),
        Opcode::Print,
        Opcode::Halt,
    ];
    let mut vm = VM::new(program(code, ints(&[5, 41])));
    assert_eq!((vec![LeiaValue::Int(42)], Ok(Stop::Halted)), vm.run(100));
}

#[test]
fn increment_of_a_string_fails() {
    let code = vec![Opcode::Push(ConstantIndex(0)), Opcode::StoreLocal(0), Opcode::Increment(0)];
    let mut vm = VM::new(program(code, strs(&["s"])));
    let (_, end) = vm.run(100);
    assert_eq!(Err(VmError { kind: ErrorKind::NotAnInt, at: 2 }), end);
}

#[test]
fn increment_at_the_largest_int_overflows() {
    let code = vec![Opcode::Push(ConstantIndex(0)), Opcode::StoreLocal(0), Opcode::Increment(0)];
    let mut vm = VM::new(program(code, ints(&[i32::MAX])));
    let (_, end) = vm.run(100);
    assert_eq!(Err(VmError { kind: ErrorKind::Overflow, at: 2 }), end);
}

#[test]
fn push_past_the_pool_fails() {
    let mut vm = VM::new(program(vec![Opcode::Push(ConstantIndex(3))], ints(&[1])));
    assert_eq!(Err(VmError { kind: ErrorKind::ConstantOutOfRange, at: 0 }), vm.step());
}

#[test]
fn pop_and_print_on_empty_stack_underflow() {
    let mut vm = VM::new(program(vec![Opcode::Pop], vec![]));
    assert_eq!(Err(VmError { kind: ErrorKind::StackUnderflow, at: 0 }), vm.step());
    let mut vm = VM::new(program(vec![Opcode::Print], vec![]));
    assert_eq!(Err(VmError { kind: ErrorKind::StackUnderflow, at: 0 }), vm.step());
    let mut vm = VM::new(program(vec![Opcode::Push(ConstantIndex(0)), Opcode::Add], ints(&[1])));
    assert_eq!(Ok(Event::Continue), vm.step());
    assert_eq!(Err(VmError { kind: ErrorKind::StackUnderflow, at: 1 }), vm.step());
}

#[test]
fn not_equal_compares_integers() {
    let code = vec![
        Opcode::Push(ConstantIndex(0)),
        Opcode::Push(ConstantIndex(1)),
        Opcode::NotEqual,
        Opcode::Print,
        Opcode::Halt,
    ];
    let mut vm = VM::new(program(code, ints(&[1, 2])));
    assert_eq!((vec![LeiaValue::Int(1)], Ok(Stop::Halted)), vm.run(100));
}

#[test]
fn float_operation_is_handed_to_the_host() {
    let a = 1.5f32.to_bits();
    let b = 2.0f32.to_bits();
    let code = vec![
        Opcode::Push(ConstantIndex(0)),
        Opcode::Push(ConstantIndex(1)),
        Opcode::Multiply,
        Opcode::Print,
        Opcode::Halt,
    ];
    let constants = vec![ConstantValue::Float(a), ConstantValue::Float(b)];
    let mut vm = VM::new(program(code, constants));
    let (out, end) = vm.run(100);
    assert!(out.is_empty());
    assert_eq!(Ok(Stop::Float(BinOp::Mul, a, b)), end);
    assert!(vm.stack().is_empty());
    vm.push_result(LeiaValue::Float((1.5f32 * 2.0f32).to_bits()));
    let (out, end) = vm.run(100);
    assert_eq!(vec![LeiaValue::Float(3.0f32.to_bits())], out);
    assert_eq!(Ok(Stop::Halted), end);
}

#[test]
fn int_and_float_mix_is_a_type_mismatch() {
    let x = LeiaValue::Int(1);
    let y = LeiaValue::Float(1.0f32.to_bits());
    assert_eq!(Err(ErrorKind::TypeMismatch), x.binary(BinOp::Add, &y));
    assert_eq!(Err(ErrorKind::TypeMismatch), y.binary(BinOp::Lt, &x));
    let s = LeiaValue::Str("1".to_string());
    assert_eq!(Err(ErrorKind::TypeMismatch), s.binary(BinOp::Eq, &s));
}

#[test]
fn integer_arithmetic_is_exact() {
    assert_eq!(Ok(7), int_binary_exec(BinOp::Add, 3, 4));
    assert_eq!(Ok(-1), int_binary_exec(BinOp::Sub, 3, 4));
    assert_eq!(Ok(12), int_binary_exec(BinOp::Mul, 3, 4));
    assert_eq!(Ok(-2), int_binary_exec(BinOp::Div, -7, 3));
    assert_eq!(Ok(-1), int_binary_exec(BinOp::Mod, -7, 3));
    assert_eq!(Ok(1), int_binary_exec(BinOp::Mod, 7, -3));
    assert_eq!(Ok(1), int_binary_exec(BinOp::Ge, 4, 4));
    assert_eq!(Ok(0), int_binary_exec(BinOp::Gt, 4, 4));
    assert_eq!(Ok(1), int_binary_exec(BinOp::Le, 3, 4));
    assert_eq!(Ok(0), int_binary_exec(BinOp::Ne, 4, 4));
    let two = LeiaValue::Int(2);
    let five = LeiaValue::Int(5);
    assert_eq!(Ok(Evaluation::Int(2)), five.binary(BinOp::Div, &two));
    assert_eq!(Ok(Evaluation::Int(1)), five.binary(BinOp::Mod, &two));
}

#[test]
fn integer_errors_are_reported() {
    assert_eq!(Err(ErrorKind::Overflow), int_binary_exec(BinOp::Add, i32::MAX, 1));
    assert_eq!(Err(ErrorKind::Overflow), int_binary_exec(BinOp::Mul, 1 << 20, 1 << 12));
    assert_eq!(Err(ErrorKind::Overflow), int_binary_exec(BinOp::Div, i32::MIN, -1));
    assert_eq!(Err(ErrorKind::Overflow), int_binary_exec(BinOp::Mod, i32::MIN, -1));
    assert_eq!(Err(ErrorKind::DivisionByZero), int_binary_exec(BinOp::Div, 1, 0));
    assert_eq!(Err(ErrorKind::DivisionByZero), int_binary_exec(BinOp::Mod, 1, 0));
}

#[test]
fn strings_concatenate_only_through_add_string() {
    let a = LeiaValue::Str("foo".to_string());
    let b = LeiaValue::Str("bär".to_string());
    assert_eq!(Ok(LeiaValue::Str("foobär".to_string())), a.add_string(b));
    let c = LeiaValue::Str("x".to_string());
    assert_eq!(Err(ErrorKind::TypeMismatch), c.add_string(LeiaValue::Int(1)));
}
