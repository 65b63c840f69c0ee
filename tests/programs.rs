use leia_vm::assembler::{constant_texts, parse_assembly};
use leia_vm::instruction::{BinOp, LeiaValue};
use leia_vm::vm::{Stop, VM};

fn float_result(op: BinOp, x: u32, y: u32) -> LeiaValue {
    let a = f32::from_bits(x);
    let b = f32::from_bits(y);
    let truth = |t: bool| LeiaValue::Int(if t { 1 } else { 0 });
    match op {
        BinOp::Add => LeiaValue::Float((a + b).to_bits()),
        BinOp::Sub => LeiaValue::Float((a - b).to_bits()),
        BinOp::Mul => LeiaValue::Float((a * b).to_bits()),
        BinOp::Div => LeiaValue::Float((a / b).to_bits()),
        BinOp::Mod => LeiaValue::Float((a % b).to_bits()),
        BinOp::Eq => truth(a == b),
        BinOp::Ne => truth(a != b),
        BinOp::Gt => truth(a > b),
        BinOp::Ge => truth(a >= b),
        BinOp::Lt => truth(a < b),
        BinOp::Le => truth(a <= b),
    }
}

fn render(v: &LeiaValue) -> String {
    match v {
        LeiaValue::Int(x) => format!("{x}"),
        LeiaValue::Float(x) => format!("{}", f32::from_bits(*x)),
        LeiaValue::Str(s) => s.clone(),
    }
}

fn run_source(text: &str) -> Vec<String> {
    let texts = constant_texts(text).expect("constants");
    let floats: Vec<Option<u32>> = texts
        .iter()
        .map(|t| t.parse::<f32>().ok().map(f32::to_bits))
        .collect();
    let program = parse_assembly(text, &floats).expect("assembles");
    let mut vm = VM::new(program);
    let mut printed = Vec::new();
    loop {
        let (out, end) = vm.run(50_000_000);
        printed.extend(out.iter().map(render));
        match end {
            Ok(Stop::Float(op, x, y)) => vm.push_result(float_result(op, x, y)),
            Ok(Stop::Halted) | Ok(Stop::Finished) => break,
            Ok(Stop::OutOfSteps) => panic!("program did not end"),
            Err(e) => panic!("machine error: {:?}", e),
        }
    }
    printed
}

const ADD: &str = "
; adds two constants
.const a 100
.const b 23
main:
PUSH_CONST 0
PUSH_CONST 1
ADD
PRINT
HALT
";

const FN_TEST: &str = "
.const answer 42
CALL func
PRINT
HALT
.func
PUSH_CONST 0
RET
";

const EULER1: &str = "
.const zero 0
.const limit 1000
.const three 3
.const five 5
PUSH_CONST 0
STORE_LOCAL 0      ; sum
PUSH_CONST 0
STORE_LOCAL 1      ; i
PUSH_CONST 0
STORE_LOCAL 2      ; scratch
.loop
LOAD_LOCAL 1
PUSH_CONST 1
LT
JUMPZ done
STORE_LOCAL 2
LOAD_LOCAL 1
PUSH_CONST 2
MOD
PUSH_CONST 0
EQ
JUMPNZ add
STORE_LOCAL 2
LOAD_LOCAL 1
PUSH_CONST 3
MOD
PUSH_CONST 0
EQ
JUMPNZ add
STORE_LOCAL 2
JUMP next
.add
STORE_LOCAL 2
LOAD_LOCAL 0
LOAD_LOCAL 1
ADD
STORE_LOCAL 0
.next
INC 1
JUMP loop
.done
STORE_LOCAL 2
LOAD_LOCAL 0
PRINT
HALT
";

const FIB: &str = "
.const zero 0
.const one 1
.const count 45
PUSH_CONST 0
STORE_LOCAL 0      ; a
PUSH_CONST 1
STORE_LOCAL 1      ; b
PUSH_CONST 0
STORE_LOCAL 2      ; i
PUSH_CONST 0
STORE_LOCAL 3      ; scratch
.loop
LOAD_LOCAL 2
PUSH_CONST 2
LT
JUMPZ done
STORE_LOCAL 3
LOAD_LOCAL 0
LOAD_LOCAL 1
ADD
LOAD_LOCAL 1
STORE_LOCAL 0
STORE_LOCAL 1
LOAD_LOCAL 1
PRINT
INC 2
JUMP loop
.done
STORE_LOCAL 3
HALT
";

const PRIME: &str = "
.const two 2
.const limit 3260
.const zero 0
.const one 1
PUSH_CONST 0
STORE_LOCAL 0      ; n
PUSH_CONST 0
STORE_LOCAL 1      ; d
PUSH_CONST 2
STORE_LOCAL 2      ; scratch
.outer
LOAD_LOCAL 0
PUSH_CONST 1
LT
JUMPZ end
STORE_LOCAL 2
PUSH_CONST 0
STORE_LOCAL 1
.inner
LOAD_LOCAL 1
LOAD_LOCAL 1
MUL
LOAD_LOCAL 0
LTE
JUMPZ prime
STORE_LOCAL 2
LOAD_LOCAL 0
LOAD_LOCAL 1
MOD
PUSH_CONST 2
EQ
JUMPNZ composite
STORE_LOCAL 2
INC 1
JUMP inner
.prime
STORE_LOCAL 2
LOAD_LOCAL 0
PRINT
JUMP next
.composite
STORE_LOCAL 2
.next
INC 0
JUMP outer
.end
STORE_LOCAL 2
HALT
";

const FACTORIAL: &str = "
.const n 9
.const one 1
CALL fact
PRINT
HALT
fact:
.fact
PUSH_CONST 1
STORE_LOCAL 0      ; acc
PUSH_CONST 1
STORE_LOCAL 1      ; i
.floop
LOAD_LOCAL 1
PUSH_CONST 0
GT
JUMPNZ fdone
STORE_LOCAL 2
LOAD_LOCAL 0
LOAD_LOCAL 1
MUL
STORE_LOCAL 0
INC 1
JUMP floop
.fdone
STORE_LOCAL 2
LOAD_LOCAL 0
RET
";

const COMPARE: &str = "
.const three 3
.const four 4
.const five 5
PUSH_CONST 2
PUSH_CONST 0
GT
PRINT              ; 5 > 3
PUSH_CONST 2
PUSH_CONST 0
LT
PRINT              ; 5 < 3
PUSH_CONST 0
PUSH_CONST 0
LTE
PRINT              ; 3 <= 3
PUSH_CONST 0
PUSH_CONST 2
GTE
PRINT              ; 3 >= 5
PUSH_CONST 0
PUSH_CONST 2
EQ
PRINT              ; 3 == 5
PUSH_CONST 1
PUSH_CONST 1
EQ
PRINT              ; 4 == 4
PUSH_CONST 2
PUSH_CONST 1
LTE
PRINT              ; 5 <= 4
HALT
";

#[test]
fn test_add() {
    let val = run_source(ADD);
    assert_eq!("123", val.first().unwrap());
}

#[test]
fn test_fn_call() {
    let val = run_source(FN_TEST);
    assert_eq!("42", val.first().unwrap());
}

#[test]
fn test_euler1() {
    let val = run_source(EULER1);
    assert_eq!("233168", val.first().unwrap());
}

#[test]
fn test_fib() {
    let val = run_source(FIB);
    assert_eq!("1836311903", val.last().unwrap());
}

#[test]
fn test_prime() {
    let val = run_source(PRIME);
    assert_eq!("3259", val.last().unwrap());
}

#[test]
fn test_fn_factorial() {
    let val = run_source(FACTORIAL);
    assert_eq!("362880", val.last().unwrap());
}

#[test]
fn test_comparisons() {
    let val = run_source(COMPARE);
    let seven: Vec<bool> = val.iter().take(7).map(|x| x == "1").collect();
    assert_eq!(vec![true, false, true, false, false, true, false], seven);
}

#[test]
fn prime_list_starts_with_small_primes() {
    let val = run_source(PRIME);
    assert_eq!(vec!["2", "3", "5", "7", "11", "13"], val[..6].to_vec());
}

#[test]
fn float_constants_go_through_the_host() {
    let text = "
.const x 1.5
.const y 2.25
PUSH_CONST 0
PUSH_CONST 1
ADD
PRINT
PUSH_CONST 0
PUSH_CONST 1
LT
PRINT
HALT
";
    assert_eq!(vec!["3.75".to_string(), "1".to_string()], run_source(text));
}

#[test]
fn string_constant_is_printed() {
    let text = ".const greeting \"hello   there\"\nPUSH_CONST 0\nPRINT\nHALT\n";
    assert_eq!(vec!["hello there".to_string()], run_source(text));
}

#[test]
fn call_output_follows_program_order() {
    let text = "
.const one 1
.const two 2
PUSH_CONST 0
PRINT
CALL two_fn
PUSH_CONST 0
ADD
PRINT
HALT
.two_fn
PUSH_CONST 1
PRINT
PUSH_CONST 1
RET
";
    assert_eq!(vec!["1", "2", "3"], run_source(text));
}
