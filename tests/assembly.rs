use leia_vm::assembler::{
    constant_texts, parse_assembly, parse_const_value, parse_constants, parse_opcodes_with_labels,
    AsmError,
};
use leia_vm::instruction::{ConstantIndex, ConstantValue, Opcode};

#[test]
fn instructions_and_operands_are_decoded() {
    let text = "PUSH_CONST 3\nSTORE_LOCAL 1\nLOAD_LOCAL +2\nINC 0\nADD\nSUB\nMUL\nDIV\nMOD\n\
                PRINT\nEQ\nGT\nGTE\nLT\nLTE\nRET\nHALT\n";
    let code = parse_opcodes_with_labels(text).unwrap();
    assert_eq!(
        vec![
            Opcode::Push(ConstantIndex(3)),
            Opcode::StoreLocal(1),
            Opcode::LoadLocal(2),
            Opcode::Increment(0),
            Opcode::Add,
            Opcode::Subtract,
            Opcode::Multiply,
            Opcode::Divide,
            Opcode::Modulo,
            Opcode::Print,
            Opcode::Equals,
            Opcode::GreaterThan,
            Opcode::GreaterThanEqual,
            Opcode::LessThan,
            Opcode::LessThanEqual,
            Opcode::Return,
            Opcode::Halt,
        ],
        code
    );
}

#[test]
fn labels_bind_the_next_instruction_index() {
    let text = "
.start
JUMP end   ; forward
main:
.middle
other:
CALL middle
JUMPZ start
.end
JUMPNZ end
";
    let code = parse_opcodes_with_labels(text).unwrap();
    assert_eq!(
        vec![Opcode::Jump(3), Opcode::Call(1), Opcode::JumpIfZero(0), Opcode::JumpIfNotZero(3)],
        code
    );
}

#[test]
fn markers_do_not_move_labels() {
    let plain = ".a\nHALT\n.b\nJUMP a\nJUMP b\n";
    let marked = "x:\n.a\ny:\nHALT\nz:\n.b\nw:\nJUMP a\nJUMP b\nq:\n";
    assert_eq!(parse_opcodes_with_labels(plain), parse_opcodes_with_labels(marked));
}

#[test]
fn a_redeclared_label_takes_its_last_place() {
    let code = parse_opcodes_with_labels(".l\nHALT\n.l\nJUMP l\n").unwrap();
    assert_eq!(vec![Opcode::Halt, Opcode::Jump(1)], code);
}

#[test]
fn unknown_instruction_is_named() {
    assert_eq!(
        Err(AsmError::UnknownInstruction("POP".to_string())),
        parse_opcodes_with_labels("PUSH_CONST 0\nPOP\n")
    );
}

#[test]
fn unknown_label_is_named() {
    assert_eq!(
        Err(AsmError::UnknownLabel("nowhere".to_string())),
        parse_opcodes_with_labels("JUMP nowhere\n")
    );
}

#[test]
fn instruction_errors_come_before_label_errors() {
    assert_eq!(
        Err(AsmError::UnknownInstruction("BOGUS".to_string())),
        parse_opcodes_with_labels("JUMP nowhere\nBOGUS\n")
    );
}

#[test]
fn operand_errors() {
    assert_eq!(
        Err(AsmError::MissingOperand("PUSH_CONST".to_string())),
        parse_opcodes_with_labels("PUSH_CONST\n")
    );
    assert_eq!(
        Err(AsmError::MissingOperand("JUMP".to_string())),
        parse_opcodes_with_labels("JUMP ; no label\n")
    );
    assert_eq!(
        Err(AsmError::InvalidOperand("-1".to_string())),
        parse_opcodes_with_labels("LOAD_LOCAL -1\n")
    );
    assert_eq!(
        Err(AsmError::InvalidOperand("4294967296".to_string())),
        parse_opcodes_with_labels("PUSH_CONST 4294967296\n")
    );
    assert_eq!(
        Ok(vec![Opcode::Push(ConstantIndex(u32::MAX))]),
        parse_opcodes_with_labels("PUSH_CONST 4294967295\n")
    );
}

#[test]
fn constants_keep_file_order() {
    let text = "
.const a 5
PUSH_CONST 0
.const b \"two words\"   ; a string
.const c -12
";
    assert_eq!(
        Ok(vec!["5".to_string(), "\"two words\"".to_string(), "-12".to_string()]),
        constant_texts(text)
    );
    let pool = parse_constants(text, &vec![]).unwrap();
    assert_eq!(
        vec![
            ConstantValue::Int(5),
            ConstantValue::Str("two words".to_string()),
            ConstantValue::Int(-12),
        ],
        pool
    );
}

#[test]
fn const_line_without_value_is_malformed() {
    assert_eq!(
        Err(AsmError::MalformedConstant(".const lonely".to_string())),
        constant_texts(".const lonely ; nothing\n")
    );
}

#[test]
fn const_values_are_read_in_order_int_float_string() {
    assert_eq!(Ok(ConstantValue::Int(-2147483648)), parse_const_value("-2147483648", None));
    assert_eq!(Ok(ConstantValue::Int(17)), parse_const_value("+17", Some(1)));
    let bits = 2147483648.0f32.to_bits();
    assert_eq!(Ok(ConstantValue::Float(bits)), parse_const_value("2147483648", Some(bits)));
    assert_eq!(Ok(ConstantValue::Str("hi".to_string())), parse_const_value("\"hi\"", None));
    assert_eq!(Ok(ConstantValue::Str(String::new())), parse_const_value("\"\"", None));
    assert_eq!(
        Err(AsmError::InvalidConstant("\"".to_string())),
        parse_const_value("\"", None)
    );
    assert_eq!(
        Err(AsmError::InvalidConstant("abc".to_string())),
        parse_const_value("abc", None)
    );
}

#[test]
fn whole_program_assembles() {
    let text = ".const x 2.5\n.const n 3\n  PUSH_CONST 1 ; push n\n\tHALT\r\n";
    let floats = vec![Some(2.5f32.to_bits()), Some(3.0f32.to_bits())];
    let p = parse_assembly(text, &floats).unwrap();
    assert_eq!(0, p.entry);
    assert_eq!(vec![Opcode::Push(ConstantIndex(1)), Opcode::Halt], p.code);
    assert_eq!(
        vec![ConstantValue::Float(2.5f32.to_bits()), ConstantValue::Int(3)],
        p.constants
    );
}

#[test]
fn code_errors_come_before_constant_errors() {
    let text = ".const bad nope\nNOPE\n";
    assert_eq!(
        Some(AsmError::UnknownInstruction("NOPE".to_string())),
        parse_assembly(text, &vec![]).err()
    );
    assert_eq!(
        Some(AsmError::InvalidConstant("nope".to_string())),
        parse_assembly(".const bad nope\nHALT\n", &vec![]).err()
    );
}

#[test]
fn a_marker_is_one_word() {
    assert_eq!(
        Err(AsmError::InvalidOperand("1:".to_string())),
        parse_opcodes_with_labels("PUSH_CONST 1:\n")
    );
    assert_eq!(Ok(vec![Opcode::Halt]), parse_opcodes_with_labels("main:\nHALT\n"));
}
