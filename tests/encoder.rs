use assembler::encoder::{EncodeError, Encoder, Field, pack_fields};
use assembler::lexer::{Lexer, Token, TokenType};
use assembler::parser::{Instruction, Operand, Parser};

fn encode_one(src: &str) -> Result<u32, EncodeError> {
    let mut lexer = Lexer::new(src);
    assert!(lexer.lex().is_ok());
    let mut parser = Parser::new(lexer.tokens);
    let program = parser.parse_program().expect("Failed to parse program");
    assert_eq!(program.instructions.len(), 1);
    program.instructions[0].encode()
}

fn instr(token_type: TokenType, operands: Vec<Operand>) -> Instruction {
    Instruction { label: None, opcode: Token { token_type, line: 1, col: 1 }, operands, address: 0 }
}

#[test]
fn test_encode_add_register() {
    let mut lexer = Lexer::new("add x3,x2,x1");
    assert!(lexer.lex().is_ok());
    let mut parser = Parser::new(lexer.tokens);
    let program = parser.parse_program().expect("Failed to parse program");
    let encoder = Encoder::new(program);
    let bytes = encoder.encode_program().unwrap();
    assert_eq!(bytes.len(), 1);
    println!("Value of bytes: {:b}", bytes.get(0).unwrap());
    assert_eq!(*bytes.get(0).unwrap(), 0x8b010043 as u32);
}

#[test]
fn register_register_formats() {
    assert_eq!(encode_one("sub x1, x2, x3"), Ok(0xcb030041));
    assert_eq!(encode_one("mul x0, x1, x2"), Ok(0x9b027c20));
    assert_eq!(encode_one("div x0, x1, x2"), Ok(0x9ac20c20));
    assert_eq!(encode_one("asr x0, x1, x2"), Ok(0x9ac22820));
    assert_eq!(encode_one("cmp x1, x2"), Ok(0xeb02003f));
    assert_eq!(encode_one("mov x0, x1"), Ok(0xaa0103e0));
    assert_eq!(encode_one("add x30, sp, xzr"), Ok(0x8b1f03fe));
}

#[test]
fn register_immediate_formats() {
    assert_eq!(encode_one("cmp x1, #5"), Ok(0xf100143f));
    assert_eq!(encode_one("mov x0, #42"), Ok(0x9100abe0));
    assert_eq!(encode_one("mov x0, #1"), Ok(0x910007e0));
    let add_imm = instr(TokenType::AddInst, vec![Operand::Register(0), Operand::Register(1), Operand::Immediate(2)]);
    assert_eq!(add_imm.encode(), Err(EncodeError::UnsupportedInstruction));
    let sub_imm = instr(TokenType::SubInst, vec![Operand::Register(0), Operand::Register(1), Operand::Immediate(2)]);
    assert_eq!(sub_imm.encode(), Err(EncodeError::UnsupportedInstruction));
    let mul_imm = instr(TokenType::MulInst, vec![Operand::Register(0), Operand::Register(1), Operand::Immediate(2)]);
    assert_eq!(mul_imm.encode(), Err(EncodeError::UnsupportedInstruction));
}

#[test]
fn load_store_formats() {
    assert_eq!(encode_one("ldr x0, [x1, #8]"), Ok(0xf9400420));
    assert_eq!(encode_one("str x0, [sp]"), Ok(0xf90003e0));
    assert_eq!(encode_one("ldr x0, [x1, #16]!"), Ok(0xf8410c20));
    assert_eq!(encode_one("ldr x0, [x1], #-8"), Ok(0xf85f8420));
    assert_eq!(encode_one("ldr x0, [x1, x2]"), Ok(0xf8626820));
    assert_eq!(encode_one("str x0, [x1, x2]"), Ok(0xf8226820));
    assert_eq!(encode_one("stp x29, x30, [sp, #-16]!"), Ok(0xa9bf7bfd));
    assert_eq!(encode_one("stp x23, x24, [sp, #48]"), Ok(0xa90363f7));
    assert_eq!(encode_one("stp x0, x1, [sp], #16"), Ok(0xa88107e0));
    assert_eq!(encode_one("ldr x0, [x1, #12]"), Err(EncodeError::ImmediateOutOfRange));
    assert_eq!(encode_one("stp x0, x1, [sp, x2]"), Err(EncodeError::UnsupportedInstruction));
}

#[test]
fn immediate_limits() {
    assert_eq!(encode_one("cmp x0, #4095"), Ok(0xf13ffc1f));
    assert_eq!(encode_one("cmp x0, #4096"), Err(EncodeError::ImmediateOutOfRange));
    assert_eq!(encode_one("cmp x0, #-1"), Err(EncodeError::ImmediateOutOfRange));
    assert_eq!(encode_one("ldr x0, [x1, #255]!"), Ok(0xf84ffc20));
    assert_eq!(encode_one("ldr x0, [x1, #256]!"), Err(EncodeError::ImmediateOutOfRange));
    assert_eq!(encode_one("ldr x0, [x1, #-256]!"), Ok(0xf8500c20));
    assert_eq!(encode_one("ldr x0, [x1, #-257]!"), Err(EncodeError::ImmediateOutOfRange));
    assert_eq!(encode_one("mov x0, #4095"), Ok(0x913fffe0));
    assert_eq!(encode_one("stp x0, x1, [sp, #504]"), Ok(0xa91f87e0));
    assert_eq!(encode_one("stp x0, x1, [sp, #-512]"), Ok(0xa92007e0));
    assert_eq!(encode_one("stp x0, x1, [sp, #512]"), Err(EncodeError::ImmediateOutOfRange));
    assert_eq!(encode_one("stp x0, x1, [sp, #-520]"), Err(EncodeError::ImmediateOutOfRange));
    assert_eq!(encode_one("mov x0, #4096"), Err(EncodeError::ImmediateOutOfRange));
}

#[test]
fn branch_offset_limits() {
    let b = |d: i64| instr(TokenType::BInst, vec![Operand::Relative(d)]).encode();
    assert_eq!(b(0x1ff_ffff), Ok(0x15ff_ffff));
    assert_eq!(b(-0x200_0000), Ok(0x1600_0000));
    assert_eq!(b(0x200_0000), Err(EncodeError::ImmediateOutOfRange));
    assert_eq!(b(-0x200_0001), Err(EncodeError::ImmediateOutOfRange));
    let cbz = |d: i64| instr(TokenType::CbzInst, vec![Operand::Register(2), Operand::Relative(d)]).encode();
    assert_eq!(cbz(0x3_ffff), Ok(0xb47f_ffe2));
    assert_eq!(cbz(-0x4_0000), Ok(0xb480_0002));
    assert_eq!(cbz(0x4_0000), Err(EncodeError::ImmediateOutOfRange));
    assert_eq!(cbz(-0x4_0001), Err(EncodeError::ImmediateOutOfRange));
    let bl = instr(TokenType::BlInst, vec![Operand::Relative(-1)]).encode();
    assert_eq!(bl, Ok(0x97ff_ffff));
    let cbnz = instr(TokenType::CbnzInst, vec![Operand::Register(1), Operand::Relative(-1)]).encode();
    assert_eq!(cbnz, Ok(0xb5ff_ffe1));
}

#[test]
fn internal_faults_are_operand_encoding_errors() {
    let bad_reg = instr(TokenType::AddInst, vec![Operand::Register(32), Operand::Register(0), Operand::Register(0)]);
    assert_eq!(bad_reg.encode(), Err(EncodeError::OperandEncodingError));
    let unresolved = instr(TokenType::BInst, vec![Operand::Label("x".to_string())]);
    assert_eq!(unresolved.encode(), Err(EncodeError::OperandEncodingError));
    let not_mnemonic = instr(TokenType::Comma, vec![]);
    assert_eq!(not_mnemonic.encode(), Err(EncodeError::UnsupportedInstruction));
    let wrong_arity = instr(TokenType::AddInst, vec![Operand::Register(0)]);
    assert_eq!(wrong_arity.encode(), Err(EncodeError::UnsupportedInstruction));
}

#[test]
fn packer_places_and_checks_fields() {
    let f = |value: i64, start: u32, width: u32, signed: bool| Field { value, start, width, signed };
    assert_eq!(pack_fields(&vec![f(3, 0, 5, false), f(-1, 5, 4, true), f(1, 31, 1, false)]), Ok(0x8000_01e3));
    assert_eq!(pack_fields(&vec![f(32, 0, 5, false)]), Err(EncodeError::ImmediateOutOfRange));
    assert_eq!(pack_fields(&vec![f(1, 0, 5, false), f(1, 4, 5, false)]), Err(EncodeError::OperandEncodingError));
    assert_eq!(pack_fields(&vec![f(1, 30, 5, false)]), Err(EncodeError::OperandEncodingError));
    assert_eq!(pack_fields(&vec![]), Ok(0));
}

#[test]
fn encode_program_reports_first_failure() {
    let mut lexer = Lexer::new("mov x0, #1\nmov x0, #70000\ncmp x0, #5000");
    assert!(lexer.lex().is_ok());
    let mut parser = Parser::new(lexer.tokens);
    let program = parser.parse_program().unwrap();
    let encoder = Encoder::new(program);
    assert_eq!(encoder.encode_program(), Err((1, EncodeError::ImmediateOutOfRange)));
}
