use assembler::lexer::{Lexer, Mnemonic, TokenType};
use assembler::parser::{
    AddrMode, Expected, MemOffset, MemoryOperand, Operand, ParseError, Parser, Program,
};

fn parse(input: &str) -> Result<Program, ParseError> {
    let mut lexer = Lexer::new(input);
    assert!(lexer.lex().is_ok());
    let mut parser = Parser::new(lexer.tokens);
    parser.parse_program()
}

#[test]
fn test_basic_parse() {
    let program = parse("add x3,x2,x1");
    assert!(program.is_ok());
    assert_eq!(program.as_ref().unwrap().instructions.len(), 1);
    assert_eq!(program.as_ref().unwrap().instructions[0].label, None);
    assert_eq!(program.as_ref().unwrap().instructions[0].opcode.token_type, TokenType::AddInst);
    assert_eq!(program.as_ref().unwrap().instructions[0].operands.len(), 3);
    assert_eq!(program.as_ref().unwrap().instructions[0].operands[0], Operand::Register(3));
    assert_eq!(program.as_ref().unwrap().instructions[0].operands[1], Operand::Register(2));
    assert_eq!(program.as_ref().unwrap().instructions[0].operands[2], Operand::Register(1));
}

#[test]
fn memory_operand_forms() {
    let p = parse("ldr x0, [x1]\nldr x0, [x1, #8]\nldr x0, [x1, #16]!\nldr x0, [x1], #-8\nstr x2, [sp, x3]").unwrap();
    let mem = |i: usize| match &p.instructions[i].operands[1] {
        Operand::Memory(m) => *m,
        other => panic!("not a memory operand: {:?}", other),
    };
    assert_eq!(mem(0), MemoryOperand { base: 1, offset: None, mode: AddrMode::Offset });
    assert_eq!(mem(1), MemoryOperand { base: 1, offset: Some(MemOffset::Imm(8)), mode: AddrMode::Offset });
    assert_eq!(mem(2), MemoryOperand { base: 1, offset: Some(MemOffset::Imm(16)), mode: AddrMode::PreIndex });
    assert_eq!(mem(3), MemoryOperand { base: 1, offset: Some(MemOffset::Imm(-8)), mode: AddrMode::PostIndex });
    assert_eq!(mem(4), MemoryOperand { base: 31, offset: Some(MemOffset::Reg(3)), mode: AddrMode::Offset });
}

#[test]
fn labels_with_and_without_colon() {
    let p = parse("start: b start\nnext cbz x1, start").unwrap();
    assert_eq!(p.instructions.len(), 2);
    let l0 = p.instructions[0].label.as_ref().unwrap();
    assert_eq!(l0.token_type, TokenType::Identifier(Box::new("start".to_string())));
    assert_eq!(p.instructions[0].operands, vec![Operand::Label("start".to_string())]);
    let l1 = p.instructions[1].label.as_ref().unwrap();
    assert_eq!(l1.token_type, TokenType::Identifier(Box::new("next".to_string())));
    assert_eq!(p.instructions[1].operands, vec![Operand::Register(1), Operand::Label("start".to_string())]);
}

#[test]
fn wrong_operand_kind_is_reported() {
    let e = parse("mov x0, [x2]").unwrap_err();
    assert_eq!(e.line, 1);
    assert_eq!(e.col, 9);
    assert_eq!(e.mnemonic, Some(Mnemonic::Mov));
    assert_eq!(e.expected, Expected::RegisterOrImmediate);
    assert_eq!(e.found, Some(TokenType::LSquare));
}

#[test]
fn missing_operand_at_end_of_input() {
    let e = parse("cbz x0,").unwrap_err();
    assert_eq!((e.line, e.col), (1, 7));
    assert_eq!(e.expected, Expected::Label);
    assert_eq!(e.found, None);
}

#[test]
fn identifier_alone_is_not_an_instruction() {
    let e = parse("foo x0, x1, x2").unwrap_err();
    assert_eq!(e.expected, Expected::Mnemonic);
    assert_eq!(e.mnemonic, None);
    assert_eq!((e.line, e.col), (1, 1));
    assert_eq!(e.found, Some(TokenType::Identifier(Box::new("foo".to_string()))));
    let e = parse("add x0, x0, x0\nbar: x1").unwrap_err();
    assert_eq!((e.line, e.col), (2, 1));
    assert_eq!(e.expected, Expected::Mnemonic);
}

#[test]
fn add_takes_three_registers() {
    let e = parse("add x0, x1, #2").unwrap_err();
    assert_eq!((e.line, e.col), (1, 13));
    assert_eq!(e.mnemonic, Some(Mnemonic::Add));
    assert_eq!(e.expected, Expected::Register);
    assert_eq!(e.found, Some(TokenType::Hash));
}

#[test]
fn missing_comma_and_bracket() {
    let e = parse("mov x0 x1").unwrap_err();
    assert_eq!(e.expected, Expected::Comma);
    let e = parse("ldr x0, [x1, #8").unwrap_err();
    assert_eq!(e.expected, Expected::RSquare);
    assert_eq!(e.found, None);
    let e = parse("mov x0, #x1").unwrap_err();
    assert_eq!(e.expected, Expected::Integer);
}

#[test]
fn empty_input_is_an_empty_program() {
    assert_eq!(parse("  \n ").unwrap().instructions.len(), 0);
}
