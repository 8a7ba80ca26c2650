use assembler::assemble::{AsmError, assemble};
use assembler::lexer::{Lexer, LexError, Token, TokenType};
use assembler::parser::{Instruction, Operand, Parser, Program};
use assembler::resolver::{ResolveError, resolve};

fn parsed(src: &str) -> Program {
    let mut lexer = Lexer::new(src);
    assert!(lexer.lex().is_ok());
    let mut parser = Parser::new(lexer.tokens);
    parser.parse_program().unwrap()
}

#[test]
fn scenario_add_registers() {
    let program = parsed("add x3,x2,x1");
    assert_eq!(program.instructions.len(), 1);
    assert_eq!(program.instructions[0].opcode.token_type, TokenType::AddInst);
    assert_eq!(
        program.instructions[0].operands,
        vec![Operand::Register(3), Operand::Register(2), Operand::Register(1)]
    );
    assert_eq!(assemble("add x3,x2,x1", 0), Ok(vec![0x8b010043]));
}

#[test]
fn scenario_undefined_label() {
    assert_eq!(
        assemble("cbz x0, missing", 0),
        Err(AsmError::Resolve(ResolveError::UndefinedLabel { name: "missing".to_string(), line: 1, col: 1 }))
    );
}

#[test]
fn scenario_branch_to_itself() {
    let mut program = parsed("label:\n b label");
    let table = resolve(&mut program, 0).unwrap();
    assert_eq!(table.symbols.len(), 1);
    assert_eq!(table.symbols[0].name, "label");
    assert_eq!(table.symbols[0].address, 0);
    assert_eq!(program.instructions[0].address, 0);
    assert_eq!(program.instructions[0].operands, vec![Operand::Relative(0)]);
    assert_eq!(assemble("label:\n b label", 0), Ok(vec![0x1400_0000]));
}

#[test]
fn scenario_duplicate_label() {
    assert_eq!(
        assemble("a: add x0,x0,x0\na: add x0,x0,x0", 0),
        Err(AsmError::Resolve(ResolveError::DuplicateLabel { name: "a".to_string(), line: 2, col: 1 }))
    );
}

#[test]
fn forward_and_backward_references() {
    let src = "top: cbz x0, done\n mov x0, #1\n bl top\ndone: b top";
    let mut program = parsed(src);
    let table = resolve(&mut program, 0x1000).unwrap();
    assert_eq!(table.symbols.len(), 2);
    assert_eq!((table.symbols[1].name.as_str(), table.symbols[1].index, table.symbols[1].address), ("done", 3, 0x100c));
    let addrs: Vec<u64> = program.instructions.iter().map(|i| i.address).collect();
    assert_eq!(addrs, vec![0x1000, 0x1004, 0x1008, 0x100c]);
    assert_eq!(program.instructions[0].operands[1], Operand::Relative(3));
    assert_eq!(program.instructions[2].operands[0], Operand::Relative(-2));
    assert_eq!(program.instructions[3].operands[0], Operand::Relative(-3));
    assert_eq!(
        assemble(src, 0x1000),
        Ok(vec![0xb400_0060, 0x9100_07e0, 0x97ff_fffe, 0x17ff_fffd])
    );
}

fn adds(n: usize) -> Vec<Instruction> {
    (0..n)
        .map(|i| Instruction {
            label: None,
            opcode: Token { token_type: TokenType::AddInst, line: i as u64 + 1, col: 1 },
            operands: vec![Operand::Register(0), Operand::Register(0), Operand::Register(0)],
            address: 0,
        })
        .collect()
}

fn far_cbz(target: usize) -> Program {
    let mut instructions = adds(target + 1);
    instructions[0] = Instruction {
        label: None,
        opcode: Token { token_type: TokenType::CbzInst, line: 1, col: 1 },
        operands: vec![Operand::Register(0), Operand::Label("far".to_string())],
        address: 0,
    };
    instructions[target].label =
        Some(Token { token_type: TokenType::Identifier(Box::new("far".to_string())), line: 9, col: 1 });
    Program { instructions }
}

#[test]
fn branch_reach_is_checked_at_resolution() {
    let mut fits = far_cbz(0x3_ffff);
    assert!(resolve(&mut fits, 0).is_ok());
    assert_eq!(fits.instructions[0].operands[1], Operand::Relative(0x3_ffff));
    assert_eq!(fits.instructions[0].encode(), Ok(0xb47f_ffe0));
    let mut too_far = far_cbz(0x4_0000);
    assert_eq!(
        resolve(&mut too_far, 0),
        Err(ResolveError::ImmediateOutOfRange { line: 1, col: 1 })
    );
    assert_eq!(too_far.instructions[0].operands[1], Operand::Label("far".to_string()));
}

#[test]
fn errors_from_each_stage() {
    assert!(matches!(assemble("add x0, x0, @", 0), Err(AsmError::Lex(LexError::UnexpectedChar { ch: '@', line: 1, col: 13 }))));
    assert!(matches!(assemble("add x0, x0", 0), Err(AsmError::Parse(_))));
    assert_eq!(
        assemble("nop: add x0, x0, x0\n ldr x1, [x2, #3]", 0),
        Err(AsmError::Encode { line: 2, col: 2, error: assembler::encoder::EncodeError::ImmediateOutOfRange })
    );
    assert_eq!(assemble("add x0, x0, x0", u64::MAX - 2), Err(AsmError::AddressOverflow));
    assert_eq!(assemble("", 0), Ok(vec![]));
}
