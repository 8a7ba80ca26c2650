/// Lexical analysis: source text to tokens with line and column.
pub mod lexer;
/// Syntax: tokens to instructions, checked against each mnemonic's operand pattern.
pub mod parser;
/// Bit-field packing and the per-format field tables: instructions to machine words.
pub mod encoder;
/// Label resolution: addresses, the symbol table, and branch offsets in words.
pub mod resolver;
/// The whole pipeline from source text to machine words.
pub mod assemble;
