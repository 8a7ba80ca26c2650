use vstd::prelude::*;
use crate::lexer::{Mnemonic, Token, TokenKind, TokenType, TokenView, kind_register, views};

verus! {

/// How a memory operand uses its offset.
#[derive(Debug, Clone, Copy, PartialEq, Eq, Structural)]
pub enum AddrMode {
    /// `[rn, off]`: the address is `rn + off`, `rn` is unchanged.
    Offset,
    /// `[rn, #imm]!`: `rn` is updated to `rn + imm` before the access.
    PreIndex,
    /// `[rn], #imm`: `rn` is updated to `rn + imm` after the access.
    PostIndex,
}

/// The offset part of a memory operand.
#[derive(Debug, Clone, Copy, PartialEq, Eq, Structural)]
pub enum MemOffset {
    Imm(i64),
    Reg(u8),
}

#[derive(Debug, Clone, Copy, PartialEq, Eq, Structural)]
pub struct MemoryOperand {
    pub base: u8,
    pub offset: Option<MemOffset>,
    pub mode: AddrMode,
}

/// One operand of an instruction.
#[derive(Debug, PartialEq, Clone)]
pub enum Operand {
    Register(u8),
    Immediate(i64),
    Memory(MemoryOperand),
    /// A reference to a label, before resolution.
    Label(String),
    /// A resolved label reference: the signed distance in words from the instruction.
    Relative(i64),
}

pub enum OperandView {
    Register(u8),
    Immediate(i64),
    Memory(MemoryOperand),
    Label(Seq<char>),
    Relative(i64),
}

impl View for Operand {
    type V = OperandView;

    open spec fn view(&self) -> OperandView {
        match self {
            Operand::Register(r) => OperandView::Register(*r),
            Operand::Immediate(v) => OperandView::Immediate(*v),
            Operand::Memory(m) => OperandView::Memory(*m),
            Operand::Label(s) => OperandView::Label(s@),
            Operand::Relative(d) => OperandView::Relative(*d),
        }
    }
}

pub open spec fn operand_views(os: Seq<Operand>) -> Seq<OperandView> {
    os.map_values(|o: Operand| o@)
}

/// One instruction: an optional label, the mnemonic token, its operands, and its address
/// (zero until the resolver assigns it).
#[derive(Debug, PartialEq, Clone)]
pub struct Instruction {
    pub label: Option<Token>,
    pub opcode: Token,
    pub operands: Vec<Operand>,
    pub address: u64,
}

pub struct InstrView {
    pub label: Option<TokenView>,
    pub opcode: TokenView,
    pub operands: Seq<OperandView>,
    pub address: nat,
}

impl View for Instruction {
    type V = InstrView;

    open spec fn view(&self) -> InstrView {
        InstrView {
            label: match self.label {
                Some(t) => Some(t@),
                None => None,
            },
            opcode: self.opcode@,
            operands: operand_views(self.operands@),
            address: self.address as nat,
        }
    }
}

pub open spec fn instr_views(is: Seq<Instruction>) -> Seq<InstrView> {
    is.map_values(|i: Instruction| i@)
}

/// A program: its instructions in address order.
#[derive(Debug, PartialEq, Clone)]
pub struct Program {
    pub instructions: Vec<Instruction>,
}

/// What the parser was looking for when it stopped.
#[derive(Debug, Clone, Copy, PartialEq, Eq, Structural)]
pub enum Expected {
    Mnemonic,
    Register,
    RegisterOrImmediate,
    Immediate,
    Integer,
    Memory,
    Label,
    Comma,
    RSquare,
}

/// A syntax error: where, in which instruction, what was expected and what was found
/// (`found` is `None` at the end of the input).
#[derive(Debug, PartialEq, Clone)]
pub struct ParseError {
    pub line: u64,
    pub col: u64,
    pub mnemonic: Option<Mnemonic>,
    pub expected: Expected,
    pub found: Option<TokenType>,
}

pub struct ParseErrorView {
    pub line: nat,
    pub col: nat,
    pub mnemonic: Option<Mnemonic>,
    pub expected: Expected,
    pub found: Option<TokenKind>,
}

impl View for ParseError {
    type V = ParseErrorView;

    open spec fn view(&self) -> ParseErrorView {
        ParseErrorView {
            line: self.line as nat,
            col: self.col as nat,
            mnemonic: self.mnemonic,
            expected: self.expected,
            found: match self.found {
                Some(k) => Some(k@),
                None => None,
            },
        }
    }
}

/// The kind of operand a mnemonic takes in a given position.
#[derive(Debug, Clone, Copy, PartialEq, Eq, Structural)]
pub enum Slot {
    Reg,
    RegOrImm,
    Mem,
    Target,
}

// ---------------------------------------------------------------------------
// The grammar, as spec functions over token views.
// ---------------------------------------------------------------------------

/// Number of operands each mnemonic takes.
pub open spec fn arity(m: Mnemonic) -> nat {
    match m {
        Mnemonic::Add | Mnemonic::Sub | Mnemonic::Mul | Mnemonic::Div | Mnemonic::Asr => 3,
        Mnemonic::Stp => 3,
        Mnemonic::Cmp | Mnemonic::Mov | Mnemonic::Ldr | Mnemonic::Str => 2,
        Mnemonic::Cbz | Mnemonic::Cbnz => 2,
        Mnemonic::B | Mnemonic::Bl => 1,
    }
}

/// The operand kind each mnemonic takes in position `k`:
/// `add`/`sub`/`mul`/`div`/`asr rd, rn, rm`, `cmp rn, (rm | #imm)`,
/// `mov rd, (rm | #imm)`, `ldr`/`str rt, [mem]`, `stp rt, rt2, [mem]`, `b`/`bl label`,
/// `cbz`/`cbnz rt, label`.
pub open spec fn slot(m: Mnemonic, k: nat) -> Slot {
    match m {
        Mnemonic::Add | Mnemonic::Sub | Mnemonic::Mul | Mnemonic::Div | Mnemonic::Asr => Slot::Reg,
        Mnemonic::Cmp | Mnemonic::Mov => if k == 1 {
            Slot::RegOrImm
        } else {
            Slot::Reg
        },
        Mnemonic::Ldr | Mnemonic::Str => if k == 1 {
            Slot::Mem
        } else {
            Slot::Reg
        },
        Mnemonic::Stp => if k == 2 {
            Slot::Mem
        } else {
            Slot::Reg
        },
        Mnemonic::B | Mnemonic::Bl => Slot::Target,
        Mnemonic::Cbz | Mnemonic::Cbnz => if k == 1 {
            Slot::Target
        } else {
            Slot::Reg
        },
    }
}

/// The error reported at position `p`: that token, or the last token at the end of input.
pub open spec fn err_at(t: Seq<TokenView>, p: nat, m: Option<Mnemonic>, e: Expected) -> ParseErrorView {
    if p < t.len() {
        ParseErrorView {
            line: t[p as int].line,
            col: t[p as int].col,
            mnemonic: m,
            expected: e,
            found: Some(t[p as int].kind),
        }
    } else if t.len() > 0 {
        ParseErrorView {
            line: t.last().line,
            col: t.last().col,
            mnemonic: m,
            expected: e,
            found: None,
        }
    } else {
        ParseErrorView { line: 0, col: 0, mnemonic: m, expected: e, found: None }
    }
}

pub open spec fn is_kind(t: Seq<TokenView>, p: nat, k: TokenKind) -> bool {
    p < t.len() && t[p as int].kind == k
}

pub open spec fn register_at(t: Seq<TokenView>, p: nat) -> Option<u8> {
    if p < t.len() {
        kind_register(t[p as int].kind)
    } else {
        None
    }
}

/// `# integer` at `p`.
pub open spec fn spec_hash_int(t: Seq<TokenView>, p: nat, m: Option<Mnemonic>) -> Result<
    (i64, nat),
    ParseErrorView,
> {
    if !is_kind(t, p, TokenKind::Hash) {
        Err(err_at(t, p, m, Expected::Immediate))
    } else if p + 1 < t.len() && t[p + 1int].kind is Integer {
        Ok((t[p + 1int].kind->Integer_0, p + 2))
    } else {
        Err(err_at(t, p + 1, m, Expected::Integer))
    }
}

/// `[ rn (, (rm | #imm))? ] !?`, or `[ rn ] , #imm` for post-indexing.
pub open spec fn spec_memory(t: Seq<TokenView>, p: nat, m: Option<Mnemonic>) -> Result<
    (MemoryOperand, nat),
    ParseErrorView,
> {
    if !is_kind(t, p, TokenKind::LSquare) {
        Err(err_at(t, p, m, Expected::Memory))
    } else if register_at(t, p + 1) is None {
        Err(err_at(t, p + 1, m, Expected::Register))
    } else {
        let base = register_at(t, p + 1)->0;
        let q = p + 2;
        let inner: Result<(Option<MemOffset>, nat), ParseErrorView> = if is_kind(
            t,
            q,
            TokenKind::Comma,
        ) {
            if is_kind(t, q + 1, TokenKind::Hash) {
                match spec_hash_int(t, q + 1, m) {
                    Ok((v, q2)) => Ok((Some(MemOffset::Imm(v)), q2)),
                    Err(e) => Err(e),
                }
            } else if register_at(t, q + 1) is Some {
                Ok((Some(MemOffset::Reg(register_at(t, q + 1)->0)), q + 2))
            } else {
                Err(err_at(t, q + 1, m, Expected::RegisterOrImmediate))
            }
        } else {
            Ok((None, q))
        };
        match inner {
            Err(e) => Err(e),
            Ok((off, q2)) => if !is_kind(t, q2, TokenKind::RSquare) {
                Err(err_at(t, q2, m, Expected::RSquare))
            } else if is_kind(t, q2 + 1, TokenKind::Bang) {
                Ok((MemoryOperand { base, offset: off, mode: AddrMode::PreIndex }, q2 + 2))
            } else if off is None && is_kind(t, q2 + 1, TokenKind::Comma) {
                match spec_hash_int(t, q2 + 2, m) {
                    Ok((v, q3)) => Ok(
                        (
                            MemoryOperand {
                                base,
                                offset: Some(MemOffset::Imm(v)),
                                mode: AddrMode::PostIndex,
                            },
                            q3,
                        ),
                    ),
                    Err(e) => Err(e),
                }
            } else {
                Ok((MemoryOperand { base, offset: off, mode: AddrMode::Offset }, q2 + 1))
            },
        }
    }
}

/// One operand of kind `s` at `p`.
pub open spec fn spec_operand(t: Seq<TokenView>, p: nat, m: Mnemonic, s: Slot) -> Result<
    (OperandView, nat),
    ParseErrorView,
> {
    match s {
        Slot::Reg => if register_at(t, p) is Some {
            Ok((OperandView::Register(register_at(t, p)->0), p + 1))
        } else {
            Err(err_at(t, p, Some(m), Expected::Register))
        },
        Slot::RegOrImm => if is_kind(t, p, TokenKind::Hash) {
            match spec_hash_int(t, p, Some(m)) {
                Ok((v, q)) => Ok((OperandView::Immediate(v), q)),
                Err(e) => Err(e),
            }
        } else if register_at(t, p) is Some {
            Ok((OperandView::Register(register_at(t, p)->0), p + 1))
        } else {
            Err(err_at(t, p, Some(m), Expected::RegisterOrImmediate))
        },
        Slot::Mem => match spec_memory(t, p, Some(m)) {
            Ok((mo, q)) => Ok((OperandView::Memory(mo), q)),
            Err(e) => Err(e),
        },
        Slot::Target => if p < t.len() && t[p as int].kind is Identifier {
            Ok((OperandView::Label(t[p as int].kind->Identifier_0), p + 1))
        } else {
            Err(err_at(t, p, Some(m), Expected::Label))
        },
    }
}

/// Operands `k..arity(m)` from `p`, after the operands `acc` already read.
pub open spec fn spec_operands(
    t: Seq<TokenView>,
    p: nat,
    m: Mnemonic,
    k: nat,
    acc: Seq<OperandView>,
) -> Result<(Seq<OperandView>, nat), ParseErrorView>
    decreases arity(m) - k,
{
    if k >= arity(m) {
        Ok((acc, p))
    } else if k > 0 && !is_kind(t, p, TokenKind::Comma) {
        Err(err_at(t, p, Some(m), Expected::Comma))
    } else {
        let p1 = if k > 0 {
            p + 1
        } else {
            p
        };
        match spec_operand(t, p1, m, slot(m, k)) {
            Ok((o, p2)) => spec_operands(t, p2, m, k + 1, acc.push(o)),
            Err(e) => Err(e),
        }
    }
}

pub open spec fn is_mnemonic_at(t: Seq<TokenView>, p: nat) -> bool {
    p < t.len() && t[p as int].kind is Mnemonic
}

/// The optional label in front of an instruction: an identifier, with or without a colon,
/// that a mnemonic follows. Any other identifier is no label, and nothing is consumed.
pub open spec fn spec_label(t: Seq<TokenView>, p: nat) -> (Option<TokenView>, nat) {
    if p < t.len() && t[p as int].kind is Identifier {
        if is_kind(t, p + 1, TokenKind::Colon) && is_mnemonic_at(t, p + 2) {
            (Some(t[p as int]), p + 2)
        } else if is_mnemonic_at(t, p + 1) {
            (Some(t[p as int]), p + 1)
        } else {
            (None, p)
        }
    } else {
        (None, p)
    }
}

/// One instruction at `p`, and the position after it.
pub open spec fn spec_instruction(t: Seq<TokenView>, p: nat) -> Result<
    (InstrView, nat),
    ParseErrorView,
> {
    let (label, q) = spec_label(t, p);
    if q < t.len() && t[q as int].kind is Mnemonic {
        let m = t[q as int].kind->Mnemonic_0;
        match spec_operands(t, q + 1, m, 0, Seq::empty()) {
            Ok((ops, r)) => Ok(
                (InstrView { label, opcode: t[q as int], operands: ops, address: 0 }, r),
            ),
            Err(e) => Err(e),
        }
    } else {
        Err(err_at(t, q, None, Expected::Mnemonic))
    }
}

/// The instructions from `p` to the end, after the instructions `acc` already read.
pub open spec fn spec_program(t: Seq<TokenView>, p: nat, acc: Seq<InstrView>) -> Result<
    Seq<InstrView>,
    ParseErrorView,
>
    decreases t.len() - p,
    via spec_program_decreases
{
    if p >= t.len() {
        Ok(acc)
    } else {
        match spec_instruction(t, p) {
            Ok((i, q)) => spec_program(t, q, acc.push(i)),
            Err(e) => Err(e),
        }
    }
}

/// The program that a token sequence spells, or the first syntax error in it.
pub open spec fn parse_tokens(t: Seq<TokenView>) -> Result<Seq<InstrView>, ParseErrorView> {
    spec_program(t, 0, Seq::empty())
}

proof fn lemma_operand_advances(t: Seq<TokenView>, p: nat, m: Mnemonic, s: Slot)
    ensures
        spec_operand(t, p, m, s) matches Ok((_, q)) ==> p < q <= t.len(),
{
}

proof fn lemma_operands_advance(
    t: Seq<TokenView>,
    p: nat,
    m: Mnemonic,
    k: nat,
    acc: Seq<OperandView>,
)
    requires
        p <= t.len(),
    ensures
        spec_operands(t, p, m, k, acc) matches Ok((_, q)) ==> p <= q <= t.len(),
    decreases arity(m) - k,
{
    if k < arity(m) && !(k > 0 && !is_kind(t, p, TokenKind::Comma)) {
        let p1 = if k > 0 {
            p + 1
        } else {
            p
        };
        lemma_operand_advances(t, p1, m, slot(m, k));
        if p1 <= t.len() {
            assert(spec_operand(t, p1, m, slot(m, k)) matches Ok((_, q)) ==> q <= t.len());
        }
        if let Ok((o, p2)) = spec_operand(t, p1, m, slot(m, k)) {
            lemma_operands_advance(t, p2, m, k + 1, acc.push(o));
        }
    }
}

proof fn lemma_instruction_advances(t: Seq<TokenView>, p: nat)
    ensures
        spec_instruction(t, p) matches Ok((_, q)) ==> p < q <= t.len(),
{
    let (label, q) = spec_label(t, p);
    if q < t.len() && t[q as int].kind is Mnemonic {
        lemma_operands_advance(t, q + 1, t[q as int].kind->Mnemonic_0, 0, Seq::empty());
    }
}

#[via_fn]
proof fn spec_program_decreases(t: Seq<TokenView>, p: nat, acc: Seq<InstrView>) {
    if p < t.len() {
        lemma_instruction_advances(t, p);
    }
}

// ---------------------------------------------------------------------------
// The parser.
// ---------------------------------------------------------------------------

fn arity_of(m: Mnemonic) -> (r: usize)
    ensures
        r == arity(m),
{
    match m {
        Mnemonic::Add | Mnemonic::Sub | Mnemonic::Mul | Mnemonic::Div | Mnemonic::Asr => 3,
        Mnemonic::Stp => 3,
        Mnemonic::Cmp | Mnemonic::Mov | Mnemonic::Ldr | Mnemonic::Str => 2,
        Mnemonic::Cbz | Mnemonic::Cbnz => 2,
        Mnemonic::B | Mnemonic::Bl => 1,
    }
}

fn slot_of(m: Mnemonic, k: usize) -> (r: Slot)
    ensures
        r == slot(m, k as nat),
{
    match m {
        Mnemonic::Add | Mnemonic::Sub | Mnemonic::Mul | Mnemonic::Div | Mnemonic::Asr => Slot::Reg,
        Mnemonic::Cmp | Mnemonic::Mov => if k == 1 {
            Slot::RegOrImm
        } else {
            Slot::Reg
        },
        Mnemonic::Ldr | Mnemonic::Str => if k == 1 {
            Slot::Mem
        } else {
            Slot::Reg
        },
        Mnemonic::Stp => if k == 2 {
            Slot::Mem
        } else {
            Slot::Reg
        },
        Mnemonic::B | Mnemonic::Bl => Slot::Target,
        Mnemonic::Cbz | Mnemonic::Cbnz => if k == 1 {
            Slot::Target
        } else {
            Slot::Reg
        },
    }
}

/// A copy of a token kind.
pub(crate) fn copy_token_type(k: &TokenType) -> (r: TokenType)
    ensures
        r@ == k@,
{
    match k {
        TokenType::Register(name) => TokenType::Register(Box::new((**name).clone())),
        TokenType::Identifier(name) => TokenType::Identifier(Box::new((**name).clone())),
        TokenType::Integer(v) => TokenType::Integer(*v),
        TokenType::AddInst => TokenType::AddInst,
        TokenType::AsrInst => TokenType::AsrInst,
        TokenType::SubInst => TokenType::SubInst,
        TokenType::MulInst => TokenType::MulInst,
        TokenType::DivInst => TokenType::DivInst,
        TokenType::CmpInst => TokenType::CmpInst,
        TokenType::MovInst => TokenType::MovInst,
        TokenType::LdrInst => TokenType::LdrInst,
        TokenType::StrInst => TokenType::StrInst,
        TokenType::StpInst => TokenType::StpInst,
        TokenType::BInst => TokenType::BInst,
        TokenType::BlInst => TokenType::BlInst,
        TokenType::CbzInst => TokenType::CbzInst,
        TokenType::CbnzInst => TokenType::CbnzInst,
        TokenType::LSquare => TokenType::LSquare,
        TokenType::RSquare => TokenType::RSquare,
        TokenType::Hash => TokenType::Hash,
        TokenType::Comma => TokenType::Comma,
        TokenType::Bang => TokenType::Bang,
        TokenType::Colon => TokenType::Colon,
        TokenType::Minus => TokenType::Minus,
    }
}

/// A copy of a token.
pub(crate) fn copy_token(t: &Token) -> (r: Token)
    ensures
        r@ == t@,
{
    Token { token_type: copy_token_type(&t.token_type), line: t.line, col: t.col }
}

pub struct Parser {
    tokens: Vec<Token>,
    pos: usize,
}

impl Parser {
    /// The tokens the parser reads.
    pub closed spec fn input(&self) -> Seq<TokenView> {
        views(self.tokens@)
    }

    /// How many tokens have been consumed.
    pub closed spec fn position(&self) -> nat {
        self.pos as nat
    }

    pub fn new(tokens: Vec<Token>) -> (r: Parser)
        ensures
            r.input() == views(tokens@),
            r.position() == 0,
    {
        Parser { tokens, pos: 0 }
    }

    fn kind_is_hash(&self, p: usize) -> (r: bool)
        ensures
            r == is_kind(self.input(), p as nat, TokenKind::Hash),
    {
        p < self.tokens.len() && matches!(self.tokens[p].token_type, TokenType::Hash)
    }

    fn kind_is_comma(&self, p: usize) -> (r: bool)
        ensures
            r == is_kind(self.input(), p as nat, TokenKind::Comma),
    {
        p < self.tokens.len() && matches!(self.tokens[p].token_type, TokenType::Comma)
    }

    fn kind_is(&self, p: usize, k: &TokenType) -> (r: bool)
        requires
            matches!(k, TokenType::LSquare | TokenType::RSquare | TokenType::Bang | TokenType::Colon),
        ensures
            r == is_kind(self.input(), p as nat, k@),
    {
        if p >= self.tokens.len() {
            return false;
        }
        match (&self.tokens[p].token_type, k) {
            (TokenType::LSquare, TokenType::LSquare) => true,
            (TokenType::RSquare, TokenType::RSquare) => true,
            (TokenType::Bang, TokenType::Bang) => true,
            (TokenType::Colon, TokenType::Colon) => true,
            _ => false,
        }
    }

    fn mnemonic_at(&self, p: usize) -> (r: bool)
        ensures
            r == is_mnemonic_at(self.input(), p as nat),
    {
        p < self.tokens.len() && self.tokens[p].token_type.mnemonic().is_some()
    }

    fn register_at(&self, p: usize) -> (r: Option<u8>)
        ensures
            r == register_at(self.input(), p as nat),
    {
        if p < self.tokens.len() {
            self.tokens[p].token_type.encode()
        } else {
            None
        }
    }

    fn error_at(&self, p: usize, m: Option<Mnemonic>, e: Expected) -> (r: ParseError)
        ensures
            r@ == err_at(self.input(), p as nat, m, e),
    {
        let n = self.tokens.len();
        if p < n {
            let t = &self.tokens[p];
            ParseError {
                line: t.line,
                col: t.col,
                mnemonic: m,
                expected: e,
                found: Some(copy_token_type(&t.token_type)),
            }
        } else if n > 0 {
            let t = &self.tokens[n - 1];
            ParseError { line: t.line, col: t.col, mnemonic: m, expected: e, found: None }
        } else {
            ParseError { line: 0, col: 0, mnemonic: m, expected: e, found: None }
        }
    }

    /// `# integer` at `p`.
    fn parse_hash_int(&self, p: usize, m: Option<Mnemonic>) -> (r: Result<(i64, usize), ParseError>)
        requires
            p < usize::MAX - 2,
        ensures
            match spec_hash_int(self.input(), p as nat, m) {
                Ok((v, q)) => r matches Ok((v2, q2)) && v2 == v && q2 == q,
                Err(e) => r matches Err(e2) && e2@ == e,
            },
    {
        if !self.kind_is_hash(p) {
            return Err(self.error_at(p, m, Expected::Immediate));
        }
        if p + 1 < self.tokens.len() {
            if let TokenType::Integer(v) = self.tokens[p + 1].token_type {
                return Ok((v, p + 2));
            }
        }
        Err(self.error_at(p + 1, m, Expected::Integer))
    }

    fn parse_memory(&self, p: usize, m: Option<Mnemonic>) -> (r: Result<
        (MemoryOperand, usize),
        ParseError,
    >)
        requires
            p < usize::MAX - 8,
        ensures
            match spec_memory(self.input(), p as nat, m) {
                Ok((mo, q)) => r matches Ok((mo2, q2)) && mo2 == mo && q2 == q,
                Err(e) => r matches Err(e2) && e2@ == e,
            },
    {
        if !self.kind_is(p, &TokenType::LSquare) {
            return Err(self.error_at(p, m, Expected::Memory));
        }
        let base = match self.register_at(p + 1) {
            Some(b) => b,
            None => {
                return Err(self.error_at(p + 1, m, Expected::Register));
            },
        };
        let q = p + 2;
        let mut off: Option<MemOffset> = None;
        let mut q2 = q;
        if self.kind_is_comma(q) {
            if self.kind_is_hash(q + 1) {
                match self.parse_hash_int(q + 1, m) {
                    Ok((v, q3)) => {
                        off = Some(MemOffset::Imm(v));
                        q2 = q3;
                    },
                    Err(e) => {
                        return Err(e);
                    },
                }
            } else {
                match self.register_at(q + 1) {
                    Some(rm) => {
                        off = Some(MemOffset::Reg(rm));
                        q2 = q + 2;
                    },
                    None => {
                        return Err(self.error_at(q + 1, m, Expected::RegisterOrImmediate));
                    },
                }
            }
        }
        if !self.kind_is(q2, &TokenType::RSquare) {
            return Err(self.error_at(q2, m, Expected::RSquare));
        }
        if self.kind_is(q2 + 1, &TokenType::Bang) {
            return Ok((MemoryOperand { base, offset: off, mode: AddrMode::PreIndex }, q2 + 2));
        }
        if off.is_none() && self.kind_is_comma(q2 + 1) {
            return match self.parse_hash_int(q2 + 2, m) {
                Ok((v, q3)) => Ok(
                    (
                        MemoryOperand {
                            base,
                            offset: Some(MemOffset::Imm(v)),
                            mode: AddrMode::PostIndex,
                        },
                        q3,
                    ),
                ),
                Err(e) => Err(e),
            };
        }
        Ok((MemoryOperand { base, offset: off, mode: AddrMode::Offset }, q2 + 1))
    }

    fn parse_operand(&self, p: usize, m: Mnemonic, s: Slot) -> (r: Result<
        (Operand, usize),
        ParseError,
    >)
        requires
            p < usize::MAX - 8,
        ensures
            match spec_operand(self.input(), p as nat, m, s) {
                Ok((o, q)) => r matches Ok((o2, q2)) && o2@ == o && q2 == q,
                Err(e) => r matches Err(e2) && e2@ == e,
            },
    {
        match s {
            Slot::Reg => match self.register_at(p) {
                Some(x) => Ok((Operand::Register(x), p + 1)),
                None => Err(self.error_at(p, Some(m), Expected::Register)),
            },
            Slot::RegOrImm => {
                if self.kind_is_hash(p) {
                    match self.parse_hash_int(p, Some(m)) {
                        Ok((v, q)) => Ok((Operand::Immediate(v), q)),
                        Err(e) => Err(e),
                    }
                } else {
                    match self.register_at(p) {
                        Some(x) => Ok((Operand::Register(x), p + 1)),
                        None => Err(self.error_at(p, Some(m), Expected::RegisterOrImmediate)),
                    }
                }
            },
            Slot::Mem => match self.parse_memory(p, Some(m)) {
                Ok((mo, q)) => Ok((Operand::Memory(mo), q)),
                Err(e) => Err(e),
            },
            Slot::Target => {
                if p < self.tokens.len() {
                    if let TokenType::Identifier(name) = &self.tokens[p].token_type {
                        return Ok((Operand::Label((**name).clone()), p + 1));
                    }
                }
                Err(self.error_at(p, Some(m), Expected::Label))
            },
        }
    }

    /// The operands of `m`, separated by commas, from `p`.
    fn parse_operands(&self, p: usize, m: Mnemonic) -> (r: Result<(Vec<Operand>, usize), ParseError>)
        requires
            p <= self.tokens.len(),
            self.tokens.len() < usize::MAX - 64,
        ensures
            match spec_operands(self.input(), p as nat, m, 0, Seq::empty()) {
                Ok((os, q)) => r matches Ok((os2, q2)) && operand_views(os2@) == os && q2 == q
                    && q <= self.tokens.len(),
                Err(e) => r matches Err(e2) && e2@ == e,
            },
    {
        proof {
            lemma_operand_advances(self.input(), p as nat, m, slot(m, 0));
        }
        let (first, q) = match self.parse_operand(p, m, slot_of(m, 0)) {
            Ok(x) => x,
            Err(e) => {
                return Err(e);
            },
        };
        let mut ops: Vec<Operand> = Vec::new();
        ops.push(first);
        assert(operand_views(ops@) =~= Seq::<OperandView>::empty().push(first@));
        self.parse_operands_rest(q, m, ops)
    }

    /// The operands after the first, each after a comma, until `m` has all it takes.
    fn parse_operands_rest(&self, p: usize, m: Mnemonic, ops: Vec<Operand>) -> (r: Result<
        (Vec<Operand>, usize),
        ParseError,
    >)
        requires
            p <= self.tokens.len() < usize::MAX - 64,
            ops@.len() == 1,
        ensures
            match spec_operands(self.input(), p as nat, m, 1, operand_views(ops@)) {
                Ok((os, q)) => r matches Ok((os2, q2)) && operand_views(os2@) == os && q2 == q
                    && q <= self.tokens.len(),
                Err(e) => r matches Err(e2) && e2@ == e,
            },
    {
        let n = arity_of(m);
        let ghost first = operand_views(ops@);
        let ghost start = spec_operands(self.input(), p as nat, m, 1, first);
        let mut acc = ops;
        let mut q = p;
        let mut k: usize = 1;
        while k < n
            invariant
                n == arity(m),
                1 <= k,
                q <= self.tokens.len() < usize::MAX - 64,
                first == operand_views(ops@),
                start == spec_operands(self.input(), p as nat, m, 1, first),
                spec_operands(self.input(), q as nat, m, k as nat, operand_views(acc@)) == start,
            decreases n - k,
        {
            if !self.kind_is_comma(q) {
                return Err(self.error_at(q, Some(m), Expected::Comma));
            }
            proof {
                lemma_operand_advances(self.input(), (q + 1) as nat, m, slot(m, k as nat));
            }
            match self.parse_operand(q + 1, m, slot_of(m, k)) {
                Ok((o, q2)) => {
                    proof {
                        assert(operand_views(acc@.push(o)) =~= operand_views(acc@).push(o@));
                    }
                    acc.push(o);
                    q = q2;
                },
                Err(e) => {
                    return Err(e);
                },
            }
            k = k + 1;
        }
        Ok((acc, q))
    }

    /// The mnemonic token at `q`.
    fn parse_opcode(&self, q: usize) -> (r: Result<(Token, Mnemonic), ParseError>)
        ensures
            if q < self.input().len() && self.input()[q as int].kind is Mnemonic {
                r matches Ok((t, m)) && t@ == self.input()[q as int] && self.input()[q as int].kind
                    == TokenKind::Mnemonic(m)
            } else {
                r matches Err(e) && e@ == err_at(self.input(), q as nat, None, Expected::Mnemonic)
            },
    {
        if q < self.tokens.len() {
            if let Some(m) = self.tokens[q].token_type.mnemonic() {
                return Ok((copy_token(&self.tokens[q]), m));
            }
        }
        Err(self.error_at(q, None, Expected::Mnemonic))
    }

    /// The optional label in front of an instruction.
    fn parse_optional_label(&self, p: usize) -> (r: (Option<Token>, usize))
        requires
            p < usize::MAX - 2,
        ensures
            r.1 == spec_label(self.input(), p as nat).1,
            match spec_label(self.input(), p as nat).0 {
                Some(tv) => r.0 matches Some(t) && t@ == tv,
                None => r.0 is None,
            },
    {
        if p < self.tokens.len() && matches!(self.tokens[p].token_type, TokenType::Identifier(_)) {
            if self.kind_is(p + 1, &TokenType::Colon) && self.mnemonic_at(p + 2) {
                (Some(copy_token(&self.tokens[p])), p + 2)
            } else if self.mnemonic_at(p + 1) {
                (Some(copy_token(&self.tokens[p])), p + 1)
            } else {
                (None, p)
            }
        } else {
            (None, p)
        }
    }

    /// One instruction at the current position; on success the position moves past it.
    pub fn parse_instruction(&mut self) -> (r: Result<Instruction, ParseError>)
        requires
            old(self).position() <= old(self).input().len() < usize::MAX - 64,
        ensures
            final(self).input() == old(self).input(),
            match spec_instruction(old(self).input(), old(self).position()) {
                Ok((iv, q)) => r matches Ok(i) && i@ == iv && final(self).position() == q,
                Err(e) => r matches Err(e2) && e2@ == e && final(self).position() == old(
                    self,
                ).position(),
            },
    {
        let (label, q) = self.parse_optional_label(self.pos);
        let (opcode, m) = match self.parse_opcode(q) {
            Ok(x) => x,
            Err(e) => {
                return Err(e);
            },
        };
        match self.parse_operands(q + 1, m) {
            Ok((operands, r)) => {
                self.pos = r;
                Ok(Instruction { label, opcode, operands, address: 0 })
            },
            Err(e) => Err(e),
        }
    }

    /// The whole program: instructions until the tokens run out.
    pub fn parse_program(&mut self) -> (r: Result<Program, ParseError>)
        requires
            old(self).position() <= old(self).input().len() < usize::MAX - 64,
        ensures
            match spec_program(old(self).input(), old(self).position(), Seq::empty()) {
                Ok(is) => r matches Ok(prog) && instr_views(prog.instructions@) == is,
                Err(e) => r matches Err(e2) && e2@ == e,
            },
    {
        let mut instructions: Vec<Instruction> = Vec::new();
        let ghost start = self.pos as nat;
        let ghost t = self.input();
        assert(instr_views(instructions@) =~= Seq::<InstrView>::empty());
        while self.pos < self.tokens.len()
            invariant
                self.input() == t,
                t == old(self).input(),
                start == old(self).position(),
                self.pos <= self.tokens.len() < usize::MAX - 64,
                spec_program(t, self.pos as nat, instr_views(instructions@)) == spec_program(
                    t,
                    start,
                    Seq::empty(),
                ),
            decreases self.tokens.len() - self.pos,
        {
            proof {
                lemma_instruction_advances(t, self.pos as nat);
            }
            let ghost p0 = self.pos as nat;
            let ghost acc = instr_views(instructions@);
            match self.parse_instruction() {
                Ok(i) => {
                    proof {
                        assert(instr_views(instructions@.push(i)) =~= instr_views(
                            instructions@,
                        ).push(i@));
                    }
                    instructions.push(i);
                },
                Err(e) => {
                    assert(spec_program(t, p0, acc) == Err::<Seq<InstrView>, ParseErrorView>(e@));
                    return Err(e);
                },
            }
        }
        Ok(Program { instructions })
    }
}

} // verus!
