use vstd::prelude::*;
use vstd::arithmetic::div_mod::lemma_div_multiples_vanish;
use crate::encoder::{
    EncodeError, Encoder, encode_spec, extract, is_branch, lemma_branch_offset_boundary,
    offset_field,
};
use crate::lexer::{LexError, Lexer, TokenKind, lemma_lex_length, lex_source};
use crate::parser::{InstrView, OperandView, ParseError, Parser, instr_views, parse_tokens};
use crate::resolver::{
    ResolveError, ResolveErrorView, all_resolvable, first_failure, label_name, lemma_symbol_of_label,
    resolve, resolve_operand, resolved_program, symbols,
};

verus! {

/// Why a source text could not be assembled, by stage.
#[derive(Debug, PartialEq, Clone)]
pub enum AsmError {
    Lex(LexError),
    Parse(ParseError),
    Resolve(ResolveError),
    /// The instruction at `line`/`col` could not be encoded.
    Encode { line: u64, col: u64, error: EncodeError },
    /// The program does not fit in the address space above the base address.
    AddressOverflow,
}

/// `r` is the outcome of encoding the resolved program `out`: all its words, or the
/// error of its first instruction that cannot be encoded, at that instruction's position.
pub open spec fn encoded(out: Seq<InstrView>, r: Result<Vec<u32>, AsmError>) -> bool {
    match r {
        Ok(ws) => ws@.len() == out.len() && forall|i: int|
            0 <= i < out.len() ==> encode_spec(#[trigger] out[i]) == Ok::<u32, EncodeError>(ws@[i]),
        Err(AsmError::Encode { line, col, error }) => exists|k: int|
            0 <= k < out.len() && #[trigger] encode_spec(out[k]) == Err::<u32, EncodeError>(error)
                && line as nat == out[k].opcode.line && col as nat == out[k].opcode.col && forall|
                i: int,
            |
                0 <= i < k ==> #[trigger] encode_spec(out[i]) is Ok,
        _ => false,
    }
}

/// A branch to a label resolves to the distance in words from the branch to the label,
/// `(A - P) / 4` for the label's address `A` and the branch's address `P`; when the branch
/// encodes, its offset field holds that distance, sign-extended. Otherwise resolution fails
/// with `ImmediateOutOfRange`, exactly when the distance is out of the field's reach.
pub proof fn lemma_branch_to_label(
    is: Seq<InstrView>,
    base: nat,
    out: Seq<InstrView>,
    p: int,
    a: int,
)
    requires
        symbols(is) is Ok,
        resolved_program(is, symbols(is)->Ok_0, base, out),
        0 <= p < is.len(),
        0 <= a < is.len(),
        label_name(is[a]) is Some,
        is[p].opcode.kind is Mnemonic,
        is_branch(is[p].opcode.kind->Mnemonic_0),
        is[p].operands.len() >= 1,
        is[p].operands.last() == OperandView::Label(label_name(is[a])->0),
    ensures
        ({
            let tab = symbols(is)->Ok_0;
            let m = is[p].opcode.kind->Mnemonic_0;
            let d = (out[a].address - out[p].address) / 4;
            let lim: int = if m == crate::lexer::Mnemonic::B || m == crate::lexer::Mnemonic::Bl {
                0x200_0000
            } else {
                0x4_0000
            };
            let res = resolve_operand(is[p].operands.last(), tab, p as nat, is[p]);
            &&& d == a - p
            &&& (res is Ok <==> -lim <= d < lim)
            &&& (res is Ok ==> res == Ok::<OperandView, ResolveErrorView>(OperandView::Relative(d as i64))
                && out[p].operands.last() == OperandView::Relative(d as i64))
            &&& (res is Err ==> res == Err::<OperandView, ResolveErrorView>(
                ResolveErrorView::ImmediateOutOfRange { line: is[p].opcode.line, col: is[p].opcode.col },
            ))
            &&& (res is Ok && encode_spec(out[p]) is Ok && (out[p].operands.len() == 1 || (
            out[p].operands.len() == 2 && out[p].operands[0] is Register)) ==> extract(
                encode_spec(out[p])->Ok_0 as int,
                offset_field(m, d as i64),
            ) == d)
        }),
{
    let tab = symbols(is)->Ok_0;
    let m = is[p].opcode.kind->Mnemonic_0;
    lemma_symbol_of_label(is, is.len(), a);
    assert(resolved_instr_at(is, tab, base, out, p));
    assert(resolved_instr_at(is, tab, base, out, a));
    assert(out[a].address - out[p].address == 4 * (a - p));
    lemma_div_multiples_vanish(a - p, 4);
    let last = is[p].operands.len() - 1;
    let res = resolve_operand(is[p].operands[last], tab, p as nat, is[p]);
    if res is Ok {
        assert(out[p].operands[last] == OperandView::Relative((a - p) as i64));
        let iv = out[p];
        if encode_spec(iv) is Ok && (iv.operands.len() == 1 || (iv.operands.len() == 2
            && iv.operands[0] is Register)) {
            let d = (a - p) as i64;
            let rt: u8 = if iv.operands.len() == 2 {
                iv.operands[0]->Register_0
            } else {
                0
            };
            assert(iv.opcode.kind == TokenKind::Mnemonic(m));
            if m == crate::lexer::Mnemonic::B || m == crate::lexer::Mnemonic::Bl {
                if iv.operands.len() == 1 {
                    assert(iv.operands =~= crate::encoder::branch_operands(m, rt, d));
                    lemma_branch_offset_boundary(iv, m, rt, d);
                }
            } else if iv.operands.len() == 2 {
                assert(encode_spec(iv) is Ok ==> rt <= 31);
                assert(iv.operands =~= crate::encoder::branch_operands(m, rt, d));
                lemma_branch_offset_boundary(iv, m, rt, d);
            }
        }
    }
}

pub open spec fn resolved_instr_at(
    is: Seq<InstrView>,
    tab: Seq<(Seq<char>, nat)>,
    base: nat,
    out: Seq<InstrView>,
    i: int,
) -> bool {
    crate::resolver::resolved_instr(is[i], tab, i as nat, base, out[i])
}

/// The whole pipeline: lexing, parsing, label resolution with instruction `n` at address
/// `base + 4 n`, and encoding. Any error stops it, and the first error is reported.
pub fn assemble(source: &str, base: u64) -> (r: Result<Vec<u32>, AsmError>)
    requires
        source@.len() < usize::MAX - 64,
    ensures
        match lex_source(source@) {
            Err(e) => r matches Err(AsmError::Lex(e2)) && e2 == e,
            Ok(toks) => match parse_tokens(toks) {
                Err(e) => r matches Err(AsmError::Parse(e2)) && e2@ == e,
                Ok(is) => if base + 4 * is.len() > u64::MAX {
                    r matches Err(AsmError::AddressOverflow)
                } else {
                    match symbols(is) {
                        Err(e) => r matches Err(AsmError::Resolve(e2)) && e2@ == e,
                        Ok(tab) => if !all_resolvable(is, tab) {
                            r matches Err(AsmError::Resolve(e2)) && first_failure(is, tab, e2@)
                        } else {
                            exists|out: Seq<InstrView>|
                                #[trigger] resolved_program(is, tab, base as nat, out) && encoded(
                                    out,
                                    r,
                                )
                        },
                    }
                },
            },
        },
{
    let mut lexer = Lexer::new(source);
    match lexer.lex() {
        Ok(()) => {},
        Err(e) => {
            return Err(AsmError::Lex(e));
        },
    }
    proof {
        lemma_lex_length(source@, 0, 1, 1);
    }
    let mut parser = Parser::new(lexer.tokens);
    let mut program = match parser.parse_program() {
        Ok(p) => p,
        Err(e) => {
            return Err(AsmError::Parse(e));
        },
    };
    let n = program.instructions.len() as u64;
    if n > (u64::MAX - base) / 4 {
        assert(base + 4 * n > u64::MAX) by (nonlinear_arith)
            requires
                n > (u64::MAX - base) / 4,
                base <= u64::MAX,
        ;
        return Err(AsmError::AddressOverflow);
    }
    assert(base + 4 * n <= u64::MAX) by (nonlinear_arith)
        requires
            n <= (u64::MAX - base) / 4,
            base <= u64::MAX,
    ;
    let ghost is = instr_views(program.instructions@);
    match resolve(&mut program, base) {
        Ok(_) => {},
        Err(e) => {
            return Err(AsmError::Resolve(e));
        },
    }
    let ghost out = instr_views(program.instructions@);
    let encoder = Encoder::new(program);
    let r = match encoder.encode_program() {
        Ok(ws) => Ok(ws),
        Err((k, e)) => {
            let op = &encoder.program.instructions[k].opcode;
            assert(out[k as int] == encoder.program.instructions@[k as int]@);
            Err(AsmError::Encode { line: op.line, col: op.col, error: e })
        },
    };
    assert(encoded(out, r));
    r
}

} // verus!
