use vstd::prelude::*;
use crate::lexer::{Mnemonic, TokenKind, TokenType};
use crate::parser::{
    InstrView, Instruction, Operand, OperandView, Program, copy_token, instr_views,
};

verus! {

/// A label and the instruction it stands at.
#[derive(Debug, PartialEq, Clone)]
pub struct Symbol {
    pub name: String,
    pub index: usize,
    pub address: u64,
}

/// The labels of a program, each defined once, in order of definition.
#[derive(Debug, PartialEq, Clone)]
pub struct SymbolTable {
    pub symbols: Vec<Symbol>,
}

/// Mathematical view of a symbol table: each name with the index of its instruction.
pub open spec fn table_view(s: Seq<Symbol>) -> Seq<(Seq<char>, nat)> {
    s.map_values(|y: Symbol| (y.name@, y.index as nat))
}

/// Why label resolution failed.
#[derive(Debug, PartialEq, Clone)]
pub enum ResolveError {
    /// A label defined a second time, at the position of that second definition.
    DuplicateLabel { name: String, line: u64, col: u64 },
    /// A reference to a label that is not defined, at the position of the referring instruction.
    UndefinedLabel { name: String, line: u64, col: u64 },
    /// A branch target lies beyond the reach of the branch's offset field.
    ImmediateOutOfRange { line: u64, col: u64 },
}

pub enum ResolveErrorView {
    DuplicateLabel { name: Seq<char>, line: nat, col: nat },
    UndefinedLabel { name: Seq<char>, line: nat, col: nat },
    ImmediateOutOfRange { line: nat, col: nat },
}

impl View for ResolveError {
    type V = ResolveErrorView;

    open spec fn view(&self) -> ResolveErrorView {
        match self {
            ResolveError::DuplicateLabel { name, line, col } => ResolveErrorView::DuplicateLabel {
                name: name@,
                line: *line as nat,
                col: *col as nat,
            },
            ResolveError::UndefinedLabel { name, line, col } => ResolveErrorView::UndefinedLabel {
                name: name@,
                line: *line as nat,
                col: *col as nat,
            },
            ResolveError::ImmediateOutOfRange { line, col } => ResolveErrorView::ImmediateOutOfRange {
                line: *line as nat,
                col: *col as nat,
            },
        }
    }
}

// ---------------------------------------------------------------------------
// Resolution, as spec functions.
// ---------------------------------------------------------------------------

/// The label an instruction defines, if any.
pub open spec fn label_name(iv: InstrView) -> Option<Seq<char>> {
    match iv.label {
        Some(t) => match t.kind {
            TokenKind::Identifier(name) => Some(name),
            _ => None,
        },
        None => None,
    }
}

/// The instruction index of `name` in `tab`, searching from entry `j`.
pub open spec fn find_from(tab: Seq<(Seq<char>, nat)>, name: Seq<char>, j: nat) -> Option<nat>
    decreases tab.len() - j,
{
    if j >= tab.len() {
        None
    } else if tab[j as int].0 == name {
        Some(tab[j as int].1)
    } else {
        find_from(tab, name, j + 1)
    }
}

pub open spec fn lookup(tab: Seq<(Seq<char>, nat)>, name: Seq<char>) -> Option<nat> {
    find_from(tab, name, 0)
}

/// The symbol table of the first `n` instructions, or the first duplicate label among them.
pub open spec fn symbols_upto(is: Seq<InstrView>, n: nat) -> Result<
    Seq<(Seq<char>, nat)>,
    ResolveErrorView,
>
    decreases n,
{
    if n == 0 {
        Ok(Seq::empty())
    } else {
        match symbols_upto(is, (n - 1) as nat) {
            Err(e) => Err(e),
            Ok(tab) => match label_name(is[n - 1]) {
                None => Ok(tab),
                Some(name) => if lookup(tab, name) is Some {
                    Err(
                        ResolveErrorView::DuplicateLabel {
                            name,
                            line: is[n - 1].label->0.line,
                            col: is[n - 1].label->0.col,
                        },
                    )
                } else {
                    Ok(tab.push((name, (n - 1) as nat)))
                },
            },
        }
    }
}

pub open spec fn symbols(is: Seq<InstrView>) -> Result<Seq<(Seq<char>, nat)>, ResolveErrorView> {
    symbols_upto(is, is.len())
}

/// Largest magnitude (exclusive for positive offsets) of a branch offset:
/// 26 signed bits for `b` and `bl`, 19 for the conditional forms.
pub open spec fn offset_limit(iv: InstrView) -> int {
    match iv.opcode.kind {
        TokenKind::Mnemonic(Mnemonic::B) | TokenKind::Mnemonic(Mnemonic::Bl) => 0x200_0000,
        _ => 0x4_0000,
    }
}

/// Operand `o` of instruction `i` (which is `iv`) once its label is replaced by the
/// word offset `target - i`.
pub open spec fn resolve_operand(o: OperandView, tab: Seq<(Seq<char>, nat)>, i: nat, iv: InstrView) -> Result<
    OperandView,
    ResolveErrorView,
> {
    match o {
        OperandView::Label(name) => match lookup(tab, name) {
            None => Err(
                ResolveErrorView::UndefinedLabel { name, line: iv.opcode.line, col: iv.opcode.col },
            ),
            Some(k) => {
                let d = k - i;
                if -offset_limit(iv) <= d < offset_limit(iv) {
                    Ok(OperandView::Relative(d as i64))
                } else {
                    Err(ResolveErrorView::ImmediateOutOfRange { line: iv.opcode.line, col: iv.opcode.col })
                }
            },
        },
        _ => Ok(o),
    }
}

pub open spec fn operand_ok(is: Seq<InstrView>, tab: Seq<(Seq<char>, nat)>, i: int, j: int) -> bool {
    resolve_operand(is[i].operands[j], tab, i as nat, is[i]) is Ok
}

pub open spec fn instr_ok(is: Seq<InstrView>, tab: Seq<(Seq<char>, nat)>, i: int) -> bool {
    forall|j: int| 0 <= j < is[i].operands.len() ==> operand_ok(is, tab, i, j)
}

/// Every label reference of the program resolves.
pub open spec fn all_resolvable(is: Seq<InstrView>, tab: Seq<(Seq<char>, nat)>) -> bool {
    forall|i: int| 0 <= i < is.len() ==> #[trigger] instr_ok(is, tab, i)
}

/// `e` is the error of the first operand, in program order, that does not resolve.
pub open spec fn first_failure(is: Seq<InstrView>, tab: Seq<(Seq<char>, nat)>, e: ResolveErrorView) -> bool {
    exists|i: int, j: int|
        0 <= i < is.len() && 0 <= j < is[i].operands.len() && #[trigger] resolve_operand(
            is[i].operands[j],
            tab,
            i as nat,
            is[i],
        ) == Err::<OperandView, ResolveErrorView>(e) && (forall|i2: int|
            0 <= i2 < i ==> #[trigger] instr_ok(is, tab, i2)) && (forall|j2: int|
            0 <= j2 < j ==> #[trigger] operand_ok(is, tab, i, j2))
}

/// `out` is instruction `i` (which is `iv`) at address `base + 4 i` with its labels resolved.
pub open spec fn resolved_instr(
    iv: InstrView,
    tab: Seq<(Seq<char>, nat)>,
    i: nat,
    base: nat,
    out: InstrView,
) -> bool {
    &&& out.label == iv.label
    &&& out.opcode == iv.opcode
    &&& out.address == base + 4 * i
    &&& out.operands.len() == iv.operands.len()
    &&& forall|j: int|
        0 <= j < iv.operands.len() ==> resolve_operand(#[trigger] iv.operands[j], tab, i, iv) == Ok::<
            OperandView,
            ResolveErrorView,
        >(out.operands[j])
}

pub open spec fn resolved_program(
    is: Seq<InstrView>,
    tab: Seq<(Seq<char>, nat)>,
    base: nat,
    out: Seq<InstrView>,
) -> bool {
    out.len() == is.len() && forall|i: int|
        0 <= i < is.len() ==> resolved_instr(is[i], tab, i as nat, base, #[trigger] out[i])
}

proof fn lemma_symbols_error_persists(is: Seq<InstrView>, i: nat, n: nat)
    requires
        i <= n <= is.len(),
        symbols_upto(is, i) is Err,
    ensures
        symbols_upto(is, n) == symbols_upto(is, i),
    decreases n - i,
{
    if n > i {
        lemma_symbols_error_persists(is, i, (n - 1) as nat);
    }
}

proof fn lemma_find_push(tab: Seq<(Seq<char>, nat)>, x: (Seq<char>, nat), name: Seq<char>, j: nat)
    requires
        j <= tab.len(),
    ensures
        find_from(tab.push(x), name, j) == (if find_from(tab, name, j) is Some {
            find_from(tab, name, j)
        } else if x.0 == name {
            Some(x.1)
        } else {
            None
        }),
    decreases tab.len() - j,
{
    let t2 = tab.push(x);
    if j < tab.len() {
        assert(t2[j as int] == tab[j as int]);
        lemma_find_push(tab, x, name, j + 1);
    } else {
        assert(t2[j as int] == x);
        assert(find_from(t2, name, j + 1) is None);
    }
}

/// Each label of a program whose symbol table is built maps to its own instruction.
pub proof fn lemma_symbol_of_label(is: Seq<InstrView>, n: nat, a: int)
    requires
        n <= is.len(),
        symbols_upto(is, n) is Ok,
        0 <= a < n,
        label_name(is[a]) is Some,
    ensures
        lookup(symbols_upto(is, n)->Ok_0, label_name(is[a])->0) == Some(a as nat),
    decreases n,
{
    let name = label_name(is[a])->0;
    let prev = symbols_upto(is, (n - 1) as nat);
    assert(prev is Ok);
    let tab = prev->Ok_0;
    if a == n - 1 {
        assert(lookup(tab, name) is None);
        lemma_find_push(tab, (name, a as nat), name, 0);
    } else {
        lemma_symbol_of_label(is, (n - 1) as nat, a);
        if let Some(other) = label_name(is[n - 1]) {
            lemma_find_push(tab, (other, (n - 1) as nat), name, 0);
        }
    }
}

// ---------------------------------------------------------------------------
// The resolver.
// ---------------------------------------------------------------------------

/// The label an instruction defines, with the label's line and column.
fn label_text(ins: &Instruction) -> (r: Option<(String, u64, u64)>)
    ensures
        match label_name(ins@) {
            Some(name) => r matches Some((s, line, col)) && s@ == name && line as nat
                == ins@.label->0.line && col as nat == ins@.label->0.col,
            None => r is None,
        },
{
    match &ins.label {
        Some(t) => match &t.token_type {
            TokenType::Identifier(name) => Some(((**name).clone(), t.line, t.col)),
            _ => None,
        },
        None => None,
    }
}

fn find(syms: &Vec<Symbol>, name: &String) -> (r: Option<usize>)
    ensures
        match lookup(table_view(syms@), name@) {
            Some(k) => r matches Some(k2) && k2 == k,
            None => r is None,
        },
{
    let ghost tv = table_view(syms@);
    let mut j: usize = 0;
    while j < syms.len()
        invariant
            tv == table_view(syms@),
            j <= syms.len(),
            find_from(tv, name@, j as nat) == find_from(tv, name@, 0),
        decreases syms.len() - j,
    {
        assert(tv[j as int] == (syms@[j as int].name@, syms@[j as int].index as nat));
        if syms[j].name == *name {
            return Some(syms[j].index);
        }
        j = j + 1;
    }
    None
}

fn copy_operand(o: &Operand) -> (r: Operand)
    ensures
        r@ == o@,
{
    match o {
        Operand::Register(x) => Operand::Register(*x),
        Operand::Immediate(v) => Operand::Immediate(*v),
        Operand::Memory(m) => Operand::Memory(*m),
        Operand::Label(s) => Operand::Label(s.clone()),
        Operand::Relative(d) => Operand::Relative(*d),
    }
}

fn copy_label(l: &Option<crate::lexer::Token>) -> (r: Option<crate::lexer::Token>)
    ensures
        match *l {
            Some(t) => r matches Some(t2) && t2@ == t@,
            None => r is None,
        },
{
    match l {
        Some(t) => Some(copy_token(t)),
        None => None,
    }
}

fn resolve_one(o: &Operand, syms: &Vec<Symbol>, i: usize, ins: &Instruction) -> (r: Result<
    Operand,
    ResolveError,
>)
    ensures
        match resolve_operand(o@, table_view(syms@), i as nat, ins@) {
            Ok(ov) => r matches Ok(o2) && o2@ == ov,
            Err(e) => r matches Err(e2) && e2@ == e,
        },
{
    match o {
        Operand::Label(name) => match find(syms, name) {
            None => Err(
                ResolveError::UndefinedLabel {
                    name: name.clone(),
                    line: ins.opcode.line,
                    col: ins.opcode.col,
                },
            ),
            Some(k) => {
                let d: i128 = k as i128 - i as i128;
                let limit: i128 = match ins.opcode.token_type {
                    TokenType::BInst | TokenType::BlInst => 0x200_0000,
                    _ => 0x4_0000,
                };
                if -limit <= d && d < limit {
                    Ok(Operand::Relative(d as i64))
                } else {
                    Err(
                        ResolveError::ImmediateOutOfRange {
                            line: ins.opcode.line,
                            col: ins.opcode.col,
                        },
                    )
                }
            },
        },
        _ => Ok(copy_operand(o)),
    }
}

/// Builds the symbol table: pass one.
fn collect_symbols(is: &Vec<Instruction>, base: u64) -> (r: Result<SymbolTable, ResolveError>)
    requires
        base + 4 * is.len() <= u64::MAX,
    ensures
        match symbols(instr_views(is@)) {
            Ok(tab) => r matches Ok(t) && table_view(t.symbols@) == tab && forall|k: int|
                0 <= k < t.symbols@.len() ==> #[trigger] t.symbols@[k].address == base + 4
                    * t.symbols@[k].index,
            Err(e) => r matches Err(e2) && e2@ == e,
        },
{
    let ghost ivs = instr_views(is@);
    let n = is.len();
    let mut syms: Vec<Symbol> = Vec::new();
    let mut i: usize = 0;
    assert(table_view(syms@) =~= Seq::<(Seq<char>, nat)>::empty());
    while i < n
        invariant
            n == is.len(),
            ivs == instr_views(is@),
            base + 4 * n <= u64::MAX,
            i <= n,
            symbols_upto(ivs, i as nat) == Ok::<Seq<(Seq<char>, nat)>, ResolveErrorView>(
                table_view(syms@),
            ),
            forall|k: int|
                0 <= k < syms@.len() ==> #[trigger] syms@[k].address == base + 4 * syms@[k].index,
        decreases n - i,
    {
        assert(ivs[i as int] == is@[i as int]@);
        match label_text(&is[i]) {
            None => {},
            Some((name, line, col)) => {
                match find(&syms, &name) {
                    Some(_) => {
                        proof {
                            lemma_symbols_error_persists(ivs, (i + 1) as nat, n as nat);
                        }
                        return Err(ResolveError::DuplicateLabel { name, line, col });
                    },
                    None => {
                        let sym = Symbol { name, index: i, address: base + 4 * (i as u64) };
                        proof {
                            assert(table_view(syms@.push(sym)) =~= table_view(syms@).push(
                                (sym.name@, i as nat),
                            ));
                        }
                        syms.push(sym);
                    },
                }
            },
        }
        i = i + 1;
    }
    Ok(SymbolTable { symbols: syms })
}

/// Resolves every label reference of the program and gives each instruction its address
/// `base + 4 * index`. On success the program is rewritten and its symbol table returned;
/// on an error the program is left as it was.
pub fn resolve(program: &mut Program, base: u64) -> (r: Result<SymbolTable, ResolveError>)
    requires
        base + 4 * old(program).instructions.len() <= u64::MAX,
    ensures
        ({
            let is = instr_views(old(program).instructions@);
            match symbols(is) {
                Err(e) => r matches Err(e2) && e2@ == e && *final(program) == *old(program),
                Ok(tab) => (r is Ok <==> all_resolvable(is, tab)) && (r matches Ok(t) ==> (
                table_view(t.symbols@) == tab && resolved_program(
                    is,
                    tab,
                    base as nat,
                    instr_views(final(program).instructions@),
                ) && forall|k: int|
                    0 <= k < t.symbols@.len() ==> #[trigger] t.symbols@[k].address == base + 4
                        * t.symbols@[k].index)) && (r matches Err(e2) ==> first_failure(is, tab, e2@)
                    && *final(program) == *old(program)),
            }
        }),
{
    let table = match collect_symbols(&program.instructions, base) {
        Ok(t) => t,
        Err(e) => {
            return Err(e);
        },
    };
    let ghost is = instr_views(program.instructions@);
    let ghost tab = table_view(table.symbols@);
    let n = program.instructions.len();
    let mut out: Vec<Instruction> = Vec::new();
    let mut i: usize = 0;
    while i < n
        invariant
            n == program.instructions.len(),
            is == instr_views(program.instructions@),
            tab == table_view(table.symbols@),
            symbols(is) == Ok::<Seq<(Seq<char>, nat)>, ResolveErrorView>(tab),
            forall|k: int|
                0 <= k < table.symbols@.len() ==> #[trigger] table.symbols@[k].address == base + 4
                    * table.symbols@[k].index,
            *program == *old(program),
            base + 4 * n <= u64::MAX,
            i <= n,
            out@.len() == i,
            forall|i2: int| 0 <= i2 < i ==> #[trigger] instr_ok(is, tab, i2),
            forall|i2: int|
                0 <= i2 < i ==> resolved_instr(is[i2], tab, i2 as nat, base as nat, #[trigger] instr_views(out@)[i2]),
        decreases n - i,
    {
        let ins = &program.instructions[i];
        assert(is[i as int] == ins@);
        let m = ins.operands.len();
        let mut ops: Vec<Operand> = Vec::new();
        let mut j: usize = 0;
        while j < m
            invariant
                m == ins.operands.len(),
                is[i as int] == ins@,
                is == instr_views(program.instructions@),
                tab == table_view(table.symbols@),
                symbols(is) == Ok::<Seq<(Seq<char>, nat)>, ResolveErrorView>(tab),
                *program == *old(program),
                n == program.instructions.len(),
                forall|i2: int| 0 <= i2 < i ==> #[trigger] instr_ok(is, tab, i2),
                i < n,
                j <= m,
                ops@.len() == j,
                forall|j2: int| 0 <= j2 < j ==> #[trigger] operand_ok(is, tab, i as int, j2),
                forall|j2: int|
                    0 <= j2 < j ==> resolve_operand(#[trigger] is[i as int].operands[j2], tab, i as nat, is[i as int])
                        == Ok::<OperandView, ResolveErrorView>(ops@[j2]@),
            decreases m - j,
        {
            assert(is[i as int].operands[j as int] == ins.operands@[j as int]@);
            match resolve_one(&ins.operands[j], &table.symbols, i, ins) {
                Ok(o) => {
                    ops.push(o);
                },
                Err(e) => {
                    assert(resolve_operand(is[i as int].operands[j as int], tab, i as nat, is[i as int])
                        == Err::<OperandView, ResolveErrorView>(e@));
                    assert(!operand_ok(is, tab, i as int, j as int));
                    assert(!all_resolvable(is, tab)) by {
                        assert(!instr_ok(is, tab, i as int));
                    }
                    let ghost ii: int = i as int;
                    let ghost jj: int = j as int;
                    assert(resolve_operand(is[ii].operands[jj], tab, ii as nat, is[ii]) == Err::<
                        OperandView,
                        ResolveErrorView,
                    >(e@));
                    assert(forall|j2: int| 0 <= j2 < jj ==> #[trigger] operand_ok(is, tab, ii, j2));
                    assert(first_failure(is, tab, e@));
                    return Err(e);
                },
            }
            j = j + 1;
        }
        let ni = Instruction {
            label: copy_label(&ins.label),
            opcode: copy_token(&ins.opcode),
            operands: ops,
            address: base + 4 * (i as u64),
        };
        proof {
            assert(instr_ok(is, tab, i as int));
            assert(instr_views(out@.push(ni)) =~= instr_views(out@).push(ni@));
            assert(resolved_instr(is[i as int], tab, i as nat, base as nat, ni@));
        }
        out.push(ni);
        i = i + 1;
    }
    proof {
        assert(all_resolvable(is, tab));
        assert(resolved_program(is, tab, base as nat, instr_views(out@)));
    }
    program.instructions = out;
    Ok(table)
}

} // verus!
