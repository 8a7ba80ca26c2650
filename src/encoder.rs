use vstd::prelude::*;
use vstd::arithmetic::power2::{pow2, lemma2_to64, lemma_pow2_pos, lemma_pow2_adds, lemma_pow2_strictly_increases};
use vstd::arithmetic::mul::lemma_mul_inequality;
use vstd::arithmetic::div_mod::{
    lemma_div_multiples_vanish_fancy, lemma_hoist_over_denominator, lemma_mod_multiples_vanish,
    lemma_small_mod,
};
use vstd::bits::{lemma_u64_shl_is_mul, lemma_u64_pow2_no_overflow};
use crate::lexer::{Mnemonic, TokenKind};
use crate::parser::{
    AddrMode, InstrView, Instruction, MemOffset, MemoryOperand, Operand, OperandView, Program,
    instr_views, operand_views,
};

verus! {

/// One bit field of an instruction word: `width` bits from bit `start`, holding `value`
/// as an unsigned number or, if `signed`, in two's complement.
#[derive(Debug, Clone, Copy, PartialEq, Eq, Structural)]
pub struct Field {
    pub value: i64,
    pub start: u32,
    pub width: u32,
    pub signed: bool,
}

/// Why an instruction could not be encoded.
#[derive(Debug, Clone, Copy, PartialEq, Eq, Structural)]
pub enum EncodeError {
    /// The mnemonic and operand kinds match no instruction format.
    UnsupportedInstruction,
    /// An operand that earlier stages should have ruled out: a register number above 31,
    /// an unresolved label, or a malformed field table.
    OperandEncodingError,
    /// An immediate or offset does not fit its field.
    ImmediateOutOfRange,
}

// ---------------------------------------------------------------------------
// Fields and packing.
// ---------------------------------------------------------------------------

pub open spec fn field_end(f: Field) -> nat {
    (f.start + f.width) as nat
}

/// Fields are non-empty, lie inside 32 bits and come in increasing, non-overlapping order.
pub open spec fn layout_ok(fs: Seq<Field>) -> bool {
    &&& forall|i: int| 0 <= i < fs.len() ==> 1 <= #[trigger] fs[i].width && field_end(fs[i]) <= 32
    &&& forall|i: int| 0 <= i < fs.len() - 1 ==> field_end(#[trigger] fs[i]) <= fs[i + 1].start
}

/// Whether a value fits its field.
pub open spec fn fits(f: Field) -> bool {
    if f.signed {
        -(pow2((f.width - 1) as nat) as int) <= f.value < pow2((f.width - 1) as nat)
    } else {
        0 <= f.value < pow2(f.width as nat)
    }
}

pub open spec fn all_fit(fs: Seq<Field>) -> bool {
    forall|i: int| 0 <= i < fs.len() ==> fits(#[trigger] fs[i])
}

/// The bits a field holds: the value itself, or its two's complement when negative.
pub open spec fn field_bits(f: Field) -> int {
    if f.value >= 0 {
        f.value as int
    } else {
        f.value + pow2(f.width as nat)
    }
}

/// The word with each field's bits placed at its start.
pub open spec fn packed(fs: Seq<Field>) -> int
    decreases fs.len(),
{
    if fs.len() == 0 {
        0
    } else {
        packed(fs.drop_last()) + field_bits(fs.last()) * pow2(fs.last().start as nat)
    }
}

/// Packing a field table: a malformed table is an internal fault; otherwise every value must fit.
pub open spec fn pack(fs: Seq<Field>) -> Result<u32, EncodeError> {
    if !layout_ok(fs) {
        Err(EncodeError::OperandEncodingError)
    } else if !all_fit(fs) {
        Err(EncodeError::ImmediateOutOfRange)
    } else {
        Ok(packed(fs) as u32)
    }
}

/// The `width` bits of a word from bit `start`.
pub open spec fn raw_field(word: int, f: Field) -> int {
    (word / pow2(f.start as nat) as int) % (pow2(f.width as nat) as int)
}

/// The field `f` read back from a word.
pub open spec fn extract(word: int, f: Field) -> int {
    let raw = raw_field(word, f);
    if f.signed && raw >= pow2((f.width - 1) as nat) {
        raw - pow2(f.width as nat)
    } else {
        raw
    }
}

proof fn lemma_raw_top(lo: int, b: int, ps: int, pw: int)
    requires
        0 <= lo < ps,
        0 <= b < pw,
    ensures
        ((lo + b * ps) / ps) % pw == b,
{
    assert(ps * b + lo == lo + b * ps) by (nonlinear_arith);
    lemma_div_multiples_vanish_fancy(b, lo, ps);
    lemma_small_mod(b as nat, pw as nat);
}

proof fn lemma_raw_below(x: int, c: int, ps: int, pw: int)
    requires
        0 < ps,
        0 < pw,
    ensures
        ((x + (c * pw) * ps) / ps) % pw == (x / ps) % pw,
{
    lemma_hoist_over_denominator(x, c * pw, ps as nat);
    let q = x / ps;
    assert(pw * c + q == q + c * pw) by (nonlinear_arith);
    lemma_mod_multiples_vanish(c, q, pw);
}

/// The bits a field holds, read as the field's kind of number, are its value.
proof fn lemma_bits_decode(f: Field)
    requires
        1 <= f.width <= 32,
        fits(f),
    ensures
        0 <= field_bits(f) < pow2(f.width as nat),
        (if f.signed && field_bits(f) >= pow2((f.width - 1) as nat) {
            field_bits(f) - pow2(f.width as nat)
        } else {
            field_bits(f)
        }) == f.value as int,
{
    lemma_pow2_adds((f.width - 1) as nat, 1);
    lemma2_to64();
}

/// Each field of a packed word reads back as the bits that were packed into it.
proof fn lemma_raw_round_trip(fs: Seq<Field>, k: int)
    requires
        layout_ok(fs),
        all_fit(fs),
        0 <= k < fs.len(),
    ensures
        raw_field(packed(fs), fs[k]) == field_bits(fs[k]),
    decreases fs.len(),
{
    let n = fs.len() as int;
    let init = fs.drop_last();
    let last = fs.last();
    let f = fs[k];
    let ps = pow2(f.start as nat) as int;
    let pw = pow2(f.width as nat) as int;
    lemma_layout_init(fs);
    lemma_packed_bound(init);
    lemma_pow2_pos(f.start as nat);
    lemma_pow2_pos(f.width as nat);
    assert(fits(fs[k]) && 1 <= fs[k].width && field_end(fs[k]) <= 32);
    lemma_bits_decode(f);
    assert(packed(fs) == packed(init) + field_bits(last) * pow2(last.start as nat));
    if k == n - 1 {
        assert(packed(init) < ps) by {
            if init.len() > 0 {
                lemma_layout_ordered(fs, n - 2, n - 1);
                assert(init.last() == fs[n - 2]);
                if field_end(init.last()) < f.start {
                    lemma_pow2_strictly_increases(field_end(init.last()), f.start as nat);
                }
            }
        }
        lemma_raw_top(packed(init), field_bits(f), ps, pw);
    } else {
        assert(init[k] == f);
        lemma_raw_round_trip(init, k);
        lemma_layout_ordered(fs, k, n - 1);
        let gap = (last.start - field_end(f)) as nat;
        let bl = field_bits(last);
        lemma_pow2_adds(f.start as nat, f.width as nat);
        lemma_pow2_adds(field_end(f), gap);
        let pg = pow2(gap) as int;
        assert(pow2(last.start as nat) == ps * pw * pg);
        let c = bl * pg;
        assert(bl * (ps * pw * pg) == (c * pw) * ps) by (nonlinear_arith)
            requires
                c == bl * pg,
        ;
        lemma_raw_below(packed(init), c, ps, pw);
    }
}

/// Each field of a packed word reads back as the value that was packed into it:
/// decoding an encoded field table gives back the table's values.
pub proof fn lemma_fields_round_trip(fs: Seq<Field>, k: int)
    requires
        layout_ok(fs),
        all_fit(fs),
        0 <= k < fs.len(),
    ensures
        extract(packed(fs), fs[k]) == fs[k].value as int,
{
    lemma_raw_round_trip(fs, k);
    assert(fits(fs[k]) && 1 <= fs[k].width && field_end(fs[k]) <= 32);
    lemma_bits_decode(fs[k]);
}

fn pow2_of(e: u32) -> (r: u64)
    requires
        e < 64,
    ensures
        r == pow2(e as nat),
{
    proof {
        lemma_u64_pow2_no_overflow(e as nat);
        lemma_u64_shl_is_mul(1, e as u64);
    }
    1u64 << (e as u64)
}

fn field_fits(f: Field) -> (r: bool)
    requires
        1 <= f.width <= 32,
    ensures
        r == fits(f),
{
    let p = pow2_of(f.width) as i64;
    proof {
        lemma2_to64();
        if f.width < 32 {
            lemma_pow2_strictly_increases(f.width as nat, 32);
        }
    }
    if f.signed {
        let h = pow2_of(f.width - 1) as i64;
        proof {
            lemma_pow2_strictly_increases((f.width - 1) as nat, 32);
        }
        -h <= f.value && f.value < h
    } else {
        0 <= f.value && f.value < p
    }
}

proof fn lemma_layout_init(fs: Seq<Field>)
    requires
        layout_ok(fs),
        all_fit(fs),
        fs.len() > 0,
    ensures
        layout_ok(fs.drop_last()),
        all_fit(fs.drop_last()),
{
    let init = fs.drop_last();
    assert forall|i: int| 0 <= i < init.len() implies 1 <= #[trigger] init[i].width && field_end(
        init[i],
    ) <= 32 by {
        assert(init[i] == fs[i]);
    }
    assert forall|i: int| 0 <= i < init.len() - 1 implies field_end(#[trigger] init[i])
        <= init[i + 1].start by {
        assert(init[i] == fs[i]);
        assert(init[i + 1] == fs[i + 1]);
    }
    assert forall|i: int| 0 <= i < init.len() implies fits(#[trigger] init[i]) by {
        assert(init[i] == fs[i]);
    }
}

/// In a well-formed table every field ends before any later field starts.
proof fn lemma_layout_ordered(fs: Seq<Field>, i: int, j: int)
    requires
        layout_ok(fs),
        0 <= i < j < fs.len(),
    ensures
        field_end(fs[i]) <= fs[j].start,
    decreases j - i,
{
    if j > i + 1 {
        lemma_layout_ordered(fs, i, j - 1);
        assert(field_end(fs[j - 1]) <= fs[j].start);
        assert(1 <= fs[j - 1].width);
    }
}

proof fn lemma_packed_bound(fs: Seq<Field>)
    requires
        layout_ok(fs),
        all_fit(fs),
    ensures
        0 <= packed(fs),
        fs.len() > 0 ==> packed(fs) < pow2(field_end(fs.last())),
    decreases fs.len(),
{
    if fs.len() > 0 {
        let init = fs.drop_last();
        let f = fs.last();
        lemma_layout_init(fs);
        lemma_packed_bound(init);
        assert(fits(fs[fs.len() - 1]));
        assert(1 <= fs[fs.len() - 1].width);
        let b = field_bits(f);
        let ps = pow2(f.start as nat);
        let pw = pow2(f.width as nat);
        assert(0 <= b < pw) by {
            if f.signed {
                lemma_pow2_adds((f.width - 1) as nat, 1);
                lemma2_to64();
            }
        }
        if init.len() > 0 {
            assert(field_end(init.last()) <= f.start) by {
                assert(init.last() == fs[fs.len() - 2]);
            }
            if field_end(init.last()) < f.start {
                lemma_pow2_strictly_increases(field_end(init.last()), f.start as nat);
            }
        }
        lemma_mul_inequality(b, pw - 1, ps as int);
        lemma_pow2_adds(f.start as nat, f.width as nat);
        assert((pw - 1) * ps == pw * ps - ps) by (nonlinear_arith);
        assert(pw * ps == ps * pw) by (nonlinear_arith);
        assert(0 <= b * ps) by (nonlinear_arith)
            requires
                0 <= b,
                0 <= ps,
        ;
        lemma_pow2_pos(f.start as nat);
        assert(packed(init) < ps);
        assert(packed(fs) == packed(init) + b * ps);
        assert(pow2(field_end(f)) == ps * pw);
    }
}

fn fields_fit(fs: &Vec<Field>) -> (r: bool)
    requires
        forall|i: int| 0 <= i < fs.len() ==> 1 <= #[trigger] fs@[i].width <= 32,
    ensures
        r == all_fit(fs@),
{
    let n = fs.len();
    let mut j: usize = 0;
    while j < n
        invariant
            n == fs.len(),
            j <= n,
            forall|i: int| 0 <= i < n ==> 1 <= #[trigger] fs@[i].width <= 32,
            forall|i: int| 0 <= i < j ==> fits(#[trigger] fs@[i]),
        decreases n - j,
    {
        if !field_fits(fs[j]) {
            return false;
        }
        j = j + 1;
    }
    true
}

/// Packs a field table into a word.
pub fn pack_fields(fs: &Vec<Field>) -> (r: Result<u32, EncodeError>)
    ensures
        r == pack(fs@),
{
    let n = fs.len();
    let mut k: usize = 0;
    while k < n
        invariant
            n == fs.len(),
            k <= n,
            forall|i: int| 0 <= i < k ==> 1 <= #[trigger] fs@[i].width && field_end(fs@[i]) <= 32,
            forall|i: int| 0 <= i < k && i < n - 1 ==> field_end(#[trigger] fs@[i]) <= fs@[i + 1].start,
        decreases n - k,
    {
        let f = fs[k];
        if f.width < 1 || f.width > 32 || f.start > 32 - f.width {
            return Err(EncodeError::OperandEncodingError);
        }
        if k + 1 < n && f.start + f.width > fs[k + 1].start {
            return Err(EncodeError::OperandEncodingError);
        }
        k = k + 1;
    }
    if !fields_fit(fs) {
        return Err(EncodeError::ImmediateOutOfRange);
    }
    let mut word: u64 = 0;
    let mut k: usize = 0;
    assert(fs@.take(0) =~= Seq::<Field>::empty());
    while k < n
        invariant
            n == fs.len(),
            k <= n,
            layout_ok(fs@),
            all_fit(fs@),
            word == packed(fs@.take(k as int)),
            k > 0 ==> word < pow2(field_end(fs@[k - 1])),
            k == 0 ==> word == 0,
        decreases n - k,
    {
        let f = fs[k];
        let ghost pre = fs@.take(k as int);
        let ghost next = fs@.take(k + 1);
        assert(next.drop_last() =~= pre);
        assert(next.last() == f);
        assert(layout_ok(next)) by {
            assert forall|i: int| 0 <= i < next.len() implies 1 <= #[trigger] next[i].width
                && field_end(next[i]) <= 32 by {
                assert(next[i] == fs@[i]);
            }
            assert forall|i: int| 0 <= i < next.len() - 1 implies field_end(#[trigger] next[i])
                <= next[i + 1].start by {
                assert(next[i] == fs@[i]);
                assert(next[i + 1] == fs@[i + 1]);
            }
        }
        assert(all_fit(next)) by {
            assert forall|i: int| 0 <= i < next.len() implies fits(#[trigger] next[i]) by {
                assert(next[i] == fs@[i]);
            }
        }
        proof {
            lemma_packed_bound(next);
            lemma2_to64();
            assert(fits(fs@[k as int]));
            assert(1 <= fs@[k as int].width && field_end(fs@[k as int]) <= 32);
            if field_end(f) < 32 {
                lemma_pow2_strictly_increases(field_end(f), 32);
            }
        }
        let bits: u64 = if f.value >= 0 {
            f.value as u64
        } else {
            (f.value as i128 + pow2_of(f.width) as i128) as u64
        };
        let shift = pow2_of(f.start);
        proof {
            assert(bits == field_bits(f));
            assert(packed(next) == word + bits * shift);
        }
        word = word + bits * shift;
        k = k + 1;
    }
    proof {
        assert(fs@.take(n as int) =~= fs@);
        lemma2_to64();
        if n > 0 {
            assert(field_end(fs@[n - 1]) <= 32);
            if field_end(fs@[n - 1]) < 32 {
                lemma_pow2_strictly_increases(field_end(fs@[n - 1]), 32);
            }
        }
    }
    Ok(word as u32)
}

// ---------------------------------------------------------------------------
// The instruction formats.
// ---------------------------------------------------------------------------

pub open spec fn ufield(value: int, start: u32, width: u32) -> Field {
    Field { value: value as i64, start, width, signed: false }
}

pub open spec fn sfield(value: i64, start: u32, width: u32) -> Field {
    Field { value, start, width, signed: true }
}

pub open spec fn reg_field(r: u8, start: u32) -> Field {
    ufield(r as int, start, 5)
}

/// Register-register-register: `opc(11) | Rm(5) | op(6) | Rn(5) | Rd(5)`, where `op` is the
/// (zero) shift amount for add, sub, cmp and mov, and fixed opcode bits for mul, div and asr.
pub open spec fn three_reg(opc: int, op: int, rd: u8, rn: u8, rm: u8) -> Seq<Field> {
    seq![reg_field(rd, 0), reg_field(rn, 5), ufield(op, 10, 6), reg_field(rm, 16), ufield(opc, 21, 11)]
}

/// Register-immediate, for `mov` and `cmp` with `#imm`: `opc(10) | imm(12) | Rn(5) | Rd(5)`,
/// the immediate zero-extended. `mov rd, #imm` is `rd = xzr + imm` (opcode 0x244, Rn 31);
/// `cmp rn, #imm` is `xzr = rn - imm`, flags set (opcode 0x3c4, Rd 31).
pub open spec fn reg_imm(opc: int, rd: u8, rn: u8, imm: i64) -> Seq<Field> {
    seq![reg_field(rd, 0), reg_field(rn, 5), Field { value: imm, start: 10, width: 12, signed: false }, ufield(opc, 22, 10)]
}


/// Load/store with an unsigned offset in doublewords: `opc(10) | imm(12) | Rn(5) | Rt(5)`.
pub open spec fn ldst_scaled(opc: int, rt: u8, rn: u8, imm: i64) -> Seq<Field> {
    seq![reg_field(rt, 0), reg_field(rn, 5), Field { value: imm, start: 10, width: 12, signed: false }, ufield(opc, 22, 10)]
}

/// Load/store pre- or post-indexed: `opc(11) | imm(9, signed) | mode(2) | Rn(5) | Rt(5)`.
pub open spec fn ldst_indexed(opc: int, rt: u8, rn: u8, imm: i64, mode: int) -> Seq<Field> {
    seq![reg_field(rt, 0), reg_field(rn, 5), ufield(mode, 10, 2), sfield(imm, 12, 9), ufield(opc, 21, 11)]
}

/// Load/store with a register offset: `opc(11) | Rm(5) | option(6) | Rn(5) | Rt(5)`.
pub open spec fn ldst_register(opc: int, rt: u8, rn: u8, rm: u8) -> Seq<Field> {
    seq![reg_field(rt, 0), reg_field(rn, 5), ufield(0x1a, 10, 6), reg_field(rm, 16), ufield(opc, 21, 11)]
}

/// Store pair: `opc(10) | imm(7, signed, doublewords) | Rt2(5) | Rn(5) | Rt(5)`.
pub open spec fn pair(opc: int, rt: u8, rt2: u8, rn: u8, imm: i64) -> Seq<Field> {
    seq![reg_field(rt, 0), reg_field(rn, 5), reg_field(rt2, 10), sfield(imm, 15, 7), ufield(opc, 22, 10)]
}

/// Unconditional branch: `opc(6) | offset(26, signed)`.
pub open spec fn branch(opc: int, off: i64) -> Seq<Field> {
    seq![sfield(off, 0, 26), ufield(opc, 26, 6)]
}

/// Compare and branch: `opc(8) | offset(19, signed) | Rt(5)`.
pub open spec fn compare_branch(opc: int, rt: u8, off: i64) -> Seq<Field> {
    seq![reg_field(rt, 0), sfield(off, 5, 19), ufield(opc, 24, 8)]
}

/// A byte offset in doublewords, if it is a whole number of them.
pub open spec fn doublewords(v: i64) -> Option<i64> {
    if v % 8 == 0 {
        Some((v / 8) as i64)
    } else {
        None
    }
}

pub open spec fn alu_opcode(m: Mnemonic) -> int {
    match m {
        Mnemonic::Add => 0x458,
        Mnemonic::Sub => 0x658,
        Mnemonic::Mul => 0x4d8,
        _ => 0x4d6,
    }
}

/// The `op` bits of the register-register-register format.
pub open spec fn alu_op(m: Mnemonic) -> int {
    match m {
        Mnemonic::Mul => 0x1f,
        Mnemonic::Div => 0x03,
        Mnemonic::Asr => 0x0a,
        _ => 0,
    }
}

pub open spec fn mem_layout(load: bool, rt: u8, mo: MemoryOperand) -> Result<Seq<Field>, EncodeError> {
    match mo.mode {
        AddrMode::Offset => match mo.offset {
            None => Ok(ldst_scaled(if load { 0x3e5 } else { 0x3e4 }, rt, mo.base, 0)),
            Some(MemOffset::Imm(v)) => match doublewords(v) {
                Some(d) => Ok(ldst_scaled(if load { 0x3e5 } else { 0x3e4 }, rt, mo.base, d)),
                None => Err(EncodeError::ImmediateOutOfRange),
            },
            Some(MemOffset::Reg(rm)) => Ok(ldst_register(if load { 0x7c3 } else { 0x7c1 }, rt, mo.base, rm)),
        },
        _ => {
            let mode = if mo.mode == AddrMode::PreIndex { 3int } else { 1int };
            match mo.offset {
                None => Ok(ldst_indexed(if load { 0x7c2 } else { 0x7c0 }, rt, mo.base, 0, mode)),
                Some(MemOffset::Imm(v)) => Ok(ldst_indexed(if load { 0x7c2 } else { 0x7c0 }, rt, mo.base, v, mode)),
                Some(MemOffset::Reg(_)) => Err(EncodeError::UnsupportedInstruction),
            }
        },
    }
}

pub open spec fn pair_layout(rt: u8, rt2: u8, mo: MemoryOperand) -> Result<Seq<Field>, EncodeError> {
    let opc = match mo.mode {
        AddrMode::Offset => 0x2a4int,
        AddrMode::PreIndex => 0x2a6int,
        AddrMode::PostIndex => 0x2a2int,
    };
    match mo.offset {
        None => Ok(pair(opc, rt, rt2, mo.base, 0)),
        Some(MemOffset::Imm(v)) => match doublewords(v) {
            Some(d) => Ok(pair(opc, rt, rt2, mo.base, d)),
            None => Err(EncodeError::ImmediateOutOfRange),
        },
        Some(MemOffset::Reg(_)) => Err(EncodeError::UnsupportedInstruction),
    }
}

/// The field table of an instruction, chosen by its mnemonic and operand kinds.
pub open spec fn layout(m: Mnemonic, ops: Seq<OperandView>) -> Result<Seq<Field>, EncodeError> {
    match m {
        Mnemonic::Add | Mnemonic::Sub | Mnemonic::Mul | Mnemonic::Div | Mnemonic::Asr => {
            if ops.len() == 3 && ops[0] is Register && ops[1] is Register {
                let rd = ops[0]->Register_0;
                let rn = ops[1]->Register_0;
                match ops[2] {
                    OperandView::Register(rm) => Ok(three_reg(alu_opcode(m), alu_op(m), rd, rn, rm)),
                    _ => Err(EncodeError::UnsupportedInstruction),
                }
            } else {
                Err(EncodeError::UnsupportedInstruction)
            }
        },
        Mnemonic::Cmp | Mnemonic::Mov => {
            if ops.len() == 2 && ops[0] is Register {
                let r = ops[0]->Register_0;
                match ops[1] {
                    OperandView::Register(rm) => if m == Mnemonic::Cmp {
                        Ok(three_reg(0x758, 0, 31, r, rm))
                    } else {
                        Ok(three_reg(0x550, 0, r, 31, rm))
                    },
                    OperandView::Immediate(v) => if m == Mnemonic::Cmp {
                        Ok(reg_imm(0x3c4, 31, r, v))
                    } else {
                        Ok(reg_imm(0x244, r, 31, v))
                    },
                    _ => Err(EncodeError::UnsupportedInstruction),
                }
            } else {
                Err(EncodeError::UnsupportedInstruction)
            }
        },
        Mnemonic::Ldr | Mnemonic::Str => {
            if ops.len() == 2 && ops[0] is Register && ops[1] is Memory {
                mem_layout(m == Mnemonic::Ldr, ops[0]->Register_0, ops[1]->Memory_0)
            } else {
                Err(EncodeError::UnsupportedInstruction)
            }
        },
        Mnemonic::Stp => {
            if ops.len() == 3 && ops[0] is Register && ops[1] is Register && ops[2] is Memory {
                pair_layout(ops[0]->Register_0, ops[1]->Register_0, ops[2]->Memory_0)
            } else {
                Err(EncodeError::UnsupportedInstruction)
            }
        },
        Mnemonic::B | Mnemonic::Bl => {
            if ops.len() == 1 {
                match ops[0] {
                    OperandView::Relative(d) => Ok(branch(if m == Mnemonic::B { 0x05 } else { 0x25 }, d)),
                    OperandView::Label(_) => Err(EncodeError::OperandEncodingError),
                    _ => Err(EncodeError::UnsupportedInstruction),
                }
            } else {
                Err(EncodeError::UnsupportedInstruction)
            }
        },
        Mnemonic::Cbz | Mnemonic::Cbnz => {
            if ops.len() == 2 && ops[0] is Register {
                match ops[1] {
                    OperandView::Relative(d) => Ok(compare_branch(if m == Mnemonic::Cbz { 0xb4 } else { 0xb5 }, ops[0]->Register_0, d)),
                    OperandView::Label(_) => Err(EncodeError::OperandEncodingError),
                    _ => Err(EncodeError::UnsupportedInstruction),
                }
            } else {
                Err(EncodeError::UnsupportedInstruction)
            }
        },
    }
}

/// Register numbers in an operand are below 32.
pub open spec fn regs_valid(o: OperandView) -> bool {
    match o {
        OperandView::Register(r) => r <= 31,
        OperandView::Memory(mo) => mo.base <= 31 && match mo.offset {
            Some(MemOffset::Reg(r)) => r <= 31,
            _ => true,
        },
        _ => true,
    }
}

/// The machine word of an instruction whose labels are resolved.
pub open spec fn encode_spec(iv: InstrView) -> Result<u32, EncodeError> {
    match iv.opcode.kind {
        TokenKind::Mnemonic(m) => if !(forall|i: int| 0 <= i < iv.operands.len() ==> regs_valid(#[trigger] iv.operands[i])) {
            Err(EncodeError::OperandEncodingError)
        } else {
            match layout(m, iv.operands) {
                Ok(fs) => pack(fs),
                Err(e) => Err(e),
            }
        },
        _ => Err(EncodeError::UnsupportedInstruction),
    }
}

proof fn lemma_packed_word(fs: Seq<Field>)
    requires
        layout_ok(fs),
        all_fit(fs),
    ensures
        0 <= packed(fs) < 0x1_0000_0000,
{
    lemma_packed_bound(fs);
    lemma2_to64();
    if fs.len() > 0 {
        assert(1 <= fs[fs.len() - 1].width && field_end(fs[fs.len() - 1]) <= 32);
        if field_end(fs.last()) < 32 {
            lemma_pow2_strictly_increases(field_end(fs.last()), 32);
        }
    }
}

/// Encoding loses nothing: reading each field of its format back out of an instruction's
/// word gives the value it was encoded from (register numbers, immediate or offset, and
/// the fixed opcode bits).
pub proof fn lemma_encode_round_trip(iv: InstrView, w: u32)
    requires
        encode_spec(iv) == Ok::<u32, EncodeError>(w),
    ensures
        iv.opcode.kind is Mnemonic,
        layout(iv.opcode.kind->Mnemonic_0, iv.operands) is Ok,
        forall|k: int|
            0 <= k < layout(iv.opcode.kind->Mnemonic_0, iv.operands)->Ok_0.len() ==> extract(
                w as int,
                #[trigger] layout(iv.opcode.kind->Mnemonic_0, iv.operands)->Ok_0[k],
            ) == layout(iv.opcode.kind->Mnemonic_0, iv.operands)->Ok_0[k].value as int,
{
    let fs = layout(iv.opcode.kind->Mnemonic_0, iv.operands)->Ok_0;
    lemma_packed_word(fs);
    assert(w as int == packed(fs));
    assert forall|k: int| 0 <= k < fs.len() implies extract(w as int, #[trigger] fs[k]) == fs[k].value as int by {
        lemma_fields_round_trip(fs, k);
    }
}

/// Where a branch keeps its offset: bits 0..26 for `b`/`bl`, bits 5..24 for `cbz`/`cbnz`.
pub open spec fn offset_field(m: Mnemonic, d: i64) -> Field {
    if m == Mnemonic::B || m == Mnemonic::Bl {
        sfield(d, 0, 26)
    } else {
        sfield(d, 5, 19)
    }
}

/// The operands of a branch with word offset `d` (and register `rt` for the compare forms).
pub open spec fn branch_operands(m: Mnemonic, rt: u8, d: i64) -> Seq<OperandView> {
    if m == Mnemonic::B || m == Mnemonic::Bl {
        seq![OperandView::Relative(d)]
    } else {
        seq![OperandView::Register(rt), OperandView::Relative(d)]
    }
}

pub open spec fn is_branch(m: Mnemonic) -> bool {
    m == Mnemonic::B || m == Mnemonic::Bl || m == Mnemonic::Cbz || m == Mnemonic::Cbnz
}

/// A branch encodes exactly when its offset fits the signed offset field: offsets from
/// `-2^25` to `2^25 - 1` for `b`/`bl` and from `-2^18` to `2^18 - 1` for `cbz`/`cbnz` succeed,
/// and one beyond either end fails with `ImmediateOutOfRange`. The word then holds the offset,
/// sign-extended, in the branch's offset field.
pub proof fn lemma_branch_offset_boundary(iv: InstrView, m: Mnemonic, rt: u8, d: i64)
    requires
        is_branch(m),
        iv.opcode.kind == TokenKind::Mnemonic(m),
        iv.operands == branch_operands(m, rt, d),
        rt <= 31,
    ensures
        ({
            let lim: int = if m == Mnemonic::B || m == Mnemonic::Bl {
                0x200_0000
            } else {
                0x4_0000
            };
            &&& (encode_spec(iv) is Ok <==> -lim <= d < lim)
            &&& (encode_spec(iv) is Err ==> encode_spec(iv) == Err::<u32, EncodeError>(
                EncodeError::ImmediateOutOfRange,
            ))
            &&& (encode_spec(iv) matches Ok(w) ==> extract(w as int, offset_field(m, d)) == d)
        }),
{
    lemma2_to64();
    let ops = iv.operands;
    assert forall|i: int| 0 <= i < ops.len() implies regs_valid(#[trigger] ops[i]) by {
        if m == Mnemonic::B || m == Mnemonic::Bl {
            assert(ops[i] == OperandView::Relative(d));
        } else if i == 0 {
            assert(ops[i] == OperandView::Register(rt));
        } else {
            assert(ops[i] == OperandView::Relative(d));
        }
    }
    let fs = layout(m, ops)->Ok_0;
    if m == Mnemonic::B || m == Mnemonic::Bl {
        assert(ops.len() == 1 && ops[0] == OperandView::Relative(d));
        assert(layout(m, ops) == Ok::<Seq<Field>, EncodeError>(branch(if m == Mnemonic::B { 0x05 } else { 0x25 }, d)));
        assert(fs[0] == offset_field(m, d));
        assert(fits(fs[1]));
        assert(layout_ok(fs));
        assert(all_fit(fs) <==> fits(fs[0]));
    } else {
        assert(ops.len() == 2 && ops[0] == OperandView::Register(rt) && ops[1] == OperandView::Relative(d));
        assert(layout(m, ops) == Ok::<Seq<Field>, EncodeError>(compare_branch(if m == Mnemonic::Cbz { 0xb4 } else { 0xb5 }, rt, d)));
        assert(fs[1] == offset_field(m, d));
        assert(fits(fs[0]));
        assert(fits(fs[2]));
        assert(layout_ok(fs));
        assert(all_fit(fs) <==> fits(fs[1]));
    }
    if encode_spec(iv) is Ok {
        lemma_encode_round_trip(iv, encode_spec(iv)->Ok_0);
        if m == Mnemonic::B || m == Mnemonic::Bl {
            assert(extract(encode_spec(iv)->Ok_0 as int, fs[0]) == d);
        } else {
            assert(extract(encode_spec(iv)->Ok_0 as int, fs[1]) == d);
        }
    }
}

proof fn lemma_indexed_layout(load: bool, rt: u8, mo: MemoryOperand, v: i64)
    requires
        mo.mode != AddrMode::Offset,
        mo.offset == Some(MemOffset::Imm(v)),
    ensures
        mem_layout(load, rt, mo) == Ok::<Seq<Field>, EncodeError>(
            ldst_indexed(
                if load {
                    0x7c2
                } else {
                    0x7c0
                },
                rt,
                mo.base,
                v,
                if mo.mode == AddrMode::PreIndex {
                    3
                } else {
                    1
                },
            ),
        ),
{
}

proof fn lemma_indexed_fields(opc: int, rt: u8, rn: u8, v: i64, mode: int)
    requires
        opc == 0x7c2 || opc == 0x7c0,
        mode == 1 || mode == 3,
        rt <= 31,
        rn <= 31,
    ensures
        layout_ok(ldst_indexed(opc, rt, rn, v, mode)),
        all_fit(ldst_indexed(opc, rt, rn, v, mode)) <==> -256 <= v < 256,
        ldst_indexed(opc, rt, rn, v, mode)[3] == sfield(v, 12, 9),
{
    lemma2_to64();
    let fs = ldst_indexed(opc, rt, rn, v, mode);
    assert(fs.len() == 5);
    assert(fs[0] == reg_field(rt, 0) && fs[1] == reg_field(rn, 5) && fs[2] == ufield(mode, 10, 2));
    assert(fs[3] == sfield(v, 12, 9) && fs[4] == ufield(opc, 21, 11));
    assert(fits(fs[0]) && fits(fs[1]) && fits(fs[2]) && fits(fs[4]));
    assert(fits(fs[3]) <==> -256 <= v < 256);
}

/// A pre- or post-indexed load or store encodes exactly when its immediate fits the signed
/// 9-bit field: `-256` and `255` succeed, `-257` and `256` fail with `ImmediateOutOfRange`.
/// The word then holds the immediate, sign-extended, in bits 12..21.
#[verifier::rlimit(100)]
pub proof fn lemma_indexed_offset_boundary(iv: InstrView, m: Mnemonic, rt: u8, mo: MemoryOperand, v: i64)
    requires
        m == Mnemonic::Ldr || m == Mnemonic::Str,
        iv.opcode.kind == TokenKind::Mnemonic(m),
        iv.operands == seq![OperandView::Register(rt), OperandView::Memory(mo)],
        rt <= 31,
        mo.base <= 31,
        mo.mode != AddrMode::Offset,
        mo.offset == Some(MemOffset::Imm(v)),
    ensures
        encode_spec(iv) is Ok <==> -256 <= v < 256,
        encode_spec(iv) is Err ==> encode_spec(iv) == Err::<u32, EncodeError>(
            EncodeError::ImmediateOutOfRange,
        ),
        encode_spec(iv) matches Ok(w) ==> extract(w as int, sfield(v, 12, 9)) == v,
{
    let ops = iv.operands;
    assert forall|i: int| 0 <= i < ops.len() implies regs_valid(#[trigger] ops[i]) by {
        if i == 0 {
            assert(ops[i] == OperandView::Register(rt));
        } else {
            assert(ops[i] == OperandView::Memory(mo));
        }
    }
    assert(ops.len() == 2 && ops[0] == OperandView::Register(rt) && ops[1] == OperandView::Memory(mo));
    let load = m == Mnemonic::Ldr;
    assert(layout(m, ops) == mem_layout(load, rt, mo)) by {
        assert(ops[0] is Register && ops[1] is Memory);
    }
    lemma_indexed_layout(load, rt, mo, v);
    let opc: int = if load { 0x7c2 } else { 0x7c0 };
    let mode: int = if mo.mode == AddrMode::PreIndex { 3 } else { 1 };
    lemma_indexed_fields(opc, rt, mo.base, v, mode);
    let fs = ldst_indexed(opc, rt, mo.base, v, mode);
    assert(layout(m, ops) == Ok::<Seq<Field>, EncodeError>(fs));
    assert(encode_spec(iv) == pack(fs));
    if all_fit(fs) {
        lemma_packed_word(fs);
        lemma_fields_round_trip(fs, 3);
    }
}

proof fn lemma_pair_fields(opc: int, rt: u8, rt2: u8, rn: u8, d: i64)
    requires
        opc == 0x2a4 || opc == 0x2a6 || opc == 0x2a2,
        rt <= 31,
        rt2 <= 31,
        rn <= 31,
    ensures
        layout_ok(pair(opc, rt, rt2, rn, d)),
        all_fit(pair(opc, rt, rt2, rn, d)) <==> -64 <= d < 64,
        pair(opc, rt, rt2, rn, d)[3] == sfield(d, 15, 7),
{
    lemma2_to64();
    let fs = pair(opc, rt, rt2, rn, d);
    assert(fs.len() == 5);
    assert(fs[0] == reg_field(rt, 0) && fs[1] == reg_field(rn, 5) && fs[2] == reg_field(rt2, 10));
    assert(fs[3] == sfield(d, 15, 7) && fs[4] == ufield(opc, 22, 10));
    assert(fits(fs[0]) && fits(fs[1]) && fits(fs[2]) && fits(fs[4]));
    assert(fits(fs[3]) <==> -64 <= d < 64);
}

proof fn lemma_pair_layout(ops: Seq<OperandView>, rt: u8, rt2: u8, mo: MemoryOperand)
    requires
        ops == seq![OperandView::Register(rt), OperandView::Register(rt2), OperandView::Memory(mo)],
    ensures
        layout(Mnemonic::Stp, ops) == pair_layout(rt, rt2, mo),
        forall|i: int| 0 <= i < ops.len() ==> #[trigger] ops[i] == OperandView::Register(rt) || ops[i]
            == OperandView::Register(rt2) || ops[i] == OperandView::Memory(mo),
{
    assert(ops.len() == 3 && ops[0] == OperandView::Register(rt) && ops[1] == OperandView::Register(rt2)
        && ops[2] == OperandView::Memory(mo));
}

/// A store pair encodes exactly when its byte offset is a whole number of doublewords
/// that fits the signed 7-bit field: `-512` and `504` succeed, `-520` and `512` (and any
/// offset that is not a multiple of 8) fail with `ImmediateOutOfRange`. The word then holds
/// the offset in doublewords, sign-extended, in bits 15..22.
#[verifier::rlimit(100)]
pub proof fn lemma_pair_offset_boundary(iv: InstrView, rt: u8, rt2: u8, mo: MemoryOperand, v: i64)
    requires
        iv.opcode.kind == TokenKind::Mnemonic(Mnemonic::Stp),
        iv.operands == seq![OperandView::Register(rt), OperandView::Register(rt2), OperandView::Memory(mo)],
        rt <= 31,
        rt2 <= 31,
        mo.base <= 31,
        mo.offset == Some(MemOffset::Imm(v)),
    ensures
        encode_spec(iv) is Ok <==> v % 8 == 0 && -64 <= v / 8 < 64,
        encode_spec(iv) is Err ==> encode_spec(iv) == Err::<u32, EncodeError>(
            EncodeError::ImmediateOutOfRange,
        ),
        encode_spec(iv) matches Ok(w) ==> extract(w as int, sfield((v / 8) as i64, 15, 7)) == v / 8,
{
    let ops = iv.operands;
    lemma_pair_layout(ops, rt, rt2, mo);
    assert(forall|i: int| 0 <= i < ops.len() ==> regs_valid(#[trigger] ops[i]));
    let opc: int = match mo.mode {
        AddrMode::Offset => 0x2a4int,
        AddrMode::PreIndex => 0x2a6int,
        AddrMode::PostIndex => 0x2a2int,
    };
    if v % 8 == 0 {
        let d = (v / 8) as i64;
        assert(-0x1000_0000_0000_0000 <= v / 8 < 0x1000_0000_0000_0000);
        assert(doublewords(v) == Some(d));
        lemma_pair_fields(opc, rt, rt2, mo.base, d);
        let fs = pair(opc, rt, rt2, mo.base, d);
        assert(pair_layout(rt, rt2, mo) == Ok::<Seq<Field>, EncodeError>(fs));
        assert(encode_spec(iv) == pack(fs));
        if all_fit(fs) {
            lemma_packed_word(fs);
            lemma_fields_round_trip(fs, 3);
        }
    } else {
        assert(pair_layout(rt, rt2, mo) == Err::<Seq<Field>, EncodeError>(EncodeError::ImmediateOutOfRange));
    }
}

fn reg(r: u8, start: u32) -> (f: Field)
    ensures
        f == reg_field(r, start),
{
    Field { value: r as i64, start, width: 5, signed: false }
}

fn fixed(value: i64, start: u32, width: u32) -> (f: Field)
    ensures
        f == ufield(value as int, start, width),
{
    Field { value, start, width, signed: false }
}

fn fields2(a: Field, b: Field) -> (r: Vec<Field>)
    ensures
        r@ == seq![a, b],
{
    let mut v: Vec<Field> = Vec::new();
    v.push(a);
    v.push(b);
    assert(v@ =~= seq![a, b]);
    v
}

fn fields3(a: Field, b: Field, c: Field) -> (r: Vec<Field>)
    ensures
        r@ == seq![a, b, c],
{
    let mut v: Vec<Field> = Vec::new();
    v.push(a);
    v.push(b);
    v.push(c);
    assert(v@ =~= seq![a, b, c]);
    v
}

fn fields4(a: Field, b: Field, c: Field, d: Field) -> (r: Vec<Field>)
    ensures
        r@ == seq![a, b, c, d],
{
    let mut v: Vec<Field> = Vec::new();
    v.push(a);
    v.push(b);
    v.push(c);
    v.push(d);
    assert(v@ =~= seq![a, b, c, d]);
    v
}

fn fields5(a: Field, b: Field, c: Field, d: Field, e: Field) -> (r: Vec<Field>)
    ensures
        r@ == seq![a, b, c, d, e],
{
    let mut v: Vec<Field> = Vec::new();
    v.push(a);
    v.push(b);
    v.push(c);
    v.push(d);
    v.push(e);
    assert(v@ =~= seq![a, b, c, d, e]);
    v
}

fn three_reg_fields(opc: i64, op: i64, rd: u8, rn: u8, rm: u8) -> (r: Vec<Field>)
    ensures
        r@ == three_reg(opc as int, op as int, rd, rn, rm),
{
    fields5(reg(rd, 0), reg(rn, 5), fixed(op, 10, 6), reg(rm, 16), fixed(opc, 21, 11))
}

fn doublewords_of(v: i64) -> (r: Option<i64>)
    ensures
        r == doublewords(v),
{
    if v >= 0 {
        let u = v as u64;
        if u % 8 == 0 {
            Some((u / 8) as i64)
        } else {
            None
        }
    } else {
        let u = (-(v as i128)) as u64;
        assert(u == -v);
        proof {
            assert((v % 8 == 0) == (u % 8 == 0)) by (nonlinear_arith)
                requires
                    u == -v,
                    v < 0,
            ;
        }
        if u % 8 == 0 {
            proof {
                assert(v / 8 == -(u / 8)) by (nonlinear_arith)
                    requires
                        u == -v,
                        u % 8 == 0,
                ;
            }
            Some(-((u / 8) as i64))
        } else {
            None
        }
    }
}

fn mem_fields(load: bool, rt: u8, mo: MemoryOperand) -> (r: Result<Vec<Field>, EncodeError>)
    ensures
        match mem_layout(load, rt, mo) {
            Ok(fs) => r matches Ok(v) && v@ == fs,
            Err(e) => r == Err::<Vec<Field>, EncodeError>(e),
        },
{
    match mo.mode {
        AddrMode::Offset => {
            let opc: i64 = if load { 0x3e5 } else { 0x3e4 };
            match mo.offset {
                None => Ok(fields4(reg(rt, 0), reg(mo.base, 5), Field { value: 0, start: 10, width: 12, signed: false }, fixed(opc, 22, 10))),
                Some(MemOffset::Imm(v)) => match doublewords_of(v) {
                    Some(d) => Ok(fields4(reg(rt, 0), reg(mo.base, 5), Field { value: d, start: 10, width: 12, signed: false }, fixed(opc, 22, 10))),
                    None => Err(EncodeError::ImmediateOutOfRange),
                },
                Some(MemOffset::Reg(rm)) => {
                    let opc: i64 = if load { 0x7c3 } else { 0x7c1 };
                    Ok(fields5(reg(rt, 0), reg(mo.base, 5), fixed(0x1a, 10, 6), reg(rm, 16), fixed(opc, 21, 11)))
                },
            }
        },
        _ => {
            let mode: i64 = if mo.mode == AddrMode::PreIndex { 3 } else { 1 };
            let opc: i64 = if load { 0x7c2 } else { 0x7c0 };
            match mo.offset {
                None => Ok(fields5(reg(rt, 0), reg(mo.base, 5), fixed(mode, 10, 2), Field { value: 0, start: 12, width: 9, signed: true }, fixed(opc, 21, 11))),
                Some(MemOffset::Imm(v)) => Ok(fields5(reg(rt, 0), reg(mo.base, 5), fixed(mode, 10, 2), Field { value: v, start: 12, width: 9, signed: true }, fixed(opc, 21, 11))),
                Some(MemOffset::Reg(_)) => Err(EncodeError::UnsupportedInstruction),
            }
        },
    }
}

fn pair_fields(rt: u8, rt2: u8, mo: MemoryOperand) -> (r: Result<Vec<Field>, EncodeError>)
    ensures
        match pair_layout(rt, rt2, mo) {
            Ok(fs) => r matches Ok(v) && v@ == fs,
            Err(e) => r == Err::<Vec<Field>, EncodeError>(e),
        },
{
    let opc: i64 = match mo.mode {
        AddrMode::Offset => 0x2a4,
        AddrMode::PreIndex => 0x2a6,
        AddrMode::PostIndex => 0x2a2,
    };
    let d = match mo.offset {
        None => 0,
        Some(MemOffset::Imm(v)) => match doublewords_of(v) {
            Some(d) => d,
            None => {
                return Err(EncodeError::ImmediateOutOfRange);
            },
        },
        Some(MemOffset::Reg(_)) => {
            return Err(EncodeError::UnsupportedInstruction);
        },
    };
    Ok(fields5(reg(rt, 0), reg(mo.base, 5), reg(rt2, 10), Field { value: d, start: 15, width: 7, signed: true }, fixed(opc, 22, 10)))
}

fn layout_of(m: Mnemonic, ops: &Vec<Operand>) -> (r: Result<Vec<Field>, EncodeError>)
    ensures
        match layout(m, operand_views(ops@)) {
            Ok(fs) => r matches Ok(v) && v@ == fs,
            Err(e) => r == Err::<Vec<Field>, EncodeError>(e),
        },
{
    let ghost ov = operand_views(ops@);
    assert(ov.len() == ops@.len());
    assert(forall|i: int| 0 <= i < ops@.len() ==> ov[i] == #[trigger] ops@[i]@);
    let n = ops.len();
    match m {
        Mnemonic::Add | Mnemonic::Sub | Mnemonic::Mul | Mnemonic::Div | Mnemonic::Asr => {
            if n == 3 {
                if let (Operand::Register(rd), Operand::Register(rn)) = (&ops[0], &ops[1]) {
                    return match &ops[2] {
                        Operand::Register(rm) => {
                            let opc: i64 = match m {
                                Mnemonic::Add => 0x458,
                                Mnemonic::Sub => 0x658,
                                Mnemonic::Mul => 0x4d8,
                                _ => 0x4d6,
                            };
                            let op: i64 = match m {
                                Mnemonic::Mul => 0x1f,
                                Mnemonic::Div => 0x03,
                                Mnemonic::Asr => 0x0a,
                                _ => 0,
                            };
                            Ok(three_reg_fields(opc, op, *rd, *rn, *rm))
                        },
                        _ => Err(EncodeError::UnsupportedInstruction),
                    };
                }
            }
            Err(EncodeError::UnsupportedInstruction)
        },
        Mnemonic::Cmp | Mnemonic::Mov => {
            if n == 2 {
                if let Operand::Register(r) = &ops[0] {
                    return match &ops[1] {
                        Operand::Register(rm) => if m == Mnemonic::Cmp {
                            Ok(three_reg_fields(0x758, 0, 31, *r, *rm))
                        } else {
                            Ok(three_reg_fields(0x550, 0, *r, 31, *rm))
                        },
                        Operand::Immediate(v) => if m == Mnemonic::Cmp {
                            Ok(fields4(reg(31, 0), reg(*r, 5), Field { value: *v, start: 10, width: 12, signed: false }, fixed(0x3c4, 22, 10)))
                        } else {
                            Ok(fields4(reg(*r, 0), reg(31, 5), Field { value: *v, start: 10, width: 12, signed: false }, fixed(0x244, 22, 10)))
                        },
                        _ => Err(EncodeError::UnsupportedInstruction),
                    };
                }
            }
            Err(EncodeError::UnsupportedInstruction)
        },
        Mnemonic::Ldr | Mnemonic::Str => {
            if n == 2 {
                if let (Operand::Register(rt), Operand::Memory(mo)) = (&ops[0], &ops[1]) {
                    return mem_fields(m == Mnemonic::Ldr, *rt, *mo);
                }
            }
            Err(EncodeError::UnsupportedInstruction)
        },
        Mnemonic::Stp => {
            if n == 3 {
                if let (Operand::Register(rt), Operand::Register(rt2), Operand::Memory(mo)) = (&ops[0], &ops[1], &ops[2]) {
                    return pair_fields(*rt, *rt2, *mo);
                }
            }
            Err(EncodeError::UnsupportedInstruction)
        },
        Mnemonic::B | Mnemonic::Bl => {
            if n == 1 {
                return match &ops[0] {
                    Operand::Relative(d) => {
                        let opc: i64 = if m == Mnemonic::B { 0x05 } else { 0x25 };
                        Ok(fields2(Field { value: *d, start: 0, width: 26, signed: true }, fixed(opc, 26, 6)))
                    },
                    Operand::Label(_) => Err(EncodeError::OperandEncodingError),
                    _ => Err(EncodeError::UnsupportedInstruction),
                };
            }
            Err(EncodeError::UnsupportedInstruction)
        },
        Mnemonic::Cbz | Mnemonic::Cbnz => {
            if n == 2 {
                if let Operand::Register(rt) = &ops[0] {
                    return match &ops[1] {
                        Operand::Relative(d) => {
                            let opc: i64 = if m == Mnemonic::Cbz { 0xb4 } else { 0xb5 };
                            Ok(fields3(reg(*rt, 0), Field { value: *d, start: 5, width: 19, signed: true }, fixed(opc, 24, 8)))
                        },
                        Operand::Label(_) => Err(EncodeError::OperandEncodingError),
                        _ => Err(EncodeError::UnsupportedInstruction),
                    };
                }
            }
            Err(EncodeError::UnsupportedInstruction)
        },
    }
}

fn operand_regs_valid(o: &Operand) -> (r: bool)
    ensures
        r == regs_valid(o@),
{
    match o {
        Operand::Register(r) => *r <= 31,
        Operand::Memory(mo) => mo.base <= 31 && match mo.offset {
            Some(MemOffset::Reg(r)) => r <= 31,
            _ => true,
        },
        _ => true,
    }
}

impl Instruction {
    /// The machine word of this instruction. Its label references must be resolved.
    pub fn encode(&self) -> (r: Result<u32, EncodeError>)
        ensures
            r == encode_spec(self@),
    {
        let m = match self.opcode.token_type.mnemonic() {
            Some(m) => m,
            None => {
                return Err(EncodeError::UnsupportedInstruction);
            },
        };
        let ghost ov = operand_views(self.operands@);
        let n = self.operands.len();
        let mut k: usize = 0;
        while k < n
            invariant
                n == self.operands.len(),
                ov == operand_views(self.operands@),
                self@.opcode.kind == TokenKind::Mnemonic(m),
                k <= n,
                forall|i: int| 0 <= i < k ==> regs_valid(#[trigger] ov[i]),
            decreases n - k,
        {
            if !operand_regs_valid(&self.operands[k]) {
                assert(ov[k as int] == self.operands@[k as int]@);
                assert(!regs_valid(ov[k as int]));
                return Err(EncodeError::OperandEncodingError);
            }
            k = k + 1;
        }
        match layout_of(m, &self.operands) {
            Ok(fs) => pack_fields(&fs),
            Err(e) => Err(e),
        }
    }
}

/// Encodes a whole resolved program.
pub struct Encoder {
    pub program: Program,
}

impl Encoder {
    pub fn new(program: Program) -> (r: Encoder)
        ensures
            r.program == program,
    {
        Encoder { program }
    }

    /// The words of all instructions in order, or the index and error of the first
    /// instruction that cannot be encoded.
    pub fn encode_program(&self) -> (r: Result<Vec<u32>, (usize, EncodeError)>)
        ensures
            ({
                let is = instr_views(self.program.instructions@);
                match r {
                    Ok(ws) => ws@.len() == is.len() && forall|i: int|
                        0 <= i < is.len() ==> encode_spec(#[trigger] is[i]) == Ok::<u32, EncodeError>(ws@[i]),
                    Err((k, e)) => k < is.len() && encode_spec(is[k as int]) == Err::<u32, EncodeError>(e)
                        && forall|i: int| 0 <= i < k ==> #[trigger] encode_spec(is[i]) is Ok,
                }
            }),
    {
        let ghost is = instr_views(self.program.instructions@);
        let n = self.program.instructions.len();
        let mut words: Vec<u32> = Vec::new();
        let mut k: usize = 0;
        while k < n
            invariant
                n == self.program.instructions.len(),
                is == instr_views(self.program.instructions@),
                k <= n,
                words@.len() == k,
                forall|i: int| 0 <= i < k ==> encode_spec(#[trigger] is[i]) == Ok::<u32, EncodeError>(words@[i]),
            decreases n - k,
        {
            match self.program.instructions[k].encode() {
                Ok(w) => {
                    words.push(w);
                },
                Err(e) => {
                    return Err((k, e));
                },
            }
            k = k + 1;
        }
        Ok(words)
    }
}

} // verus!
