use vstd::prelude::*;

verus! {

/// The instruction mnemonics the assembler recognises.
#[derive(Debug, Clone, Copy, PartialEq, Eq, Structural)]
pub enum Mnemonic {
    Add,
    Sub,
    Mul,
    Div,
    Asr,
    Cmp,
    Mov,
    Ldr,
    Str,
    Stp,
    B,
    Bl,
    Cbz,
    Cbnz,
}

/// The kind of a token, with the text of registers and identifiers.
#[derive(Debug, PartialEq, Clone)]
pub enum TokenType {
    AddInst,
    AsrInst,
    SubInst,
    MulInst,
    DivInst,
    CmpInst,
    MovInst,
    LdrInst,
    StrInst,
    StpInst,
    BInst,
    BlInst,
    CbzInst,
    CbnzInst,
    LSquare,
    RSquare,
    Hash,
    Integer(i64),
    Register(Box<String>),
    Identifier(Box<String>),
    Comma,
    Bang,
    Colon,
    Minus,
}

/// Mathematical view of a token kind.
pub enum TokenKind {
    Mnemonic(Mnemonic),
    LSquare,
    RSquare,
    Hash,
    Integer(i64),
    Register(Seq<char>),
    Identifier(Seq<char>),
    Comma,
    Bang,
    Colon,
    Minus,
}

impl View for TokenType {
    type V = TokenKind;

    open spec fn view(&self) -> TokenKind {
        match self {
            TokenType::AddInst => TokenKind::Mnemonic(Mnemonic::Add),
            TokenType::AsrInst => TokenKind::Mnemonic(Mnemonic::Asr),
            TokenType::SubInst => TokenKind::Mnemonic(Mnemonic::Sub),
            TokenType::MulInst => TokenKind::Mnemonic(Mnemonic::Mul),
            TokenType::DivInst => TokenKind::Mnemonic(Mnemonic::Div),
            TokenType::CmpInst => TokenKind::Mnemonic(Mnemonic::Cmp),
            TokenType::MovInst => TokenKind::Mnemonic(Mnemonic::Mov),
            TokenType::LdrInst => TokenKind::Mnemonic(Mnemonic::Ldr),
            TokenType::StrInst => TokenKind::Mnemonic(Mnemonic::Str),
            TokenType::StpInst => TokenKind::Mnemonic(Mnemonic::Stp),
            TokenType::BInst => TokenKind::Mnemonic(Mnemonic::B),
            TokenType::BlInst => TokenKind::Mnemonic(Mnemonic::Bl),
            TokenType::CbzInst => TokenKind::Mnemonic(Mnemonic::Cbz),
            TokenType::CbnzInst => TokenKind::Mnemonic(Mnemonic::Cbnz),
            TokenType::LSquare => TokenKind::LSquare,
            TokenType::RSquare => TokenKind::RSquare,
            TokenType::Hash => TokenKind::Hash,
            TokenType::Integer(v) => TokenKind::Integer(*v),
            TokenType::Register(name) => TokenKind::Register(name@),
            TokenType::Identifier(name) => TokenKind::Identifier(name@),
            TokenType::Comma => TokenKind::Comma,
            TokenType::Bang => TokenKind::Bang,
            TokenType::Colon => TokenKind::Colon,
            TokenType::Minus => TokenKind::Minus,
        }
    }
}

/// A token with the line and column of its first character (both counted from 1).
#[derive(Debug, PartialEq, Clone)]
pub struct Token {
    pub token_type: TokenType,
    pub line: u64,
    pub col: u64,
}

/// Mathematical view of a token.
pub struct TokenView {
    pub kind: TokenKind,
    pub line: nat,
    pub col: nat,
}

impl View for Token {
    type V = TokenView;

    open spec fn view(&self) -> TokenView {
        TokenView { kind: self.token_type@, line: self.line as nat, col: self.col as nat }
    }
}

pub open spec fn views(ts: Seq<Token>) -> Seq<TokenView> {
    ts.map_values(|t: Token| t@)
}

/// Why lexing stopped, with the position of the offending character.
#[derive(Debug, Clone, Copy, PartialEq, Eq, Structural)]
pub enum LexError {
    UnexpectedChar { ch: char, line: u64, col: u64 },
    MalformedLiteral { line: u64, col: u64 },
}

// ---------------------------------------------------------------------------
// The token language, as spec functions.
// ---------------------------------------------------------------------------

pub open spec fn is_letter(c: char) -> bool {
    ('a' <= c && c <= 'z') || ('A' <= c && c <= 'Z')
}

pub open spec fn is_digit(c: char) -> bool {
    '0' <= c && c <= '9'
}

pub open spec fn is_word_char(c: char) -> bool {
    is_letter(c) || is_digit(c)
}

/// Whitespace other than a line break: it only advances the column.
pub open spec fn is_blank(c: char) -> bool {
    c == ' ' || c == '\t' || c == '\r'
}

pub open spec fn digit_value(c: char) -> nat {
    (c as int - '0' as int) as nat
}

/// The number written by a run of decimal digits.
pub open spec fn decimal(d: Seq<char>) -> nat
    decreases d.len(),
{
    if d.len() == 0 {
        0
    } else {
        decimal(d.drop_last()) * 10 + digit_value(d.last())
    }
}

/// The value of a literal of magnitude `mag` (below 2^64) as a 64-bit two's-complement word.
pub open spec fn signed_lit(neg: bool, mag: nat) -> int {
    if !neg {
        if mag < 0x8000_0000_0000_0000 {
            mag as int
        } else {
            mag - 0x1_0000_0000_0000_0000
        }
    } else {
        if mag <= 0x8000_0000_0000_0000 {
            -mag
        } else {
            0x1_0000_0000_0000_0000 - mag
        }
    }
}

/// End of the run of word characters starting at `i`.
pub open spec fn word_end(s: Seq<char>, i: nat) -> nat
    decreases s.len() - i,
{
    if i < s.len() && is_word_char(s[i as int]) {
        word_end(s, i + 1)
    } else {
        i
    }
}

/// End of the run of decimal digits starting at `i`.
pub open spec fn digits_end(s: Seq<char>, i: nat) -> nat
    decreases s.len() - i,
{
    if i < s.len() && is_digit(s[i as int]) {
        digits_end(s, i + 1)
    } else {
        i
    }
}

pub open spec fn keyword(w: Seq<char>) -> Option<Mnemonic> {
    if w == "add"@ {
        Some(Mnemonic::Add)
    } else if w == "sub"@ {
        Some(Mnemonic::Sub)
    } else if w == "mul"@ {
        Some(Mnemonic::Mul)
    } else if w == "div"@ {
        Some(Mnemonic::Div)
    } else if w == "asr"@ {
        Some(Mnemonic::Asr)
    } else if w == "cmp"@ {
        Some(Mnemonic::Cmp)
    } else if w == "mov"@ {
        Some(Mnemonic::Mov)
    } else if w == "ldr"@ {
        Some(Mnemonic::Ldr)
    } else if w == "str"@ {
        Some(Mnemonic::Str)
    } else if w == "stp"@ {
        Some(Mnemonic::Stp)
    } else if w == "b"@ {
        Some(Mnemonic::B)
    } else if w == "bl"@ {
        Some(Mnemonic::Bl)
    } else if w == "cbz"@ {
        Some(Mnemonic::Cbz)
    } else if w == "cbnz"@ {
        Some(Mnemonic::Cbnz)
    } else {
        None
    }
}

/// The register table: `x0`..`x30` name registers 0 to 30, `sp` and `xzr` both name 31.
pub open spec fn register_index(w: Seq<char>) -> Option<u8> {
    if w == "sp"@ || w == "xzr"@ {
        Some(31)
    } else if w.len() == 2 && w[0] == 'x' && is_digit(w[1]) {
        Some(digit_value(w[1]) as u8)
    } else if w.len() == 3 && w[0] == 'x' && (('1' <= w[1] && w[1] <= '2' && is_digit(w[2])) || (
    w[1] == '3' && w[2] == '0')) {
        Some((digit_value(w[1]) * 10 + digit_value(w[2])) as u8)
    } else {
        None
    }
}

/// The kind of a whole word: keywords first, then registers, else an identifier.
pub open spec fn word_kind(w: Seq<char>) -> TokenKind {
    match keyword(w) {
        Some(m) => TokenKind::Mnemonic(m),
        None => if register_index(w) is Some {
            TokenKind::Register(w)
        } else {
            TokenKind::Identifier(w)
        },
    }
}

/// The register number a token kind names, if it names one.
pub open spec fn kind_register(k: TokenKind) -> Option<u8> {
    match k {
        TokenKind::Register(w) => register_index(w),
        _ => None,
    }
}

pub open spec fn punctuation(c: char) -> Option<TokenKind> {
    if c == ',' {
        Some(TokenKind::Comma)
    } else if c == '[' {
        Some(TokenKind::LSquare)
    } else if c == ']' {
        Some(TokenKind::RSquare)
    } else if c == '#' {
        Some(TokenKind::Hash)
    } else if c == '!' {
        Some(TokenKind::Bang)
    } else if c == ':' {
        Some(TokenKind::Colon)
    } else {
        None
    }
}

pub open spec fn tok(kind: TokenKind, line: nat, col: nat) -> TokenView {
    TokenView { kind, line, col }
}

pub open spec fn prepend(t: TokenView, rest: Result<Seq<TokenView>, LexError>) -> Result<
    Seq<TokenView>,
    LexError,
> {
    match rest {
        Ok(r) => Ok(seq![t] + r),
        Err(e) => Err(e),
    }
}

pub open spec fn glue(pre: Seq<TokenView>, rest: Result<Seq<TokenView>, LexError>) -> Result<
    Seq<TokenView>,
    LexError,
> {
    match rest {
        Ok(r) => Ok(pre + r),
        Err(e) => Err(e),
    }
}

pub open spec fn starts_number(s: Seq<char>, i: nat) -> bool {
    i < s.len() && (is_digit(s[i as int]) || (s[i as int] == '-' && i + 1 < s.len() && is_digit(
        s[i + 1int],
    )))
}

/// The tokens of `s` from index `i` on, when the scan stands at `line` and `col`.
pub open spec fn lex_from(s: Seq<char>, i: nat, line: nat, col: nat) -> Result<
    Seq<TokenView>,
    LexError,
>
    decreases s.len() - i,
    via lex_from_decreases
{
    if i >= s.len() {
        Ok(Seq::empty())
    } else {
        let c = s[i as int];
        if c == '\n' {
            lex_from(s, i + 1, line + 1, 1)
        } else if is_blank(c) {
            lex_from(s, i + 1, line, col + 1)
        } else if punctuation(c) is Some {
            prepend(tok(punctuation(c)->0, line, col), lex_from(s, i + 1, line, col + 1))
        } else if is_letter(c) {
            let j = word_end(s, i + 1);
            prepend(
                tok(word_kind(s.subrange(i as int, j as int)), line, col),
                lex_from(s, j, line, (col + j - i) as nat),
            )
        } else if starts_number(s, i) {
            let neg = c == '-';
            let start: nat = if neg {
                i + 1
            } else {
                i
            };
            let j = digits_end(s, start);
            let mag = decimal(s.subrange(start as int, j as int));
            if mag >= 0x1_0000_0000_0000_0000 {
                Err(LexError::MalformedLiteral { line: line as u64, col: col as u64 })
            } else {
                prepend(
                    tok(TokenKind::Integer(signed_lit(neg, mag) as i64), line, col),
                    lex_from(s, j, line, (col + j - i) as nat),
                )
            }
        } else if c == '-' {
            prepend(tok(TokenKind::Minus, line, col), lex_from(s, i + 1, line, col + 1))
        } else {
            Err(LexError::UnexpectedChar { ch: c, line: line as u64, col: col as u64 })
        }
    }
}

proof fn lemma_word_end_bound(s: Seq<char>, i: nat)
    requires
        i <= s.len(),
    ensures
        i <= word_end(s, i) <= s.len(),
    decreases s.len() - i,
{
    if i < s.len() && is_word_char(s[i as int]) {
        lemma_word_end_bound(s, i + 1);
    }
}

proof fn lemma_digits_end_bound(s: Seq<char>, i: nat)
    requires
        i <= s.len(),
    ensures
        i <= digits_end(s, i) <= s.len(),
    decreases s.len() - i,
{
    if i < s.len() && is_digit(s[i as int]) {
        lemma_digits_end_bound(s, i + 1);
    }
}

#[via_fn]
proof fn lex_from_decreases(s: Seq<char>, i: nat, line: nat, col: nat) {
    if i < s.len() {
        lemma_word_end_bound(s, i + 1);
        lemma_digits_end_bound(s, i);
        if i + 1 <= s.len() {
            lemma_digits_end_bound(s, i + 1);
        }
    }
}

/// Every token takes at least one character.
pub proof fn lemma_lex_length(s: Seq<char>, i: nat, line: nat, col: nat)
    requires
        i <= s.len(),
    ensures
        lex_from(s, i, line, col) matches Ok(ts) ==> ts.len() <= s.len() - i,
    decreases s.len() - i,
{
    if i < s.len() {
        let c = s[i as int];
        lemma_word_end_bound(s, i + 1);
        lemma_digits_end_bound(s, i);
        lemma_digits_end_bound(s, i + 1);
        if c == '\n' {
            lemma_lex_length(s, i + 1, line + 1, 1);
        } else if is_blank(c) {
            lemma_lex_length(s, i + 1, line, col + 1);
        } else if punctuation(c) is Some {
            lemma_lex_length(s, i + 1, line, col + 1);
        } else if is_letter(c) {
            let j = word_end(s, i + 1);
            lemma_lex_length(s, j, line, (col + j - i) as nat);
        } else if starts_number(s, i) {
            let start: nat = if c == '-' {
                i + 1
            } else {
                i
            };
            let j = digits_end(s, start);
            assert(j > i) by {
                if c != '-' {
                    assert(digits_end(s, i) == digits_end(s, i + 1));
                }
            }
            lemma_lex_length(s, j, line, (col + j - i) as nat);
        } else if c == '-' {
            lemma_lex_length(s, i + 1, line, col + 1);
        }
    }
}

/// The tokens of a whole source text, or the first error in it.
pub open spec fn lex_source(s: Seq<char>) -> Result<Seq<TokenView>, LexError> {
    lex_from(s, 0, 1, 1)
}

proof fn lemma_word_end_all(s: Seq<char>, i: nat)
    requires
        i <= s.len(),
        forall|k: int| i <= k < s.len() ==> is_word_char(#[trigger] s[k]),
    ensures
        word_end(s, i) == s.len(),
    decreases s.len() - i,
{
    if i < s.len() {
        lemma_word_end_all(s, i + 1);
    }
}

/// A word alone (a letter, then letters and digits) lexes to one token at line 1,
/// column 1, classified as a whole: it is never split, so `x10` is not `x1` then `0`.
pub proof fn lemma_word_lexes_whole(w: Seq<char>)
    requires
        w.len() > 0,
        is_letter(w[0]),
        forall|k: int| 0 <= k < w.len() ==> is_word_char(#[trigger] w[k]),
    ensures
        lex_source(w) == Ok::<Seq<TokenView>, LexError>(seq![tok(word_kind(w), 1, 1)]),
{
    lemma_word_end_all(w, 1);
    assert(w.subrange(0, w.len() as int) =~= w);
    assert(lex_from(w, w.len(), 1, 1 + w.len()) == Ok::<Seq<TokenView>, LexError>(Seq::empty()));
    assert(seq![tok(word_kind(w), 1, 1)] + Seq::<TokenView>::empty() =~= seq![
        tok(word_kind(w), 1, 1),
    ]);
}

/// A word outside both the keyword table and the register table, such as `x31`, `x300`
/// or `X0` (the tables are case-sensitive), lexes to an identifier that names no register.
pub proof fn lemma_other_word_is_identifier(w: Seq<char>)
    requires
        w.len() > 0,
        is_letter(w[0]),
        forall|k: int| 0 <= k < w.len() ==> is_word_char(#[trigger] w[k]),
        keyword(w) is None,
        register_index(w) is None,
    ensures
        lex_source(w) == Ok::<Seq<TokenView>, LexError>(seq![tok(TokenKind::Identifier(w), 1, 1)]),
        kind_register(TokenKind::Identifier(w)) is None,
{
    lemma_word_lexes_whole(w);
}

/// The names `x31`, `x300` and `X0` are in neither table.
pub proof fn lemma_near_register_names()
    ensures
        keyword(seq!['x', '3', '1']) is None && register_index(seq!['x', '3', '1']) is None,
        keyword(seq!['x', '3', '0', '0']) is None && register_index(seq!['x', '3', '0', '0']) is None,
        keyword(seq!['X', '0']) is None && register_index(seq!['X', '0']) is None,
{
    reveal_strlit("sp");
    reveal_strlit("xzr");
    reveal_strlit("add");
    reveal_strlit("sub");
    reveal_strlit("mul");
    reveal_strlit("div");
    reveal_strlit("asr");
    reveal_strlit("cmp");
    reveal_strlit("mov");
    reveal_strlit("ldr");
    reveal_strlit("str");
    reveal_strlit("stp");
    reveal_strlit("b");
    reveal_strlit("bl");
    reveal_strlit("cbz");
    reveal_strlit("cbnz");
}

/// Every register name lexes, alone, to one register token at line 1, column 1, and that
/// token encodes to the name's register number: `x0`..`x30` to 0..30, `sp` and `xzr` to 31.
pub proof fn lemma_register_lexes_to_index(w: Seq<char>)
    requires
        register_index(w) is Some,
    ensures
        lex_source(w) == Ok::<Seq<TokenView>, LexError>(seq![tok(TokenKind::Register(w), 1, 1)]),
        kind_register(TokenKind::Register(w)) == register_index(w),
        (w == "sp"@ || w == "xzr"@) ==> register_index(w) == Some(31u8),
        (w.len() == 2 && w != "sp"@) ==> w[0] == 'x' && register_index(w) == Some(digit_value(w[1]) as u8),
        (w.len() == 3 && w != "xzr"@) ==> w[0] == 'x' && register_index(w) == Some(
            (10 * digit_value(w[1]) + digit_value(w[2])) as u8,
        ),
        register_index(w)->0 <= 31,
{
    reveal_strlit("sp");
    reveal_strlit("xzr");
    reveal_strlit("add");
    reveal_strlit("sub");
    reveal_strlit("mul");
    reveal_strlit("div");
    reveal_strlit("asr");
    reveal_strlit("cmp");
    reveal_strlit("mov");
    reveal_strlit("ldr");
    reveal_strlit("str");
    reveal_strlit("stp");
    reveal_strlit("b");
    reveal_strlit("bl");
    reveal_strlit("cbz");
    reveal_strlit("cbnz");
    assert(w.len() >= 2);
    assert(forall|k: int| 0 <= k < w.len() ==> is_word_char(#[trigger] w[k]));
    assert(keyword(w) is None);
    lemma_word_lexes_whole(w);
}

/// Lexing is a function of the text alone: two runs over the same text that both
/// finish give the same tokens, with the same lines and columns.
pub proof fn lemma_lex_repeatable(src: Seq<char>, first: Seq<TokenView>, second: Seq<TokenView>)
    requires
        lex_source(src) == Ok::<Seq<TokenView>, LexError>(first),
        lex_source(src) == Ok::<Seq<TokenView>, LexError>(second),
    ensures
        first == second,
{
}

proof fn lemma_glue_prepend(pre: Seq<TokenView>, t: TokenView, rest: Result<Seq<TokenView>, LexError>)
    ensures
        glue(pre, prepend(t, rest)) == glue(pre.push(t), rest),
{
    if let Ok(r) = rest {
        assert(pre + (seq![t] + r) =~= pre.push(t) + r);
    }
}

proof fn lemma_views_push(ts: Seq<Token>, t: Token)
    ensures
        views(ts.push(t)) == views(ts).push(t@),
{
    assert(views(ts.push(t)) =~= views(ts).push(t@));
}

// ---------------------------------------------------------------------------
// The scanner.
// ---------------------------------------------------------------------------

fn letter(c: char) -> (r: bool)
    ensures
        r == is_letter(c),
{
    ('a' <= c && c <= 'z') || ('A' <= c && c <= 'Z')
}

fn digit(c: char) -> (r: bool)
    ensures
        r == is_digit(c),
{
    '0' <= c && c <= '9'
}

/// Relies on `String: FromIterator<char>`: the chars collected in order make the string.
#[verifier::external_body]
fn string_of(s: &Vec<char>, start: usize, end: usize) -> (r: String)
    requires
        start <= end <= s.len(),
    ensures
        r@ == s@.subrange(start as int, end as int),
{
    s[start..end].iter().collect()
}

/// Whether `w` is exactly the text `lit`.
fn spells(w: &str, lit: &str) -> (r: bool)
    ensures
        r == (w@ == lit@),
{
    let n = w.unicode_len();
    if n != lit.unicode_len() {
        return false;
    }
    let mut k: usize = 0;
    while k < n
        invariant
            n == w@.len(),
            n == lit@.len(),
            k <= n,
            forall|m: int| 0 <= m < k ==> w@[m] == lit@[m],
        decreases n - k,
    {
        if w.get_char(k) != lit.get_char(k) {
            return false;
        }
        k = k + 1;
    }
    assert(w@ =~= lit@);
    true
}

fn keyword_of(w: &str) -> (r: Option<Mnemonic>)
    ensures
        r == keyword(w@),
{
    if spells(w, "add") {
        Some(Mnemonic::Add)
    } else if spells(w, "sub") {
        Some(Mnemonic::Sub)
    } else if spells(w, "mul") {
        Some(Mnemonic::Mul)
    } else if spells(w, "div") {
        Some(Mnemonic::Div)
    } else if spells(w, "asr") {
        Some(Mnemonic::Asr)
    } else if spells(w, "cmp") {
        Some(Mnemonic::Cmp)
    } else if spells(w, "mov") {
        Some(Mnemonic::Mov)
    } else if spells(w, "ldr") {
        Some(Mnemonic::Ldr)
    } else if spells(w, "str") {
        Some(Mnemonic::Str)
    } else if spells(w, "stp") {
        Some(Mnemonic::Stp)
    } else if spells(w, "b") {
        Some(Mnemonic::B)
    } else if spells(w, "bl") {
        Some(Mnemonic::Bl)
    } else if spells(w, "cbz") {
        Some(Mnemonic::Cbz)
    } else if spells(w, "cbnz") {
        Some(Mnemonic::Cbnz)
    } else {
        None
    }
}

fn register_of(w: &str) -> (r: Option<u8>)
    ensures
        r == register_index(w@),
{
    if spells(w, "sp") || spells(w, "xzr") {
        return Some(31);
    }
    let n = w.unicode_len();
    if n == 2 {
        let c0 = w.get_char(0);
        let c1 = w.get_char(1);
        if c0 == 'x' && digit(c1) {
            return Some((c1 as u32 - '0' as u32) as u8);
        }
    } else if n == 3 {
        let c0 = w.get_char(0);
        let c1 = w.get_char(1);
        let c2 = w.get_char(2);
        if c0 == 'x' && (('1' <= c1 && c1 <= '2' && digit(c2)) || (c1 == '3' && c2 == '0')) {
            let tens = (c1 as u32 - '0' as u32) as u8;
            let ones = (c2 as u32 - '0' as u32) as u8;
            return Some(tens * 10 + ones);
        }
    }
    None
}

impl TokenType {
    /// The register number of a register token: `x0`..`x30` give 0 to 30, `sp` and `xzr` give 31.
    pub fn encode(&self) -> (r: Option<u8>)
        ensures
            r == kind_register(self@),
    {
        match self {
            TokenType::Register(name) => register_of(name.as_str()),
            _ => None,
        }
    }

    pub fn from_mnemonic(m: Mnemonic) -> (r: TokenType)
        ensures
            r@ == TokenKind::Mnemonic(m),
    {
        match m {
            Mnemonic::Add => TokenType::AddInst,
            Mnemonic::Sub => TokenType::SubInst,
            Mnemonic::Mul => TokenType::MulInst,
            Mnemonic::Div => TokenType::DivInst,
            Mnemonic::Asr => TokenType::AsrInst,
            Mnemonic::Cmp => TokenType::CmpInst,
            Mnemonic::Mov => TokenType::MovInst,
            Mnemonic::Ldr => TokenType::LdrInst,
            Mnemonic::Str => TokenType::StrInst,
            Mnemonic::Stp => TokenType::StpInst,
            Mnemonic::B => TokenType::BInst,
            Mnemonic::Bl => TokenType::BlInst,
            Mnemonic::Cbz => TokenType::CbzInst,
            Mnemonic::Cbnz => TokenType::CbnzInst,
        }
    }

    /// The mnemonic of a mnemonic token.
    pub fn mnemonic(&self) -> (r: Option<Mnemonic>)
        ensures
            r == (match self@ {
                TokenKind::Mnemonic(m) => Some(m),
                _ => None,
            }),
    {
        match self {
            TokenType::AddInst => Some(Mnemonic::Add),
            TokenType::AsrInst => Some(Mnemonic::Asr),
            TokenType::SubInst => Some(Mnemonic::Sub),
            TokenType::MulInst => Some(Mnemonic::Mul),
            TokenType::DivInst => Some(Mnemonic::Div),
            TokenType::CmpInst => Some(Mnemonic::Cmp),
            TokenType::MovInst => Some(Mnemonic::Mov),
            TokenType::LdrInst => Some(Mnemonic::Ldr),
            TokenType::StrInst => Some(Mnemonic::Str),
            TokenType::StpInst => Some(Mnemonic::Stp),
            TokenType::BInst => Some(Mnemonic::B),
            TokenType::BlInst => Some(Mnemonic::Bl),
            TokenType::CbzInst => Some(Mnemonic::Cbz),
            TokenType::CbnzInst => Some(Mnemonic::Cbnz),
            _ => None,
        }
    }
}

fn punctuation_of(c: char) -> (r: Option<TokenType>)
    ensures
        r is Some == punctuation(c) is Some,
        r is Some ==> r->0@ == punctuation(c)->0,
{
    if c == ',' {
        Some(TokenType::Comma)
    } else if c == '[' {
        Some(TokenType::LSquare)
    } else if c == ']' {
        Some(TokenType::RSquare)
    } else if c == '#' {
        Some(TokenType::Hash)
    } else if c == '!' {
        Some(TokenType::Bang)
    } else if c == ':' {
        Some(TokenType::Colon)
    } else {
        None
    }
}

/// Classifies the word `s[start..end]` by the keyword and register tables.
fn classify_word(s: &Vec<char>, start: usize, end: usize) -> (r: TokenType)
    requires
        start <= end <= s.len(),
    ensures
        r@ == word_kind(s@.subrange(start as int, end as int)),
{
    let word = string_of(s, start, end);
    match keyword_of(word.as_str()) {
        Some(m) => TokenType::from_mnemonic(m),
        None => {
            if register_of(word.as_str()).is_some() {
                TokenType::Register(Box::new(word))
            } else {
                TokenType::Identifier(Box::new(word))
            }
        },
    }
}

/// The end of the word that starts at `start`.
fn lex_identifier(s: &Vec<char>, start: usize) -> (end: usize)
    requires
        start < s.len(),
    ensures
        end == word_end(s@, (start + 1) as nat),
        start < end <= s.len(),
{
    let mut j = start + 1;
    while j < s.len() && (letter(s[j]) || digit(s[j]))
        invariant
            start < j <= s.len(),
            word_end(s@, j as nat) == word_end(s@, (start + 1) as nat),
        decreases s.len() - j,
    {
        j = j + 1;
    }
    j
}

/// The end of the digits that start at `start`, and their value unless it passes `u64`.
fn lex_number(s: &Vec<char>, start: usize) -> (r: (usize, Option<u64>))
    requires
        start <= s.len(),
    ensures
        r.0 == digits_end(s@, start as nat),
        start <= r.0 <= s.len(),
        start < s.len() && is_digit(s@[start as int]) ==> start < r.0,
        r.1 == (if decimal(s@.subrange(start as int, r.0 as int)) < 0x1_0000_0000_0000_0000 {
            Some(decimal(s@.subrange(start as int, r.0 as int)) as u64)
        } else {
            None::<u64>
        }),
{
    let mut j = start;
    let mut acc: u64 = 0;
    let mut over = false;
    assert(s@.subrange(start as int, start as int) =~= Seq::<char>::empty());
    while j < s.len() && digit(s[j])
        invariant
            start <= j <= s.len(),
            digits_end(s@, j as nat) == digits_end(s@, start as nat),
            over ==> decimal(s@.subrange(start as int, j as int)) >= 0x1_0000_0000_0000_0000,
            !over ==> acc == decimal(s@.subrange(start as int, j as int)),
        decreases s.len() - j,
    {
        let d = (s[j] as u32 - '0' as u32) as u64;
        assert(s@.subrange(start as int, j + 1).drop_last() =~= s@.subrange(start as int, j as int));
        if !over {
            match acc.checked_mul(10) {
                Some(m) => match m.checked_add(d) {
                    Some(v) => {
                        acc = v;
                    },
                    None => {
                        over = true;
                    },
                },
                None => {
                    over = true;
                },
            }
        }
        j = j + 1;
    }
    if over {
        (j, None)
    } else {
        (j, Some(acc))
    }
}

/// The literal's value once its sign is applied, wrapping as a 64-bit word does.
fn apply_sign(neg: bool, mag: u64) -> (v: i64)
    ensures
        v == signed_lit(neg, mag as nat),
{
    if !neg {
        if mag < 0x8000_0000_0000_0000 {
            mag as i64
        } else {
            ((mag - 0x8000_0000_0000_0000) as i64) + i64::MIN
        }
    } else {
        if mag == 0x8000_0000_0000_0000 {
            i64::MIN
        } else if mag < 0x8000_0000_0000_0000 {
            -(mag as i64)
        } else {
            (0xffff_ffff_ffff_ffff - mag + 1) as i64
        }
    }
}

/// The line reached after scanning the whitespace `ws` from `line`: one more per line break.
pub open spec fn line_after(line: nat, ws: Seq<char>) -> nat
    decreases ws.len(),
{
    if ws.len() == 0 {
        line
    } else if ws.last() == '\n' {
        line_after(line, ws.drop_last()) + 1
    } else {
        line_after(line, ws.drop_last())
    }
}

/// The column reached after scanning the whitespace `ws` from `col`: 1 plus the characters
/// after the last line break, or `col + ws.len()` when there is none.
pub open spec fn col_after(col: nat, ws: Seq<char>) -> nat
    decreases ws.len(),
{
    if ws.len() == 0 {
        col
    } else if ws.last() == '\n' {
        1
    } else {
        col_after(col, ws.drop_last()) + 1
    }
}

/// Skips whitespace from `i`; a line break moves to column 1 of the next line.
fn omit_whitespace(s: &Vec<char>, i: usize, line: &mut u64, col: &mut u64) -> (r: usize)
    requires
        i <= s.len() < usize::MAX,
        1 <= *old(line) <= i + 1,
        1 <= *old(col) <= i + 1,
    ensures
        i <= r <= s.len(),
        1 <= *final(line) <= r + 1,
        1 <= *final(col) <= r + 1,
        r == s.len() || (s@[r as int] != '\n' && !is_blank(s@[r as int])),
        i < s.len() && (s@[i as int] == '\n' || is_blank(s@[i as int])) ==> i < r,
        forall|k: int| i <= k < r ==> #[trigger] s@[k] == '\n' || is_blank(s@[k]),
        *final(line) as nat == line_after(*old(line) as nat, s@.subrange(i as int, r as int)),
        *final(col) as nat == col_after(*old(col) as nat, s@.subrange(i as int, r as int)),
        lex_from(s@, r as nat, *final(line) as nat, *final(col) as nat) == lex_from(
            s@,
            i as nat,
            *old(line) as nat,
            *old(col) as nat,
        ),
{
    let mut k = i;
    assert(s@.subrange(i as int, i as int) =~= Seq::<char>::empty());
    while k < s.len() && (s[k] == '\n' || s[k] == ' ' || s[k] == '\t' || s[k] == '\r')
        invariant
            i <= k <= s.len() < usize::MAX,
            1 <= *line <= k + 1,
            1 <= *col <= k + 1,
            forall|j: int| i <= j < k ==> #[trigger] s@[j] == '\n' || is_blank(s@[j]),
            *line as nat == line_after(*old(line) as nat, s@.subrange(i as int, k as int)),
            *col as nat == col_after(*old(col) as nat, s@.subrange(i as int, k as int)),
            lex_from(s@, k as nat, *line as nat, *col as nat) == lex_from(
                s@,
                i as nat,
                *old(line) as nat,
                *old(col) as nat,
            ),
        decreases s.len() - k,
    {
        assert(s@.subrange(i as int, k + 1).drop_last() =~= s@.subrange(i as int, k as int));
        if s[k] == '\n' {
            *line = *line + 1;
            *col = 1;
        } else {
            *col = *col + 1;
        }
        k = k + 1;
    }
    k
}

pub struct Lexer {
    pub input: Vec<char>,
    pub tokens: Vec<Token>,
}

impl Lexer {
    /// A lexer over the characters of `input`, with no tokens yet.
    pub fn new(input: &str) -> (r: Lexer)
        ensures
            r.input@ == input@,
            r.tokens@.len() == 0,
    {
        let mut chars: Vec<char> = Vec::new();
        for c in it: input.chars()
            invariant
                chars@ == it.seq().take(it.index() as int),
                it.seq() == input@,
        {
            chars.push(c);
        }
        Lexer { input: chars, tokens: Vec::new() }
    }

    /// Scans the whole input. On success `tokens` holds exactly the tokens of the input;
    /// on an error it is left as it was.
    pub fn lex(&mut self) -> (r: Result<(), LexError>)
        requires
            old(self).input.len() < usize::MAX,
        ensures
            final(self).input == old(self).input,
            match lex_source(old(self).input@) {
                Ok(ts) => r is Ok && views(final(self).tokens@) == ts,
                Err(e) => r == Err::<(), LexError>(e) && final(self).tokens == old(self).tokens,
            },
    {
        let n = self.input.len();
        let mut toks: Vec<Token> = Vec::new();
        let mut i: usize = 0;
        let mut line: u64 = 1;
        let mut col: u64 = 1;
        assert(views(toks@) =~= Seq::<TokenView>::empty());
        while i < n
            invariant
                n == self.input.len() < usize::MAX,
                self.input == old(self).input,
                self.tokens == old(self).tokens,
                i <= n,
                1 <= line <= i + 1,
                1 <= col <= i + 1,
                glue(views(toks@), lex_from(self.input@, i as nat, line as nat, col as nat))
                    == lex_source(self.input@),
            decreases n - i,
        {
            let ghost s = self.input@;
            let c = self.input[i];
            if c == '\n' || c == ' ' || c == '\t' || c == '\r' {
                i = omit_whitespace(&self.input, i, &mut line, &mut col);
            } else if let Some(k) = punctuation_of(c) {
                let t = Token { token_type: k, line, col };
                proof {
                    lemma_glue_prepend(views(toks@), t@, lex_from(s, (i + 1) as nat, line as nat, (col + 1) as nat));
                    lemma_views_push(toks@, t);
                }
                toks.push(t);
                i = i + 1;
                col = col + 1;
            } else if letter(c) {
                let j = lex_identifier(&self.input, i);
                let tt = classify_word(&self.input, i, j);
                let t = Token { token_type: tt, line, col };
                let ncol = col + (j - i) as u64;
                proof {
                    lemma_glue_prepend(views(toks@), t@, lex_from(s, j as nat, line as nat, ncol as nat));
                    lemma_views_push(toks@, t);
                }
                toks.push(t);
                i = j;
                col = ncol;
            } else if digit(c) || (c == '-' && i + 1 < n && digit(self.input[i + 1])) {
                let neg = c == '-';
                let start = if neg {
                    i + 1
                } else {
                    i
                };
                let (j, mag) = lex_number(&self.input, start);
                match mag {
                    None => {
                        return Err(LexError::MalformedLiteral { line, col });
                    },
                    Some(m) => {
                        let v = apply_sign(neg, m);
                        let t = Token { token_type: TokenType::Integer(v), line, col };
                        let ncol = col + (j - i) as u64;
                        proof {
                            lemma_glue_prepend(views(toks@), t@, lex_from(s, j as nat, line as nat, ncol as nat));
                            lemma_views_push(toks@, t);
                        }
                        toks.push(t);
                        i = j;
                        col = ncol;
                    },
                }
            } else if c == '-' {
                let t = Token { token_type: TokenType::Minus, line, col };
                proof {
                    lemma_glue_prepend(views(toks@), t@, lex_from(s, (i + 1) as nat, line as nat, (col + 1) as nat));
                    lemma_views_push(toks@, t);
                }
                toks.push(t);
                i = i + 1;
                col = col + 1;
            } else {
                return Err(LexError::UnexpectedChar { ch: c, line, col });
            }
        }
        assert(views(toks@) + Seq::<TokenView>::empty() =~= views(toks@));
        self.tokens = toks;
        Ok(())
    }
}

} // verus!
