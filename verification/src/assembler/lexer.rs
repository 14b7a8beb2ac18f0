//! Tokenizer for the assembly language.
//!
//! Tokens are instruction mnemonics and label references (identifiers),
//! registers (`r` followed by digits, `sp`, `pc`), label definitions (an
//! identifier or a numeric literal directly followed by `:`), decimal and
//! `0x` hexadecimal integers, string literals, commas and newlines.
//! Spaces, tabs, carriage returns and `;` comments are skipped.
//! Columns count bytes of the UTF-8 source from the start of the line.

use vstd::prelude::*;
use vstd::utf8::{encode_scalar, encode_utf8, char_is_scalar};
use crate::text::{
    all_dec_digits, chars_of, dec_nat, is_ascii_alnum, is_ascii_alnum_exec, is_ascii_alpha,
    is_ascii_alpha_exec, is_dec_digit, is_dec_digit_exec, is_hex_digit, is_hex_digit_exec,
    parse_i64_dec, parse_i64_hex, push_dec_u64, push_str, spec_parse_i64, spec_parse_i64_hex,
    string_push,
};

verus! {

#[derive(Debug, Clone, Copy, PartialEq, Eq, Structural)]
pub struct Location {
    pub line: usize,
    pub column: usize,
}

#[derive(Debug, Clone, PartialEq, Eq)]
pub enum TokenKind<'a> {
    Instruction(&'a str),
    Register(&'a str),
    LabelDef(&'a str),
    LabelRef(&'a str),
    Integer(i64),
    HexInteger(i64),
    StringLiteral(&'a str),
    Comma,
    NewLine,
    EOF,
}

#[derive(Debug, Clone, PartialEq, Eq)]
pub struct Token<'a> {
    pub kind: TokenKind<'a>,
    pub lexeme: &'a str,
    pub loc: Location,
}

/// A token kind with its text as characters.
pub enum SpecTokenKind {
    Instruction(Seq<char>),
    Register(Seq<char>),
    LabelDef(Seq<char>),
    LabelRef(Seq<char>),
    Integer(i64),
    HexInteger(i64),
    StringLiteral(Seq<char>),
    Comma,
    NewLine,
    EOF,
}

/// A token with its texts as characters.
pub struct SpecToken {
    pub kind: SpecTokenKind,
    pub lexeme: Seq<char>,
    pub loc: Location,
}

impl<'a> View for TokenKind<'a> {
    type V = SpecTokenKind;

    open spec fn view(&self) -> SpecTokenKind {
        match self {
            TokenKind::Instruction(s) => SpecTokenKind::Instruction(s@),
            TokenKind::Register(s) => SpecTokenKind::Register(s@),
            TokenKind::LabelDef(s) => SpecTokenKind::LabelDef(s@),
            TokenKind::LabelRef(s) => SpecTokenKind::LabelRef(s@),
            TokenKind::Integer(v) => SpecTokenKind::Integer(*v),
            TokenKind::HexInteger(v) => SpecTokenKind::HexInteger(*v),
            TokenKind::StringLiteral(s) => SpecTokenKind::StringLiteral(s@),
            TokenKind::Comma => SpecTokenKind::Comma,
            TokenKind::NewLine => SpecTokenKind::NewLine,
            TokenKind::EOF => SpecTokenKind::EOF,
        }
    }
}

impl<'a> View for Token<'a> {
    type V = SpecToken;

    open spec fn view(&self) -> SpecToken {
        SpecToken { kind: self.kind@, lexeme: self.lexeme@, loc: self.loc }
    }
}

// ---------------------------------------------------------------------------
// Byte offsets of character positions
// ---------------------------------------------------------------------------

/// Byte offset, in the UTF-8 encoding of `s`, of the character at position `p`.
pub open spec fn byte_at(s: Seq<char>, p: nat) -> nat {
    encode_utf8(s.take(p as int)).len()
}

pub proof fn lemma_encode_utf8_concat(a: Seq<char>, b: Seq<char>)
    ensures
        encode_utf8(a + b) == encode_utf8(a) + encode_utf8(b),
    decreases a.len(),
{
    if a.len() == 0 {
        assert(a + b =~= b);
        assert(encode_utf8(a) =~= Seq::<u8>::empty());
        assert(encode_utf8(a) + encode_utf8(b) =~= encode_utf8(b));
    } else {
        lemma_encode_utf8_concat(a.drop_first(), b);
        assert((a + b).drop_first() =~= a.drop_first() + b);
        assert((a + b)[0] == a[0]);
        assert(encode_utf8(a + b) =~= encode_scalar(a[0] as u32) + encode_utf8(a.drop_first() + b));
    }
}

proof fn lemma_byte_at_step(s: Seq<char>, p: nat)
    requires
        p < s.len(),
    ensures
        byte_at(s, p + 1) == byte_at(s, p) + encode_scalar(s[p as int] as u32).len(),
{
    assert(s.take((p + 1) as int) =~= s.take(p as int) + seq![s[p as int]]);
    lemma_encode_utf8_concat(s.take(p as int), seq![s[p as int]]);
    assert(seq![s[p as int]].drop_first() =~= Seq::<char>::empty());
    assert(encode_utf8(Seq::<char>::empty()) =~= Seq::<u8>::empty());
    assert(encode_utf8(seq![s[p as int]]) =~= encode_scalar(s[p as int] as u32));
}

proof fn lemma_byte_at_mono(s: Seq<char>, p: nat, q: nat)
    requires
        p <= q <= s.len(),
    ensures
        byte_at(s, p) <= byte_at(s, q),
        byte_at(s, q) <= encode_utf8(s).len(),
{
    assert(s.take(q as int) =~= s.take(p as int) + s.subrange(p as int, q as int));
    lemma_encode_utf8_concat(s.take(p as int), s.subrange(p as int, q as int));
    assert(s =~= s.take(q as int) + s.skip(q as int));
    lemma_encode_utf8_concat(s.take(q as int), s.skip(q as int));
}

fn char_width(c: char) -> (w: usize)
    ensures
        w == encode_scalar(c as u32).len(),
        1 <= w <= 4,
{
    proof {
        char_is_scalar(c);
    }
    let u = c as u32;
    if u < 0x80 {
        1
    } else if u < 0x800 {
        2
    } else if u < 0x10000 {
        3
    } else {
        4
    }
}

// ---------------------------------------------------------------------------
// The token grammar
// ---------------------------------------------------------------------------

pub open spec fn is_blank(c: char) -> bool {
    c == ' ' || c == '\t' || c == '\r'
}

/// First position at or after `p` holding a newline, or the end.
pub open spec fn line_end(s: Seq<char>, p: nat) -> nat
    decreases s.len() - p,
{
    if p >= s.len() || s[p as int] == '\n' {
        p
    } else {
        line_end(s, p + 1)
    }
}

/// Position after the blanks and comments that start at `p`.
pub open spec fn skip_trivia(s: Seq<char>, p: nat) -> nat
    decreases s.len() - p,
{
    if p >= s.len() {
        p
    } else if is_blank(s[p as int]) {
        skip_trivia(s, p + 1)
    } else if s[p as int] == ';' {
        line_end(s, p)
    } else {
        p
    }
}

/// First position at or after `p` that holds no decimal digit, or the end.
pub open spec fn scan_digits(s: Seq<char>, p: nat) -> nat
    decreases s.len() - p,
{
    if p >= s.len() || !is_dec_digit(s[p as int]) {
        p
    } else {
        scan_digits(s, p + 1)
    }
}

/// First position at or after `p` that holds no hexadecimal digit, or the end.
pub open spec fn scan_hex(s: Seq<char>, p: nat) -> nat
    decreases s.len() - p,
{
    if p >= s.len() || !is_hex_digit(s[p as int]) {
        p
    } else {
        scan_hex(s, p + 1)
    }
}

pub open spec fn is_ident_char(c: char) -> bool {
    is_ascii_alnum(c) || c == '_'
}

/// First position at or after `p` that holds no identifier character, or the end.
pub open spec fn scan_ident(s: Seq<char>, p: nat) -> nat
    decreases s.len() - p,
{
    if p >= s.len() || !is_ident_char(s[p as int]) {
        p
    } else {
        scan_ident(s, p + 1)
    }
}

/// First position at or after `p` holding a quote or a newline, or the end.
pub open spec fn scan_string(s: Seq<char>, p: nat) -> nat
    decreases s.len() - p,
{
    if p >= s.len() || s[p as int] == '"' || s[p as int] == '\n' {
        p
    } else {
        scan_string(s, p + 1)
    }
}

/// The position of the lexer: the next character, the current line, and
/// the byte offset where the current line starts.
pub struct LexState {
    pub pos: nat,
    pub line: nat,
    pub col_offset: nat,
}

/// What one call of `next_token` yields.
pub enum LexStep {
    Token(SpecToken),
    Error(Seq<char>),
}

/// A word is a register name: `r` followed by digits only, `sp`, or `pc`.
pub open spec fn is_register_name(w: Seq<char>) -> bool {
    (w.len() >= 1 && w[0] == 'r' && all_dec_digits(w.drop_first())) || w == "sp"@ || w == "pc"@
}

pub open spec fn at_text(line: nat, column: nat) -> Seq<char> {
    " at line "@ + dec_nat(line) + ", col "@ + dec_nat(column)
}

/// A numeric literal from `p` to `q`, or a label definition when a colon follows it.
pub open spec fn number_token(
    s: Seq<char>,
    st: LexState,
    p: nat,
    q: nat,
    hex: bool,
    loc: Location,
) -> (LexStep, LexState) {
    let lexeme = s.subrange(p as int, q as int);
    let at = at_text(loc.line as nat, loc.column as nat);
    if q < s.len() && s[q as int] == ':' {
        (
            LexStep::Token(
                SpecToken {
                    kind: SpecTokenKind::LabelDef(lexeme),
                    lexeme: s.subrange(p as int, (q + 1) as int),
                    loc,
                },
            ),
            LexState { pos: q + 1, ..st },
        )
    } else if hex {
        match spec_parse_i64_hex(s.subrange((p + 2) as int, q as int)) {
            Some(v) => (
                LexStep::Token(SpecToken { kind: SpecTokenKind::HexInteger(v), lexeme, loc }),
                LexState { pos: q, ..st },
            ),
            None => (
                LexStep::Error("Invalid hex literal '"@ + lexeme + "'"@ + at),
                LexState { pos: q, ..st },
            ),
        }
    } else {
        match spec_parse_i64(lexeme) {
            Some(v) => (
                LexStep::Token(SpecToken { kind: SpecTokenKind::Integer(v), lexeme, loc }),
                LexState { pos: q, ..st },
            ),
            None => (
                LexStep::Error("Invalid integer literal '"@ + lexeme + "'"@ + at),
                LexState { pos: q, ..st },
            ),
        }
    }
}

/// The token that starts at or after position `st.pos` of the source `s`,
/// and the lexer position after it.
pub open spec fn spec_next_token(s: Seq<char>, st: LexState) -> (LexStep, LexState) {
    let p = skip_trivia(s, st.pos);
    let loc = Location {
        line: st.line as usize,
        column: ((byte_at(s, p) - st.col_offset) as usize).wrapping_add(1),
    };
    let at = at_text(loc.line as nat, loc.column as nat);
    if p >= s.len() {
        (
            LexStep::Token(SpecToken { kind: SpecTokenKind::EOF, lexeme: Seq::empty(), loc }),
            LexState { pos: p, ..st },
        )
    } else {
        let c = s[p as int];
        let p1 = p + 1;
        if c == ',' {
            (
                LexStep::Token(
                    SpecToken {
                        kind: SpecTokenKind::Comma,
                        lexeme: s.subrange(p as int, p1 as int),
                        loc,
                    },
                ),
                LexState { pos: p1, ..st },
            )
        } else if c == '\n' {
            (
                LexStep::Token(SpecToken { kind: SpecTokenKind::NewLine, lexeme: "\n"@, loc }),
                LexState {
                    pos: p1,
                    line: (st.line as usize).wrapping_add(1) as nat,
                    col_offset: byte_at(s, p1),
                },
            )
        } else if c == '"' {
            let q = scan_string(s, p1);
            if q < s.len() && s[q as int] == '"' {
                (
                    LexStep::Token(
                        SpecToken {
                            kind: SpecTokenKind::StringLiteral(s.subrange(p1 as int, q as int)),
                            lexeme: s.subrange(p as int, (q + 1) as int),
                            loc,
                        },
                    ),
                    LexState { pos: q + 1, ..st },
                )
            } else if q < s.len() {
                (LexStep::Error("Unterminated string literal"@ + at), LexState { pos: q, ..st })
            } else {
                (
                    LexStep::Error("Unterminated string literal at end of file"@),
                    LexState { pos: q, ..st },
                )
            }
        } else if is_dec_digit(c) || (c == '-' && p1 < s.len() && is_dec_digit(s[p1 as int])) {
            if c == '0' && p1 < s.len() && s[p1 as int] == 'x' {
                number_token(s, st, p, scan_hex(s, p1 + 1), true, loc)
            } else {
                number_token(s, st, p, scan_digits(s, p1), false, loc)
            }
        } else if is_ascii_alpha(c) || c == '_' || c == '.' {
            let q = scan_ident(s, p1);
            let word = s.subrange(p as int, q as int);
            if q < s.len() && s[q as int] == ':' {
                (
                    LexStep::Token(
                        SpecToken {
                            kind: SpecTokenKind::LabelDef(word),
                            lexeme: s.subrange(p as int, (q + 1) as int),
                            loc,
                        },
                    ),
                    LexState { pos: q + 1, ..st },
                )
            } else if is_register_name(word) {
                (
                    LexStep::Token(
                        SpecToken { kind: SpecTokenKind::Register(word), lexeme: word, loc },
                    ),
                    LexState { pos: q, ..st },
                )
            } else {
                (
                    LexStep::Token(
                        SpecToken { kind: SpecTokenKind::Instruction(word), lexeme: word, loc },
                    ),
                    LexState { pos: q, ..st },
                )
            }
        } else {
            (
                LexStep::Error("Unexpected character '"@ + seq![c] + "'"@ + at),
                LexState { pos: p1, ..st },
            )
        }
    }
}

// ---------------------------------------------------------------------------
// Facts about the scanners
// ---------------------------------------------------------------------------

pub proof fn lemma_line_end(s: Seq<char>, p: nat)
    ensures
        p <= line_end(s, p),
        line_end(s, p) >= s.len() || s[line_end(s, p) as int] == '\n',
        line_end(s, p) <= s.len() || line_end(s, p) == p,
        forall|i: int| p <= i < line_end(s, p) ==> s[i] != '\n',
    decreases s.len() - p,
{
    if !(p >= s.len() || s[p as int] == '\n') {
        lemma_line_end(s, p + 1);
    }
}

pub proof fn lemma_skip_trivia(s: Seq<char>, p: nat)
    ensures
        p <= skip_trivia(s, p),
        skip_trivia(s, p) <= s.len() || skip_trivia(s, p) == p,
        forall|i: int| p <= i < skip_trivia(s, p) ==> s[i] != '\n',
    decreases s.len() - p,
{
    if p >= s.len() {
    } else if is_blank(s[p as int]) {
        lemma_skip_trivia(s, p + 1);
    } else if s[p as int] == ';' {
        lemma_line_end(s, p);
    }
}

pub proof fn lemma_scan_digits(s: Seq<char>, p: nat)
    ensures
        p <= scan_digits(s, p),
        scan_digits(s, p) <= s.len() || scan_digits(s, p) == p,
        forall|i: int| p <= i < scan_digits(s, p) ==> is_dec_digit(#[trigger] s[i]),
        scan_digits(s, p) < s.len() ==> !is_dec_digit(s[scan_digits(s, p) as int]),
    decreases s.len() - p,
{
    if !(p >= s.len() || !is_dec_digit(s[p as int])) {
        lemma_scan_digits(s, p + 1);
    }
}

pub proof fn lemma_scan_hex(s: Seq<char>, p: nat)
    ensures
        p <= scan_hex(s, p),
        scan_hex(s, p) <= s.len() || scan_hex(s, p) == p,
        forall|i: int| p <= i < scan_hex(s, p) ==> is_hex_digit(#[trigger] s[i]),
        scan_hex(s, p) < s.len() ==> !is_hex_digit(s[scan_hex(s, p) as int]),
    decreases s.len() - p,
{
    if !(p >= s.len() || !is_hex_digit(s[p as int])) {
        lemma_scan_hex(s, p + 1);
    }
}

pub proof fn lemma_scan_ident(s: Seq<char>, p: nat)
    ensures
        p <= scan_ident(s, p),
        scan_ident(s, p) <= s.len() || scan_ident(s, p) == p,
        forall|i: int| p <= i < scan_ident(s, p) ==> is_ident_char(#[trigger] s[i]),
        scan_ident(s, p) < s.len() ==> !is_ident_char(s[scan_ident(s, p) as int]),
    decreases s.len() - p,
{
    if !(p >= s.len() || !is_ident_char(s[p as int])) {
        lemma_scan_ident(s, p + 1);
    }
}

pub proof fn lemma_scan_string(s: Seq<char>, p: nat)
    ensures
        p <= scan_string(s, p),
        scan_string(s, p) <= s.len() || scan_string(s, p) == p,
        forall|i: int| p <= i < scan_string(s, p) ==> s[i] != '\n' && s[i] != '"',
        scan_string(s, p) < s.len() ==> (s[scan_string(s, p) as int] == '"' || s[scan_string(
            s,
            p,
        ) as int] == '\n'),
    decreases s.len() - p,
{
    if !(p >= s.len() || s[p as int] == '"' || s[p as int] == '\n') {
        lemma_scan_string(s, p + 1);
    }
}

// ---------------------------------------------------------------------------
// Where tokens stand in the source
// ---------------------------------------------------------------------------

/// The number of newlines in `s`.
pub open spec fn count_newlines(s: Seq<char>) -> nat
    decreases s.len(),
{
    if s.len() == 0 {
        0
    } else {
        count_newlines(s.drop_last()) + if s.last() == '\n' {
            1nat
        } else {
            0nat
        }
    }
}

/// Where the line holding position `p` starts: just after the last newline before `p`.
pub open spec fn line_start(s: Seq<char>, p: nat) -> nat
    decreases p,
{
    if p == 0 {
        0
    } else if s[p - 1] == '\n' {
        p
    } else {
        line_start(s, (p - 1) as nat)
    }
}

/// The lexer state agrees with its position: the line is one more than the
/// newlines before the position, and the line's byte offset is where the
/// line holding the position starts.
pub open spec fn state_at(s: Seq<char>, st: LexState) -> bool {
    &&& st.pos <= s.len()
    &&& st.line == 1 + count_newlines(s.take(st.pos as int))
    &&& st.col_offset == byte_at(s, line_start(s, st.pos))
}

/// A token found at position `p`: its line is one more than the newlines
/// before `p`, its column is one more than the byte offset of `p` within its
/// line, and (unless it is the end-of-file token) its text is the source
/// from `p` on.
pub open spec fn token_at(s: Seq<char>, t: SpecToken, p: nat) -> bool {
    &&& t.loc.line == 1 + count_newlines(s.take(p as int))
    &&& t.loc.column == byte_at(s, p) - byte_at(s, line_start(s, p)) + 1
    &&& !(t.kind is EOF) ==> t.lexeme.len() >= 1 && p + t.lexeme.len() <= s.len()
        && t.lexeme == s.subrange(p as int, p + t.lexeme.len() as int)
}

proof fn lemma_prefix_step(s: Seq<char>, q: nat)
    requires
        q < s.len(),
    ensures
        count_newlines(s.take(q + 1int)) == count_newlines(s.take(q as int)) + if s[q as int]
            == '\n' {
            1nat
        } else {
            0nat
        },
        line_start(s, q + 1) == if s[q as int] == '\n' {
            q + 1
        } else {
            line_start(s, q)
        },
{
    assert(s.take(q + 1int).drop_last() =~= s.take(q as int));
}

proof fn lemma_prefix_bounds(s: Seq<char>, p: nat)
    requires
        p <= s.len(),
    ensures
        count_newlines(s.take(p as int)) <= p,
        line_start(s, p) <= p,
        p <= byte_at(s, p),
        byte_at(s, line_start(s, p)) <= byte_at(s, p),
        byte_at(s, p) <= encode_utf8(s).len(),
    decreases p,
{
    if p > 0 {
        lemma_prefix_bounds(s, (p - 1) as nat);
        lemma_prefix_step(s, (p - 1) as nat);
        lemma_byte_at_step(s, (p - 1) as nat);
    }
    lemma_byte_at_mono(s, line_start(s, p), p);
}

/// Moving over text with no newline keeps the line and its start.
proof fn lemma_no_newline_run(s: Seq<char>, a: nat, b: nat)
    requires
        a <= b <= s.len(),
        forall|i: int| a <= i < b ==> s[i] != '\n',
    ensures
        count_newlines(s.take(b as int)) == count_newlines(s.take(a as int)),
        line_start(s, b) == line_start(s, a),
    decreases b - a,
{
    if a < b {
        lemma_no_newline_run(s, a, (b - 1) as nat);
        lemma_prefix_step(s, (b - 1) as nat);
    }
}

proof fn lemma_state_moves(s: Seq<char>, st: LexState, x: nat)
    requires
        state_at(s, st),
        st.pos <= x <= s.len(),
        forall|i: int| st.pos <= i < x ==> s[i] != '\n',
    ensures
        state_at(s, LexState { pos: x, ..st }),
{
    lemma_no_newline_run(s, st.pos, x);
}

/// Where one call of the lexer finds its token and where it leaves the lexer:
/// the token starts after the skipped blanks and comments, at `p`; its line
/// and column and its text are those of the source at `p`; a token other
/// than the end of file consumes its text, at least one character, so each
/// call either ends the source, fails, or moves forward; and the lexer's
/// state keeps agreeing with its position.
pub proof fn law_token_position(s: Seq<char>, st: LexState)
    requires
        state_at(s, st),
        encode_utf8(s).len() < usize::MAX,
    ensures
        ({
            let p = skip_trivia(s, st.pos);
            let (step, st2) = spec_next_token(s, st);
            &&& st.pos <= p <= s.len()
            &&& step matches LexStep::Token(t) ==> {
                &&& token_at(s, t, p)
                &&& state_at(s, st2)
                &&& t.kind is EOF ==> st2.pos == p && p == s.len()
                &&& !(t.kind is EOF) ==> st2.pos == p + t.lexeme.len() && st.pos < st2.pos
            }
        }),
{
    reveal_strlit("\n");
    let p = skip_trivia(s, st.pos);
    lemma_skip_trivia(s, st.pos);
    lemma_no_newline_run(s, st.pos, p);
    lemma_prefix_bounds(s, p);
    lemma_prefix_bounds(s, st.pos);
    let (step, st2) = spec_next_token(s, st);
    assert((st.line as usize) as nat == st.line);
    assert(((byte_at(s, p) - st.col_offset) as usize).wrapping_add(1) == byte_at(s, p)
        - byte_at(s, line_start(s, p)) + 1);
    if p < s.len() {
        let c = s[p as int];
        let p1 = p + 1;
        if c == ',' {
            lemma_state_moves(s, st, p1);
        } else if c == '\n' {
            lemma_prefix_step(s, p);
            lemma_prefix_bounds(s, p + 1);
            assert(((st.line as usize).wrapping_add(1)) as nat == st.line + 1);
            assert(s.subrange(p as int, p + 1int) =~= "\n"@);
        } else if c == '"' {
            let q = scan_string(s, p1);
            lemma_scan_string(s, p1);
            if q < s.len() && s[q as int] == '"' {
                lemma_state_moves(s, st, q + 1);
            }
        } else if is_dec_digit(c) || (c == '-' && p1 < s.len() && is_dec_digit(s[p1 as int])) {
            if c == '0' && p1 < s.len() && s[p1 as int] == 'x' {
                let q = scan_hex(s, p1 + 1);
                lemma_scan_hex(s, p1 + 1);
                assert forall|i: int| p <= i < q implies s[i] != '\n' by {
                    if i >= p1 + 1 {
                        assert(is_hex_digit(s[i]));
                    }
                }
                lemma_state_moves(s, st, q);
                if q < s.len() && s[q as int] == ':' {
                    lemma_state_moves(s, st, q + 1);
                }
            } else {
                let q = scan_digits(s, p1);
                lemma_scan_digits(s, p1);
                assert forall|i: int| p <= i < q implies s[i] != '\n' by {
                    if i >= p1 {
                        assert(is_dec_digit(s[i]));
                    }
                }
                lemma_state_moves(s, st, q);
                if q < s.len() && s[q as int] == ':' {
                    lemma_state_moves(s, st, q + 1);
                }
            }
        } else if is_ascii_alpha(c) || c == '_' || c == '.' {
            let q = scan_ident(s, p1);
            lemma_scan_ident(s, p1);
            assert forall|i: int| p <= i < q implies s[i] != '\n' by {
                if i >= p1 {
                    assert(is_ident_char(s[i]));
                }
            }
            lemma_state_moves(s, st, q);
            if q < s.len() && s[q as int] == ':' {
                lemma_state_moves(s, st, q + 1);
            }
        }
    } else {
        lemma_state_moves(s, st, p);
    }
}

// ---------------------------------------------------------------------------
// The lexer
// ---------------------------------------------------------------------------

pub struct Lexer<'a> {
    source: &'a str,
    chars: Vec<char>,
    pos: usize,
    line: usize,
    col_offset: usize,
    current_idx: usize,
}

/// The answer of `next_token` agrees with a lexing step.
pub open spec fn token_answer<'a>(
    r: std::result::Result<Token<'a>, String>,
    step: LexStep,
) -> bool {
    match step {
        LexStep::Token(t) => r matches Ok(tok) && tok@ == t,
        LexStep::Error(m) => r matches Err(e) && e@ == m,
    }
}

impl<'a> Lexer<'a> {
    /// The source text, as characters.
    pub closed spec fn text(&self) -> Seq<char> {
        self.source@
    }

    /// The lexer's position.
    pub closed spec fn state(&self) -> LexState {
        LexState { pos: self.pos as nat, line: self.line as nat, col_offset: self.col_offset as nat }
    }

    /// The position lies within the source, and the byte offsets agree with it.
    pub closed spec fn wf(&self) -> bool {
        &&& self.chars@ == self.source@
        &&& self.pos <= self.chars@.len()
        &&& self.current_idx == byte_at(self.chars@, self.pos as nat)
        &&& self.col_offset <= self.current_idx
        &&& encode_utf8(self.chars@).len() <= usize::MAX
    }

    pub fn new(source: &'a str) -> (l: Self)
        ensures
            l.wf(),
            l.text() == source@,
            l.state() == (LexState { pos: 0, line: 1, col_offset: 0 }),
    {
        let chars = chars_of(source);
        let bytes = source.as_bytes();
        let _n = bytes.len();
        assert(chars@.take(0) =~= Seq::<char>::empty());
        assert(encode_utf8(Seq::<char>::empty()) =~= Seq::<u8>::empty());
        Self { source, chars, pos: 0, line: 1, col_offset: 0, current_idx: 0 }
    }

    fn current_location(&self) -> (loc: Location)
        requires
            self.wf(),
        ensures
            loc == (Location {
                line: self.line,
                column: ((byte_at(self.text(), self.pos as nat) - self.col_offset) as usize).wrapping_add(1),
            }),
    {
        Location { line: self.line, column: (self.current_idx - self.col_offset).wrapping_add(1) }
    }

    fn peek(&self) -> (c: Option<char>)
        requires
            self.wf(),
        ensures
            self.pos < self.text().len() ==> c == Some(self.text()[self.pos as int]),
            self.pos >= self.text().len() ==> c is None,
    {
        if self.pos < self.chars.len() {
            Some(self.chars[self.pos])
        } else {
            None
        }
    }

    fn advance(&mut self) -> (c: Option<char>)
        requires
            old(self).wf(),
        ensures
            final(self).wf(),
            final(self).text() == old(self).text(),
            old(self).pos < old(self).text().len() ==> {
                let ch = old(self).text()[old(self).pos as int];
                &&& c == Some(ch)
                &&& final(self).pos == old(self).pos + 1
                &&& ch == '\n' ==> final(self).line == old(self).line.wrapping_add(1)
                    && final(self).col_offset == byte_at(old(self).text(), final(self).pos as nat)
                &&& ch != '\n' ==> final(self).line == old(self).line && final(self).col_offset
                    == old(self).col_offset
            },
            old(self).pos >= old(self).text().len() ==> c is None && final(self).state() == old(
                self,
            ).state(),
            final(self).source == old(self).source,
    {
        if self.pos < self.chars.len() {
            let c = self.chars[self.pos];
            let w = char_width(c);
            proof {
                lemma_byte_at_step(self.chars@, self.pos as nat);
                lemma_byte_at_mono(self.chars@, (self.pos + 1) as nat, self.chars@.len());
            }
            self.current_idx = self.current_idx + w;
            self.pos = self.pos + 1;
            if c == '\n' {
                self.line = self.line.wrapping_add(1);
                self.col_offset = self.current_idx;
            }
            Some(c)
        } else {
            None
        }
    }

    /// Consumes characters while `class` accepts them: 0 digits, 1 hex digits,
    /// 2 identifier characters, 3 anything but a quote or a newline, 4 anything but a newline.
    fn advance_while(&mut self, class: u8)
        requires
            old(self).wf(),
            class <= 4,
        ensures
            final(self).wf(),
            final(self).text() == old(self).text(),
            final(self).source == old(self).source,
            final(self).line == old(self).line,
            final(self).col_offset == old(self).col_offset,
            class == 0 ==> final(self).pos == scan_digits(old(self).text(), old(self).pos as nat),
            class == 1 ==> final(self).pos == scan_hex(old(self).text(), old(self).pos as nat),
            class == 2 ==> final(self).pos == scan_ident(old(self).text(), old(self).pos as nat),
            class == 3 ==> final(self).pos == scan_string(old(self).text(), old(self).pos as nat),
            class == 4 ==> final(self).pos == line_end(old(self).text(), old(self).pos as nat),
    {
        let ghost s = self.text();
        let ghost p0 = self.pos as nat;
        loop
            invariant
                self.wf(),
                self.text() == s,
                self.source == old(self).source,
                self.line == old(self).line,
                self.col_offset == old(self).col_offset,
                class <= 4,
                class == 0 ==> scan_digits(s, self.pos as nat) == scan_digits(s, p0),
                class == 1 ==> scan_hex(s, self.pos as nat) == scan_hex(s, p0),
                class == 2 ==> scan_ident(s, self.pos as nat) == scan_ident(s, p0),
                class == 3 ==> scan_string(s, self.pos as nat) == scan_string(s, p0),
                class == 4 ==> line_end(s, self.pos as nat) == line_end(s, p0),
            ensures
                self.wf(),
                self.text() == s,
                self.source == old(self).source,
                self.line == old(self).line,
                self.col_offset == old(self).col_offset,
                class == 0 ==> self.pos == scan_digits(s, p0),
                class == 1 ==> self.pos == scan_hex(s, p0),
                class == 2 ==> self.pos == scan_ident(s, p0),
                class == 3 ==> self.pos == scan_string(s, p0),
                class == 4 ==> self.pos == line_end(s, p0),
            decreases self.text().len() - self.pos,
        {
            let more = match self.peek() {
                None => false,
                Some(c) => if class == 0 {
                    is_dec_digit_exec(c)
                } else if class == 1 {
                    is_hex_digit_exec(c)
                } else if class == 2 {
                    is_ascii_alnum_exec(c) || c == '_'
                } else if class == 3 {
                    c != '"' && c != '\n'
                } else {
                    c != '\n'
                },
            };
            if !more {
                break ;
            }
            self.advance();
        }
    }

    /// Produces the next token and moves past it.
    pub fn next_token(&mut self) -> (r: std::result::Result<Token<'a>, String>)
        requires
            old(self).wf(),
        ensures
            final(self).wf(),
            final(self).text() == old(self).text(),
            ({
                let (step, st) = spec_next_token(old(self).text(), old(self).state());
                token_answer(r, step) && final(self).state() == st
            }),
    {
        proof {
            reveal_strlit("");
            reveal_strlit("\n");
        }
        self.skip_whitespace_and_comments();
        let ghost s = self.text();
        let ghost st0 = old(self).state();
        let start_idx = self.pos;
        let loc = self.current_location();
        let c = match self.advance() {
            None => {
                assert(""@ =~= Seq::<char>::empty());
                return Ok(Token { kind: TokenKind::EOF, lexeme: "", loc });
            },
            Some(c) => c,
        };
        let ghost p = start_idx as nat;
        let ghost at = at_text(loc.line as nat, loc.column as nat);
        if c == ',' {
            let lexeme = self.source.substring_char(start_idx, self.pos);
            return Ok(Token { kind: TokenKind::Comma, lexeme, loc });
        }
        if c == '\n' {
            return Ok(Token { kind: TokenKind::NewLine, lexeme: "\n", loc });
        }
        if c == '"' {
            self.advance_while(3);
            match self.peek() {
                Some(peeked) => {
                    proof {
                        lemma_scan_string(s, p + 1);
                    }
                    if peeked == '"' {
                        self.advance();
                        let lexeme = self.source.substring_char(start_idx, self.pos);
                        let inner = self.source.substring_char(start_idx + 1, self.pos - 1);
                        return Ok(Token { kind: TokenKind::StringLiteral(inner), lexeme, loc });
                    }
                    let mut m = String::from_str("Unterminated string literal");
                    push_at(&mut m, loc);
                    return Err(m);
                },
                None => {
                    return Err(String::from_str("Unterminated string literal at end of file"));
                },
            }
        }
        let next = self.peek();
        let next_is_digit = match next {
            Some(n) => is_dec_digit_exec(n),
            None => false,
        };
        if is_dec_digit_exec(c) || (c == '-' && next_is_digit) {
            let is_hex = c == '0' && next == Some('x');
            if is_hex {
                self.advance();
                self.advance_while(1);
            } else {
                self.advance_while(0);
            }
            let end = self.pos;
            proof {
                if is_hex {
                    lemma_scan_hex(s, p + 2);
                } else {
                    lemma_scan_digits(s, p + 1);
                }
            }
            if self.peek() == Some(':') {
                self.advance();
                let lexeme = self.source.substring_char(start_idx, self.pos);
                let name = self.source.substring_char(start_idx, end);
                return Ok(Token { kind: TokenKind::LabelDef(name), lexeme, loc });
            }
            let lexeme = self.source.substring_char(start_idx, end);
            if is_hex {
                match parse_i64_hex(&self.chars, start_idx + 2, end) {
                    Some(val) => {
                        return Ok(Token { kind: TokenKind::HexInteger(val), lexeme, loc });
                    },
                    None => {
                        let mut m = String::from_str("Invalid hex literal '");
                        push_str(&mut m, lexeme);
                        push_str(&mut m, "'");
                        push_at(&mut m, loc);
                        return Err(m);
                    },
                }
            } else {
                match parse_i64_dec(&self.chars, start_idx, end) {
                    Some(val) => {
                        return Ok(Token { kind: TokenKind::Integer(val), lexeme, loc });
                    },
                    None => {
                        let mut m = String::from_str("Invalid integer literal '");
                        push_str(&mut m, lexeme);
                        push_str(&mut m, "'");
                        push_at(&mut m, loc);
                        return Err(m);
                    },
                }
            }
        }
        if is_ascii_alpha_exec(c) || c == '_' || c == '.' {
            self.advance_while(2);
            let end = self.pos;
            proof {
                lemma_scan_ident(s, p + 1);
            }
            if self.peek() == Some(':') {
                self.advance();
                let lexeme = self.source.substring_char(start_idx, self.pos);
                let name = self.source.substring_char(start_idx, end);
                return Ok(Token { kind: TokenKind::LabelDef(name), lexeme, loc });
            }
            let lexeme = self.source.substring_char(start_idx, end);
            if self.is_register_word(start_idx, end) {
                return Ok(Token { kind: TokenKind::Register(lexeme), lexeme, loc });
            }
            return Ok(Token { kind: TokenKind::Instruction(lexeme), lexeme, loc });
        }
        let mut m = String::from_str("Unexpected character '");
        string_push(&mut m, c);
        push_str(&mut m, "'");
        push_at(&mut m, loc);
        assert(m@ =~= "Unexpected character '"@ + seq![c] + "'"@ + at);
        Err(m)
    }

    fn is_register_word(&self, from: usize, to: usize) -> (b: bool)
        requires
            self.wf(),
            from < to <= self.text().len(),
        ensures
            b == is_register_name(self.text().subrange(from as int, to as int)),
    {
        let ghost w = self.text().subrange(from as int, to as int);
        proof {
            reveal_strlit("sp");
            reveal_strlit("pc");
        }
        if to - from == 2 && ((self.chars[from] == 's' && self.chars[from + 1] == 'p') || (
        self.chars[from] == 'p' && self.chars[from + 1] == 'c')) {
            assert(w =~= "sp"@ || w =~= "pc"@);
            return true;
        }
        assert(w != "sp"@ && w != "pc"@) by {
            if w =~= "sp"@ || w =~= "pc"@ {
                assert(w[0] == self.chars@[from as int] && w[1] == self.chars@[from + 1]);
            }
        }
        if self.chars[from] != 'r' {
            return false;
        }
        let mut i = from + 1;
        while i < to
            invariant
                self.wf(),
                from < i <= to <= self.text().len(),
                w == self.text().subrange(from as int, to as int),
                w != "sp"@ && w != "pc"@,
                w[0] == 'r',
                forall|j: int| from + 1 <= j < i ==> is_dec_digit(#[trigger] self.text()[j]),
            decreases to - i,
        {
            if !is_dec_digit_exec(self.chars[i]) {
                assert(w.drop_first()[i - from - 1] == self.chars@[i as int]);
                return false;
            }
            i = i + 1;
        }
        assert forall|j: int| 0 <= j < w.drop_first().len() implies is_dec_digit(
            #[trigger] w.drop_first()[j],
        ) by {
            assert(w.drop_first()[j] == self.text()[from + 1 + j]);
        }
        true
    }

    fn skip_whitespace_and_comments(&mut self)
        requires
            old(self).wf(),
        ensures
            final(self).wf(),
            final(self).text() == old(self).text(),
            final(self).source == old(self).source,
            final(self).line == old(self).line,
            final(self).col_offset == old(self).col_offset,
            final(self).pos == skip_trivia(old(self).text(), old(self).pos as nat),
    {
        let ghost s = self.text();
        let ghost p0 = self.pos as nat;
        loop
            invariant
                self.wf(),
                self.text() == s,
                self.source == old(self).source,
                self.line == old(self).line,
                self.col_offset == old(self).col_offset,
                skip_trivia(s, self.pos as nat) == skip_trivia(s, p0),
            ensures
                self.wf(),
                self.text() == s,
                self.source == old(self).source,
                self.line == old(self).line,
                self.col_offset == old(self).col_offset,
                self.pos == skip_trivia(s, p0),
            decreases self.text().len() - self.pos,
        {
            match self.peek() {
                Some(' ') | Some('\t') | Some('\r') => {
                    self.advance();
                },
                Some(';') => {
                    let ghost q = self.pos as nat;
                    self.advance_while(4);
                    proof {
                        lemma_line_end(s, q);
                    }
                    break ;
                },
                _ => break ,
            }
        }
    }
}

fn push_at(m: &mut String, loc: Location)
    ensures
        final(m)@ == old(m)@ + at_text(loc.line as nat, loc.column as nat),
{
    push_str(m, " at line ");
    push_dec_u64(m, loc.line as u64);
    push_str(m, ", col ");
    push_dec_u64(m, loc.column as u64);
    assert(final(m)@ =~= old(m)@ + at_text(loc.line as nat, loc.column as nat));
}

} // verus!
