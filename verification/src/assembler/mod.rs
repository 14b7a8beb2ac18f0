//! The assembler: source text to bytecode.

pub mod diagnostics;
pub mod encoder;
pub mod lexer;
pub mod parser;

use vstd::prelude::*;
use vstd::utf8::encode_utf8;
use crate::bytecode::{header_bytes, law_header_roundtrip, spec_verify_header, write_header};
use crate::error::{MiniVmError, Result};
use crate::text::{push_str, push_string};
use self::encoder::{spec_encode, Emit, Encoder};
use self::lexer::{
    byte_at, law_token_position, state_at, token_at, skip_trivia, lemma_scan_digits, lemma_scan_hex, lemma_scan_ident, lemma_scan_string, lemma_skip_trivia,
    spec_next_token, LexState, LexStep, Lexer, SpecToken, TokenKind,
};
use self::parser::{spec_parse, token_views, Parser};

verus! {

/// The tokens `ts` put in front of a tokenizing result.
pub open spec fn prepend(
    ts: Seq<SpecToken>,
    r: std::result::Result<Seq<SpecToken>, Seq<char>>,
) -> std::result::Result<Seq<SpecToken>, Seq<char>> {
    match r {
        Ok(x) => Ok(ts + x),
        Err(m) => Err(m),
    }
}

/// All tokens from the lexer position `st` up to and including the
/// end-of-file token, or the message of the first lexical error.
pub open spec fn lex_all(s: Seq<char>, st: LexState) -> std::result::Result<Seq<SpecToken>, Seq<char>>
    decreases s.len() - st.pos,
{
    let (step, st2) = spec_next_token(s, st);
    match step {
        LexStep::Error(m) => Err(m),
        LexStep::Token(t) => if t.kind is EOF {
            Ok(seq![t])
        } else if st.pos < st2.pos && st2.pos <= s.len() {
            prepend(seq![t], lex_all(s, st2))
        } else {
            Ok(seq![t])
        },
    }
}

/// The lexer position at the start of a source.
pub open spec fn lex_start() -> LexState {
    LexState { pos: 0, line: 1, col_offset: 0 }
}

/// What assembling a source gives: the header followed by the encoded
/// instructions, or the error message of the first stage that fails.
pub open spec fn spec_compile(src: Seq<char>) -> Emit {
    match lex_all(src, lex_start()) {
        Err(m) => Emit::Fail("Lexical Analysis Error: "@ + m),
        Ok(toks) => match spec_parse(toks) {
            Err(m) => Emit::Fail("Parsing Error: "@ + m),
            Ok(prog) => match spec_encode(prog) {
                Emit::Bytes(b) => Emit::Bytes(header_bytes() + b),
                Emit::Fail(m) => Emit::Fail("Encoding Error: "@ + m),
                Emit::Missing => Emit::Missing,
            },
        },
    }
}

/// Where each token of `lex_all(s, st)` starts: after the blanks and
/// comments skipped before it.
pub open spec fn lex_starts(s: Seq<char>, st: LexState) -> Seq<nat>
    decreases s.len() - st.pos,
{
    let (step, st2) = spec_next_token(s, st);
    let p = skip_trivia(s, st.pos);
    match step {
        LexStep::Error(_) => Seq::empty(),
        LexStep::Token(t) => if t.kind is EOF {
            seq![p]
        } else if st.pos < st2.pos && st2.pos <= s.len() {
            seq![p] + lex_starts(s, st2)
        } else {
            seq![p]
        },
    }
}

/// What lexing a source from a position yields, when it succeeds: at most one
/// token per remaining character plus the end-of-file token, which comes last
/// and only last; each token stands at its start position with the text,
/// line and column of the source there; and each token ends before the next
/// one starts, so tokens do not overlap.
pub proof fn law_lex_positions(s: Seq<char>, st: LexState)
    requires
        state_at(s, st),
        encode_utf8(s).len() < usize::MAX,
    ensures
        lex_all(s, st) matches Ok(ts) ==> {
            let ps = lex_starts(s, st);
            &&& ps.len() == ts.len()
            &&& 1 <= ts.len() <= s.len() - st.pos + 1
            &&& ts.last().kind is EOF
            &&& forall|i: int| 0 <= i < ts.len() - 1 ==> !(#[trigger] ts[i].kind is EOF)
            &&& forall|i: int|
                0 <= i < ts.len() ==> st.pos <= #[trigger] ps[i] <= s.len() && token_at(
                    s,
                    ts[i],
                    ps[i],
                )
            &&& forall|i: int|
                0 <= i < ts.len() - 1 ==> #[trigger] ps[i] + ts[i].lexeme.len() <= ps[i + 1]
        },
    decreases s.len() - st.pos,
{
    law_token_position(s, st);
    let (step, st2) = spec_next_token(s, st);
    let p = skip_trivia(s, st.pos);
    match step {
        LexStep::Error(_) => {},
        LexStep::Token(t) => {
            if !(t.kind is EOF) {
                law_lex_positions(s, st2);
                match lex_all(s, st2) {
                    Ok(ts2) => {
                        let ps2 = lex_starts(s, st2);
                        let ts = seq![t] + ts2;
                        let ps = seq![p] + ps2;
                        assert(lex_all(s, st) == Ok::<Seq<SpecToken>, Seq<char>>(ts));
                        assert(lex_starts(s, st) == ps);
                        assert(ts.last() == ts2.last());
                        assert forall|i: int| 0 <= i < ts.len() - 1 implies !(
                        #[trigger] ts[i].kind is EOF) by {
                            if i > 0 {
                                assert(ts[i] == ts2[i - 1]);
                            }
                        }
                        assert forall|i: int| 0 <= i < ts.len() implies st.pos <= #[trigger] ps[i]
                            <= s.len() && token_at(s, ts[i], ps[i]) by {
                            if i > 0 {
                                assert(ts[i] == ts2[i - 1]);
                                assert(ps[i] == ps2[i - 1]);
                            }
                        }
                        assert forall|i: int| 0 <= i < ts.len() - 1 implies #[trigger] ps[i]
                            + ts[i].lexeme.len() <= ps[i + 1] by {
                            if i > 0 {
                                assert(ts[i] == ts2[i - 1]);
                                assert(ps[i] == ps2[i - 1]);
                                assert(ps[i + 1] == ps2[i]);
                                assert(ps2[(i - 1) + 1] == ps2[i]);
                            } else {
                                assert(ps[1] == ps2[0]);
                            }
                        }
                    },
                    Err(_) => {},
                }
            }
        },
    }
}

/// Lexing a whole source: the law above, from the lexer's start.
pub proof fn law_lex_source(s: Seq<char>)
    requires
        encode_utf8(s).len() < usize::MAX,
    ensures
        state_at(s, lex_start()),
        lex_all(s, lex_start()) matches Ok(ts) ==> ts.len() <= s.len() + 1,
{
    assert(s.take(0) =~= Seq::<char>::empty());
    assert(encode_utf8(Seq::<char>::empty()) =~= Seq::<u8>::empty());
    assert(byte_at(s, 0) == 0);
    law_lex_positions(s, lex_start());
}

/// Whatever the assembler emits starts with the header, which the loader
/// accepts, and the instruction stream starts right after it.
pub proof fn law_compiled_header_valid(src: Seq<char>)
    requires
        spec_compile(src) is Bytes,
    ensures
        spec_compile(src)->Bytes_0.subrange(0, 6) == header_bytes(),
        spec_verify_header(spec_compile(src)->Bytes_0) == Ok::<usize, Seq<char>>(6),
{
    let out = spec_compile(src)->Bytes_0;
    let body = out.subrange(6, out.len() as int);
    assert(out == header_bytes() + body);
    law_header_roundtrip(body);
    assert(out.subrange(0, 6) =~= header_bytes());
}

/// Every token other than the end-of-file token consumes input, and the
/// lexer never moves past the end of the source.
pub proof fn lemma_next_token_advances(s: Seq<char>, st: LexState)
    requires
        st.pos <= s.len(),
    ensures
        spec_next_token(s, st).1.pos <= s.len(),
        spec_next_token(s, st).0 matches LexStep::Token(t) && !(t.kind is EOF)
            ==> st.pos < spec_next_token(s, st).1.pos,
{
    lemma_skip_trivia(s, st.pos);
    let p = lexer::skip_trivia(s, st.pos);
    if p < s.len() {
        lemma_scan_string(s, p + 1);
        lemma_scan_digits(s, p + 1);
        lemma_scan_ident(s, p + 1);
        if p + 2 <= s.len() {
            lemma_scan_hex(s, p + 2);
        }
    }
}

/// Assembles `source` into bytecode: the header, then the instructions.
/// Sources with an instruction that lacks an operand it needs are outside
/// the contract; `try_compile` answers for them.
pub fn compile(source: &str) -> (r: Result<Vec<u8>>)
    requires
        !(spec_compile(source@) is Missing),
    ensures
        match spec_compile(source@) {
            Emit::Bytes(b) => r matches Ok(v) && v@ == b,
            Emit::Fail(m) => r matches Err(e) && e.is_generic(m),
            Emit::Missing => false,
        },
{
    match try_compile(source) {
        Some(r) => r,
        None => Err(MiniVmError::Generic(String::new())),
    }
}

/// Assembles `source`, or gives `None` where an instruction lacks an
/// operand it needs.
pub fn try_compile(source: &str) -> (r: Option<Result<Vec<u8>>>)
    ensures
        match spec_compile(source@) {
            Emit::Bytes(b) => r matches Some(Ok(v)) && v@ == b,
            Emit::Fail(m) => r matches Some(Err(e)) && e.is_generic(m),
            Emit::Missing => r is None,
        },
{
    let ghost s = source@;
    let mut lexer = Lexer::new(source);
    let mut tokens: Vec<lexer::Token> = Vec::new();
    assert(token_views(tokens@) =~= Seq::<SpecToken>::empty());
    assert(prepend(Seq::empty(), lex_all(s, lex_start())) =~= lex_all(s, lex_start())) by {
        match lex_all(s, lex_start()) {
            Ok(x) => {
                assert(Seq::<SpecToken>::empty() + x =~= x);
            },
            Err(m) => {},
        }
    }
    loop
        invariant_except_break
            lex_all(s, lex_start()) == prepend(token_views(tokens@), lex_all(s, lexer.state())),
        invariant
            s == source@,
            lexer.wf(),
            lexer.text() == s,
            lexer.state().pos <= s.len(),
        ensures
            lex_all(s, lex_start()) == Ok::<Seq<SpecToken>, Seq<char>>(token_views(tokens@)),
        decreases s.len() - lexer.state().pos,
    {
        let ghost st = lexer.state();
        let ghost before = token_views(tokens@);
        proof {
            lemma_next_token_advances(s, st);
        }
        match lexer.next_token() {
            Ok(token) => {
                let is_eof = match token.kind {
                    TokenKind::EOF => true,
                    _ => false,
                };
                tokens.push(token);
                proof {
                    let t = token@;
                    assert(token_views(tokens@) =~= before.push(t));
                    match lex_all(s, lexer.state()) {
                        Ok(x) => {
                            assert(before + (seq![t] + x) =~= before.push(t) + x);
                        },
                        Err(m) => {},
                    }
                    if is_eof {
                        assert(before + seq![t] =~= before.push(t));
                    }
                }
                if is_eof {
                    break ;
                }
            },
            Err(lex_err) => {
                assert(lex_all(s, st) == Err::<Seq<SpecToken>, Seq<char>>(lex_err@));
                assert(lex_all(s, lex_start()) == Err::<Seq<SpecToken>, Seq<char>>(lex_err@));
                let mut m = String::from_str("Lexical Analysis Error: ");
                push_string(&mut m, &lex_err);
                return Some(Err(MiniVmError::Generic(m)));
            },
        }
    }
    let ghost toks = token_views(tokens@);
    let mut parser = Parser::new(tokens);
    let program = match parser.parse() {
        Ok(p) => p,
        Err(parse_err) => {
            let mut m = String::from_str("Parsing Error: ");
            push_string(&mut m, &parse_err);
            return Some(Err(MiniVmError::Generic(m)));
        },
    };
    let mut encoder = Encoder::new();
    match encoder.encode_checked(&program) {
        None => None,
        Some(Err(encode_err)) => {
            let mut m = String::from_str("Encoding Error: ");
            push_string(&mut m, &encode_err);
            Some(Err(MiniVmError::Generic(m)))
        },
        Some(Ok(mut body)) => {
            let mut bytecode: Vec<u8> = Vec::new();
            write_header(&mut bytecode);
            bytecode.append(&mut body);
            Some(Ok(bytecode))
        },
    }
}

} // verus!
