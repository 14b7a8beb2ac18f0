//! Parser: turns the token stream into instructions with operands and a
//! table of label definitions.

use vstd::prelude::*;
use crate::assembler::lexer::{Location, SpecToken, SpecTokenKind, Token, TokenKind};
use crate::text::{dec_int, dec_nat, push_dec_i64, push_dec_u64, push_str, str_eq};

verus! {

#[derive(Debug, Clone, PartialEq, Eq)]
pub enum Operand<'a> {
    Register(&'a str),
    Integer(i64),
    LabelRef(&'a str),
}

#[derive(Debug, Clone, PartialEq, Eq)]
pub struct ParsedInstruction<'a> {
    pub opcode: &'a str,
    pub operands: Vec<Operand<'a>>,
    pub loc: Location,
}

/// The parsed program: the instructions in order, and each label with the
/// index of the instruction it stands before. No label name occurs twice.
#[derive(Debug)]
pub struct AssembledProgram<'a> {
    pub instructions: Vec<ParsedInstruction<'a>>,
    pub labels: Vec<(&'a str, usize)>,
}

pub enum SpecOperand {
    Register(Seq<char>),
    Integer(i64),
    LabelRef(Seq<char>),
}

#[verifier::ext_equal]
pub struct SpecInstruction {
    pub opcode: Seq<char>,
    pub operands: Seq<SpecOperand>,
    pub loc: Location,
}

#[verifier::ext_equal]
pub struct SpecProgram {
    pub instructions: Seq<SpecInstruction>,
    pub labels: Seq<(Seq<char>, nat)>,
}

impl<'a> View for Operand<'a> {
    type V = SpecOperand;

    open spec fn view(&self) -> SpecOperand {
        match self {
            Operand::Register(r) => SpecOperand::Register(r@),
            Operand::Integer(v) => SpecOperand::Integer(*v),
            Operand::LabelRef(l) => SpecOperand::LabelRef(l@),
        }
    }
}

pub open spec fn operand_views<'a>(ops: Seq<Operand<'a>>) -> Seq<SpecOperand> {
    ops.map_values(|o: Operand<'a>| o@)
}

impl<'a> View for ParsedInstruction<'a> {
    type V = SpecInstruction;

    open spec fn view(&self) -> SpecInstruction {
        SpecInstruction {
            opcode: self.opcode@,
            operands: operand_views(self.operands@),
            loc: self.loc,
        }
    }
}

pub open spec fn instruction_views<'a>(v: Seq<ParsedInstruction<'a>>) -> Seq<SpecInstruction> {
    v.map_values(|i: ParsedInstruction<'a>| i@)
}

pub open spec fn label_views<'a>(v: Seq<(&'a str, usize)>) -> Seq<(Seq<char>, nat)> {
    v.map_values(|l: (&'a str, usize)| (l.0@, l.1 as nat))
}

impl<'a> View for AssembledProgram<'a> {
    type V = SpecProgram;

    open spec fn view(&self) -> SpecProgram {
        SpecProgram {
            instructions: instruction_views(self.instructions@),
            labels: label_views(self.labels@),
        }
    }
}

impl<'a> Default for AssembledProgram<'a> {
    fn default() -> (p: Self)
        ensures
            p.instructions@ == Seq::<ParsedInstruction<'a>>::empty(),
            p.labels@ == Seq::<(&'a str, usize)>::empty(),
    {
        AssembledProgram { instructions: Vec::new(), labels: Vec::new() }
    }
}

pub open spec fn token_views<'a>(v: Seq<Token<'a>>) -> Seq<SpecToken> {
    v.map_values(|t: Token<'a>| t@)
}

// ---------------------------------------------------------------------------
// The grammar
// ---------------------------------------------------------------------------

/// The `Debug` rendering of a string slice (quoted, with escapes).
pub uninterp spec fn str_debug(s: Seq<char>) -> Seq<char>;

/// The `Debug` rendering of a token kind.
pub open spec fn kind_debug(k: SpecTokenKind) -> Seq<char> {
    match k {
        SpecTokenKind::Instruction(s) => "Instruction("@ + str_debug(s) + ")"@,
        SpecTokenKind::Register(s) => "Register("@ + str_debug(s) + ")"@,
        SpecTokenKind::LabelDef(s) => "LabelDef("@ + str_debug(s) + ")"@,
        SpecTokenKind::LabelRef(s) => "LabelRef("@ + str_debug(s) + ")"@,
        SpecTokenKind::Integer(v) => "Integer("@ + dec_int(v as int) + ")"@,
        SpecTokenKind::HexInteger(v) => "HexInteger("@ + dec_int(v as int) + ")"@,
        SpecTokenKind::StringLiteral(s) => "StringLiteral("@ + str_debug(s) + ")"@,
        SpecTokenKind::Comma => "Comma"@,
        SpecTokenKind::NewLine => "NewLine"@,
        SpecTokenKind::EOF => "EOF"@,
    }
}

pub open spec fn loc_text(loc: Location) -> Seq<char> {
    " at line "@ + dec_nat(loc.line as nat) + ", col "@ + dec_nat(loc.column as nat)
}

/// The cursor is past the tokens or on the end-of-file token.
pub open spec fn at_end(toks: Seq<SpecToken>, cur: nat) -> bool {
    cur >= toks.len() || toks[cur as int].kind is EOF
}

/// The token at the cursor has kind `k` (at the end, only `EOF` matches).
pub open spec fn check(toks: Seq<SpecToken>, cur: nat, k: SpecTokenKind) -> bool {
    if at_end(toks, cur) {
        k is EOF
    } else {
        toks[cur as int].kind == k
    }
}

/// The cursor after moving past one token (it stays at the end).
pub open spec fn advance(toks: Seq<SpecToken>, cur: nat) -> nat {
    if at_end(toks, cur) {
        cur
    } else {
        cur + 1
    }
}

/// One operand at the cursor, and the cursor after it.
pub open spec fn parse_operand(toks: Seq<SpecToken>, cur: nat) -> std::result::Result<
    (SpecOperand, nat),
    Seq<char>,
> {
    if cur >= toks.len() {
        Err("Unexpected end of input while parsing operand"@)
    } else {
        let t = toks[cur as int];
        match t.kind {
            SpecTokenKind::Register(r) => Ok((SpecOperand::Register(r), advance(toks, cur))),
            SpecTokenKind::Integer(v) => Ok((SpecOperand::Integer(v), advance(toks, cur))),
            SpecTokenKind::HexInteger(v) => Ok((SpecOperand::Integer(v), advance(toks, cur))),
            SpecTokenKind::Instruction(l) => Ok((SpecOperand::LabelRef(l), advance(toks, cur))),
            _ => Err(
                "Expected register, literal integer, or label reference, found '"@ + kind_debug(
                    t.kind,
                ) + "'"@ + loc_text(t.loc),
            ),
        }
    }
}

/// Comma-separated operands from the cursor, appended to `acc`, and the cursor after them.
pub open spec fn parse_operands(
    toks: Seq<SpecToken>,
    cur: nat,
    acc: Seq<SpecOperand>,
) -> std::result::Result<(Seq<SpecOperand>, nat), Seq<char>>
    decreases toks.len() - cur,
{
    match parse_operand(toks, cur) {
        Err(m) => Err(m),
        Ok((op, c2)) => if check(toks, c2, SpecTokenKind::Comma) && c2 < toks.len() && c2 >= cur {
            parse_operands(toks, c2 + 1, acc.push(op))
        } else {
            Ok((acc.push(op), c2))
        },
    }
}

/// A label with this name is in the table.
pub open spec fn label_defined(labels: Seq<(Seq<char>, nat)>, name: Seq<char>) -> bool {
    exists|i: int| 0 <= i < labels.len() && #[trigger] labels[i].0 == name
}

pub open spec fn msg_expected_newline(toks: Seq<SpecToken>, cur: nat) -> Seq<char> {
    let loc = if cur < toks.len() {
        toks[cur as int].loc
    } else {
        Location { line: 0, column: 0 }
    };
    "Expected newline after instruction components"@ + loc_text(loc)
}

/// Parsing the tokens from the cursor, continuing the program `prog`.
pub open spec fn parse_from(toks: Seq<SpecToken>, cur: nat, prog: SpecProgram) -> std::result::Result<
    SpecProgram,
    Seq<char>,
>
    decreases toks.len() - cur,
{
    if at_end(toks, cur) {
        Ok(prog)
    } else {
        let t = toks[cur as int];
        match t.kind {
            SpecTokenKind::NewLine => parse_from(toks, cur + 1, prog),
            SpecTokenKind::LabelDef(name) => if label_defined(prog.labels, name) {
                Err("Duplicate label definition found: '"@ + name + "'"@)
            } else {
                parse_from(
                    toks,
                    cur + 1,
                    SpecProgram {
                        labels: prog.labels.push((name, prog.instructions.len())),
                        ..prog
                    },
                )
            },
            SpecTokenKind::Instruction(opcode) => {
                let c1 = cur + 1;
                let ops = if !check(toks, c1, SpecTokenKind::NewLine) && !check(
                    toks,
                    c1,
                    SpecTokenKind::EOF,
                ) {
                    parse_operands(toks, c1, Seq::empty())
                } else {
                    Ok((Seq::empty(), c1))
                };
                match ops {
                    Err(m) => Err(m),
                    Ok((operands, c2)) => {
                        let inst = SpecInstruction { opcode, operands, loc: t.loc };
                        let prog2 = SpecProgram {
                            instructions: prog.instructions.push(inst),
                            ..prog
                        };
                        if check(toks, c2, SpecTokenKind::EOF) {
                            Ok(prog2)
                        } else if !check(toks, c2, SpecTokenKind::NewLine) {
                            Err(msg_expected_newline(toks, c2))
                        } else if c2 >= cur {
                            parse_from(toks, c2 + 1, prog2)
                        } else {
                            Ok(prog2)
                        }
                    },
                }
            },
            _ => Err("Unexpected token '"@ + kind_debug(t.kind) + "'"@ + loc_text(t.loc)),
        }
    }
}

/// What parsing the token sequence gives.
pub open spec fn spec_parse(toks: Seq<SpecToken>) -> std::result::Result<SpecProgram, Seq<char>> {
    parse_from(toks, 0, SpecProgram { instructions: Seq::empty(), labels: Seq::empty() })
}

/// No label name occurs twice.
pub open spec fn labels_distinct(labels: Seq<(Seq<char>, nat)>) -> bool {
    forall|i: int, j: int|
        0 <= i < j < labels.len() ==> (#[trigger] labels[i]).0 != (#[trigger] labels[j]).0
}

/// Parsing keeps label names distinct: a name already defined is refused.
pub proof fn lemma_parse_labels_distinct(toks: Seq<SpecToken>, cur: nat, prog: SpecProgram)
    requires
        labels_distinct(prog.labels),
    ensures
        parse_from(toks, cur, prog) matches Ok(p) ==> labels_distinct(p.labels),
    decreases toks.len() - cur,
{
    if !at_end(toks, cur) {
        let t = toks[cur as int];
        match t.kind {
            SpecTokenKind::NewLine => lemma_parse_labels_distinct(toks, cur + 1, prog),
            SpecTokenKind::LabelDef(name) => {
                if !label_defined(prog.labels, name) {
                    let l2 = prog.labels.push((name, prog.instructions.len()));
                    assert(labels_distinct(l2)) by {
                        assert forall|i: int, j: int| 0 <= i < j < l2.len() implies (
                        #[trigger] l2[i]).0 != (#[trigger] l2[j]).0 by {
                            if j == l2.len() - 1 {
                                assert(l2[i] == prog.labels[i]);
                                if l2[i].0 == name {
                                    assert(label_defined(prog.labels, name));
                                }
                            } else {
                                assert(l2[i] == prog.labels[i]);
                                assert(l2[j] == prog.labels[j]);
                            }
                        }
                    }
                    lemma_parse_labels_distinct(
                        toks,
                        cur + 1,
                        SpecProgram { labels: l2, ..prog },
                    );
                }
            },
            SpecTokenKind::Instruction(opcode) => {
                let c1 = cur + 1;
                let ops = if !check(toks, c1, SpecTokenKind::NewLine) && !check(
                    toks,
                    c1,
                    SpecTokenKind::EOF,
                ) {
                    parse_operands(toks, c1, Seq::empty())
                } else {
                    Ok((Seq::empty(), c1))
                };
                match ops {
                    Err(m) => {},
                    Ok((operands, c2)) => {
                        let inst = SpecInstruction { opcode, operands, loc: t.loc };
                        let prog2 = SpecProgram {
                            instructions: prog.instructions.push(inst),
                            ..prog
                        };
                        if !check(toks, c2, SpecTokenKind::EOF) && check(
                            toks,
                            c2,
                            SpecTokenKind::NewLine,
                        ) && c2 >= cur {
                            lemma_parse_labels_distinct(toks, c2 + 1, prog2);
                        }
                    },
                }
            },
            _ => {},
        }
    }
}

/// The operand a token stands for, if it stands for one.
pub open spec fn operand_of(k: SpecTokenKind) -> Option<SpecOperand> {
    match k {
        SpecTokenKind::Register(r) => Some(SpecOperand::Register(r)),
        SpecTokenKind::Integer(v) => Some(SpecOperand::Integer(v)),
        SpecTokenKind::HexInteger(v) => Some(SpecOperand::Integer(v)),
        SpecTokenKind::Instruction(l) => Some(SpecOperand::LabelRef(l)),
        _ => None,
    }
}

/// The tokens from `c` on spell the operands `ops`, separated by commas.
pub open spec fn operands_at(toks: Seq<SpecToken>, c: int, ops: Seq<SpecOperand>) -> bool {
    &&& c + 2 * ops.len() - 1 <= toks.len()
    &&& forall|j: int| 0 <= j < ops.len() ==> operand_of(#[trigger] toks[c + 2 * j].kind) == Some(ops[j])
    &&& forall|j: int| 0 <= j < ops.len() - 1 ==> (#[trigger] toks[c + 2 * j + 1]).kind is Comma
}

proof fn lemma_parse_operands_shape(toks: Seq<SpecToken>, cur: nat, acc: Seq<SpecOperand>)
    ensures
        parse_operands(toks, cur, acc) matches Ok((ops, c2)) ==> {
            &&& ops.len() > acc.len()
            &&& ops.subrange(0, acc.len() as int) == acc
            &&& c2 == cur + 2 * (ops.len() - acc.len()) - 1
            &&& operands_at(toks, cur as int, ops.subrange(acc.len() as int, ops.len() as int))
        },
    decreases toks.len() - cur,
{
    match parse_operand(toks, cur) {
        Err(_) => {},
        Ok((op, c1)) => {
            assert(cur < toks.len());
            assert(operand_of(toks[cur as int].kind) == Some(op));
            assert(c1 == cur + 1);
            let acc2 = acc.push(op);
            if check(toks, c1, SpecTokenKind::Comma) && c1 < toks.len() && c1 >= cur {
                lemma_parse_operands_shape(toks, c1 + 1, acc2);
                match parse_operands(toks, c1 + 1, acc2) {
                    Ok((ops, c2)) => {
                        let new = ops.subrange(acc.len() as int, ops.len() as int);
                        let rest = ops.subrange(acc2.len() as int, ops.len() as int);
                        assert(ops.subrange(0, acc.len() as int) =~= acc2.subrange(
                            0,
                            acc.len() as int,
                        ));
                        assert(acc2.subrange(0, acc.len() as int) =~= acc);
                        assert(ops[acc.len() as int] == acc2[acc.len() as int]);
                        assert forall|j: int| 0 <= j < new.len() implies operand_of(
                            #[trigger] toks[cur + 2 * j].kind,
                        ) == Some(new[j]) by {
                            if j > 0 {
                                assert(new[j] == rest[j - 1]);
                                assert(toks[(c1 + 1) + 2 * (j - 1)] == toks[cur + 2 * j]);
                            }
                        }
                        assert forall|j: int| 0 <= j < new.len() - 1 implies (#[trigger] toks[cur
                            + 2 * j + 1]).kind is Comma by {
                            if j > 0 {
                                assert(toks[(c1 + 1) + 2 * (j - 1) + 1] == toks[cur + 2 * j + 1]);
                            }
                        }
                    },
                    Err(_) => {},
                }
            } else {
                let ops = acc2;
                assert(ops.subrange(0, acc.len() as int) =~= acc);
                let new = ops.subrange(acc.len() as int, ops.len() as int);
                assert(new =~= seq![op]);
            }
        },
    }
}

/// The positions, from cursor `cur`, of the opcode tokens that start
/// instructions and of the label definitions, as the parser meets them.
pub open spec fn parse_marks(toks: Seq<SpecToken>, cur: nat) -> (Seq<nat>, Seq<nat>)
    decreases toks.len() - cur,
{
    if at_end(toks, cur) {
        (Seq::empty(), Seq::empty())
    } else {
        let t = toks[cur as int];
        match t.kind {
            SpecTokenKind::NewLine => parse_marks(toks, cur + 1),
            SpecTokenKind::LabelDef(_) => {
                let (i, l) = parse_marks(toks, cur + 1);
                (i, seq![cur] + l)
            },
            SpecTokenKind::Instruction(_) => {
                let c1 = cur + 1;
                let ops = if !check(toks, c1, SpecTokenKind::NewLine) && !check(
                    toks,
                    c1,
                    SpecTokenKind::EOF,
                ) {
                    parse_operands(toks, c1, Seq::empty())
                } else {
                    Ok((Seq::empty(), c1))
                };
                match ops {
                    Err(_) => (Seq::empty(), Seq::empty()),
                    Ok((_, c2)) => if check(toks, c2, SpecTokenKind::EOF) {
                        (seq![cur], Seq::empty())
                    } else if !check(toks, c2, SpecTokenKind::NewLine) {
                        (Seq::empty(), Seq::empty())
                    } else if c2 >= cur {
                        let (i, l) = parse_marks(toks, c2 + 1);
                        (seq![cur] + i, l)
                    } else {
                        (seq![cur], Seq::empty())
                    },
                }
            },
            _ => (Seq::empty(), Seq::empty()),
        }
    }
}

/// `c` of the positions `ii` (in increasing order) come before `pos`, and the rest after it.
pub open spec fn count_before(ii: Seq<nat>, pos: nat, c: int) -> bool {
    &&& 0 <= c <= ii.len()
    &&& forall|k: int| 0 <= k < c ==> #[trigger] ii[k] < pos
    &&& c < ii.len() ==> pos < ii[c]
}

pub open spec fn increasing(xs: Seq<nat>) -> bool {
    forall|a: int, b: int| 0 <= a < b < xs.len() ==> #[trigger] xs[a] < #[trigger] xs[b]
}

/// No end-of-file token from `a` through `i`.
pub open spec fn no_eof_through(toks: Seq<SpecToken>, a: int, i: int) -> bool {
    forall|j: int| a <= j <= i ==> !(#[trigger] toks[j].kind is EOF)
}

/// What parsing from cursor `cur` adds to `prog0`, in terms of the tokens.
pub open spec fn parse_structure(
    toks: Seq<SpecToken>,
    cur: nat,
    prog0: SpecProgram,
    prog: SpecProgram,
) -> bool {
    let (ii, li) = parse_marks(toks, cur);
    let n0 = prog0.instructions.len();
    let m0 = prog0.labels.len();
    &&& prog.instructions.len() == n0 + ii.len()
    &&& prog.instructions.subrange(0, n0 as int) == prog0.instructions
    &&& prog.labels.len() == m0 + li.len()
    &&& prog.labels.subrange(0, m0 as int) == prog0.labels
    &&& increasing(ii)
    &&& increasing(li)
    &&& forall|k: int|
        0 <= k < ii.len() ==> cur <= #[trigger] ii[k] < toks.len() && toks[ii[k] as int].kind
            == SpecTokenKind::Instruction(prog.instructions[n0 + k].opcode) && toks[ii[k] as int].loc
            == prog.instructions[n0 + k].loc && operands_at(
            toks,
            ii[k] + 1int,
            prog.instructions[n0 + k].operands,
        )
    &&& forall|m: int|
        0 <= m < li.len() ==> cur <= #[trigger] li[m] < toks.len() && toks[li[m] as int].kind
            == SpecTokenKind::LabelDef(prog.labels[m0 + m].0) && prog.labels[m0 + m].1 >= n0
            && count_before(ii, li[m], prog.labels[m0 + m].1 - n0)
    &&& forall|i: int|
        cur <= i < toks.len() && no_eof_through(toks, cur as int, i) && (
        #[trigger] toks[i]).kind is LabelDef ==> exists|m: int| 0 <= m < li.len() && li[m] == i
}

proof fn lemma_structure_newline(toks: Seq<SpecToken>, cur: nat, prog0: SpecProgram, prog: SpecProgram)
    requires
        !at_end(toks, cur),
        toks[cur as int].kind is NewLine,
        parse_structure(toks, cur + 1, prog0, prog),
    ensures
        parse_structure(toks, cur, prog0, prog),
{
    assert(parse_marks(toks, cur) == parse_marks(toks, cur + 1));
    let (ii, li) = parse_marks(toks, cur);
    assert forall|i: int|
        cur <= i < toks.len() && no_eof_through(toks, cur as int, i) && (
        #[trigger] toks[i]).kind is LabelDef implies exists|m: int|
        0 <= m < li.len() && li[m] == i by {
        assert(i != cur);
        assert(no_eof_through(toks, cur + 1int, i));
    }
}

proof fn lemma_structure_label(
    toks: Seq<SpecToken>,
    cur: nat,
    prog0: SpecProgram,
    prog: SpecProgram,
    name: Seq<char>,
)
    requires
        !at_end(toks, cur),
        toks[cur as int].kind == SpecTokenKind::LabelDef(name),
        parse_structure(
            toks,
            cur + 1,
            SpecProgram { labels: prog0.labels.push((name, prog0.instructions.len())), ..prog0 },
            prog,
        ),
    ensures
        parse_structure(toks, cur, prog0, prog),
{
    let prog1 = SpecProgram { labels: prog0.labels.push((name, prog0.instructions.len())), ..prog0 };
    let (ii, l1) = parse_marks(toks, cur + 1);
    let li = seq![cur] + l1;
    assert(parse_marks(toks, cur) == (ii, li));
    let n0 = prog0.instructions.len();
    let m0 = prog0.labels.len();
    assert(prog.labels.subrange(0, m0 + 1int) == prog1.labels);
    assert(prog.labels.subrange(0, m0 as int) =~= prog0.labels) by {
        assert forall|j: int| 0 <= j < m0 implies prog.labels[j] == prog0.labels[j] by {
            assert(prog.labels.subrange(0, m0 + 1int)[j] == prog1.labels[j]);
        }
    }
    assert(prog.labels[m0 as int] == (name, n0)) by {
        assert(prog.labels.subrange(0, m0 + 1int)[m0 as int] == prog1.labels[m0 as int]);
    }
    assert(increasing(li)) by {
        assert forall|a: int, b: int| 0 <= a < b < li.len() implies #[trigger] li[a]
            < #[trigger] li[b] by {
            assert(li[b] == l1[b - 1]);
            if a > 0 {
                assert(li[a] == l1[a - 1]);
            }
        }
    }
    assert forall|m: int| 0 <= m < li.len() implies cur <= #[trigger] li[m] < toks.len()
        && toks[li[m] as int].kind == SpecTokenKind::LabelDef(prog.labels[m0 + m].0)
        && prog.labels[m0 + m].1 >= n0 && count_before(ii, li[m], prog.labels[m0 + m].1 - n0) by {
        if m == 0 {
            assert(count_before(ii, cur, 0)) by {
                if ii.len() > 0 {
                    assert(cur + 1 <= ii[0]);
                }
            }
        } else {
            assert(li[m] == l1[m - 1]);
            assert(prog.labels[(m0 + 1) + (m - 1)] == prog.labels[m0 + m]);
        }
    }
    assert forall|i: int|
        cur <= i < toks.len() && no_eof_through(toks, cur as int, i) && (
        #[trigger] toks[i]).kind is LabelDef implies exists|m: int|
        0 <= m < li.len() && li[m] == i by {
        if i == cur {
            assert(li[0] == i);
        } else {
            assert(no_eof_through(toks, cur + 1int, i));
            let m1 = choose|m: int| 0 <= m < l1.len() && l1[m] == i;
            assert(li[m1 + 1] == i);
        }
    }
}

/// The tokens strictly between an opcode token at `cur` and position `c2`
/// are its operands and commas.
pub open spec fn operand_span(toks: Seq<SpecToken>, cur: int, c2: int) -> bool {
    forall|i: int|
        cur < i < c2 ==> !((#[trigger] toks[i]).kind is LabelDef) && !(toks[i].kind is EOF)
}

proof fn lemma_structure_last(
    toks: Seq<SpecToken>,
    cur: nat,
    prog0: SpecProgram,
    inst: SpecInstruction,
    c2: nat,
)
    requires
        !at_end(toks, cur),
        toks[cur as int].kind == SpecTokenKind::Instruction(inst.opcode),
        toks[cur as int].loc == inst.loc,
        operands_at(toks, cur + 1int, inst.operands),
        cur < c2,
        operand_span(toks, cur as int, c2 as int),
        at_end(toks, c2),
        parse_marks(toks, cur) == (seq![cur], Seq::<nat>::empty()),
    ensures
        parse_structure(
            toks,
            cur,
            prog0,
            SpecProgram { instructions: prog0.instructions.push(inst), ..prog0 },
        ),
{
    let prog = SpecProgram { instructions: prog0.instructions.push(inst), ..prog0 };
    let (ii, li) = parse_marks(toks, cur);
    let n0 = prog0.instructions.len();
    let m0 = prog0.labels.len();
    assert(prog.instructions.subrange(0, n0 as int) =~= prog0.instructions);
    assert(prog.labels.subrange(0, m0 as int) =~= prog0.labels);
    assert(prog.instructions[n0 as int] == inst);
    assert(ii[0] == cur);
    assert forall|i: int|
        cur <= i < toks.len() && no_eof_through(toks, cur as int, i) && (
        #[trigger] toks[i]).kind is LabelDef implies exists|m: int|
        0 <= m < li.len() && li[m] == i by {
        if c2 <= i {
            assert(!(toks[c2 as int].kind is EOF));
        } else if cur < i {
            assert(!(toks[i].kind is LabelDef));
        }
    }
}

proof fn lemma_structure_next_marks(
    toks: Seq<SpecToken>,
    cur: nat,
    n0: nat,
    prog: SpecProgram,
    c2: nat,
)
    requires
        parse_marks(toks, cur) == (seq![cur] + parse_marks(toks, c2 + 1).0, parse_marks(
            toks,
            c2 + 1,
        ).1),
        cur < c2,
        ({
            let (i1, l1) = parse_marks(toks, c2 + 1);
            &&& increasing(i1)
            &&& forall|k: int| 0 <= k < i1.len() ==> c2 + 1 <= #[trigger] i1[k]
            &&& forall|m: int|
                0 <= m < l1.len() ==> c2 + 1 <= #[trigger] l1[m] && prog.labels[prog.labels.len()
                    - l1.len() + m].1 >= n0 + 1 && count_before(
                    i1,
                    l1[m],
                    prog.labels[prog.labels.len() - l1.len() + m].1 - (n0 + 1),
                )
        }),
    ensures
        ({
            let (ii, li) = parse_marks(toks, cur);
            &&& increasing(ii)
            &&& forall|m: int|
                0 <= m < li.len() ==> count_before(
                    ii,
                    #[trigger] li[m],
                    prog.labels[prog.labels.len() - li.len() + m].1 - n0,
                )
        }),
{
    let (i1, l1) = parse_marks(toks, c2 + 1);
    let (ii, li) = parse_marks(toks, cur);
    assert forall|a: int, b: int| 0 <= a < b < ii.len() implies #[trigger] ii[a]
        < #[trigger] ii[b] by {
        assert(ii[b] == i1[b - 1]);
        if a > 0 {
            assert(ii[a] == i1[a - 1]);
        }
    }
    assert forall|m: int| 0 <= m < li.len() implies count_before(
        ii,
        #[trigger] li[m],
        prog.labels[prog.labels.len() - li.len() + m].1 - n0,
    ) by {
        assert(li[m] == l1[m]);
        let c = prog.labels[prog.labels.len() - l1.len() + m].1 - (n0 + 1);
        assert(count_before(i1, l1[m], c));
        assert forall|k: int| 0 <= k < c + 1 implies #[trigger] ii[k] < li[m] by {
            if k > 0 {
                assert(ii[k] == i1[k - 1]);
            }
        }
        if c + 1 < ii.len() {
            assert(ii[c + 1] == i1[c]);
        }
    }
}

#[verifier::rlimit(40)]
proof fn lemma_structure_instruction(
    toks: Seq<SpecToken>,
    cur: nat,
    prog0: SpecProgram,
    prog: SpecProgram,
    inst: SpecInstruction,
    c2: nat,
)
    requires
        !at_end(toks, cur),
        toks[cur as int].kind == SpecTokenKind::Instruction(inst.opcode),
        toks[cur as int].loc == inst.loc,
        operands_at(toks, cur + 1int, inst.operands),
        cur < c2,
        operand_span(toks, cur as int, c2 as int),
        c2 < toks.len(),
        toks[c2 as int].kind is NewLine,
        parse_structure(
            toks,
            c2 + 1,
            SpecProgram { instructions: prog0.instructions.push(inst), ..prog0 },
            prog,
        ),
        parse_marks(toks, cur) == (seq![cur] + parse_marks(toks, c2 + 1).0, parse_marks(
            toks,
            c2 + 1,
        ).1),
    ensures
        parse_structure(toks, cur, prog0, prog),
{
    let prog2 = SpecProgram { instructions: prog0.instructions.push(inst), ..prog0 };
    let (ii, li) = parse_marks(toks, cur);
    let (i1, l1) = parse_marks(toks, c2 + 1);
    let n0 = prog0.instructions.len();
    let m0 = prog0.labels.len();
    assert(prog.instructions.subrange(0, n0 + 1int) == prog2.instructions);
    assert(prog.instructions.subrange(0, n0 as int) =~= prog0.instructions) by {
        assert forall|j: int| 0 <= j < n0 implies prog.instructions[j] == prog0.instructions[j] by {
            assert(prog.instructions.subrange(0, n0 + 1int)[j] == prog2.instructions[j]);
        }
    }
    assert(prog.instructions[n0 as int] == inst) by {
        assert(prog.instructions.subrange(0, n0 + 1int)[n0 as int] == prog2.instructions[n0 as int]);
    }
    assert(prog.labels.len() - l1.len() == m0);
    lemma_structure_next_marks(toks, cur, n0, prog, c2);
    assert forall|k: int| 0 <= k < ii.len() implies cur <= #[trigger] ii[k] < toks.len()
        && toks[ii[k] as int].kind == SpecTokenKind::Instruction(prog.instructions[n0 + k].opcode)
        && toks[ii[k] as int].loc == prog.instructions[n0 + k].loc && operands_at(
        toks,
        ii[k] + 1int,
        prog.instructions[n0 + k].operands,
    ) by {
        if k > 0 {
            assert(ii[k] == i1[k - 1]);
            assert(prog.instructions[(n0 + 1) + (k - 1)] == prog.instructions[n0 + k]);
        }
    }
    assert forall|m: int| 0 <= m < li.len() implies cur <= #[trigger] li[m] < toks.len()
        && toks[li[m] as int].kind == SpecTokenKind::LabelDef(prog.labels[m0 + m].0)
        && prog.labels[m0 + m].1 >= n0 && count_before(ii, li[m], prog.labels[m0 + m].1 - n0) by {
        assert(li[m] == l1[m]);
    }
    assert forall|i: int|
        cur <= i < toks.len() && no_eof_through(toks, cur as int, i) && (
        #[trigger] toks[i]).kind is LabelDef implies exists|m: int|
        0 <= m < li.len() && li[m] == i by {
        if i <= c2 {
            if cur < i && i < c2 {
                assert(!(toks[i].kind is LabelDef));
            }
        } else {
            assert(no_eof_through(toks, c2 + 1int, i));
            let m1 = choose|m: int| 0 <= m < l1.len() && l1[m] == i;
            assert(li[m1] == i);
        }
    }
}

proof fn lemma_structure_end(toks: Seq<SpecToken>, cur: nat, prog0: SpecProgram)
    requires
        at_end(toks, cur),
    ensures
        parse_structure(toks, cur, prog0, prog0),
{
    let (ii, li) = parse_marks(toks, cur);
    assert(prog0.instructions.subrange(0, prog0.instructions.len() as int) =~= prog0.instructions);
    assert(prog0.labels.subrange(0, prog0.labels.len() as int) =~= prog0.labels);
    assert forall|i: int|
        cur <= i < toks.len() && no_eof_through(toks, cur as int, i) && (
        #[trigger] toks[i]).kind is LabelDef implies exists|m: int|
        0 <= m < li.len() && li[m] == i by {
        assert(!(toks[cur as int].kind is EOF));
    }
}

proof fn lemma_operands_span(toks: Seq<SpecToken>, cur: nat)
    ensures
        parse_operands(toks, cur + 1, Seq::empty()) matches Ok((operands, c2)) ==> {
            &&& operands_at(toks, cur + 1int, operands)
            &&& cur < c2
            &&& operand_span(toks, cur as int, c2 as int)
        },
{
    let c1 = cur + 1;
    lemma_parse_operands_shape(toks, c1, Seq::empty());
    if let Ok((operands, c2)) = parse_operands(toks, c1, Seq::empty()) {
        assert(operands.subrange(0, operands.len() as int) =~= operands);
        assert forall|i: int| cur < i < c2 implies !((#[trigger] toks[i]).kind is LabelDef) && !(
        toks[i].kind is EOF) by {
            let j = (i - c1) / 2;
            if i - c1 == 2 * j {
                assert(operand_of(toks[c1 + 2 * j].kind) is Some);
            } else {
                assert(i == c1 + 2 * j + 1);
                assert(toks[c1 + 2 * j + 1].kind is Comma);
            }
        }
    }
}

/// What parsing makes of the tokens: the program gets one instruction per
/// opcode token that starts a statement, in token order, with that token's
/// mnemonic and location and the operands spelled by the comma-separated
/// tokens after it (a register, an integer of either base, or an identifier
/// as a label reference); and one label per label definition, in order,
/// standing before as many instructions as have their opcode token before the
/// definition. Every label definition before the end-of-file token is among
/// them, so the table has these labels and no others.
pub proof fn law_parse_structure(toks: Seq<SpecToken>, cur: nat, prog0: SpecProgram)
    ensures
        parse_from(toks, cur, prog0) matches Ok(prog) ==> parse_structure(toks, cur, prog0, prog),
    decreases toks.len() - cur, 1nat,
{
    if at_end(toks, cur) {
        lemma_structure_end(toks, cur, prog0);
    } else if toks[cur as int].kind is Instruction {
        lemma_case_instruction(toks, cur, prog0);
    } else {
        lemma_case_other(toks, cur, prog0);
    }
}

proof fn lemma_case_other(toks: Seq<SpecToken>, cur: nat, prog0: SpecProgram)
    requires
        !at_end(toks, cur),
        !(toks[cur as int].kind is Instruction),
    ensures
        parse_from(toks, cur, prog0) matches Ok(prog) ==> parse_structure(toks, cur, prog0, prog),
    decreases toks.len() - cur, 0nat,
{
    let t = toks[cur as int];
    match t.kind {
        SpecTokenKind::NewLine => {
            law_parse_structure(toks, cur + 1, prog0);
            if parse_from(toks, cur, prog0) is Ok {
                lemma_structure_newline(toks, cur, prog0, parse_from(toks, cur, prog0)->Ok_0);
            }
        },
        SpecTokenKind::LabelDef(name) => {
            if !label_defined(prog0.labels, name) {
                let prog1 = SpecProgram {
                    labels: prog0.labels.push((name, prog0.instructions.len())),
                    ..prog0
                };
                law_parse_structure(toks, cur + 1, prog1);
                if parse_from(toks, cur, prog0) is Ok {
                    lemma_structure_label(
                        toks,
                        cur,
                        prog0,
                        parse_from(toks, cur, prog0)->Ok_0,
                        name,
                    );
                }
            }
        },
        _ => {},
    }
}

proof fn lemma_case_instruction(toks: Seq<SpecToken>, cur: nat, prog0: SpecProgram)
    requires
        !at_end(toks, cur),
        toks[cur as int].kind is Instruction,
    ensures
        parse_from(toks, cur, prog0) matches Ok(prog) ==> parse_structure(toks, cur, prog0, prog),
    decreases toks.len() - cur, 0nat,
{
    let t = toks[cur as int];
    let opcode = t.kind->Instruction_0;
    let c1 = cur + 1;
    let in_ops = !check(toks, c1, SpecTokenKind::NewLine) && !check(toks, c1, SpecTokenKind::EOF);
    let ops = if in_ops {
        parse_operands(toks, c1, Seq::empty())
    } else {
        Ok((Seq::empty(), c1))
    };
    if let Ok((operands, c2)) = ops {
        let inst = SpecInstruction { opcode, operands, loc: t.loc };
        let prog2 = SpecProgram { instructions: prog0.instructions.push(inst), ..prog0 };
        if in_ops {
            lemma_operands_span(toks, cur);
        } else {
            assert(operand_span(toks, cur as int, c2 as int));
        }
        if check(toks, c2, SpecTokenKind::EOF) {
            lemma_structure_last(toks, cur, prog0, inst, c2);
        } else if check(toks, c2, SpecTokenKind::NewLine) {
            law_parse_structure(toks, c2 + 1, prog2);
            if parse_from(toks, cur, prog0) is Ok {
                lemma_structure_instruction(
                    toks,
                    cur,
                    prog0,
                    parse_from(toks, cur, prog0)->Ok_0,
                    inst,
                    c2,
                );
            }
        }
    }
}

pub proof fn lemma_parse_operands_advances(
    toks: Seq<SpecToken>,
    cur: nat,
    acc: Seq<SpecOperand>,
)
    ensures
        parse_operands(toks, cur, acc) matches Ok((ops, c2)) ==> c2 > cur && c2 <= toks.len()
            && ops.len() > acc.len(),
    decreases toks.len() - cur,
{
    match parse_operand(toks, cur) {
        Err(m) => {},
        Ok((op, c2)) => {
            if check(toks, c2, SpecTokenKind::Comma) && c2 < toks.len() && c2 >= cur {
                lemma_parse_operands_advances(toks, c2 + 1, acc.push(op));
            }
        },
    }
}

// ---------------------------------------------------------------------------
// The parser
// ---------------------------------------------------------------------------

/// `Debug` rendering of a string slice.
/// Trusted: calls `format!("{:?}", s)`, whose result depends on the text alone;
/// the contract names it `str_debug` and says nothing more of it (the
/// quoting and escaping rules are not restated).
#[verifier::external_body]
fn debug_str(s: &str) -> (r: String)
    ensures
        r@ == str_debug(s@),
{
    format!("{:?}", s)
}

fn push_kind_debug(out: &mut String, k: &TokenKind)
    ensures
        final(out)@ == old(out)@ + kind_debug(k@),
{
    match k {
        TokenKind::Instruction(s) => {
            push_str(out, "Instruction(");
            let d = debug_str(s);
            out.append(d.as_str());
            push_str(out, ")");
        },
        TokenKind::Register(s) => {
            push_str(out, "Register(");
            let d = debug_str(s);
            out.append(d.as_str());
            push_str(out, ")");
        },
        TokenKind::LabelDef(s) => {
            push_str(out, "LabelDef(");
            let d = debug_str(s);
            out.append(d.as_str());
            push_str(out, ")");
        },
        TokenKind::LabelRef(s) => {
            push_str(out, "LabelRef(");
            let d = debug_str(s);
            out.append(d.as_str());
            push_str(out, ")");
        },
        TokenKind::Integer(v) => {
            push_str(out, "Integer(");
            push_dec_i64(out, *v);
            push_str(out, ")");
        },
        TokenKind::HexInteger(v) => {
            push_str(out, "HexInteger(");
            push_dec_i64(out, *v);
            push_str(out, ")");
        },
        TokenKind::StringLiteral(s) => {
            push_str(out, "StringLiteral(");
            let d = debug_str(s);
            out.append(d.as_str());
            push_str(out, ")");
        },
        TokenKind::Comma => push_str(out, "Comma"),
        TokenKind::NewLine => push_str(out, "NewLine"),
        TokenKind::EOF => push_str(out, "EOF"),
    }
    assert(final(out)@ =~= old(out)@ + kind_debug(k@));
}

fn push_loc(out: &mut String, loc: Location)
    ensures
        final(out)@ == old(out)@ + loc_text(loc),
{
    push_str(out, " at line ");
    push_dec_u64(out, loc.line as u64);
    push_str(out, ", col ");
    push_dec_u64(out, loc.column as u64);
    assert(final(out)@ =~= old(out)@ + loc_text(loc));
}

/// Equality of token kinds, payload included.
fn same_kind(a: &TokenKind, b: &TokenKind) -> (r: bool)
    ensures
        r == (a@ == b@),
{
    match (a, b) {
        (TokenKind::Instruction(x), TokenKind::Instruction(y)) => str_eq(x, y),
        (TokenKind::Register(x), TokenKind::Register(y)) => str_eq(x, y),
        (TokenKind::LabelDef(x), TokenKind::LabelDef(y)) => str_eq(x, y),
        (TokenKind::LabelRef(x), TokenKind::LabelRef(y)) => str_eq(x, y),
        (TokenKind::Integer(x), TokenKind::Integer(y)) => *x == *y,
        (TokenKind::HexInteger(x), TokenKind::HexInteger(y)) => *x == *y,
        (TokenKind::StringLiteral(x), TokenKind::StringLiteral(y)) => str_eq(x, y),
        (TokenKind::Comma, TokenKind::Comma) => true,
        (TokenKind::NewLine, TokenKind::NewLine) => true,
        (TokenKind::EOF, TokenKind::EOF) => true,
        _ => false,
    }
}

pub struct Parser<'a> {
    tokens: Vec<Token<'a>>,
    cursor: usize,
}

impl<'a> Parser<'a> {
    /// The tokens being parsed.
    pub closed spec fn toks(&self) -> Seq<SpecToken> {
        token_views(self.tokens@)
    }

    /// The position of the next token to read.
    pub closed spec fn cur(&self) -> nat {
        self.cursor as nat
    }

    /// The cursor is within the tokens; every operation keeps this.
    pub closed spec fn wf(&self) -> bool {
        self.cursor <= self.tokens@.len()
    }

    pub fn new(tokens: Vec<Token<'a>>) -> (p: Self)
        ensures
            p.toks() == token_views(tokens@),
            p.cur() == 0,
            p.wf(),
    {
        Self { tokens, cursor: 0 }
    }

    /// Parses the tokens from the cursor on (from the start, for a new parser).
    pub fn parse(&mut self) -> (r: std::result::Result<AssembledProgram<'a>, String>)
        requires
            old(self).wf(),
        ensures
            final(self).wf(),
            final(self).toks() == old(self).toks(),
            r matches Ok(prog) ==> labels_distinct(prog@.labels),
            r matches Ok(prog) ==> parse_structure(
                old(self).toks(),
                old(self).cur(),
                SpecProgram { instructions: Seq::empty(), labels: Seq::empty() },
                prog@,
            ),
            match parse_from(
                old(self).toks(),
                old(self).cur(),
                SpecProgram { instructions: Seq::empty(), labels: Seq::empty() },
            ) {
                Ok(p) => r matches Ok(prog) && prog@ == p,
                Err(m) => r matches Err(e) && e@ == m,
            },
    {
        let ghost toks = self.toks();
        let ghost target = parse_from(
            toks,
            self.cur(),
            SpecProgram { instructions: Seq::empty(), labels: Seq::empty() },
        );
        proof {
            lemma_parse_labels_distinct(
                toks,
                self.cur(),
                SpecProgram { instructions: Seq::empty(), labels: Seq::empty() },
            );
            law_parse_structure(
                toks,
                self.cur(),
                SpecProgram { instructions: Seq::empty(), labels: Seq::empty() },
            );
        }
        let ghost cur_start = self.cur();
        let n = self.tokens.len();
        let mut program = AssembledProgram::default();
        assert(program@ =~= (SpecProgram { instructions: Seq::empty(), labels: Seq::empty() }));
        while !self.is_at_end()
            invariant
                self.toks() == toks,
                toks == old(self).toks(),
                target == parse_from(
                    toks,
                    old(self).cur(),
                    SpecProgram { instructions: Seq::empty(), labels: Seq::empty() },
                ),
                target matches Ok(p) ==> labels_distinct(p.labels),
                cur_start == old(self).cur(),
                target matches Ok(p) ==> parse_structure(
                    toks,
                    cur_start,
                    SpecProgram { instructions: Seq::empty(), labels: Seq::empty() },
                    p,
                ),
                n == self.tokens@.len(),
                self.cursor <= self.tokens@.len(),
                parse_from(toks, self.cur(), program@) == target,
            decreases toks.len() - self.cur(),
        {
            let ghost cur0 = self.cur();
            let ghost prog0 = program@;
            let t = &self.tokens[self.cursor];
            let loc = t.loc;
            match &t.kind {
                TokenKind::NewLine => {
                    self.cursor = self.cursor + 1;
                },
                TokenKind::LabelDef(name) => {
                    let name = *name;
                    self.cursor = self.cursor + 1;
                    if self.has_label(&program, name) {
                        let mut m = String::from_str("Duplicate label definition found: '");
                        push_str(&mut m, name);
                        push_str(&mut m, "'");
                        return Err(m);
                    }
                    let idx = program.instructions.len();
                    program.labels.push((name, idx));
                    assert(program@.labels =~= prog0.labels.push((name@, prog0.instructions.len())));
                    assert(program@ =~= (SpecProgram {
                        labels: prog0.labels.push((name@, prog0.instructions.len())),
                        ..prog0
                    }));
                },
                TokenKind::Instruction(opcode) => {
                    let opcode = *opcode;
                    self.cursor = self.cursor + 1;
                    let mut operands: Vec<Operand<'a>> = Vec::new();
                    assert(operand_views(operands@) =~= Seq::<SpecOperand>::empty());
                    if !self.check(TokenKind::NewLine) && !self.check(TokenKind::EOF) {
                        proof {
                            lemma_parse_operands_advances(toks, cur0 + 1, Seq::empty());
                        }
                        match self.parse_operands(&mut operands) {
                            Ok(()) => {},
                            Err(m) => {
                                return Err(m);
                            },
                        }
                    } else {
                        assert(operand_views(operands@) =~= Seq::<SpecOperand>::empty());
                    }
                    let ghost c2 = self.cur();
                    let ghost ops = operand_views(operands@);
                    let ends = self.check(TokenKind::EOF);
                    if !ends {
                        match self.consume(TokenKind::NewLine, "Expected newline after instruction components") {
                            Ok(()) => {},
                            Err(m) => {
                                return Err(m);
                            },
                        }
                    }
                    let inst = ParsedInstruction { opcode, operands, loc };
                    program.instructions.push(inst);
                    proof {
                        let sinst = SpecInstruction { opcode: opcode@, operands: ops, loc };
                        assert(program@.instructions =~= prog0.instructions.push(sinst));
                        assert(program@ =~= (SpecProgram {
                            instructions: prog0.instructions.push(sinst),
                            ..prog0
                        }));
                    }
                    if ends {
                        proof {
                            assert(at_end(toks, self.cur()));
                        }
                        return Ok(program);
                    }
                },
                _ => {
                    let mut m = String::from_str("Unexpected token '");
                    push_kind_debug(&mut m, &t.kind);
                    push_str(&mut m, "'");
                    push_loc(&mut m, loc);
                    return Err(m);
                },
            }
        }
        Ok(program)
    }

    fn has_label(&self, program: &AssembledProgram<'a>, name: &str) -> (r: bool)
        ensures
            r == label_defined(program@.labels, name@),
    {
        let mut i: usize = 0;
        while i < program.labels.len()
            invariant
                i <= program.labels@.len(),
                forall|j: int| 0 <= j < i ==> #[trigger] program@.labels[j].0 != name@,
            decreases program.labels@.len() - i,
        {
            if str_eq(program.labels[i].0, name) {
                assert(program@.labels[i as int].0 == name@);
                return true;
            }
            i = i + 1;
        }
        false
    }

    /// Operands separated by commas, appended to `operands`; the cursor
    /// ends after the last one.
    fn parse_operands(&mut self, operands: &mut Vec<Operand<'a>>) -> (r: std::result::Result<
        (),
        String,
    >)
        requires
            old(self).cursor <= old(self).tokens@.len(),
        ensures
            final(self).toks() == old(self).toks(),
            final(self).cursor <= final(self).tokens@.len(),
            match parse_operands(old(self).toks(), old(self).cur(), operand_views(old(operands)@)) {
                Ok((ops, c2)) => r is Ok && operand_views(final(operands)@) == ops
                    && final(self).cur() == c2,
                Err(m) => r matches Err(e) && e@ == m,
            },
        decreases old(self).tokens@.len() - old(self).cursor,
    {
        let ghost toks = self.toks();
        let ghost c0 = self.cur();
        let ghost acc0 = operand_views(operands@);
        let op = self.parse_operand()?;
        operands.push(op);
        assert(operand_views(operands@) =~= acc0.push(op@));
        if self.match_token(TokenKind::Comma) {
            self.parse_operands(operands)
        } else {
            Ok(())
        }
    }

    fn parse_operand(&mut self) -> (r: std::result::Result<Operand<'a>, String>)
        requires
            old(self).cursor <= old(self).tokens@.len(),
        ensures
            final(self).toks() == old(self).toks(),
            final(self).cursor <= final(self).tokens@.len(),
            match parse_operand(old(self).toks(), old(self).cur()) {
                Ok((op, c2)) => r matches Ok(o) && o@ == op && final(self).cur() == c2,
                Err(m) => r matches Err(e) && e@ == m,
            },
    {
        if self.cursor >= self.tokens.len() {
            return Err(String::from_str("Unexpected end of input while parsing operand"));
        }
        let t = &self.tokens[self.cursor];
        match &t.kind {
            TokenKind::Register(reg) => {
                let reg = *reg;
                self.cursor = self.cursor + 1;
                Ok(Operand::Register(reg))
            },
            TokenKind::Integer(val) => {
                let val = *val;
                self.cursor = self.cursor + 1;
                Ok(Operand::Integer(val))
            },
            TokenKind::HexInteger(val) => {
                let val = *val;
                self.cursor = self.cursor + 1;
                Ok(Operand::Integer(val))
            },
            TokenKind::Instruction(label) => {
                let label = *label;
                self.cursor = self.cursor + 1;
                Ok(Operand::LabelRef(label))
            },
            _ => {
                let mut m = String::from_str(
                    "Expected register, literal integer, or label reference, found '",
                );
                push_kind_debug(&mut m, &t.kind);
                push_str(&mut m, "'");
                push_loc(&mut m, t.loc);
                Err(m)
            },
        }
    }

    fn check(&self, kind: TokenKind<'a>) -> (r: bool)
        requires
            self.cursor <= self.tokens@.len(),
        ensures
            r == check(self.toks(), self.cur(), kind@),
    {
        if self.is_at_end() {
            return match kind {
                TokenKind::EOF => true,
                _ => false,
            };
        }
        same_kind(&self.tokens[self.cursor].kind, &kind)
    }

    /// Moves past one token, unless at the end.
    fn advance(&mut self)
        requires
            old(self).cursor <= old(self).tokens@.len(),
        ensures
            final(self).toks() == old(self).toks(),
            final(self).cursor <= final(self).tokens@.len(),
            final(self).cur() == advance(old(self).toks(), old(self).cur()),
    {
        assert(self.toks().len() == self.tokens@.len());
        if !self.is_at_end() && self.cursor < self.tokens.len() {
            self.cursor = self.cursor + 1;
        }
    }

    /// Moves past the token at the cursor when it has kind `kind`.
    fn match_token(&mut self, kind: TokenKind<'a>) -> (r: bool)
        requires
            old(self).cursor <= old(self).tokens@.len(),
        ensures
            final(self).toks() == old(self).toks(),
            final(self).cursor <= final(self).tokens@.len(),
            r == check(old(self).toks(), old(self).cur(), kind@),
            r ==> final(self).cur() == advance(old(self).toks(), old(self).cur()),
            !r ==> final(self).cur() == old(self).cur(),
    {
        if self.check(kind) {
            self.advance();
            true
        } else {
            false
        }
    }

    /// Moves past a token of kind `kind`, or fails with `error_msg` and the location.
    fn consume(&mut self, kind: TokenKind<'a>, error_msg: &str) -> (r: std::result::Result<
        (),
        String,
    >)
        requires
            old(self).cursor <= old(self).tokens@.len(),
        ensures
            final(self).toks() == old(self).toks(),
            final(self).cursor <= final(self).tokens@.len(),
            check(old(self).toks(), old(self).cur(), kind@) ==> r is Ok && final(self).cur()
                == advance(old(self).toks(), old(self).cur()),
            !check(old(self).toks(), old(self).cur(), kind@) ==> (r matches Err(e) && e@
                == error_msg@ + loc_text(
                if old(self).cur() < old(self).toks().len() {
                    old(self).toks()[old(self).cur() as int].loc
                } else {
                    Location { line: 0, column: 0 }
                },
            )),
    {
        if self.check(kind) {
            self.advance();
            Ok(())
        } else {
            let loc = if self.cursor < self.tokens.len() {
                self.tokens[self.cursor].loc
            } else {
                Location { line: 0, column: 0 }
            };
            let mut m = String::from_str(error_msg);
            push_loc(&mut m, loc);
            Err(m)
        }
    }

    fn is_at_end(&self) -> (r: bool)
        requires
            self.cursor <= self.tokens@.len(),
        ensures
            r == at_end(self.toks(), self.cur()),
    {
        self.cursor >= self.tokens.len() || match self.tokens[self.cursor].kind {
            TokenKind::EOF => true,
            _ => false,
        }
    }
}

} // verus!
