//! Diagnostics reported to the user about a source file: a message, the
//! place in the source it concerns, and an optional hint.

use vstd::prelude::*;
use crate::assembler::lexer::Location;
use crate::text::{chars_of, dec_nat, pad_left, push_dec_u64, push_dec_u64_right, push_str, string_push};

verus! {

#[derive(Debug, Clone, Copy, PartialEq, Eq, Structural)]
pub enum DiagnosticLevel {
    Error,
    Warning,
}

/// How a level is shown: in bold colour, red for errors and yellow for warnings.
pub open spec fn level_text(level: DiagnosticLevel) -> Seq<char> {
    match level {
        DiagnosticLevel::Error => "\x1b[1;31merror\x1b[0m"@,
        DiagnosticLevel::Warning => "\x1b[1;33mwarning\x1b[0m"@,
    }
}

impl DiagnosticLevel {
    /// The level as it is shown.
    pub fn label(&self) -> (s: String)
        ensures
            s@ == level_text(*self),
    {
        match self {
            DiagnosticLevel::Error => String::from_str("\x1b[1;31merror\x1b[0m"),
            DiagnosticLevel::Warning => String::from_str("\x1b[1;33mwarning\x1b[0m"),
        }
    }
}

pub struct Diagnostic {
    pub level: DiagnosticLevel,
    pub message: String,
    pub loc: Option<Location>,
    pub details: Option<String>,
}

/// Where line `n` (counted from 0) of `s` lies, as `str::lines` splits it:
/// lines end at `\n`, a `\r` just before the `\n` is not part of the line,
/// and text after the last `\n` is a line only when it is not empty.
/// `ls` is where the current line starts, `p` the position being scanned.
pub open spec fn line_span_from(s: Seq<char>, ls: nat, p: nat, n: nat) -> Option<(nat, nat)>
    decreases s.len() - p,
{
    if p >= s.len() {
        if ls < s.len() && n == 0 {
            Some((ls, s.len()))
        } else {
            None
        }
    } else if s[p as int] == '\n' {
        if n == 0 {
            Some((ls, if p > ls && s[p - 1] == '\r' { (p - 1) as nat } else { p }))
        } else {
            line_span_from(s, p + 1, p + 1, (n - 1) as nat)
        }
    } else {
        line_span_from(s, ls, p + 1, n)
    }
}

/// Line `n` (from 0) of `s`, if `s` has that many lines.
pub open spec fn nth_line(s: Seq<char>, n: nat) -> Option<Seq<char>> {
    match line_span_from(s, 0, 0, n) {
        Some((a, b)) => Some(s.subrange(a as int, b as int)),
        None => None,
    }
}

/// The blank space under `line` up to column `column` (counted from 1):
/// a tab under each tab, a space under anything else.
pub open spec fn caret_pad(line: Seq<char>, column: nat) -> Seq<char> {
    let k: nat = if column == 0 {
        0
    } else if line.len() < column - 1 {
        line.len()
    } else {
        (column - 1) as nat
    };
    Seq::new(k, |i: int| if line[i] == '\t' { '\t' } else { ' ' })
}

/// The source excerpt under the location line: the line itself, numbered,
/// and a caret under the column. Nothing when the source has no such line.
pub open spec fn excerpt_text(source: Seq<char>, loc: Location) -> Seq<char> {
    if loc.line == 0 {
        Seq::empty()
    } else {
        match nth_line(source, (loc.line - 1) as nat) {
            None => Seq::empty(),
            Some(l) => pad_left(dec_nat(loc.line as nat), 3, ' ') + " \x1b[1;34m|\x1b[0m "@ + l
                + "\n"@ + "    \x1b[1;34m|\x1b[0m "@ + caret_pad(l, loc.column as nat)
                + "\x1b[1;31m^\x1b[0m\n"@,
        }
    }
}

/// The whole report of a diagnostic about `source`, read from `file_name`.
pub open spec fn report_text(
    level: DiagnosticLevel,
    message: Seq<char>,
    loc: Option<Location>,
    details: Option<Seq<char>>,
    source: Seq<char>,
    file_name: Seq<char>,
) -> Seq<char> {
    level_text(level) + ": "@ + message + "\n"@ + match loc {
        None => Seq::empty(),
        Some(l) => "  \x1b[1;34m-->\x1b[0m "@ + file_name + ":"@ + dec_nat(l.line as nat) + ":"@
            + dec_nat(l.column as nat) + "\n"@ + "   \x1b[1;34m|\x1b[0m\n"@ + excerpt_text(
            source,
            l,
        ),
    } + match details {
        None => Seq::empty(),
        Some(d) => "   \x1b[1;34m=\x1b[0m \x1b[1mhint:\x1b[0m "@ + d + "\n"@,
    } + "\n"@
}

impl Diagnostic {
    /// The details as text, if there are any.
    pub open spec fn details_text(&self) -> Option<Seq<char>> {
        match self.details {
            Some(d) => Some(d@),
            None => None,
        }
    }

    /// An error at `loc`.
    pub fn error(message: &str, loc: Location) -> (d: Self)
        ensures
            d.level == DiagnosticLevel::Error,
            d.message@ == message@,
            d.loc == Some(loc),
            d.details is None,
    {
        Diagnostic {
            level: DiagnosticLevel::Error,
            message: message.to_owned(),
            loc: Some(loc),
            details: None,
        }
    }

    /// The same diagnostic with a hint.
    pub fn with_details(self, details: &str) -> (d: Self)
        ensures
            d.level == self.level,
            d.message@ == self.message@,
            d.loc == self.loc,
            d.details_text() == Some(details@),
    {
        let mut d = self;
        d.details = Some(details.to_owned());
        d
    }

    /// The report shown to the user for this diagnostic about `source_code`,
    /// read from `file_name`.
    pub fn render(&self, source_code: &str, file_name: &str) -> (s: String)
        ensures
            s@ == report_text(
                self.level,
                self.message@,
                self.loc,
                self.details_text(),
                source_code@,
                file_name@,
            ),
    {
        let mut out = self.level.label();
        push_str(&mut out, ": ");
        out.append(self.message.as_str());
        push_str(&mut out, "\n");
        let ghost head = out@;
        match self.loc {
            None => {},
            Some(loc) => {
                push_str(&mut out, "  \x1b[1;34m-->\x1b[0m ");
                push_str(&mut out, file_name);
                push_str(&mut out, ":");
                push_dec_u64(&mut out, loc.line as u64);
                push_str(&mut out, ":");
                push_dec_u64(&mut out, loc.column as u64);
                push_str(&mut out, "\n");
                push_str(&mut out, "   \x1b[1;34m|\x1b[0m\n");
                let excerpt = render_excerpt(source_code, loc);
                out.append(excerpt.as_str());
            },
        }
        let ghost mid = out@;
        match &self.details {
            None => {},
            Some(d) => {
                push_str(&mut out, "   \x1b[1;34m=\x1b[0m \x1b[1mhint:\x1b[0m ");
                out.append(d.as_str());
                push_str(&mut out, "\n");
            },
        }
        push_str(&mut out, "\n");
        assert(out@ =~= report_text(
            self.level,
            self.message@,
            self.loc,
            self.details_text(),
            source_code@,
            file_name@,
        ));
        out
    }
}

/// Finds line `n` (from 0) of `cs`, as `nth_line` says.
fn find_line(cs: &Vec<char>, n: usize) -> (r: Option<(usize, usize)>)
    ensures
        r matches Some((a, b)) ==> a <= b <= cs@.len() && line_span_from(cs@, 0, 0, n as nat)
            == Some((a as nat, b as nat)),
        r is None ==> line_span_from(cs@, 0, 0, n as nat) is None,
{
    let ghost s = cs@;
    let mut ls: usize = 0;
    let mut p: usize = 0;
    let mut k: usize = n;
    while p < cs.len()
        invariant
            s == cs@,
            ls <= p <= s.len(),
            line_span_from(s, ls as nat, p as nat, k as nat) == line_span_from(s, 0, 0, n as nat),
        decreases s.len() - p,
    {
        if cs[p] == '\n' {
            if k == 0 {
                let e = if p > ls && cs[p - 1] == '\r' {
                    p - 1
                } else {
                    p
                };
                return Some((ls, e));
            }
            k = k - 1;
            p = p + 1;
            ls = p;
        } else {
            p = p + 1;
        }
    }
    if ls < cs.len() && k == 0 {
        Some((ls, cs.len()))
    } else {
        None
    }
}

/// Renders the numbered source line and the caret under the column.
fn render_excerpt(source_code: &str, loc: Location) -> (s: String)
    ensures
        s@ == excerpt_text(source_code@, loc),
{
    let mut out = String::new();
    if loc.line == 0 {
        assert(out@ =~= excerpt_text(source_code@, loc));
        return out;
    }
    let cs = chars_of(source_code);
    match find_line(&cs, loc.line - 1) {
        None => {
            assert(out@ =~= excerpt_text(source_code@, loc));
            out
        },
        Some((a, b)) => {
            let ghost l = cs@.subrange(a as int, b as int);
            push_dec_u64_right(&mut out, loc.line as u64, 3);
            push_str(&mut out, " \x1b[1;34m|\x1b[0m ");
            let mut i: usize = a;
            while i < b
                invariant
                    a <= i <= b <= cs@.len(),
                    l == cs@.subrange(a as int, b as int),
                    out@ == pad_left(dec_nat(loc.line as nat), 3, ' ') + " \x1b[1;34m|\x1b[0m "@
                        + cs@.subrange(a as int, i as int),
                decreases b - i,
            {
                string_push(&mut out, cs[i]);
                i = i + 1;
                assert(out@ =~= pad_left(dec_nat(loc.line as nat), 3, ' ')
                    + " \x1b[1;34m|\x1b[0m "@ + cs@.subrange(a as int, i as int));
            }
            push_str(&mut out, "\n");
            push_str(&mut out, "    \x1b[1;34m|\x1b[0m ");
            let ghost before = out@;
            let mut j: usize = 0;
            while j < b - a && j + 1 < loc.column
                invariant
                    a <= b <= cs@.len(),
                    l == cs@.subrange(a as int, b as int),
                    j <= b - a,
                    (j as nat) <= caret_pad(l, loc.column as nat).len(),
                    out@ == before + caret_pad(l, loc.column as nat).take(j as int),
                decreases b - a - j,
            {
                if cs[a + j] == '\t' {
                    string_push(&mut out, '\t');
                } else {
                    string_push(&mut out, ' ');
                }
                j = j + 1;
                assert(out@ =~= before + caret_pad(l, loc.column as nat).take(j as int));
            }
            assert(caret_pad(l, loc.column as nat).take(j as int) =~= caret_pad(
                l,
                loc.column as nat,
            ));
            push_str(&mut out, "\x1b[1;31m^\x1b[0m\n");
            assert(out@ =~= excerpt_text(source_code@, loc));
            out
        },
    }
}

/// Line spans of `r` moved right by `k` characters.
pub open spec fn shifted(span: Option<(nat, nat)>, k: nat) -> Option<(nat, nat)> {
    match span {
        Some((i, j)) => Some((i + k, j + k)),
        None => None,
    }
}

proof fn lemma_span_shift(x: Seq<char>, r: Seq<char>, a: nat, p: nat, n: nat)
    requires
        a <= p <= r.len(),
    ensures
        line_span_from(x + r, x.len() + a, x.len() + p, n) == shifted(
            line_span_from(r, a, p, n),
            x.len(),
        ),
    decreases r.len() - p, n,
{
    let s = x + r;
    let k = x.len();
    if p < r.len() {
        assert(s[(k + p) as int] == r[p as int]);
        if p > a {
            assert(s[(k + p) - 1] == r[p - 1]);
        }
        if r[p as int] == '\n' {
            if n > 0 {
                lemma_span_shift(x, r, p + 1, p + 1, (n - 1) as nat);
            }
        } else {
            lemma_span_shift(x, r, a, p + 1, n);
        }
    }
}

proof fn lemma_span_skip(s: Seq<char>, ls: nat, p: nat, q: nat, n: nat)
    requires
        ls <= p <= q <= s.len(),
        forall|i: int| p <= i < q ==> #[trigger] s[i] != '\n',
    ensures
        line_span_from(s, ls, p, n) == line_span_from(s, ls, q, n),
    decreases q - p,
{
    if p < q {
        lemma_span_skip(s, ls, p + 1, q, n);
    }
}

/// Text with no newline is a single line: the text itself, when it is not
/// empty; an empty text has no lines.
pub proof fn law_single_line(s: Seq<char>, n: nat)
    requires
        forall|i: int| 0 <= i < s.len() ==> #[trigger] s[i] != '\n',
    ensures
        nth_line(s, n) == if s.len() > 0 && n == 0 {
            Some(s)
        } else {
            None::<Seq<char>>
        },
{
    lemma_span_skip(s, 0, 0, s.len(), n);
    assert(s.subrange(0, s.len() as int) =~= s);
}

/// Lines are the pieces between newlines: the first line of `l` followed by
/// a line end (`\n`, or `\r\n`) and more text is `l`, and the lines after
/// it are the lines of the rest.
pub proof fn law_lines_split(l: Seq<char>, crlf: bool, rest: Seq<char>, n: nat)
    requires
        forall|i: int| 0 <= i < l.len() ==> #[trigger] l[i] != '\n',
        !crlf ==> l.len() == 0 || l.last() != '\r',
    ensures
        ({
            let end = if crlf {
                seq!['\r', '\n']
            } else {
                seq!['\n']
            };
            &&& nth_line(l + end + rest, 0) == Some(l)
            &&& nth_line(l + end + rest, n + 1) == nth_line(rest, n)
        }),
{
    let end = if crlf {
        seq!['\r', '\n']
    } else {
        seq!['\n']
    };
    let head = l + end;
    let s = head + rest;
    let nl = head.len() - 1;
    assert(s[nl] == '\n');
    assert forall|i: int| 0 <= i < nl implies #[trigger] s[i] != '\n' by {
        if i < l.len() {
            assert(s[i] == l[i]);
        } else {
            assert(s[i] == '\r');
        }
    }
    lemma_span_skip(s, 0, 0, nl as nat, 0);
    lemma_span_skip(s, 0, 0, nl as nat, n + 1);
    if crlf {
        assert(s[nl - 1] == '\r');
    } else if l.len() > 0 {
        assert(s[nl - 1] == l.last());
    }
    assert(s.subrange(0, l.len() as int) =~= l);
    lemma_span_shift(head, rest, 0, 0, n);
    assert(head.len() + 0 == nl + 1);
    match line_span_from(rest, 0, 0, n) {
        Some((i, j)) => {
            lemma_span_bounds(rest, 0, 0, n);
            assert(s.subrange((i + head.len()) as int, (j + head.len()) as int) =~= rest.subrange(
                i as int,
                j as int,
            ));
        },
        None => {},
    }
}

proof fn lemma_span_bounds(s: Seq<char>, ls: nat, p: nat, n: nat)
    requires
        ls <= p <= s.len(),
    ensures
        line_span_from(s, ls, p, n) matches Some((i, j)) ==> i <= j <= s.len(),
    decreases s.len() - p, n,
{
    if p < s.len() {
        if s[p as int] == '\n' {
            if n > 0 {
                lemma_span_bounds(s, p + 1, p + 1, (n - 1) as nat);
            }
        } else {
            lemma_span_bounds(s, ls, p + 1, n);
        }
    }
}

} // verus!
