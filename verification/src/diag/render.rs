//! Rendering diagnostics as text, each with the source line it points at
//! and a caret under its span.

use std::sync::Arc;

use vstd::prelude::*;
use vstd::string::StrSliceExecFns;

use super::{Diag, Diagnostics, Severity};
use crate::lexer::arc_text;
use crate::text::{decimal, decimal_string};

verus! {

/// The position of the first `\n` in `s`, or its length when there is none.
pub open spec fn newline_at(s: Seq<char>) -> nat
    decreases s.len(),
{
    if s.len() == 0 || s[0] == '\n' {
        0
    } else {
        1 + newline_at(s.drop_first())
    }
}

proof fn lemma_newline_at(s: Seq<char>)
    ensures
        newline_at(s) <= s.len(),
    decreases s.len(),
{
    if s.len() > 0 && s[0] != '\n' {
        lemma_newline_at(s.drop_first());
    }
}

/// The lines of `s` as `str::lines` gives them: split at each `\n`, with a
/// `\r` just before the `\n` removed; a final line ending adds no empty
/// line.
pub open spec fn lines_of(s: Seq<char>) -> Seq<Seq<char>>
    decreases s.len(),
{
    if s.len() == 0 {
        Seq::empty()
    } else {
        let i = newline_at(s) as int;
        if i < s.len() {
            let line = s.subrange(0, i);
            let text = if line.len() > 0 && line.last() == '\r' {
                line.drop_last()
            } else {
                line
            };
            seq![text] + lines_of(s.subrange(i + 1, s.len() as int))
        } else {
            seq![s]
        }
    }
}

/// Trusted: `str::lines`, collected. Its documentation: lines end at `\n`
/// or `\r\n`, which are not part of them, and the final line ending is
/// optional.
#[verifier::external_body]
fn split_lines(s: &str) -> (r: Vec<&str>)
    ensures
        r@.len() == lines_of(s@).len(),
        forall|i: int| 0 <= i < r@.len() ==> (#[trigger] r@[i])@ == lines_of(s@)[i],
{
    s.lines().collect()
}

/// Trusted: the text of a shared file name, `str::to_string` on it.
#[verifier::external_body]
fn file_text(file: &Arc<str>) -> (s: String)
    ensures
        s@ == arc_text(*file),
{
    file.to_string()
}

pub open spec fn severity_word(s: Severity) -> Seq<char> {
    match s {
        Severity::Error => "error"@,
        Severity::Warning => "warning"@,
    }
}

/// `n` copies of `c`.
pub open spec fn repeated(c: char, n: nat) -> Seq<char> {
    Seq::new(n, |i: int| c)
}

/// `n` in decimal, right-aligned in four columns (`{:4}`).
pub open spec fn padded4(n: nat) -> Seq<char> {
    if decimal(n).len() < 4 {
        repeated(' ', (4 - decimal(n).len()) as nat) + decimal(n)
    } else {
        decimal(n)
    }
}

/// The source line a diagnostic points at: line numbers count from 1, and
/// line 0 is taken as line 1.
pub open spec fn line_index(d: Diag) -> int {
    if d.span.line == 0 {
        0
    } else {
        d.span.line - 1
    }
}

/// A diagnostic can be drawn: the caret's column is at least 1 and the
/// padding before it fits in memory.
pub open spec fn drawable(d: Diag, lines: Seq<Seq<char>>) -> bool {
    line_index(d) < lines.len() ==> 1 <= d.span.col && d.span.col + 16 <= usize::MAX
}

/// The head of a diagnostic: `severity: message`, then
/// `  --> file:line:col`.
pub open spec fn diag_head(d: Diag) -> Seq<char> {
    severity_word(d.severity) + ": "@ + d.message@ + "\n"@ + "  --> "@ + arc_text(d.span.file) + ":"@
        + decimal(d.span.line as nat) + ":"@ + decimal(d.span.col as nat) + "\n"@
}

/// The source line `text` under its number, and a caret line (at least one
/// `^`) under the span.
pub open spec fn diag_snippet(d: Diag, text: Seq<char>) -> Seq<char> {
    let num = padded4(d.span.line as nat);
    num + " | "@ + text + "\n"@ + repeated(' ', (num.len() + 3 + d.span.col - 1) as nat) + repeated(
        '^',
        if d.span.len > 0 {
            d.span.len as nat
        } else {
            1
        },
    ) + "\n"@
}

/// One diagnostic: its head, then its snippet when its line exists.
pub open spec fn rendered_diag(d: Diag, lines: Seq<Seq<char>>) -> Seq<char> {
    if line_index(d) < lines.len() {
        diag_head(d) + diag_snippet(d, lines[line_index(d)])
    } else {
        diag_head(d)
    }
}

/// All diagnostics, rendered one after the other.
pub open spec fn rendered(items: Seq<Diag>, lines: Seq<Seq<char>>) -> Seq<char>
    decreases items.len(),
{
    if items.len() == 0 {
        Seq::empty()
    } else {
        rendered(items.drop_last(), lines) + rendered_diag(items.last(), lines)
    }
}

/// Append `n` copies of `c` (a one-character string) to `out`.
fn append_repeated(out: &mut String, c: &str, n: usize, Ghost(ch): Ghost<char>)
    requires
        c@ == seq![ch],
    ensures
        final(out)@ == old(out)@ + repeated(ch, n as nat),
{
    let mut i: usize = 0;
    while i < n
        invariant
            c@ == seq![ch],
            i <= n,
            out@ == old(out)@ + repeated(ch, i as nat),
        decreases n - i,
    {
        out.append(c);
        i += 1;
        assert(out@ =~= old(out)@ + repeated(ch, i as nat));
    }
}

/// Append the head of `d` to `out`.
fn render_head(d: &Diag, out: &mut String)
    ensures
        final(out)@ == old(out)@ + diag_head(*d),
{
    let ghost start = out@;
    match d.severity {
        Severity::Error => out.append("error"),
        Severity::Warning => out.append("warning"),
    }
    out.append(": ");
    out.append(d.message.as_str());
    out.append("\n");
    out.append("  --> ");
    let file = file_text(&d.span.file);
    out.append(file.as_str());
    out.append(":");
    let line_digits = decimal_string(d.span.line as u64);
    out.append(line_digits.as_str());
    out.append(":");
    let col_digits = decimal_string(d.span.col as u64);
    out.append(col_digits.as_str());
    out.append("\n");
    assert(out@ =~= start + diag_head(*d));
}

/// Append the snippet of `d`, on source line `text`, to `out`.
fn render_snippet(d: &Diag, text: &str, out: &mut String)
    requires
        1 <= d.span.col,
        d.span.col + 16 <= usize::MAX,
    ensures
        final(out)@ == old(out)@ + diag_snippet(*d, text@),
{
    proof {
        reveal_strlit(" ");
        reveal_strlit("^");
        assert(" "@ =~= seq![' ']);
        assert("^"@ =~= seq!['^']);
    }
    let ghost start = out@;
    let line_digits = decimal_string(d.span.line as u64);
    let width = line_digits.as_str().unicode_len();
    proof {
        crate::text::lemma_pow10_10();
        crate::text::lemma_decimal_len(d.span.line as nat, 10);
    }
    let ghost num = padded4(d.span.line as nat);
    let pad: usize = if width < 4 {
        4 - width
    } else {
        0
    };
    append_repeated(out, " ", pad, Ghost(' '));
    out.append(line_digits.as_str());
    assert(out@ =~= start + num);
    out.append(" | ");
    out.append(text);
    out.append("\n");
    let num_len: usize = if width < 4 {
        4
    } else {
        width
    };
    append_repeated(out, " ", num_len + 3 + (d.span.col as usize - 1), Ghost(' '));
    let carets: usize = if d.span.len > 0 {
        d.span.len as usize
    } else {
        1
    };
    append_repeated(out, "^", carets, Ghost('^'));
    out.append("\n");
    assert(out@ =~= start + diag_snippet(*d, text@));
}

/// Append the rendering of `d` to `out`.
fn render_one(d: &Diag, text_lines: &Vec<&str>, out: &mut String, Ghost(lines): Ghost<Seq<Seq<char>>>)
    requires
        text_lines@.len() == lines.len(),
        forall|i: int| 0 <= i < text_lines@.len() ==> (#[trigger] text_lines@[i])@ == lines[i],
        drawable(*d, lines),
    ensures
        final(out)@ == old(out)@ + rendered_diag(*d, lines),
{
    let ghost start = out@;
    render_head(d, out);
    let idx: usize = if d.span.line == 0 {
        0
    } else {
        (d.span.line - 1) as usize
    };
    if idx < text_lines.len() {
        render_snippet(d, text_lines[idx], out);
        assert(out@ =~= start + rendered_diag(*d, lines));
    }
}

impl Diagnostics {
    /// Render every diagnostic against `source`: message, location, the
    /// offending line and a caret under the span.
    pub fn render(&self, source: &str) -> (out: String)
        requires
            forall|i: int| 0 <= i < self.items@.len() ==> drawable(#[trigger] self.items@[i], lines_of(source@)),
        ensures
            out@ == rendered(self.items@, lines_of(source@)),
    {
        let ghost lines = lines_of(source@);
        let text_lines = split_lines(source);
        let mut out = String::new();
        let mut k: usize = 0;
        while k < self.items.len()
            invariant
                k <= self.items@.len(),
                lines == lines_of(source@),
                text_lines@.len() == lines.len(),
                forall|i: int| 0 <= i < text_lines@.len() ==> (#[trigger] text_lines@[i])@ == lines[i],
                forall|i: int| 0 <= i < self.items@.len() ==> drawable(#[trigger] self.items@[i], lines),
                out@ == rendered(self.items@.take(k as int), lines),
            decreases self.items@.len() - k,
        {
            render_one(&self.items[k], &text_lines, &mut out, Ghost(lines));
            proof {
                assert(self.items@.take(k + 1).drop_last() =~= self.items@.take(k as int));
                assert(self.items@.take(k + 1).last() == self.items@[k as int]);
            }
            k += 1;
        }
        assert(self.items@.take(self.items@.len() as int) =~= self.items@);
        out
    }
}

} // verus!
