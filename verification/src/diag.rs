//! Diagnostic types for the assembler.

use std::sync::Arc;

use vstd::prelude::*;

pub mod render;

verus! {

#[derive(Copy, Clone, Debug, PartialEq, Eq, Structural)]
pub enum Severity {
    Error,
    Warning,
}

/// A source location: file, 1-indexed line and column, and length in bytes.
#[derive(Clone, Debug, PartialEq, Eq)]
pub struct Span {
    pub file: Arc<str>,
    pub line: u32,
    pub col: u32,
    pub len: u32,
}

#[derive(Clone, Debug, PartialEq, Eq)]
pub struct Diag {
    pub severity: Severity,
    pub message: String,
    pub span: Span,
}

#[derive(Clone, Debug)]
pub struct Diagnostics {
    pub items: Vec<Diag>,
}

/// Another handle on the same file name.
///
/// Trusted: `Arc::clone`, which returns a pointer to the same allocation, so
/// the two handles name the same string.
#[verifier::external_body]
pub(crate) fn share_file(file: &Arc<str>) -> (r: Arc<str>)
    ensures
        r == *file,
{
    file.clone()
}

impl Span {
    /// A copy of this span.
    pub fn copy(&self) -> (r: Span)
        ensures
            r == *self,
    {
        Span { file: share_file(&self.file), line: self.line, col: self.col, len: self.len }
    }
}

impl Default for Diagnostics {
    fn default() -> (d: Diagnostics)
        ensures
            d.items@ == Seq::<Diag>::empty(),
    {
        Diagnostics { items: Vec::new() }
    }
}

/// Every item's span lies in `file`.
pub open spec fn all_in_file<T>(items: Seq<(T, Span)>, file: Arc<str>) -> bool {
    forall|i: int| 0 <= i < items.len() ==> (#[trigger] items[i]).1.file == file
}

/// Items in `file` followed by items in `file` are in `file`.
pub proof fn lemma_all_in_file_concat<T>(a: Seq<(T, Span)>, b: Seq<(T, Span)>, file: Arc<str>)
    requires
        all_in_file(a, file),
        all_in_file(b, file),
    ensures
        all_in_file(a + b, file),
{
    assert forall|i: int| 0 <= i < (a + b).len() implies (#[trigger] (a + b)[i]).1.file == file by {
        if i >= a.len() {
            assert((a + b)[i] == b[i - a.len()]);
        }
    }
}

/// Diagnostic `d` is an error with message `msg` at `span`.
pub open spec fn is_diag(d: Diag, severity: Severity, msg: Seq<char>, span: Span) -> bool {
    d.severity == severity && d.message@ == msg && d.span == span
}

impl Diagnostics {
    /// An empty collection.
    pub fn new() -> (d: Diagnostics)
        ensures
            d.items@ == Seq::<Diag>::empty(),
    {
        Self::default()
    }

    /// Append `d`.
    pub fn push(&mut self, d: Diag)
        ensures
            final(self).items@ == old(self).items@.push(d),
    {
        self.items.push(d);
    }

    /// Append an error with message `msg` at `span`.
    pub fn error(&mut self, span: Span, msg: &str)
        ensures
            final(self).items@.len() == old(self).items@.len() + 1,
            final(self).items@.take(old(self).items@.len() as int) == old(self).items@,
            is_diag(final(self).items@.last(), Severity::Error, msg@, span),
    {
        self.push(Diag { severity: Severity::Error, message: String::from_str(msg), span });
        assert(self.items@.take(old(self).items@.len() as int) =~= old(self).items@);
    }

    /// Append a warning with message `msg` at `span`.
    pub fn warn(&mut self, span: Span, msg: &str)
        ensures
            final(self).items@.len() == old(self).items@.len() + 1,
            final(self).items@.take(old(self).items@.len() as int) == old(self).items@,
            is_diag(final(self).items@.last(), Severity::Warning, msg@, span),
    {
        self.push(Diag { severity: Severity::Warning, message: String::from_str(msg), span });
        assert(self.items@.take(old(self).items@.len() as int) =~= old(self).items@);
    }

    /// Some diagnostic is an error.
    pub open spec fn any_error(self) -> bool {
        exists|i: int| 0 <= i < self.items@.len() && #[trigger] self.items@[i].severity == Severity::Error
    }

    /// Whether any diagnostic is an error.
    pub fn has_errors(&self) -> (b: bool)
        ensures
            b == self.any_error(),
    {
        let n = self.items.len();
        for i in 0..n
            invariant
                n == self.items@.len(),
                forall|j: int| 0 <= j < i ==> #[trigger] self.items@[j].severity != Severity::Error,
        {
            if self.items[i].severity == Severity::Error {
                return true;
            }
        }
        false
    }
}

} // verus!
