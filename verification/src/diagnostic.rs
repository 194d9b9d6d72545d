//! Coded diagnostics: a code, a severity, a span and a message.

use vstd::prelude::*;
use crate::ast::Span;
use crate::number::{spec_nat_str, push_nat};
use crate::text::push_str;

verus! {

#[derive(Debug, Clone, Copy, PartialEq, Eq)]
pub enum Severity {
    Error,
    Warning,
}

#[derive(Debug)]
pub struct Diagnostic {
    pub code: String,
    pub severity: Severity,
    pub message: String,
    pub span: Span,
}

impl Diagnostic {
    pub fn error(code: &str, message: String, span: Span) -> (r: Diagnostic)
        ensures
            r.code@ == code@,
            r.severity == Severity::Error,
            r.message == message,
            r.span == span,
    {
        Diagnostic { code: code.to_owned(), severity: Severity::Error, message, span }
    }

    pub fn warning(code: &str, message: String, span: Span) -> (r: Diagnostic)
        ensures
            r.code@ == code@,
            r.severity == Severity::Warning,
            r.message == message,
            r.span == span,
    {
        Diagnostic { code: code.to_owned(), severity: Severity::Warning, message, span }
    }

    pub fn is_error(&self) -> (r: bool)
        ensures
            r == (self.severity == Severity::Error),
    {
        match self.severity {
            Severity::Error => true,
            Severity::Warning => false,
        }
    }
}

/// The one-line summary of a diagnostic, e.g. `E001 [3:12] unknown reference 'foo'`
/// (row and column counted from one).
pub open spec fn spec_format_line(d: Diagnostic) -> Seq<char> {
    d.code@ + " ["@ + spec_nat_str(d.span.start_row as nat + 1) + ":"@ + spec_nat_str(
        d.span.start_col as nat + 1,
    ) + "] "@ + d.message@
}

/// One-line human summary, e.g. `E001 [3:12] unknown reference 'foo'`.
pub fn format_line(d: &Diagnostic) -> (r: String)
    ensures
        r@ == spec_format_line(*d),
{
    let mut out = String::new();
    push_str(&mut out, d.code.as_str());
    push_str(&mut out, " [");
    push_nat(&mut out, d.span.start_row as u128 + 1);
    push_str(&mut out, ":");
    push_nat(&mut out, d.span.start_col as u128 + 1);
    push_str(&mut out, "] ");
    push_str(&mut out, d.message.as_str());
    out
}

} // verus!
