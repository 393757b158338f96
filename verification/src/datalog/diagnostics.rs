//! Structured diagnostics for Datalog programs: spans, severities,
//! suggestions, collections of diagnostics and their text rendering.
use vstd::prelude::*;
use crate::text::{owned, concat2, concat3, decimal, u64_to_string, push_char};
use crate::types::ToText;
use crate::text::{models, text_lines, lines_of};

verus! {

broadcast use vstd::std_specs::vec::group_vec_axioms;

/// Source location in input text.
#[derive(Debug, Clone, Copy, PartialEq, Eq, Structural)]
pub struct Span {
    /// Starting byte offset
    pub start: usize,
    /// Ending byte offset (exclusive)
    pub end: usize,
    /// Line number (1-indexed)
    pub line: usize,
    /// Column number (1-indexed)
    pub column: usize,
}

/// The smaller of two sizes.
pub open spec fn min_usize(a: usize, b: usize) -> usize {
    if a <= b {
        a
    } else {
        b
    }
}

/// The larger of two sizes.
pub open spec fn max_usize(a: usize, b: usize) -> usize {
    if a <= b {
        b
    } else {
        a
    }
}

/// `line:column` of a span.
pub open spec fn span_text(s: Span) -> Seq<char> {
    decimal(s.line as nat) + ":"@ + decimal(s.column as nat)
}

impl Span {
    /// A span from its four coordinates.
    pub fn new(start: usize, end: usize, line: usize, column: usize) -> (r: Span)
        ensures
            r == (Span { start, end, line, column }),
    {
        Span { start, end, line, column }
    }

    /// The span of the single character at `offset`.
    pub fn single(offset: usize, line: usize, column: usize) -> (r: Span)
        requires
            offset < usize::MAX,
        ensures
            r == (Span { start: offset, end: (offset + 1) as usize, line, column }),
    {
        Span::new(offset, offset + 1, line, column)
    }

    /// The smallest span covering both: least start, line and column, greatest end.
    pub fn merge(&self, other: &Span) -> (r: Span)
        ensures
            r == (Span {
                start: min_usize(self.start, other.start),
                end: max_usize(self.end, other.end),
                line: min_usize(self.line, other.line),
                column: min_usize(self.column, other.column),
            }),
    {
        Span {
            start: if self.start <= other.start { self.start } else { other.start },
            end: if self.end <= other.end { other.end } else { self.end },
            line: if self.line <= other.line { self.line } else { other.line },
            column: if self.column <= other.column { self.column } else { other.column },
        }
    }

    /// `line:column`.
    pub fn to_string(&self) -> (r: String)
        ensures
            r@ == span_text(*self),
    {
        let mut r = u64_to_string(self.line as u64);
        r.append(":");
        let c = u64_to_string(self.column as u64);
        r.append(c.as_str());
        r
    }
}

/// Merging spans is commutative.
pub proof fn law_span_merge_commutative(a: Span, b: Span)
    ensures
        (Span {
            start: min_usize(a.start, b.start),
            end: max_usize(a.end, b.end),
            line: min_usize(a.line, b.line),
            column: min_usize(a.column, b.column),
        }) == (Span {
            start: min_usize(b.start, a.start),
            end: max_usize(b.end, a.end),
            line: min_usize(b.line, a.line),
            column: min_usize(b.column, a.column),
        }),
{
}

/// Severity level for diagnostics.
#[derive(Debug, Clone, Copy, PartialEq, Eq, PartialOrd, Ord, Structural)]
pub enum Severity {
    /// Informational message
    Info,
    /// Warning that doesn't prevent execution
    Warning,
    /// Error that prevents successful execution
    Error,
}

/// The name of a severity.
pub open spec fn severity_name(s: Severity) -> Seq<char> {
    match s {
        Severity::Info => "info"@,
        Severity::Warning => "warning"@,
        Severity::Error => "error"@,
    }
}

/// The terminal colour of a severity.
pub open spec fn severity_color(s: Severity) -> Seq<char> {
    match s {
        Severity::Error => "\x1b[1;31m"@,
        Severity::Warning => "\x1b[1;33m"@,
        Severity::Info => "\x1b[1;36m"@,
    }
}

impl Severity {
    /// The name of the severity.
    pub fn to_string(&self) -> (r: String)
        ensures
            r@ == severity_name(*self),
    {
        match self {
            Severity::Info => owned("info"),
            Severity::Warning => owned("warning"),
            Severity::Error => owned("error"),
        }
    }

    /// The terminal colour of the severity.
    pub fn color(&self) -> (r: &'static str)
        ensures
            r@ == severity_color(*self),
    {
        match self {
            Severity::Error => "\x1b[1;31m",
            Severity::Warning => "\x1b[1;33m",
            Severity::Info => "\x1b[1;36m",
        }
    }
}

/// A suggested fix for a diagnostic.
#[derive(Debug)]
pub struct Suggestion {
    /// Description of the suggestion
    pub message: String,
    /// Optional replacement text
    pub replacement: Option<String>,
    /// Span to replace (if different from diagnostic span)
    pub span: Option<Span>,
}

impl Suggestion {
    /// A suggestion with a message only.
    pub fn new(message: impl ToText) -> (r: Suggestion)
        ensures
            r.message@ == message.text(),
            r.replacement is None,
            r.span is None,
    {
        Suggestion { message: message.to_text(), replacement: None, span: None }
    }

    /// The same suggestion with replacement text.
    pub fn with_replacement(self, replacement: impl ToText) -> (r: Suggestion)
        ensures
            r.message == self.message,
            r.replacement matches Some(x) && x@ == replacement.text(),
            r.span == self.span,
    {
        Suggestion { replacement: Some(replacement.to_text()), ..self }
    }

    /// The same suggestion with a span.
    pub fn with_span(self, span: Span) -> (r: Suggestion)
        ensures
            r.message == self.message,
            r.replacement == self.replacement,
            r.span == Some(span),
    {
        Suggestion { span: Some(span), ..self }
    }
}

/// A diagnostic message with context and suggestions.
#[derive(Debug)]
pub struct Diagnostic {
    /// Severity level
    pub severity: Severity,
    /// Primary error message
    pub message: String,
    /// Optional source location
    pub span: Option<Span>,
    /// Optional help text
    pub help: Option<String>,
    /// Suggested fixes
    pub suggestions: Vec<Suggestion>,
    /// Related diagnostics (e.g., "note: variable first used here")
    pub related: Vec<Diagnostic>,
}

/// A diagnostic of the given severity and message, with nothing else.
pub open spec fn is_bare(d: Diagnostic, severity: Severity, message: Seq<char>) -> bool {
    &&& d.severity == severity
    &&& d.message@ == message
    &&& d.span is None
    &&& d.help is None
    &&& d.suggestions@.len() == 0
    &&& d.related@.len() == 0
}

impl Diagnostic {
    /// A bare diagnostic of the given severity.
    fn bare(severity: Severity, message: String) -> (r: Diagnostic)
        ensures
            is_bare(r, severity, message@),
    {
        Diagnostic {
            severity,
            message,
            span: None,
            help: None,
            suggestions: Vec::new(),
            related: Vec::new(),
        }
    }

    /// A new error diagnostic.
    pub fn error(message: impl ToText) -> (r: Diagnostic)
        ensures
            is_bare(r, Severity::Error, message.text()),
    {
        Diagnostic::bare(Severity::Error, message.to_text())
    }

    /// A new warning diagnostic.
    pub fn warning(message: impl ToText) -> (r: Diagnostic)
        ensures
            is_bare(r, Severity::Warning, message.text()),
    {
        Diagnostic::bare(Severity::Warning, message.to_text())
    }

    /// A new info diagnostic.
    pub fn info(message: impl ToText) -> (r: Diagnostic)
        ensures
            is_bare(r, Severity::Info, message.text()),
    {
        Diagnostic::bare(Severity::Info, message.to_text())
    }

    /// The same diagnostic with a source span.
    pub fn with_span(self, span: Span) -> (r: Diagnostic)
        ensures
            r == (Diagnostic { span: Some(span), ..self }),
    {
        Diagnostic { span: Some(span), ..self }
    }

    /// The same diagnostic with help text.
    pub fn with_help(self, help: impl ToText) -> (r: Diagnostic)
        ensures
            r.severity == self.severity,
            r.message == self.message,
            r.span == self.span,
            r.help matches Some(h) && h@ == help.text(),
            r.suggestions == self.suggestions,
            r.related == self.related,
    {
        Diagnostic { help: Some(help.to_text()), ..self }
    }

    /// The same diagnostic with one more suggestion, last.
    pub fn with_suggestion(self, suggestion: Suggestion) -> (r: Diagnostic)
        ensures
            r.severity == self.severity,
            r.message == self.message,
            r.span == self.span,
            r.help == self.help,
            r.suggestions@ == self.suggestions@.push(suggestion),
            r.related == self.related,
    {
        let mut d = self;
        d.suggestions.push(suggestion);
        d
    }

    /// The same diagnostic with one more related diagnostic, last.
    pub fn with_related(self, related: Diagnostic) -> (r: Diagnostic)
        ensures
            r.severity == self.severity,
            r.message == self.message,
            r.span == self.span,
            r.help == self.help,
            r.suggestions == self.suggestions,
            r.related@ == self.related@.push(related),
    {
        let mut d = self;
        d.related.push(related);
        d
    }
}

/// The number of diagnostics of a severity.
pub open spec fn count_severity(s: Seq<Diagnostic>, severity: Severity) -> nat
    decreases s.len(),
{
    if s.len() == 0 {
        0
    } else {
        count_severity(s.drop_last(), severity) + if s.last().severity == severity {
            1nat
        } else {
            0nat
        }
    }
}

/// A count of a severity is at most the length.
proof fn lemma_count_bound(s: Seq<Diagnostic>, severity: Severity)
    ensures
        count_severity(s, severity) <= s.len(),
    decreases s.len(),
{
    if s.len() > 0 {
        lemma_count_bound(s.drop_last(), severity);
    }
}

/// A collection of diagnostics, in the order they were added.
#[derive(Debug)]
pub struct DiagnosticBag {
    diagnostics: Vec<Diagnostic>,
}

impl View for DiagnosticBag {
    type V = Seq<Diagnostic>;

    closed spec fn view(&self) -> Seq<Diagnostic> {
        self.diagnostics@
    }
}

impl Default for DiagnosticBag {
    fn default() -> (r: Self)
        ensures
            r@ == Seq::<Diagnostic>::empty(),
    {
        DiagnosticBag::new()
    }
}

impl DiagnosticBag {
    /// An empty collection.
    pub fn new() -> (r: Self)
        ensures
            r@ == Seq::<Diagnostic>::empty(),
    {
        DiagnosticBag { diagnostics: Vec::new() }
    }

    /// Add a diagnostic, last.
    pub fn add(&mut self, diagnostic: Diagnostic)
        ensures
            final(self)@ == old(self)@.push(diagnostic),
    {
        self.diagnostics.push(diagnostic);
    }

    /// Add a bare error.
    pub fn error(&mut self, message: impl ToText)
        ensures
            final(self)@.len() == old(self)@.len() + 1,
            final(self)@.drop_last() == old(self)@,
            is_bare(final(self)@.last(), Severity::Error, message.text()),
    {
        self.add(Diagnostic::error(message));
        assert(self@.drop_last() =~= old(self)@);
    }

    /// Add a bare warning.
    pub fn warning(&mut self, message: impl ToText)
        ensures
            final(self)@.len() == old(self)@.len() + 1,
            final(self)@.drop_last() == old(self)@,
            is_bare(final(self)@.last(), Severity::Warning, message.text()),
    {
        self.add(Diagnostic::warning(message));
        assert(self@.drop_last() =~= old(self)@);
    }

    /// Add a bare info message.
    pub fn info(&mut self, message: impl ToText)
        ensures
            final(self)@.len() == old(self)@.len() + 1,
            final(self)@.drop_last() == old(self)@,
            is_bare(final(self)@.last(), Severity::Info, message.text()),
    {
        self.add(Diagnostic::info(message));
        assert(self@.drop_last() =~= old(self)@);
    }

    /// The number of diagnostics of a severity.
    fn count(&self, severity: Severity) -> (r: usize)
        ensures
            r == count_severity(self@, severity),
    {
        let mut n: usize = 0;
        let mut i: usize = 0;
        while i < self.diagnostics.len()
            invariant
                i <= self.diagnostics@.len(),
                n == count_severity(self.diagnostics@.take(i as int), severity),
            decreases self.diagnostics.len() - i,
        {
            proof {
                assert(self.diagnostics@.take(i + 1).drop_last() =~= self.diagnostics@.take(i as int));
                lemma_count_bound(self.diagnostics@.take(i as int), severity);
            }
            if self.diagnostics[i].severity == severity {
                n = n + 1;
            }
            i = i + 1;
        }
        assert(self.diagnostics@.take(i as int) =~= self.diagnostics@);
        n
    }

    /// Whether any diagnostic is an error.
    pub fn has_errors(&self) -> (r: bool)
        ensures
            r == (count_severity(self@, Severity::Error) > 0),
    {
        self.count(Severity::Error) > 0
    }

    /// Whether any diagnostic is a warning.
    pub fn has_warnings(&self) -> (r: bool)
        ensures
            r == (count_severity(self@, Severity::Warning) > 0),
    {
        self.count(Severity::Warning) > 0
    }

    /// All diagnostics, in the order they were added.
    pub fn diagnostics(&self) -> (r: &[Diagnostic])
        ensures
            r@ == self@,
    {
        self.diagnostics.as_slice()
    }

    /// The number of errors.
    pub fn error_count(&self) -> (r: usize)
        ensures
            r == count_severity(self@, Severity::Error),
    {
        self.count(Severity::Error)
    }

    /// The number of warnings.
    pub fn warning_count(&self) -> (r: usize)
        ensures
            r == count_severity(self@, Severity::Warning),
    {
        self.count(Severity::Warning)
    }

    /// Remove all diagnostics.
    pub fn clear(&mut self)
        ensures
            final(self)@ == Seq::<Diagnostic>::empty(),
    {
        self.diagnostics.clear();
    }
}


/// Width in bytes of a character in UTF-8.
pub open spec fn utf8_width(c: char) -> nat {
    if (c as u32) < 0x80 {
        1
    } else if (c as u32) < 0x800 {
        2
    } else if (c as u32) < 0x10000 {
        3
    } else {
        4
    }
}

/// Length in bytes of a text in UTF-8.
pub open spec fn utf8_len(s: Seq<char>) -> nat
    decreases s.len(),
{
    if s.len() == 0 {
        0
    } else {
        utf8_len(s.drop_last()) + utf8_width(s.last())
    }
}

/// `n` copies of a character.
pub open spec fn repeat_char(c: char, n: nat) -> Seq<char> {
    Seq::new(n, |i: int| c)
}

/// A number right-aligned in a field of four characters.
pub open spec fn pad4(s: Seq<char>) -> Seq<char> {
    if s.len() >= 4 {
        s
    } else {
        repeat_char(' ', (4 - s.len()) as nat) + s
    }
}

/// The column where the underline starts (columns count from one).
pub open spec fn col_start(span: Span) -> nat {
    if span.column >= 1 {
        (span.column - 1) as nat
    } else {
        0
    }
}

/// The length of the underline: the span's length, at most the line's length
/// in bytes, and at least one.
pub open spec fn underline_len(span: Span, line: Seq<char>) -> nat {
    let w = if span.end - span.start <= utf8_len(line) {
        (span.end - span.start) as nat
    } else {
        utf8_len(line)
    };
    if w >= 1 {
        w
    } else {
        1
    }
}

/// The spans that the context extraction can handle without overflow.
pub open spec fn context_ok(source: Seq<char>, span: Span) -> bool {
    let lines = text_lines(source);
    span.line == 0 || span.line > lines.len() || (span.start <= span.end && col_start(span) + (
    if span.end - span.start <= utf8_len(lines[span.line - 1]) {
        (span.end - span.start) as nat
    } else {
        utf8_len(lines[span.line - 1])
    }) <= usize::MAX)
}

/// The source line of a span with an underline below the spanned columns.
pub open spec fn context_spec(source: Seq<char>, span: Span) -> Option<Seq<char>> {
    let lines = text_lines(source);
    if span.line == 0 || span.line > lines.len() {
        None
    } else {
        let line = lines[span.line - 1];
        Some(
            pad4(decimal(span.line as nat)) + " | "@ + line + "\n"@ + "     | "@ + repeat_char(
                ' ',
                col_start(span),
            ) + repeat_char('^', underline_len(span, line)) + "\n"@,
        )
    }
}

/// `n` copies of a character appended to a string.
fn push_repeat(s: &mut String, c: char, n: usize)
    ensures
        final(s)@ == old(s)@ + repeat_char(c, n as nat),
{
    let mut i: usize = 0;
    while i < n
        invariant
            i <= n,
            s@ == old(s)@ + repeat_char(c, i as nat),
        decreases n - i,
    {
        push_char(s, c);
        i = i + 1;
        assert(s@ =~= old(s)@ + repeat_char(c, i as nat));
    }
}

/// The length in bytes of a text in UTF-8, or `cap` if that is smaller.
fn utf8_len_capped(s: &Vec<char>, cap: usize) -> (r: usize)
    ensures
        r == if utf8_len(s@) <= cap {
            utf8_len(s@)
        } else {
            cap as nat
        },
{
    let mut total: u128 = 0;
    let mut i: usize = 0;
    while i < s.len() && total < cap as u128
        invariant
            i <= s@.len(),
            total == utf8_len(s@.take(i as int)),
            total <= cap + 4,
        decreases s.len() - i,
    {
        let c = s[i];
        let w: u128 = if (c as u32) < 0x80 {
            1
        } else if (c as u32) < 0x800 {
            2
        } else if (c as u32) < 0x10000 {
            3
        } else {
            4
        };
        assert(s@.take(i + 1).drop_last() =~= s@.take(i as int));
        total = total + w;
        i = i + 1;
    }
    proof {
        lemma_utf8_len_mono(s@, i as int);
    }
    if total < cap as u128 {
        assert(s@.take(i as int) =~= s@);
        total as usize
    } else {
        cap
    }
}

proof fn lemma_utf8_len_mono(s: Seq<char>, i: int)
    requires
        0 <= i <= s.len(),
    ensures
        utf8_len(s.take(i)) <= utf8_len(s),
    decreases s.len() - i,
{
    if i < s.len() {
        lemma_utf8_len_mono(s, i + 1);
        assert(s.take(i + 1).drop_last() =~= s.take(i));
    } else {
        assert(s.take(i) =~= s);
    }
}

/// The source line of a span with an underline below the spanned columns,
/// or `None` where the span's line is not in the source.
pub fn extract_source_context(source: &str, span: &Span) -> (r: Option<String>)
    requires
        context_ok(source@, *span),
    ensures
        match r {
            Some(x) => context_spec(source@, *span) == Some(x@),
            None => context_spec(source@, *span) is None,
        },
{
    let lines = lines_of(source);
    if span.line == 0 || span.line > lines.len() {
        return None;
    }
    let line = &lines[span.line - 1];
    let ghost l = models(lines@)[span.line - 1];
    assert(line@ == l);
    let mut out = String::new();
    let num = u64_to_string(span.line as u64);
    if num.unicode_len() < 4 {
        push_repeat(&mut out, ' ', 4 - num.unicode_len());
    }
    out.append(num.as_str());
    out.append(" | ");
    let line_text = crate::text::string_from_chars(line.as_slice());
    out.append(line_text.as_str());
    out.append("\n");
    out.append("     | ");
    let col_start: usize = if span.column >= 1 { span.column - 1 } else { 0 };
    push_repeat(&mut out, ' ', col_start);
    let w = utf8_len_capped(line, span.end - span.start);
    let under: usize = if w >= 1 { w } else { 1 };
    push_repeat(&mut out, '^', under);
    out.append("\n");
    proof {
        assert(out@ =~= context_spec(source@, *span)->0);
    }
    Some(out)
}


/// The first line of a rendered diagnostic: coloured severity, then the message.
pub open spec fn header_spec(d: Diagnostic) -> Seq<char> {
    severity_color(d.severity) + severity_name(d.severity) + "\x1b[0m"@ + ": "@ + d.message@ + "\n"@
}

/// The location lines: the span, and the source context where the source is given.
pub open spec fn location_spec(d: Diagnostic, source: Option<Seq<char>>) -> Seq<char> {
    match d.span {
        None => Seq::empty(),
        Some(sp) => "  --> "@ + span_text(sp) + "\n"@ + match source {
            Some(src) => match context_spec(src, sp) {
                Some(ctx) => "   |\n"@ + ctx + "\n"@,
                None => Seq::empty(),
            },
            None => Seq::empty(),
        },
    }
}

/// The help line, if there is help text.
pub open spec fn help_spec(d: Diagnostic) -> Seq<char> {
    match d.help {
        Some(h) => "\x1b[1m"@ + severity_color(d.severity) + " = help:\x1b[0m "@ + h@ + "\n"@,
        None => Seq::empty(),
    }
}

/// The lines of the suggestions, each with its replacement where there is one.
pub open spec fn suggestions_spec(s: Seq<Suggestion>) -> Seq<char>
    decreases s.len(),
{
    if s.len() == 0 {
        Seq::empty()
    } else {
        suggestions_spec(s.drop_last()) + "\x1b[1;32msuggestion:\x1b[0m "@ + s.last().message@
            + "\n"@ + match s.last().replacement {
            Some(r) => "  replace with: "@ + r@ + "\n"@,
            None => Seq::empty(),
        }
    }
}

/// The rendering of a diagnostic: header, location, help, suggestions, and
/// each related diagnostic after an empty line.
pub open spec fn format_spec(d: Diagnostic, source: Option<Seq<char>>) -> Seq<char>
    decreases d, 0nat,
{
    header_spec(d) + location_spec(d, source) + help_spec(d) + suggestions_spec(d.suggestions@)
        + related_spec(d.related@, source)
}

/// The renderings of related diagnostics, each after a newline.
pub open spec fn related_spec(s: Seq<Diagnostic>, source: Option<Seq<char>>) -> Seq<char>
    decreases s, 1nat,
{
    if s.len() == 0 {
        Seq::empty()
    } else {
        related_spec(s.drop_last(), source) + "\n"@ + format_spec(s.last(), source)
    }
}

/// Every span in a diagnostic and its related ones suits the context extraction.
pub open spec fn spans_ok(d: Diagnostic, source: Option<Seq<char>>) -> bool
    decreases d, 0nat,
{
    (match (d.span, source) {
        (Some(sp), Some(src)) => context_ok(src, sp),
        _ => true,
    }) && related_ok(d.related@, source)
}

/// Every related diagnostic's spans suit the context extraction.
pub open spec fn related_ok(s: Seq<Diagnostic>, source: Option<Seq<char>>) -> bool
    decreases s, 1nat,
{
    s.len() == 0 || (related_ok(s.drop_last(), source) && spans_ok(s.last(), source))
}

proof fn lemma_related_ok(s: Seq<Diagnostic>, source: Option<Seq<char>>, i: int)
    requires
        related_ok(s, source),
        0 <= i < s.len(),
    ensures
        spans_ok(s[i], source),
    decreases s.len(),
{
    if i < s.len() - 1 {
        lemma_related_ok(s.drop_last(), source, i);
    }
}

/// Without a source, every diagnostic suits the rendering.
pub proof fn lemma_spans_ok_without_source(d: Diagnostic)
    ensures
        spans_ok(d, None),
    decreases d, 0nat,
{
    assert(decreases_to!(d => d.related));
    lemma_related_ok_without_source(d.related@);
}

/// Without a source, every list of related diagnostics suits the rendering.
pub proof fn lemma_related_ok_without_source(s: Seq<Diagnostic>)
    ensures
        related_ok(s, None),
    decreases s, 1nat,
{
    if s.len() > 0 {
        lemma_related_ok_without_source(s.drop_last());
        lemma_spans_ok_without_source(s.last());
    }
}

/// The view of an optional string slice.
pub open spec fn opt_view(source: Option<&str>) -> Option<Seq<char>> {
    match source {
        Some(s) => Some(s@),
        None => None,
    }
}

impl Diagnostic {
    /// Render the diagnostic, with the source line of its span where the source is given.
    pub fn format(&self, source: Option<&str>) -> (r: String)
        requires
            spans_ok(*self, opt_view(source)),
        ensures
            r@ == format_spec(*self, opt_view(source)),
        decreases self,
    {
        let mut output = String::new();
        let color = self.severity.color();
        let name = self.severity.to_string();
        output.append(color);
        output.append(name.as_str());
        output.append("\x1b[0m");
        output.append(": ");
        output.append(self.message.as_str());
        output.append("\n");
        let ghost head = output@;
        assert(head =~= header_spec(*self));
        match &self.span {
            Some(span) => {
                output.append("  --> ");
                let t = span.to_string();
                output.append(t.as_str());
                output.append("\n");
                match source {
                    Some(src) => {
                        match extract_source_context(src, span) {
                            Some(ctx) => {
                                output.append("   |\n");
                                output.append(ctx.as_str());
                                output.append("\n");
                            },
                            None => {},
                        }
                    },
                    None => {},
                }
            },
            None => {},
        }
        let ghost loc = output@;
        assert(loc =~= header_spec(*self) + location_spec(*self, opt_view(source)));
        match &self.help {
            Some(help) => {
                output.append("\x1b[1m");
                output.append(color);
                output.append(" = help:\x1b[0m ");
                output.append(help.as_str());
                output.append("\n");
            },
            None => {},
        }
        let ghost hl = output@;
        assert(hl =~= loc + help_spec(*self));
        let mut i: usize = 0;
        while i < self.suggestions.len()
            invariant
                i <= self.suggestions@.len(),
                output@ == hl + suggestions_spec(self.suggestions@.take(i as int)),
            decreases self.suggestions.len() - i,
        {
            let sg = &self.suggestions[i];
            output.append("\x1b[1;32msuggestion:\x1b[0m ");
            output.append(sg.message.as_str());
            output.append("\n");
            match &sg.replacement {
                Some(rep) => {
                    output.append("  replace with: ");
                    output.append(rep.as_str());
                    output.append("\n");
                },
                None => {},
            }
            proof {
                assert(self.suggestions@.take(i + 1).drop_last() =~= self.suggestions@.take(i as int));
                assert(output@ =~= hl + suggestions_spec(self.suggestions@.take(i + 1)));
            }
            i = i + 1;
        }
        assert(self.suggestions@.take(i as int) =~= self.suggestions@);
        let ghost sl = output@;
        let mut j: usize = 0;
        while j < self.related.len()
            invariant
                j <= self.related@.len(),
                output@ == sl + related_spec(self.related@.take(j as int), opt_view(source)),
                related_ok(self.related@, opt_view(source)),
            decreases self.related.len() - j,
        {
            proof {
                assert(decreases_to!(*self => self.related));
                assert(decreases_to!(self.related => self.related[j as int]));
                assert(decreases_to!(*self => self.related[j as int]));
                lemma_related_ok(self.related@, opt_view(source), j as int);
            }
            let sub = self.related[j].format(source);
            output.append("\n");
            output.append(sub.as_str());
            proof {
                assert(self.related@.take(j + 1).drop_last() =~= self.related@.take(j as int));
                assert(output@ =~= sl + related_spec(self.related@.take(j + 1), opt_view(source)));
            }
            j = j + 1;
        }
        assert(self.related@.take(j as int) =~= self.related@);
        assert(output@ =~= format_spec(*self, opt_view(source)));
        output
    }
}

/// The renderings of diagnostics, each followed by a newline.
pub open spec fn items_spec(s: Seq<Diagnostic>, source: Option<Seq<char>>) -> Seq<char>
    decreases s.len(),
{
    if s.len() == 0 {
        Seq::empty()
    } else {
        items_spec(s.drop_last(), source) + format_spec(s.last(), source) + "\n"@
    }
}

/// The rendering of a collection: each diagnostic, then a summary line where
/// there are errors or warnings.
pub open spec fn bag_format_spec(s: Seq<Diagnostic>, source: Option<Seq<char>>) -> Seq<char> {
    let errors = count_severity(s, Severity::Error);
    let warnings = count_severity(s, Severity::Warning);
    items_spec(s, source) + if errors > 0 || warnings > 0 {
        "\x1b[1mSummary:\x1b[0m "@ + decimal(errors) + " error(s), "@ + decimal(warnings)
            + " warning(s)\n"@
    } else {
        Seq::empty()
    }
}

impl DiagnosticBag {
    /// Render all diagnostics, then a summary of the errors and warnings.
    pub fn format(&self, source: Option<&str>) -> (r: String)
        requires
            forall|i: int| 0 <= i < self@.len() ==> spans_ok(#[trigger] self@[i], opt_view(source)),
        ensures
            r@ == bag_format_spec(self@, opt_view(source)),
    {
        let mut output = String::new();
        let mut i: usize = 0;
        assert(self@ == self.diagnostics@);
        while i < self.diagnostics.len()
            invariant
                i <= self.diagnostics@.len(),
                output@ == items_spec(self.diagnostics@.take(i as int), opt_view(source)),
                forall|k: int|
                    0 <= k < self.diagnostics@.len() ==> spans_ok(
                        #[trigger] self.diagnostics@[k],
                        opt_view(source),
                    ),
            decreases self.diagnostics.len() - i,
        {
            let t = self.diagnostics[i].format(source);
            output.append(t.as_str());
            output.append("\n");
            proof {
                assert(self.diagnostics@.take(i + 1).drop_last() =~= self.diagnostics@.take(i as int));
                assert(output@ =~= items_spec(self.diagnostics@.take(i + 1), opt_view(source)));
            }
            i = i + 1;
        }
        assert(self.diagnostics@.take(i as int) =~= self.diagnostics@);
        let errors = self.error_count();
        let warnings = self.warning_count();
        if errors > 0 || warnings > 0 {
            output.append("\x1b[1mSummary:\x1b[0m ");
            let e = u64_to_string(errors as u64);
            output.append(e.as_str());
            output.append(" error(s), ");
            let w = u64_to_string(warnings as u64);
            output.append(w.as_str());
            output.append(" warning(s)\n");
        }
        assert(output@ =~= bag_format_spec(self@, opt_view(source)));
        output
    }
}

/// A diagnostic with its help and one suggestion, as the builders below make them.
pub open spec fn built(
    d: Diagnostic,
    severity: Severity,
    message: Seq<char>,
    span: Option<Span>,
    help: Seq<char>,
    suggestion: Option<Seq<char>>,
) -> bool {
    &&& d.severity == severity
    &&& d.message@ == message
    &&& d.span == span
    &&& d.help matches Some(h) && h@ == help
    &&& d.related@.len() == 0
    &&& match suggestion {
        Some(m) => d.suggestions@.len() == 1 && d.suggestions@[0].message@ == m
            && d.suggestions@[0].replacement is None && d.suggestions@[0].span is None,
        None => d.suggestions@.len() == 0,
    }
}

/// Builders of the common diagnostics of Datalog programs.
pub struct DatalogDiagnostics;

impl DatalogDiagnostics {
    /// A variable that no positive body atom binds.
    pub fn undefined_variable(var: &str, span: Span) -> (r: Diagnostic)
        ensures
            built(
                r,
                Severity::Error,
                "undefined variable '"@ + var@ + "'"@,
                Some(span),
                "variables must appear in at least one positive (non-negated) body atom"@,
                Some("add a positive atom that binds this variable"@),
            ),
    {
        Diagnostic::error(concat3("undefined variable '", var, "'")).with_span(span).with_help(
            "variables must appear in at least one positive (non-negated) body atom",
        ).with_suggestion(Suggestion::new("add a positive atom that binds this variable"))
    }

    /// A variable that only negated atoms mention.
    pub fn unsafe_negation(var: &str, span: Span) -> (r: Diagnostic)
        ensures
            built(
                r,
                Severity::Error,
                "variable '"@ + var@ + "' appears only in negated atoms (unsafe)"@,
                Some(span),
                "variables in negated atoms must also appear in positive atoms (stratification requirement)"@,
                Some("add a positive atom that binds this variable before the negated atom"@),
            ),
    {
        Diagnostic::error(concat3("variable '", var, "' appears only in negated atoms (unsafe)")).with_span(
            span,
        ).with_help(
            "variables in negated atoms must also appear in positive atoms (stratification requirement)",
        ).with_suggestion(
            Suggestion::new("add a positive atom that binds this variable before the negated atom"),
        )
    }

    /// A rule whose evaluation does not end.
    pub fn infinite_loop(rule_name: &str) -> (r: Diagnostic)
        ensures
            built(
                r,
                Severity::Error,
                "infinite loop detected in rule evaluation: '"@ + rule_name@ + "'"@,
                None,
                "rule produces facts that trigger itself indefinitely"@,
                Some("add a termination condition or restructure the rule"@),
            ),
    {
        Diagnostic::error(concat3("infinite loop detected in rule evaluation: '", rule_name, "'")).with_help(
            "rule produces facts that trigger itself indefinitely",
        ).with_suggestion(Suggestion::new("add a termination condition or restructure the rule"))
    }

    /// Two uses of a variable with incompatible types.
    pub fn type_mismatch(expected: &str, got: &str, span: Span) -> (r: Diagnostic)
        ensures
            built(
                r,
                Severity::Error,
                "type mismatch: expected "@ + expected@ + ", got "@ + got@,
                Some(span),
                "all uses of a variable must have compatible types"@,
                None,
            ),
    {
        let mut m = concat3("type mismatch: expected ", expected, ", got ");
        m.append(got);
        Diagnostic::error(m).with_span(span).with_help(
            "all uses of a variable must have compatible types",
        )
    }

    /// A predicate that depends on its own negation.
    pub fn stratification_violation(predicate: &str) -> (r: Diagnostic)
        ensures
            built(
                r,
                Severity::Error,
                "stratification violation: predicate '"@ + predicate@
                    + "' depends on itself through negation"@,
                None,
                "predicates cannot recursively depend on their own negation"@,
                Some("restructure rules to eliminate cycles through negation"@),
            ),
    {
        Diagnostic::error(
            concat3(
                "stratification violation: predicate '",
                predicate,
                "' depends on itself through negation",
            ),
        ).with_help("predicates cannot recursively depend on their own negation").with_suggestion(
            Suggestion::new("restructure rules to eliminate cycles through negation"),
        )
    }

    /// A parse error at a place.
    pub fn parse_error(message: impl ToText, span: Span) -> (r: Diagnostic)
        ensures
            r.severity == Severity::Error,
            r.message@ == message.text(),
            r.span == Some(span),
            r.help is None,
            r.suggestions@.len() == 0,
            r.related@.len() == 0,
    {
        Diagnostic::error(message).with_span(span)
    }

    /// Two terms that do not unify.
    pub fn unification_failure(term1: &str, term2: &str, span: Span) -> (r: Diagnostic)
        ensures
            built(
                r,
                Severity::Error,
                "cannot unify '"@ + term1@ + "' with '"@ + term2@ + "'"@,
                Some(span),
                "terms must have compatible structure and types to unify"@,
                None,
            ),
    {
        let mut m = concat3("cannot unify '", term1, "' with '");
        m.append(term2);
        m.append("'");
        Diagnostic::error(m).with_span(span).with_help(
            "terms must have compatible structure and types to unify",
        )
    }

    /// An aggregate over all matching facts, without grouping.
    pub fn aggregate_without_grouping(op: &str, span: Span) -> (r: Diagnostic)
        ensures
            built(
                r,
                Severity::Warning,
                "aggregate operation '"@ + op@ + "' without explicit grouping"@,
                Some(span),
                "aggregate will compute a single value over all matching facts"@,
                Some("add grouping variables if you want per-group aggregates"@),
            ),
    {
        Diagnostic::warning(concat3("aggregate operation '", op, "' without explicit grouping")).with_span(
            span,
        ).with_help("aggregate will compute a single value over all matching facts").with_suggestion(
            Suggestion::new("add grouping variables if you want per-group aggregates"),
        )
    }

    /// A rule without body atoms.
    pub fn empty_rule_body(head_predicate: &str, span: Span) -> (r: Diagnostic)
        ensures
            built(
                r,
                Severity::Error,
                "rule for '"@ + head_predicate@ + "' has empty body"@,
                Some(span),
                "rules must have at least one body atom"@,
                None,
            ),
    {
        Diagnostic::error(concat3("rule for '", head_predicate, "' has empty body")).with_span(
            span,
        ).with_help("rules must have at least one body atom")
    }

    /// A variable that occurs once only.
    pub fn singleton_variable(var: &str, span: Span) -> (r: Diagnostic)
        ensures
            r.severity == Severity::Warning,
            r.message@ == "variable '"@ + var@ + "' appears only once"@,
            r.span == Some(span),
            r.help matches Some(h) && h@
                == "variables that appear only once might indicate a mistake"@,
            r.related@.len() == 0,
            r.suggestions@.len() == 1,
            r.suggestions@[0].message@ == "use '_' for intentionally unused variables"@,
            r.suggestions@[0].replacement matches Some(x) && x@ == seq!['_'] + var@,
            r.suggestions@[0].span is None,
    {
        let mut replacement = String::new();
        push_char(&mut replacement, '_');
        replacement.append(var);
        Diagnostic::warning(concat3("variable '", var, "' appears only once")).with_span(
            span,
        ).with_help("variables that appear only once might indicate a mistake").with_suggestion(
            Suggestion::new("use '_' for intentionally unused variables").with_replacement(
                replacement,
            ),
        )
    }
}

} // verus!
