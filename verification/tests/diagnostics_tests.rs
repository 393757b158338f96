use rune_core::datalog::diagnostics::{
    extract_source_context, DatalogDiagnostics, Diagnostic, DiagnosticBag, Severity, Span, Suggestion,
};
use rune_core::error::RUNEError;

#[test]
fn test_span_creation() {
    let span = Span::new(0, 10, 1, 5);
    assert_eq!(span.start, 0);
    assert_eq!(span.end, 10);
    assert_eq!(span.line, 1);
    assert_eq!(span.column, 5);
    assert_eq!(span.to_string(), "1:5");
}

#[test]
fn test_span_merge() {
    let span1 = Span::new(0, 5, 1, 1);
    let span2 = Span::new(10, 15, 1, 11);
    let merged = span1.merge(&span2);
    assert_eq!(merged.start, 0);
    assert_eq!(merged.end, 15);
}

#[test]
fn test_diagnostic_creation() {
    let diag = Diagnostic::error("test error")
        .with_span(Span::new(0, 5, 1, 1))
        .with_help("this is help text");

    assert_eq!(diag.severity, Severity::Error);
    assert_eq!(diag.message, "test error");
    assert!(diag.span.is_some());
    assert_eq!(diag.help.unwrap(), "this is help text");
}

#[test]
fn test_diagnostic_bag() {
    let mut bag = DiagnosticBag::new();
    bag.error("error 1");
    bag.warning("warning 1");
    bag.error("error 2");

    assert!(bag.has_errors());
    assert!(bag.has_warnings());
    assert_eq!(bag.error_count(), 2);
    assert_eq!(bag.warning_count(), 1);
}

#[test]
fn test_undefined_variable_diagnostic() {
    let diag = DatalogDiagnostics::undefined_variable("X", Span::new(5, 6, 1, 6));

    assert_eq!(diag.severity, Severity::Error);
    assert!(diag.message.contains("undefined variable"));
    assert!(diag.help.is_some());
    assert!(!diag.suggestions.is_empty());
}

#[test]
fn test_unsafe_negation_diagnostic() {
    let diag = DatalogDiagnostics::unsafe_negation("Y", Span::new(10, 11, 2, 5));

    assert_eq!(diag.severity, Severity::Error);
    assert!(diag.message.contains("unsafe"));
    assert!(diag.help.unwrap().contains("stratification"));
}

#[test]
fn test_source_context_extraction() {
    let source = "path(X, Y) :- edge(X, Y).\npath(X, Z) :- edge(X, Y), path(Y, Z).";
    let span = Span::new(15, 20, 1, 16);

    let context = extract_source_context(source, &span);
    assert!(context.is_some());
    let ctx = context.unwrap();
    assert!(ctx.contains("path(X, Y)"));
    assert!(ctx.contains("^"));
}

#[test]
fn test_diagnostic_formatting() {
    let source = "test(X) :- unknown(X).";
    let span = Span::new(7, 8, 1, 8);

    let diag = DatalogDiagnostics::undefined_variable("X", span);
    let formatted = diag.format(Some(source));

    assert!(formatted.contains("error"));
    assert!(formatted.contains("undefined variable"));
    assert!(formatted.contains("1:8"));
}

#[test]
fn test_suggestion_with_replacement() {
    let suggestion =
        Suggestion::new("use underscore for unused variables").with_replacement("_var");

    assert_eq!(suggestion.message, "use underscore for unused variables");
    assert_eq!(suggestion.replacement.unwrap(), "_var");
}

#[test]
fn test_multiple_diagnostics_formatting() {
    let mut bag = DiagnosticBag::new();

    bag.add(Diagnostic::error("first error").with_span(Span::new(0, 5, 1, 1)));

    bag.add(Diagnostic::warning("first warning").with_span(Span::new(10, 15, 2, 1)));

    let formatted = bag.format(None);
    assert!(formatted.contains("first error"));
    assert!(formatted.contains("first warning"));
    assert!(formatted.contains("Summary:"));
    assert!(formatted.contains("1 error(s)"));
    assert!(formatted.contains("1 warning(s)"));
}

#[test]
fn test_stratification_violation() {
    let diag = DatalogDiagnostics::stratification_violation("ancestor");

    assert_eq!(diag.severity, Severity::Error);
    assert!(diag.message.contains("stratification violation"));
    assert!(diag.help.is_some());
}

#[test]
fn test_singleton_variable_warning() {
    let diag = DatalogDiagnostics::singleton_variable("Z", Span::new(20, 21, 3, 10));

    assert_eq!(diag.severity, Severity::Warning);
    assert!(diag.message.contains("appears only once"));
    assert!(!diag.suggestions.is_empty());
    assert_eq!(diag.suggestions[0].replacement.as_ref().unwrap(), "_Z");
}

#[test]
fn test_related_diagnostics() {
    let main_diag = Diagnostic::error("main error").with_related(
        Diagnostic::info("note: this is related information").with_span(Span::new(5, 10, 1, 6)),
    );

    assert_eq!(main_diag.related.len(), 1);
    assert_eq!(main_diag.related[0].severity, Severity::Info);
}

#[test]
fn diagnostics_exact_rendering() {
    let diag = Diagnostic::warning("careful")
        .with_span(Span::new(2, 4, 2, 3))
        .with_help("look")
        .with_suggestion(Suggestion::new("try this").with_replacement("that"));
    let out = diag.format(Some("first\nab cdef\r\nlast"));
    assert_eq!(
        out,
        "\x1b[1;33mwarning\x1b[0m: careful\n  --> 2:3\n   |\n   2 | ab cdef\n     |   ^^\n\n\x1b[1m\x1b[1;33m = help:\x1b[0m look\n\x1b[1;32msuggestion:\x1b[0m try this\n  replace with: that\n"
    );
    // A span past the last line gives no context.
    assert!(extract_source_context("one line", &Span::new(0, 1, 2, 1)).is_none());
    // The underline is at least one character wide and at most the line's length in bytes.
    let ctx = extract_source_context("éa", &Span::new(0, 10, 1, 1)).unwrap();
    assert_eq!(ctx, "   1 | éa\n     | ^^^\n");
    let ctx = extract_source_context("abc", &Span::new(3, 3, 1, 1)).unwrap();
    assert_eq!(ctx, "   1 | abc\n     | ^\n");
}

#[test]
fn diagnostics_builders_and_bag() {
    let d = DatalogDiagnostics::type_mismatch("int", "string", Span::single(4, 1, 5));
    assert_eq!(d.message, "type mismatch: expected int, got string");
    assert_eq!(d.span, Some(Span::new(4, 5, 1, 5)));
    let d = DatalogDiagnostics::unification_failure("X", "1", Span::new(0, 1, 1, 1));
    assert_eq!(d.message, "cannot unify 'X' with '1'");
    let d = DatalogDiagnostics::empty_rule_body("p", Span::new(0, 1, 1, 1));
    assert_eq!(d.message, "rule for 'p' has empty body");
    let d = DatalogDiagnostics::aggregate_without_grouping("sum", Span::new(0, 1, 1, 1));
    assert_eq!(d.severity, Severity::Warning);
    let d = DatalogDiagnostics::infinite_loop("r");
    assert!(d.span.is_none());
    let d = DatalogDiagnostics::parse_error("bad", Span::new(0, 1, 1, 1));
    assert!(d.help.is_none());
    let mut bag = DiagnosticBag::new();
    assert_eq!(bag.format(None), "");
    bag.info("note");
    assert!(!bag.has_errors());
    assert_eq!(bag.diagnostics().len(), 1);
    bag.clear();
    assert_eq!(bag.diagnostics().len(), 0);
    assert_eq!(Severity::Info.to_string(), "info");
}

#[test]
fn test_diagnostic_error_creation() {
    let diagnostic = DatalogDiagnostics::undefined_variable("X", Span::new(0, 1, 1, 1));
    let error = RUNEError::from_diagnostic(diagnostic);

    assert!(error.has_diagnostics());
    assert!(error.diagnostics().is_some());
}

#[test]
fn test_diagnostic_error_multiple() {
    let mut bag = DiagnosticBag::new();
    bag.add(DatalogDiagnostics::undefined_variable("X", Span::new(0, 1, 1, 1)));
    bag.add(DatalogDiagnostics::undefined_variable("Y", Span::new(5, 6, 1, 6)));

    let error = RUNEError::from_diagnostics(bag);
    assert!(error.has_diagnostics());

    let diagnostics = error.diagnostics().unwrap();
    assert_eq!(diagnostics.error_count(), 2);
}

#[test]
fn test_non_diagnostic_error() {
    let error = RUNEError::ConfigError("test error".to_string());
    assert!(!error.has_diagnostics());
    assert!(error.diagnostics().is_none());
}

#[test]
fn test_error_formatting() {
    let diagnostic = DatalogDiagnostics::undefined_variable("X", Span::new(0, 1, 1, 1));
    let error = RUNEError::from_diagnostic(diagnostic);

    let formatted = error.to_string();
    assert!(formatted.contains("undefined variable"));
}

#[test]
fn test_error_formatting_with_source() {
    let source = "rule(X) :- undefined(X).";
    let diagnostic = DatalogDiagnostics::undefined_variable("X", Span::new(5, 6, 1, 6));
    let error = RUNEError::from_diagnostic(diagnostic);

    let formatted = error.format_with_source(Some(source));
    assert!(formatted.contains("undefined variable"));
    assert!(formatted.contains("1:6"));
}

#[test]
fn error_messages() {
    assert_eq!(RUNEError::Timeout(250).to_string(), "Operation timed out after 250ms");
    assert_eq!(
        RUNEError::AuthorizationDenied { reason: "no".to_string() }.to_string(),
        "Authorization denied: no"
    );
    assert_eq!(RUNEError::ParseError("x".to_string()).format_with_source(None), "Parse error: x");
}
