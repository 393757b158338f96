//! The library's error type.
use vstd::prelude::*;
use crate::datalog::diagnostics::{Diagnostic, DiagnosticBag, spans_ok, opt_view, bag_format_spec,
    lemma_spans_ok_without_source};
use crate::text::{concat2, concat3, decimal, u64_to_string};

verus! {

/// Errors of the library's operations.
#[derive(Debug)]
pub enum RUNEError {
    /// Parse error in configuration file
    ParseError(String),
    /// Type checking failed
    TypeError(String),
    /// Datalog evaluation error
    DatalogError(String),
    /// Cedar policy error, by its message
    CedarError(String),
    /// Authorization denied
    AuthorizationDenied {
        /// Reason for authorization denial
        reason: String,
    },
    /// Configuration error
    ConfigError(String),
    /// IO error, by its message
    IoError(String),
    /// Serialization error, by its message
    SerializationError(String),
    /// Invalid request
    InvalidRequest(String),
    /// Cache error
    CacheError(String),
    /// Timeout error, after the given milliseconds
    Timeout(u64),
    /// Rich diagnostic error with multiple messages and suggestions
    DiagnosticError(DiagnosticBag),
}

/// The message of an error.
pub open spec fn error_text(e: RUNEError) -> Seq<char> {
    match e {
        RUNEError::ParseError(m) => "Parse error: "@ + m@,
        RUNEError::TypeError(m) => "Type error: "@ + m@,
        RUNEError::DatalogError(m) => "Datalog evaluation error: "@ + m@,
        RUNEError::CedarError(m) => "Cedar policy error: "@ + m@,
        RUNEError::AuthorizationDenied { reason } => "Authorization denied: "@ + reason@,
        RUNEError::ConfigError(m) => "Configuration error: "@ + m@,
        RUNEError::IoError(m) => "IO error: "@ + m@,
        RUNEError::SerializationError(m) => "Serialization error: "@ + m@,
        RUNEError::InvalidRequest(m) => "Invalid request: "@ + m@,
        RUNEError::CacheError(m) => "Cache error: "@ + m@,
        RUNEError::Timeout(ms) => "Operation timed out after "@ + decimal(ms as nat) + "ms"@,
        RUNEError::DiagnosticError(bag) => bag_format_spec(bag@, None),
    }
}

impl RUNEError {
    /// An error holding one diagnostic.
    pub fn from_diagnostic(diagnostic: Diagnostic) -> (r: RUNEError)
        ensures
            r matches RUNEError::DiagnosticError(bag) && bag@ == seq![diagnostic],
    {
        let mut bag = DiagnosticBag::new();
        bag.add(diagnostic);
        assert(bag@ =~= seq![diagnostic]);
        RUNEError::DiagnosticError(bag)
    }

    /// An error holding several diagnostics.
    pub fn from_diagnostics(diagnostics: DiagnosticBag) -> (r: RUNEError)
        ensures
            r == RUNEError::DiagnosticError(diagnostics),
    {
        RUNEError::DiagnosticError(diagnostics)
    }

    /// The diagnostics, if this is a diagnostic error.
    pub fn diagnostics(&self) -> (r: Option<&DiagnosticBag>)
        ensures
            match self {
                RUNEError::DiagnosticError(bag) => r == Some(bag),
                _ => r is None,
            },
    {
        match self {
            RUNEError::DiagnosticError(bag) => Some(bag),
            _ => None,
        }
    }

    /// Whether this is a diagnostic error.
    pub fn has_diagnostics(&self) -> (r: bool)
        ensures
            r == (self is DiagnosticError),
    {
        match self {
            RUNEError::DiagnosticError(_) => true,
            _ => false,
        }
    }

    /// The message of the error.
    pub fn to_string(&self) -> (r: String)
        ensures
            r@ == error_text(*self),
    {
        match self {
            RUNEError::ParseError(m) => concat2("Parse error: ", m.as_str()),
            RUNEError::TypeError(m) => concat2("Type error: ", m.as_str()),
            RUNEError::DatalogError(m) => concat2("Datalog evaluation error: ", m.as_str()),
            RUNEError::CedarError(m) => concat2("Cedar policy error: ", m.as_str()),
            RUNEError::AuthorizationDenied { reason } => concat2(
                "Authorization denied: ",
                reason.as_str(),
            ),
            RUNEError::ConfigError(m) => concat2("Configuration error: ", m.as_str()),
            RUNEError::IoError(m) => concat2("IO error: ", m.as_str()),
            RUNEError::SerializationError(m) => concat2("Serialization error: ", m.as_str()),
            RUNEError::InvalidRequest(m) => concat2("Invalid request: ", m.as_str()),
            RUNEError::CacheError(m) => concat2("Cache error: ", m.as_str()),
            RUNEError::Timeout(ms) => {
                let n = u64_to_string(*ms);
                concat3("Operation timed out after ", n.as_str(), "ms")
            },
            RUNEError::DiagnosticError(bag) => {
                proof {
                    assert forall|i: int| 0 <= i < bag@.len() implies spans_ok(
                        #[trigger] bag@[i],
                        opt_view(None),
                    ) by {
                        lemma_spans_ok_without_source(bag@[i]);
                    }
                }
                bag.format(None)
            },
        }
    }

    /// The message of the error; a diagnostic error is rendered with the
    /// source lines of its spans where the source is given.
    pub fn format_with_source(&self, source: Option<&str>) -> (r: String)
        requires
            self matches RUNEError::DiagnosticError(bag) ==> forall|i: int|
                0 <= i < bag@.len() ==> spans_ok(#[trigger] bag@[i], opt_view(source)),
        ensures
            r@ == match self {
                RUNEError::DiagnosticError(bag) => bag_format_spec(bag@, opt_view(source)),
                _ => error_text(*self),
            },
    {
        match self {
            RUNEError::DiagnosticError(bag) => bag.format(source),
            _ => self.to_string(),
        }
    }
}

} // verus!
