//! Diagnostics and errors.
use vstd::prelude::*;

use crate::text::{decimal, decimal_chars, extend_chars, extend_str, string_of};

verus! {

/// Severity of a diagnostic.
#[derive(Debug, Clone, Copy, PartialEq, Eq, Structural)]
pub enum DiagLevel {
    Error,
    Warning,
    Info,
}

/// Lower-case name of a level, as used in reports and configuration.
pub open spec fn level_name(level: DiagLevel) -> Seq<char> {
    match level {
        DiagLevel::Error => "error"@,
        DiagLevel::Warning => "warning"@,
        DiagLevel::Info => "info"@,
    }
}

/// Ordering of levels: info < warning < error.
pub open spec fn level_rank(level: DiagLevel) -> u8 {
    match level {
        DiagLevel::Error => 2,
        DiagLevel::Warning => 1,
        DiagLevel::Info => 0,
    }
}

impl DiagLevel {
    /// Lower-case name of the level.
    pub fn as_str(&self) -> (r: &'static str)
        ensures
            r@ == level_name(*self),
    {
        proof {
            reveal_strlit("error");
            reveal_strlit("warning");
            reveal_strlit("info");
        }
        match self {
            DiagLevel::Error => "error",
            DiagLevel::Warning => "warning",
            DiagLevel::Info => "info",
        }
    }

    /// Numeric rank of the level: info 0, warning 1, error 2.
    pub fn rank(&self) -> (r: u8)
        ensures
            r == level_rank(*self),
    {
        match self {
            DiagLevel::Error => 2,
            DiagLevel::Warning => 1,
            DiagLevel::Info => 0,
        }
    }
}

/// A 1-based position in the source file.
#[derive(Debug, Clone, Copy, PartialEq, Eq, Structural)]
pub struct SourcePos {
    pub line: usize,
    pub column: usize,
}

/// A diagnostic produced while parsing, resolving, or linting a document.
///
/// `code` is a stable, kebab-case rule identifier (e.g. `unused-term`).
/// `location` is a human-readable position ("clause 3.1(a)", "front-matter");
/// `line` and `column` are the 1-based source position where known.
#[derive(Debug, Clone)]
pub struct Diagnostic {
    pub level: DiagLevel,
    pub code: &'static str,
    pub message: String,
    pub location: Option<String>,
    pub line: Option<usize>,
    pub column: Option<usize>,
}

impl Diagnostic {
    /// A diagnostic with no location or position.
    pub fn new(level: DiagLevel, code: &'static str, message: String) -> (d: Self)
        ensures
            d == Diagnostic::new_spec(level, code, message),
    {
        Diagnostic { level, code, message, location: None, line: None, column: None }
    }

    /// An error-level diagnostic.
    pub fn error(code: &'static str, message: String) -> (d: Self)
        ensures
            d == Diagnostic::new_spec(DiagLevel::Error, code, message),
    {
        Self::new(DiagLevel::Error, code, message)
    }

    /// A warning-level diagnostic.
    pub fn warning(code: &'static str, message: String) -> (d: Self)
        ensures
            d == Diagnostic::new_spec(DiagLevel::Warning, code, message),
    {
        Self::new(DiagLevel::Warning, code, message)
    }

    /// An info-level diagnostic.
    pub fn info(code: &'static str, message: String) -> (d: Self)
        ensures
            d == Diagnostic::new_spec(DiagLevel::Info, code, message),
    {
        Self::new(DiagLevel::Info, code, message)
    }

    /// The diagnostic [`Diagnostic::new`] builds.
    pub open spec fn new_spec(level: DiagLevel, code: &'static str, message: String) -> Self {
        Diagnostic { level, code, message, location: None, line: None, column: None }
    }

    /// Attach a human-readable location ("clause 3.1", "front-matter", ...).
    pub fn at(self, location: String) -> (d: Self)
        ensures
            d == (Diagnostic { location: Some(location), ..self }),
    {
        Diagnostic { location: Some(location), ..self }
    }

    /// Attach an optional human-readable location.
    pub fn at_opt(self, location: Option<String>) -> (d: Self)
        ensures
            d == (Diagnostic { location, ..self }),
    {
        Diagnostic { location, ..self }
    }

    /// Attach a 1-based source line number.
    pub fn at_line(self, line: Option<usize>) -> (d: Self)
        ensures
            d == (Diagnostic { line, ..self }),
    {
        Diagnostic { line, ..self }
    }

    /// Attach a source position (line and column), when known.
    pub fn at_pos(self, pos: Option<SourcePos>) -> (d: Self)
        ensures
            d == (match pos {
                Some(p) => Diagnostic { line: Some(p.line), column: Some(p.column), ..self },
                None => Diagnostic { line: None, column: None, ..self },
            }),
    {
        match pos {
            Some(p) => Diagnostic { line: Some(p.line), column: Some(p.column), ..self },
            None => Diagnostic { line: None, column: None, ..self },
        }
    }

    /// The one-line human-readable rendering:
    /// `level[code]: message (location, line N)`.
    pub fn to_display_string(&self) -> (r: String)
        ensures
            r@ == diagnostic_text(*self),
    {
        let mut out: Vec<char> = Vec::new();
        extend_str(&mut out, self.level.as_str());
        out.push('[');
        extend_str(&mut out, self.code);
        extend_str(&mut out, "]: ");
        extend_str(&mut out, self.message.as_str());
        let ghost head = out@;
        match (&self.location, self.line) {
            (Some(loc), Some(line)) => {
                extend_str(&mut out, " (");
                extend_str(&mut out, loc.as_str());
                extend_str(&mut out, ", line ");
                let d = decimal_chars(line);
                extend_chars(&mut out, &d);
                out.push(')');
            },
            (Some(loc), None) => {
                extend_str(&mut out, " (");
                extend_str(&mut out, loc.as_str());
                out.push(')');
            },
            (None, Some(line)) => {
                extend_str(&mut out, " (line ");
                let d = decimal_chars(line);
                extend_chars(&mut out, &d);
                out.push(')');
            },
            (None, None) => {},
        }
        proof {
            reveal_strlit("]: ");
            reveal_strlit(" (");
            reveal_strlit(", line ");
            reveal_strlit(" (line ");
            reveal_strlit("[");
            reveal_strlit(")");
        }
        assert(out@ =~= diagnostic_text(*self));
        string_of(&out)
    }
}

/// The suffix giving a diagnostic's location and line, if any.
pub open spec fn diagnostic_suffix(location: Option<String>, line: Option<usize>) -> Seq<char> {
    match (location, line) {
        (Some(loc), Some(l)) => " ("@ + loc@ + ", line "@ + decimal(l as nat) + ")"@,
        (Some(loc), None) => " ("@ + loc@ + ")"@,
        (None, Some(l)) => " (line "@ + decimal(l as nat) + ")"@,
        (None, None) => Seq::empty(),
    }
}

/// The display text of a diagnostic.
pub open spec fn diagnostic_text(d: Diagnostic) -> Seq<char> {
    level_name(d.level) + "["@ + d.code@ + "]: "@ + d.message@ + diagnostic_suffix(
        d.location,
        d.line,
    )
}

/// Fatal errors: the document could not be read, parsed or rendered.
#[derive(Debug)]
pub enum LexiconError {
    Io(String),
    FrontMatter(String),
    Parse(String),
    Render(String),
}

/// The display text of an error.
pub open spec fn error_text(e: LexiconError) -> Seq<char> {
    match e {
        LexiconError::Io(m) => "IO error: "@ + m@,
        LexiconError::FrontMatter(m) => "Front-matter error: "@ + m@,
        LexiconError::Parse(m) => "Parse error: "@ + m@,
        LexiconError::Render(m) => "Render error: "@ + m@,
    }
}

impl LexiconError {
    /// The human-readable message, e.g. `Front-matter error: ...`.
    pub fn to_display_string(&self) -> (r: String)
        ensures
            r@ == error_text(*self),
    {
        let mut out: Vec<char> = Vec::new();
        match self {
            LexiconError::Io(m) => {
                extend_str(&mut out, "IO error: ");
                extend_str(&mut out, m.as_str());
            },
            LexiconError::FrontMatter(m) => {
                extend_str(&mut out, "Front-matter error: ");
                extend_str(&mut out, m.as_str());
            },
            LexiconError::Parse(m) => {
                extend_str(&mut out, "Parse error: ");
                extend_str(&mut out, m.as_str());
            },
            LexiconError::Render(m) => {
                extend_str(&mut out, "Render error: ");
                extend_str(&mut out, m.as_str());
            },
        }
        string_of(&out)
    }
}

} // verus!
