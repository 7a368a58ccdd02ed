//! The linter: the full parse and resolve pipeline plus lint-only checks,
//! filtered through configuration, command-line options and inline
//! suppression comments, and rendered as text or GitHub annotations.
//!
//! `parse-error` and `io-error` can never be filtered: a report must not
//! claim a file is valid when it could not even be read or parsed.
use vstd::prelude::*;

use crate::error::{diagnostic_text, level_name, level_rank, DiagLevel, Diagnostic};
use crate::exhibit::{detect_file_type, path_exists, resolve_exhibit_path};
use crate::model::{Document, Exhibit};
use crate::parser::frontmatter_accepts;
use crate::style::NumberingConvention;
use crate::text::{decimal, decimal_chars, replace_seq, starts_with};
use crate::pattern::{regex_captures, regex_captures_all};
use crate::text::{
    chars_of, extend_chars, extend_str, first_occurrence, find, lines_view, slice_chars, split_chars, split_on, str_eq, string_of,
    trim, trim_seq,
};

verus! {

// ---------------------------------------------------------------------------
// Rule registry
// ---------------------------------------------------------------------------

/// Version of the report formats (JSON structure, rule code semantics).
pub const REPORT_VERSION: u32 = 1;

/// A lint rule: stable code, default severity, one-line description.
#[derive(Debug)]
pub struct Rule {
    pub code: &'static str,
    pub severity: DiagLevel,
    pub description: &'static str,
}

/// Every rule code the pipeline can emit, in registry order.
pub open spec fn rule_codes() -> Seq<Seq<char>> {
    seq![
        "io-error"@,
        "parse-error"@,
        "invalid-date"@,
        "missing-parties"@,
        "missing-party-role"@,
        "exhibit-file-missing"@,
        "exhibit-unsupported-type"@,
        "exhibit-url-unsupported"@,
        "continuation-indent"@,
        "broken-cross-ref"@,
        "continuation-reattached"@,
        "unsupported-block"@,
        "duplicate-anchor"@,
        "duplicate-definition"@,
        "unused-term"@,
        "unreferenced-schedule"@,
        "undeclared-schedule"@,
        "bullet-outside-clause"@,
        "unknown-top-heading"@,
        "heading-after-body"@,
        "duplicate-recitals"@,
        "missing-body-heading"@,
        "signatures-definitions-missing"@,
        "signatures-definitions-invalid"@,
        "signature-missing-entity-type"@,
        "signature-template-missing"@,
        "unknown-lint-rule"@,
        "invalid-suppression"@,
        "invalid-lint-config"@,
        "multiple-anchors"@,
        "style-error"@,
        "unused-anchor"@,
        "missing-date"@,
        "missing-party-name"@,
        "unused-suppression"@,
        "hand-numbered-ordinal"@,
    ]
}

/// The registry's codes with their default severities, in registry order.
pub open spec fn rule_table() -> Seq<(Seq<char>, DiagLevel)> {
    seq![
        ("io-error"@, DiagLevel::Error),
        ("parse-error"@, DiagLevel::Error),
        ("invalid-date"@, DiagLevel::Error),
        ("missing-parties"@, DiagLevel::Error),
        ("missing-party-role"@, DiagLevel::Error),
        ("exhibit-file-missing"@, DiagLevel::Error),
        ("exhibit-unsupported-type"@, DiagLevel::Error),
        ("exhibit-url-unsupported"@, DiagLevel::Error),
        ("continuation-indent"@, DiagLevel::Error),
        ("broken-cross-ref"@, DiagLevel::Warning),
        ("continuation-reattached"@, DiagLevel::Warning),
        ("unsupported-block"@, DiagLevel::Warning),
        ("duplicate-anchor"@, DiagLevel::Warning),
        ("duplicate-definition"@, DiagLevel::Warning),
        ("unused-term"@, DiagLevel::Warning),
        ("unreferenced-schedule"@, DiagLevel::Warning),
        ("undeclared-schedule"@, DiagLevel::Warning),
        ("bullet-outside-clause"@, DiagLevel::Warning),
        ("unknown-top-heading"@, DiagLevel::Warning),
        ("heading-after-body"@, DiagLevel::Warning),
        ("duplicate-recitals"@, DiagLevel::Warning),
        ("missing-body-heading"@, DiagLevel::Warning),
        ("signatures-definitions-missing"@, DiagLevel::Warning),
        ("signatures-definitions-invalid"@, DiagLevel::Warning),
        ("signature-missing-entity-type"@, DiagLevel::Warning),
        ("signature-template-missing"@, DiagLevel::Warning),
        ("unknown-lint-rule"@, DiagLevel::Warning),
        ("invalid-suppression"@, DiagLevel::Warning),
        ("invalid-lint-config"@, DiagLevel::Warning),
        ("multiple-anchors"@, DiagLevel::Warning),
        ("style-error"@, DiagLevel::Error),
        ("unused-anchor"@, DiagLevel::Info),
        ("missing-date"@, DiagLevel::Info),
        ("missing-party-name"@, DiagLevel::Info),
        ("unused-suppression"@, DiagLevel::Info),
        ("hand-numbered-ordinal"@, DiagLevel::Info),
    ]
}

/// The rule `code` defaults to error.
pub open spec fn error_default(code: Seq<char>) -> bool {
    rule_table().contains((code, DiagLevel::Error))
}

fn rule(code: &'static str, severity: DiagLevel, description: &'static str) -> (r: Rule)
    ensures
        r.code == code,
        r.severity == severity,
        r.description == description,
{
    Rule { code, severity, description }
}

/// The rule registry: every rule code the pipeline can emit, with its
/// default severity and description. Configuration, flags and suppression
/// comments are validated against it.
pub fn rules() -> (r: Vec<Rule>)
    ensures
        r@.map_values(|x: Rule| x.code@) == rule_codes(),
        r@.map_values(|x: Rule| (x.code@, x.severity)) == rule_table(),
{
    let mut v: Vec<Rule> = Vec::new();
    v.push(rule("io-error", DiagLevel::Error, "Input file could not be read"));
    v.push(
        rule(
            "parse-error",
            DiagLevel::Error,
            "Document could not be parsed (missing or invalid front-matter)",
        ),
    );
    v.push(rule("invalid-date", DiagLevel::Error, "date is not a valid YYYY-MM-DD date"));
    v.push(rule("missing-parties", DiagLevel::Error, "No parties defined in front-matter"));
    v.push(rule("missing-party-role", DiagLevel::Error, "A party has an empty role"));
    v.push(
        rule("exhibit-file-missing", DiagLevel::Error, "A declared exhibit path does not exist"),
    );
    v.push(
        rule(
            "exhibit-unsupported-type",
            DiagLevel::Error,
            "Exhibit file type is not png/jpg/jpeg/pdf",
        ),
    );
    v.push(
        rule("exhibit-url-unsupported", DiagLevel::Error, "Exhibit path is a URL (not supported)"),
    );
    v.push(
        rule(
            "continuation-indent",
            DiagLevel::Error,
            "Continuation content is indented too far below its clause and will be dropped",
        ),
    );
    v.push(
        rule(
            "broken-cross-ref",
            DiagLevel::Warning,
            "Cross-reference points to a non-existent anchor",
        ),
    );
    v.push(
        rule(
            "continuation-reattached",
            DiagLevel::Warning,
            "Continuation content will render under an ancestor clause, not the one it was written for",
        ),
    );
    v.push(
        rule(
            "unsupported-block",
            DiagLevel::Warning,
            "A block-level element the Lexicon format has no representation for",
        ),
    );
    v.push(
        rule(
            "duplicate-anchor",
            DiagLevel::Warning,
            "The same {#id} anchor is declared more than once",
        ),
    );
    v.push(
        rule(
            "duplicate-definition",
            DiagLevel::Warning,
            "A term is bold-defined at more than one place",
        ),
    );
    v.push(
        rule("unused-term", DiagLevel::Warning, "A defined term never appears in the document text"),
    );
    v.push(
        rule(
            "unreferenced-schedule",
            DiagLevel::Warning,
            "A declared schedule has no referencing terms",
        ),
    );
    v.push(
        rule(
            "undeclared-schedule",
            DiagLevel::Warning,
            "A definition references a schedule title not declared in front-matter",
        ),
    );
    v.push(
        rule(
            "bullet-outside-clause",
            DiagLevel::Warning,
            "Bullet list in the clause hierarchy (unnumbered, not cross-referenceable)",
        ),
    );
    v.push(rule("unknown-top-heading", DiagLevel::Warning, "Unrecognised # top-level heading"));
    v.push(
        rule(
            "heading-after-body",
            DiagLevel::Warning,
            "Unexpected # top-level heading after the body section",
        ),
    );
    v.push(
        rule("duplicate-recitals", DiagLevel::Warning, "More than one recitals/background section"),
    );
    v.push(
        rule(
            "missing-body-heading",
            DiagLevel::Warning,
            "Recitals present but no body heading follows",
        ),
    );
    v.push(
        rule(
            "signatures-definitions-missing",
            DiagLevel::Warning,
            "Signatures enabled but no definitions file found (build)",
        ),
    );
    v.push(
        rule(
            "signatures-definitions-invalid",
            DiagLevel::Warning,
            "Signature definitions file failed to parse (build)",
        ),
    );
    v.push(
        rule(
            "signature-missing-entity-type",
            DiagLevel::Warning,
            "Party has no entity_type for signature block resolution (build)",
        ),
    );
    v.push(
        rule(
            "signature-template-missing",
            DiagLevel::Warning,
            "No signature template found for a party (build)",
        ),
    );
    v.push(
        rule(
            "unknown-lint-rule",
            DiagLevel::Warning,
            "Config, flag, or suppression names a rule code that does not exist",
        ),
    );
    v.push(rule("invalid-suppression", DiagLevel::Warning, "Malformed suppression comment"));
    v.push(
        rule(
            "invalid-lint-config",
            DiagLevel::Warning,
            "Lint configuration entry that cannot take effect",
        ),
    );
    v.push(
        rule(
            "multiple-anchors",
            DiagLevel::Warning,
            "A clause declares more than one {#id} anchor; only the last is kept",
        ),
    );
    v.push(rule("style-error", DiagLevel::Error, "Style configuration file could not be loaded"));
    v.push(
        rule("unused-anchor", DiagLevel::Info, "An anchor is declared but never referenced"),
    );
    v.push(
        rule("missing-date", DiagLevel::Info, "No date set (rendered as a blank date line)"),
    );
    v.push(
        rule(
            "missing-party-name",
            DiagLevel::Info,
            "A party has no name (rendered as a placeholder)",
        ),
    );
    v.push(
        rule("unused-suppression", DiagLevel::Info, "A suppression comment matched no diagnostic"),
    );
    v.push(
        rule(
            "hand-numbered-ordinal",
            DiagLevel::Info,
            "A source list ordinal of 10. or wider (widens the clause content column)",
        ),
    );
    assert(v@.map_values(|x: Rule| x.code@) =~= rule_codes());
    assert(v@.map_values(|x: Rule| (x.code@, x.severity)) =~= rule_table());
    v
}

/// Whether the rule `code` defaults to error.
pub fn is_error_default(code: &str) -> (r: bool)
    ensures
        r == error_default(code@),
{
    let rs = rules();
    let ghost table = rs@.map_values(|x: Rule| (x.code@, x.severity));
    let mut i: usize = 0;
    while i < rs.len()
        invariant
            i <= rs@.len(),
            table == rs@.map_values(|x: Rule| (x.code@, x.severity)),
            table == rule_table(),
            forall|q: int| 0 <= q < i ==> table[q] != (code@, DiagLevel::Error),
        decreases rs@.len() - i,
    {
        proof {
            assert(table[i as int] == (rs@[i as int].code@, rs@[i as int].severity));
        }
        if str_eq(rs[i].code, code) && rs[i].severity == DiagLevel::Error {
            proof {
                assert(table[i as int] == (code@, DiagLevel::Error));
            }
            return true;
        }
        i += 1;
    }
    false
}

/// Whether `code` names a rule of the registry.
pub fn is_known_rule(code: &str) -> (r: bool)
    ensures
        r == rule_codes().contains(code@),
{
    let rs = rules();
    let ghost codes = rs@.map_values(|x: Rule| x.code@);
    let mut i: usize = 0;
    while i < rs.len()
        invariant
            i <= rs@.len(),
            codes == rs@.map_values(|x: Rule| x.code@),
            codes == rule_codes(),
            forall|q: int| 0 <= q < i ==> codes[q] != code@,
        decreases rs@.len() - i,
    {
        proof {
            assert(codes[i as int] == rs@[i as int].code@);
        }
        if str_eq(rs[i].code, code) {
            return true;
        }
        i += 1;
    }
    false
}

/// The codes that can never be ignored, suppressed or re-levelled.
pub open spec fn unfilterable(code: Seq<char>) -> bool {
    code == "parse-error"@ || code == "io-error"@ || code == "style-error"@
}

/// Whether `code` can never be filtered.
pub fn is_unfilterable(code: &str) -> (r: bool)
    ensures
        r == unfilterable(code@),
{
    str_eq(code, "parse-error") || str_eq(code, "io-error") || str_eq(code, "style-error")
}

/// The codes of the suppression machinery itself, which no suppression
/// comment can silence (the configured ignore list can).
pub open spec fn machinery(code: Seq<char>) -> bool {
    ||| code == "unused-suppression"@
    ||| code == "unknown-lint-rule"@
    ||| code == "invalid-suppression"@
    ||| code == "invalid-lint-config"@
}

/// Whether `code` belongs to the suppression machinery.
pub fn is_machinery(code: &str) -> (r: bool)
    ensures
        r == machinery(code@),
{
    str_eq(code, "unused-suppression") || str_eq(code, "unknown-lint-rule") || str_eq(
        code,
        "invalid-suppression",
    ) || str_eq(code, "invalid-lint-config")
}

/// `s` padded with spaces to `width` characters (as `{:<width}` does).
pub open spec fn pad_right(s: Seq<char>, width: nat) -> Seq<char> {
    if s.len() >= width {
        s
    } else {
        s + Seq::new((width - s.len()) as nat, |i: int| ' ')
    }
}

fn push_padded(out: &mut Vec<char>, s: &str, width: usize)
    ensures
        final(out)@ == old(out)@ + pad_right(s@, width as nat),
{
    let v = chars_of(s);
    extend_chars(out, &v);
    let mut n = v.len();
    let ghost mid = out@;
    while n < width
        invariant
            v@ == s@,
            v@.len() <= n <= width || (n == v@.len() && n >= width),
            out@ == mid + Seq::new((n - v@.len()) as nat, |i: int| ' '),
        decreases width - n,
    {
        out.push(' ');
        n += 1;
        proof {
            assert(out@ =~= mid + Seq::new((n - v@.len()) as nat, |i: int| ' '));
        }
    }
    proof {
        if v@.len() >= width {
            assert(out@ =~= old(out)@ + pad_right(s@, width as nat));
        } else {
            assert(out@ =~= old(out)@ + pad_right(s@, width as nat));
        }
    }
}

/// One line of the registry table: code, level and description.
pub open spec fn rule_line(code: Seq<char>, level: Seq<char>, description: Seq<char>) -> Seq<char> {
    pad_right(code, 32) + " "@ + pad_right(level, 8) + " "@ + description + "\n"@
}

/// The registry lines for `rs`, concatenated.
pub open spec fn rule_lines(rs: Seq<Rule>) -> Seq<char>
    decreases rs.len(),
{
    if rs.len() == 0 {
        Seq::empty()
    } else {
        rule_lines(rs.drop_last()) + rule_line(
            rs.last().code@,
            level_name(rs.last().severity),
            rs.last().description@,
        )
    }
}

/// Render the rule registry as an aligned table: a header line, then one
/// line per rule with its code, level and description.
pub fn rules_to_text() -> (r: String)
    ensures
        exists|rs: Seq<Rule>|
            rs.map_values(|x: Rule| x.code@) == rule_codes() && r@ == rule_line(
                "CODE"@,
                "LEVEL"@,
                "DESCRIPTION"@,
            ) + rule_lines(rs),
{
    let rs = rules();
    let mut out: Vec<char> = Vec::new();
    push_padded(&mut out, "CODE", 32);
    out.push(' ');
    push_padded(&mut out, "LEVEL", 8);
    out.push(' ');
    extend_str(&mut out, "DESCRIPTION");
    out.push('\n');
    let ghost head = out@;
    proof {
        reveal_strlit(" ");
        reveal_strlit("\n");
        assert(head =~= rule_line("CODE"@, "LEVEL"@, "DESCRIPTION"@));
        assert(rs@.take(0) =~= Seq::<Rule>::empty());
    }
    let mut i: usize = 0;
    while i < rs.len()
        invariant
            i <= rs@.len(),
            out@ == head + rule_lines(rs@.take(i as int)),
        decreases rs@.len() - i,
    {
        proof {
            reveal_strlit(" ");
            reveal_strlit("\n");
            assert(rs@.take(i + 1).drop_last() =~= rs@.take(i as int));
        }
        push_padded(&mut out, rs[i].code, 32);
        out.push(' ');
        push_padded(&mut out, rs[i].severity.as_str(), 8);
        out.push(' ');
        extend_str(&mut out, rs[i].description);
        out.push('\n');
        proof {
            assert(out@ =~= head + rule_lines(rs@.take(i + 1)));
        }
        i += 1;
    }
    proof {
        assert(rs@.take(rs@.len() as int) =~= rs@);
    }
    string_of(&out)
}

// ---------------------------------------------------------------------------
// Options
// ---------------------------------------------------------------------------

/// The `[lint]` section of the style configuration.
#[derive(Debug, Clone)]
pub struct LintConfig {
    /// Rule codes disabled entirely.
    pub ignore: Vec<String>,
    /// Per-rule severity overrides, one per rule code.
    pub severity: Vec<(String, DiagLevel)>,
}

/// Effective lint options: the `[lint]` configuration merged with
/// command-line flags.
#[derive(Debug, Clone)]
pub struct LintOptions {
    /// Rule codes disabled entirely.
    pub ignore: Vec<String>,
    /// Per-rule severity overrides, one per rule code.
    pub severity: Vec<(String, DiagLevel)>,
    /// Diagnostics below this severity are dropped from the report.
    pub min_severity: DiagLevel,
}

/// The characters of each string.
pub open spec fn strings_view(s: Seq<String>) -> Seq<Seq<char>> {
    s.map_values(|x: String| x@)
}

/// The override for `code` among `pairs`: the first pair with that code.
pub open spec fn severity_of(pairs: Seq<(String, DiagLevel)>, code: Seq<char>) -> Option<DiagLevel>
    decreases pairs.len(),
{
    if pairs.len() == 0 {
        None
    } else if pairs[0].0@ == code {
        Some(pairs[0].1)
    } else {
        severity_of(pairs.drop_first(), code)
    }
}

impl Default for LintOptions {
    fn default() -> (r: Self)
        ensures
            r.ignore@.len() == 0,
            r.severity@.len() == 0,
            r.min_severity == DiagLevel::Info,
    {
        LintOptions { ignore: Vec::new(), severity: Vec::new(), min_severity: DiagLevel::Info }
    }
}

fn copy_strings(v: &Vec<String>) -> (r: Vec<String>)
    ensures
        r@ == v@,
{
    let mut out: Vec<String> = Vec::new();
    let mut i: usize = 0;
    while i < v.len()
        invariant
            i <= v@.len(),
            out@ == v@.take(i as int),
        decreases v@.len() - i,
    {
        out.push(v[i].clone());
        proof {
            assert(out@ =~= v@.take(i + 1));
        }
        i += 1;
    }
    proof {
        assert(v@.take(v@.len() as int) =~= v@);
    }
    out
}

fn copy_pairs(v: &Vec<(String, DiagLevel)>) -> (r: Vec<(String, DiagLevel)>)
    ensures
        r@ == v@,
{
    let mut out: Vec<(String, DiagLevel)> = Vec::new();
    let mut i: usize = 0;
    while i < v.len()
        invariant
            i <= v@.len(),
            out@ == v@.take(i as int),
        decreases v@.len() - i,
    {
        out.push((v[i].0.clone(), v[i].1));
        proof {
            assert(out@ =~= v@.take(i + 1));
        }
        i += 1;
    }
    proof {
        assert(v@.take(v@.len() as int) =~= v@);
    }
    out
}

impl LintOptions {
    /// The options of a `[lint]` configuration, showing every level.
    pub fn from_config(config: &LintConfig) -> (r: Self)
        ensures
            r.ignore@ == config.ignore@,
            r.severity@ == config.severity@,
            r.min_severity == DiagLevel::Info,
    {
        LintOptions {
            ignore: copy_strings(&config.ignore),
            severity: copy_pairs(&config.severity),
            min_severity: DiagLevel::Info,
        }
    }

    /// A copy of these options.
    pub fn copy(&self) -> (r: Self)
        ensures
            r.ignore@ == self.ignore@,
            r.severity@ == self.severity@,
            r.min_severity == self.min_severity,
    {
        LintOptions {
            ignore: copy_strings(&self.ignore),
            severity: copy_pairs(&self.severity),
            min_severity: self.min_severity,
        }
    }

    /// Override the severity of `code`, replacing an earlier override.
    pub fn set_severity(&mut self, code: &str, level: DiagLevel)
        ensures
            severity_of(final(self).severity@, code@) == Some(level),
            forall|c: Seq<char>|
                c != code@ ==> severity_of(final(self).severity@, c) == severity_of(
                    old(self).severity@,
                    c,
                ),
            final(self).ignore@ == old(self).ignore@,
            final(self).min_severity == old(self).min_severity,
    {
        let mut i: usize = 0;
        let ghost s0 = self.severity@;
        while i < self.severity.len()
            invariant
                i <= self.severity@.len(),
                self.severity@ == s0,
                s0 == old(self).severity@,
                self.ignore@ == old(self).ignore@,
                self.min_severity == old(self).min_severity,
                forall|q: int| 0 <= q < i ==> (#[trigger] s0[q]).0@ != code@,
            decreases self.severity@.len() - i,
        {
            if str_eq(self.severity[i].0.as_str(), code) {
                let key = self.severity[i].0.clone();
                self.severity.set(i, (key, level));
                proof {
                    assert(self.severity@ == s0.update(i as int, (s0[i as int].0, level)));
                    assert forall|c: Seq<char>| c != code@ implies severity_of(self.severity@, c)
                        == severity_of(s0, c) by {
                        lemma_severity_update(s0, i as int, code@, level, c);
                    }
                    lemma_severity_update(s0, i as int, code@, level, code@);
                }
                return;
            }
            i += 1;
        }
        let key = string_of(&chars_of(code));
        let ghost k = key;
        self.severity.push((key, level));
        proof {
            assert forall|c: Seq<char>| c != code@ implies severity_of(self.severity@, c)
                == severity_of(s0, c) by {
                lemma_severity_push(s0, k, level, c);
            }
            lemma_severity_push(s0, k, level, code@);
        }
    }
}

proof fn lemma_severity_update(
    s: Seq<(String, DiagLevel)>,
    i: int,
    code: Seq<char>,
    level: DiagLevel,
    c: Seq<char>,
)
    requires
        0 <= i < s.len(),
        s[i].0@ == code,
        forall|q: int| 0 <= q < i ==> (#[trigger] s[q]).0@ != code,
    ensures
        severity_of(s.update(i, (s[i].0, level)), c) == if c == code {
            Some(level)
        } else {
            severity_of(s, c)
        },
    decreases i,
{
    let t = s.update(i, (s[i].0, level));
    if i > 0 {
        assert(t.drop_first() =~= s.drop_first().update(i - 1, (s[i].0, level)));
        assert forall|q: int| 0 <= q < i - 1 implies (#[trigger] s.drop_first()[q]).0@ != code by {
            assert(s.drop_first()[q] == s[q + 1]);
        }
        lemma_severity_update(s.drop_first(), i - 1, code, level, c);
        assert(s.drop_first()[i - 1] == s[i]);
    } else {
        assert(t.drop_first() =~= s.drop_first());
    }
}

proof fn lemma_severity_push(s: Seq<(String, DiagLevel)>, k: String, level: DiagLevel, c: Seq<char>)
    requires
        forall|q: int| 0 <= q < s.len() ==> (#[trigger] s[q]).0@ != k@,
    ensures
        severity_of(s.push((k, level)), c) == if c == k@ {
            Some(level)
        } else {
            severity_of(s, c)
        },
    decreases s.len(),
{
    if s.len() > 0 {
        assert forall|q: int| 0 <= q < s.drop_first().len() implies (#[trigger] s.drop_first()[q]).0@
            != k@ by {
            assert(s.drop_first()[q] == s[q + 1]);
        }
        lemma_severity_push(s.drop_first(), k, level, c);
        let t = s.push((k, level));
        assert(t[0] == s[0]);
        assert(t.drop_first() =~= s.drop_first().push((k, level)));
        assert(t.len() > 0);
        assert(severity_of(t, c) == if t[0].0@ == c {
            Some(t[0].1)
        } else {
            severity_of(t.drop_first(), c)
        });
        assert(severity_of(s, c) == if s[0].0@ == c {
            Some(s[0].1)
        } else {
            severity_of(s.drop_first(), c)
        });
    } else {
        let t = s.push((k, level));
        assert(t[0] == (k, level));
        assert(t.drop_first() =~= Seq::<(String, DiagLevel)>::empty());
        assert(severity_of(t.drop_first(), c) is None);
        assert(severity_of(s, c) is None);
    }
}

/// The codes of `s` that can be filtered, in order.
pub open spec fn filterable_codes(s: Seq<Seq<char>>) -> Seq<Seq<char>>
    decreases s.len(),
{
    if s.len() == 0 {
        Seq::empty()
    } else if unfilterable(s.last()) {
        filterable_codes(s.drop_last())
    } else {
        filterable_codes(s.drop_last()).push(s.last())
    }
}

/// The level an override takes effect at: a rule that defaults to error
/// is not demoted below warning.
pub open spec fn effective_level(code: Seq<char>, level: DiagLevel) -> DiagLevel {
    if error_default(code) && level == DiagLevel::Info {
        DiagLevel::Warning
    } else {
        level
    }
}

/// The overrides of `s` that take effect, in order: those whose code can
/// be filtered, each at its [`effective_level`].
pub open spec fn effective_pairs(s: Seq<(String, DiagLevel)>) -> Seq<(String, DiagLevel)>
    decreases s.len(),
{
    if s.len() == 0 {
        Seq::empty()
    } else if unfilterable(s.last().0@) {
        effective_pairs(s.drop_last())
    } else {
        effective_pairs(s.drop_last()).push((s.last().0, effective_level(s.last().0@, s.last().1)))
    }
}

/// The codes of the configuration warnings for one ignored code: an
/// unknown rule, or one that can never be ignored.
pub open spec fn ignore_entry_codes(c: Seq<char>) -> Seq<Seq<char>> {
    if !rule_codes().contains(c) {
        seq!["unknown-lint-rule"@]
    } else if unfilterable(c) {
        seq!["invalid-lint-config"@]
    } else {
        Seq::empty()
    }
}

/// The codes of the configuration warnings for one override: an unknown
/// rule, one that can never be re-levelled, or a demotion below warning of
/// a rule that defaults to error.
pub open spec fn severity_entry_codes(c: Seq<char>, l: DiagLevel) -> Seq<Seq<char>> {
    if !rule_codes().contains(c) {
        seq!["unknown-lint-rule"@]
    } else if unfilterable(c) || (error_default(c) && l == DiagLevel::Info) {
        seq!["invalid-lint-config"@]
    } else {
        Seq::empty()
    }
}

/// The codes of the configuration warnings for an ignore list.
pub open spec fn ignore_codes(s: Seq<Seq<char>>) -> Seq<Seq<char>>
    decreases s.len(),
{
    if s.len() == 0 {
        Seq::empty()
    } else {
        ignore_codes(s.drop_last()) + ignore_entry_codes(s.last())
    }
}

/// The codes of the configuration warnings for a list of overrides.
pub open spec fn severity_codes(s: Seq<(String, DiagLevel)>) -> Seq<Seq<char>>
    decreases s.len(),
{
    if s.len() == 0 {
        Seq::empty()
    } else {
        severity_codes(s.drop_last()) + severity_entry_codes(s.last().0@, s.last().1)
    }
}

/// The codes of the warnings about a lint configuration: for the ignore
/// list, then for the overrides, in order.
pub open spec fn config_codes(options: LintOptions) -> Seq<Seq<char>> {
    ignore_codes(strings_view(options.ignore@)) + severity_codes(options.severity@)
}

/// The codes of a list of diagnostics.
pub open spec fn codes_of(s: Seq<Diagnostic>) -> Seq<Seq<char>> {
    s.map_values(|d: Diagnostic| d.code@)
}

/// The warning for a configured code that names no rule.
pub open spec fn unknown_rule_view(c: Seq<char>) -> DiagView {
    (DiagLevel::Warning, "unknown-lint-rule"@, "Unknown lint rule '"@ + c + "' in lint configuration"@, None, None, None)
}

/// The warning for a configuration entry that cannot take effect; `what`
/// says why.
pub open spec fn invalid_config_view(c: Seq<char>, what: Seq<char>) -> DiagView {
    (DiagLevel::Warning, "invalid-lint-config"@, "Rule '"@ + c + what, None, None, None)
}

/// The warnings for one ignored code (see [`ignore_entry_codes`]).
pub open spec fn ignore_entry_diags(c: Seq<char>) -> Seq<DiagView> {
    if !rule_codes().contains(c) {
        seq![unknown_rule_view(c)]
    } else if unfilterable(c) {
        seq![invalid_config_view(c, "' cannot be ignored"@)]
    } else {
        Seq::empty()
    }
}

/// The warnings for one override (see [`severity_entry_codes`]).
pub open spec fn severity_entry_diags(c: Seq<char>, l: DiagLevel) -> Seq<DiagView> {
    if !rule_codes().contains(c) {
        seq![unknown_rule_view(c)]
    } else if unfilterable(c) {
        seq![invalid_config_view(c, "' cannot be re-levelled"@)]
    } else if error_default(c) && l == DiagLevel::Info {
        seq![invalid_config_view(c, "' defaults to error and cannot be demoted below warning"@)]
    } else {
        Seq::empty()
    }
}

/// The warnings for an ignore list.
pub open spec fn ignore_diags(s: Seq<Seq<char>>) -> Seq<DiagView>
    decreases s.len(),
{
    if s.len() == 0 {
        Seq::empty()
    } else {
        ignore_diags(s.drop_last()) + ignore_entry_diags(s.last())
    }
}

/// The warnings for a list of overrides.
pub open spec fn severity_diags(s: Seq<(String, DiagLevel)>) -> Seq<DiagView>
    decreases s.len(),
{
    if s.len() == 0 {
        Seq::empty()
    } else {
        severity_diags(s.drop_last()) + severity_entry_diags(s.last().0@, s.last().1)
    }
}

/// The warnings about a lint configuration, in order: for the ignore list,
/// then for the overrides; their codes are [`config_codes`].
pub open spec fn config_diags(options: LintOptions) -> Seq<DiagView> {
    ignore_diags(strings_view(options.ignore@)) + severity_diags(options.severity@)
}

fn unknown_rule_warning(code: &str) -> (d: Diagnostic)
    ensures
        d.code@ == "unknown-lint-rule"@,
        diag_view(d) == unknown_rule_view(code@),
{
    let mut msg: Vec<char> = Vec::new();
    extend_str(&mut msg, "Unknown lint rule '");
    extend_str(&mut msg, code);
    extend_str(&mut msg, "' in lint configuration");
    assert(msg@ =~= "Unknown lint rule '"@ + code@ + "' in lint configuration"@);
    Diagnostic::warning("unknown-lint-rule", string_of(&msg))
}

fn invalid_config_warning(code: &str, what: &str) -> (d: Diagnostic)
    ensures
        d.code@ == "invalid-lint-config"@,
        diag_view(d) == invalid_config_view(code@, what@),
{
    let mut msg: Vec<char> = Vec::new();
    extend_str(&mut msg, "Rule '");
    extend_str(&mut msg, code);
    extend_str(&mut msg, what);
    assert(msg@ =~= "Rule '"@ + code@ + what@);
    Diagnostic::warning("invalid-lint-config", string_of(&msg))
}

impl LintOptions {
    /// Warn about configured rule codes that do not exist and about entries
    /// that cannot take effect, and make the options safe: the codes that
    /// can never be filtered leave the ignore list and the overrides, and a
    /// rule that defaults to error is not demoted below warning.
    pub fn validate(&mut self) -> (r: Vec<Diagnostic>)
        ensures
            codes_of(r@) == config_codes(*old(self)),
            diags_view(r@) == config_diags(*old(self)),
            strings_view(final(self).ignore@) == filterable_codes(strings_view(old(self).ignore@)),
            final(self).severity@ == effective_pairs(old(self).severity@),
            final(self).min_severity == old(self).min_severity,
    {
        let mut diags: Vec<Diagnostic> = Vec::new();
        let mut ignore: Vec<String> = Vec::new();
        let ghost iv = strings_view(self.ignore@);
        let mut i: usize = 0;
        while i < self.ignore.len()
            invariant
                i <= self.ignore@.len(),
                iv == strings_view(self.ignore@),
                codes_of(diags@) == ignore_codes(iv.take(i as int)),
                diags_view(diags@) == ignore_diags(iv.take(i as int)),
                strings_view(ignore@) == filterable_codes(iv.take(i as int)),
            decreases self.ignore@.len() - i,
        {
            proof {
                assert(iv.take(i + 1).drop_last() =~= iv.take(i as int));
                assert(iv[i as int] == self.ignore@[i as int]@);
            }
            let code = self.ignore[i].as_str();
            let ghost before_d = diags@;
            if !is_known_rule(code) {
                diags.push(unknown_rule_warning(code));
            } else if is_unfilterable(code) {
                diags.push(invalid_config_warning(code, "' cannot be ignored"));
            }
            proof {
                assert(codes_of(diags@) =~= codes_of(before_d) + ignore_entry_codes(iv[i as int]));
                assert(diags_view(diags@) =~= diags_view(before_d) + ignore_entry_diags(iv[i as int]));
            }
            if !is_unfilterable(code) {
                let ghost before = ignore@;
                ignore.push(self.ignore[i].clone());
                proof {
                    assert(strings_view(ignore@) =~= strings_view(before).push(iv[i as int]));
                }
            }
            i += 1;
        }
        proof {
            assert(iv.take(iv.len() as int) =~= iv);
        }
        let ghost head = codes_of(diags@);
        let ghost head_v = diags_view(diags@);
        let mut severity: Vec<(String, DiagLevel)> = Vec::new();
        let ghost sv = self.severity@;
        let mut j: usize = 0;
        while j < self.severity.len()
            invariant
                j <= self.severity@.len(),
                sv == self.severity@,
                codes_of(diags@) == head + severity_codes(sv.take(j as int)),
                diags_view(diags@) == head_v + severity_diags(sv.take(j as int)),
                severity@ == effective_pairs(sv.take(j as int)),
            decreases self.severity@.len() - j,
        {
            proof {
                assert(sv.take(j + 1).drop_last() =~= sv.take(j as int));
                assert(sv.take(j + 1).last() == sv[j as int]);
            }
            let code = self.severity[j].0.as_str();
            let level = self.severity[j].1;
            let demotes = is_error_default(code) && level == DiagLevel::Info;
            let ghost before_d = diags@;
            if !is_known_rule(code) {
                diags.push(unknown_rule_warning(code));
            } else if is_unfilterable(code) {
                diags.push(invalid_config_warning(code, "' cannot be re-levelled"));
            } else if demotes {
                diags.push(invalid_config_warning(code, "' defaults to error and cannot be demoted below warning"));
            }
            proof {
                assert(codes_of(diags@) =~= codes_of(before_d) + severity_entry_codes(sv[j as int].0@, sv[j as int].1));
                assert(diags_view(diags@) =~= diags_view(before_d) + severity_entry_diags(sv[j as int].0@, sv[j as int].1));
            }
            if !is_unfilterable(code) {
                let effective = if demotes {
                    DiagLevel::Warning
                } else {
                    level
                };
                let ghost before = severity@;
                severity.push((self.severity[j].0.clone(), effective));
                proof {
                    assert(severity@ =~= before.push((sv[j as int].0, effective_level(sv[j as int].0@, sv[j as int].1))));
                }
            }
            j += 1;
        }
        proof {
            assert(sv.take(sv.len() as int) =~= sv);
        }
        self.ignore = ignore;
        self.severity = severity;
        diags
    }
}

// ---------------------------------------------------------------------------
// Inline suppressions
// ---------------------------------------------------------------------------

/// An inline suppression comment: `<!-- lexicon-ignore -->` or
/// `<!-- lexicon-ignore-file: code, code -->` (group 1 marks the file form,
/// group 2 holds the codes).
pub const SUPPRESSION_PATTERN: &'static str =
    r"(?i)<!--\s*lexicon-ignore(-file)?\s*(?::([^>]*?))?\s*-->";

/// A line-level directive: it applies to its own line and the next.
#[derive(Debug)]
pub struct LineDirective {
    pub line: usize,
    /// `None` for a bare directive, which suppresses every rule.
    pub codes: Option<Vec<String>>,
    pub used: bool,
}

/// A file-level directive for one rule code.
#[derive(Debug)]
pub struct FileDirective {
    pub line: usize,
    pub code: String,
    pub used: bool,
}

/// The suppression directives of a document.
#[derive(Debug)]
pub struct Suppressions {
    pub lines: Vec<LineDirective>,
    pub file: Vec<FileDirective>,
}

/// A line directive applies to a diagnostic with `code` at `line`: the
/// diagnostic is on the directive's line or the next, and the directive is
/// bare or names the code.
pub open spec fn line_targets(d: LineDirective, code: Seq<char>, line: Option<usize>) -> bool {
    &&& line matches Some(l) && (d.line == l || d.line + 1 == l)
    &&& match d.codes {
        None => true,
        Some(cs) => strings_view(cs@).contains(code),
    }
}

/// A diagnostic with `code` at `line` is suppressed: a file directive names
/// its code, or a line directive applies to it.
pub open spec fn suppressed(s: Suppressions, code: Seq<char>, line: Option<usize>) -> bool {
    ||| exists|k: int| 0 <= k < s.file@.len() && (#[trigger] s.file@[k]).code@ == code
    ||| exists|k: int| 0 <= k < s.lines@.len() && line_targets(#[trigger] s.lines@[k], code, line)
}

/// `b` has the directives of `a`, each marked used when it was or when
/// `hit` says it applies.
pub open spec fn same_directives(a: Suppressions, b: Suppressions) -> bool {
    &&& a.lines@.len() == b.lines@.len()
    &&& a.file@.len() == b.file@.len()
    &&& forall|k: int|
        #![trigger b.lines@[k]]
        0 <= k < a.lines@.len() ==> b.lines@[k].line == a.lines@[k].line && b.lines@[k].codes
            == a.lines@[k].codes && (a.lines@[k].used ==> b.lines@[k].used)
    &&& forall|k: int|
        #![trigger b.file@[k]]
        0 <= k < a.file@.len() ==> b.file@[k].line == a.file@[k].line && b.file@[k].code
            == a.file@[k].code && (a.file@[k].used ==> b.file@[k].used)
}

proof fn lemma_same_directives_trans(a: Suppressions, b: Suppressions, c: Suppressions)
    requires
        same_directives(a, b),
        same_directives(b, c),
    ensures
        same_directives(a, c),
{
    assert forall|k: int| #![trigger c.lines@[k]] 0 <= k < a.lines@.len() implies c.lines@[k].line
        == a.lines@[k].line && c.lines@[k].codes == a.lines@[k].codes && (a.lines@[k].used
        ==> c.lines@[k].used) by {
        assert(b.lines@[k].line == a.lines@[k].line);
    }
    assert forall|k: int| #![trigger c.file@[k]] 0 <= k < a.file@.len() implies c.file@[k].line
        == a.file@[k].line && c.file@[k].code == a.file@[k].code && (a.file@[k].used
        ==> c.file@[k].used) by {
        assert(b.file@[k].line == a.file@[k].line);
    }
}

proof fn lemma_same_directives_suppressed(a: Suppressions, b: Suppressions, code: Seq<char>, line: Option<usize>)
    requires
        same_directives(a, b),
    ensures
        suppressed(a, code, line) == suppressed(b, code, line),
{
    if suppressed(a, code, line) {
        if exists|k: int| 0 <= k < a.file@.len() && (#[trigger] a.file@[k]).code@ == code {
            let k = choose|k: int| 0 <= k < a.file@.len() && (#[trigger] a.file@[k]).code@ == code;
            assert(b.file@[k].code == a.file@[k].code);
        } else {
            let k = choose|k: int| 0 <= k < a.lines@.len() && line_targets(#[trigger] a.lines@[k], code, line);
            assert(b.lines@[k].line == a.lines@[k].line);
            assert(line_targets(b.lines@[k], code, line));
        }
    }
    if suppressed(b, code, line) {
        if exists|k: int| 0 <= k < b.file@.len() && (#[trigger] b.file@[k]).code@ == code {
            let k = choose|k: int| 0 <= k < b.file@.len() && (#[trigger] b.file@[k]).code@ == code;
            assert(b.file@[k].code == a.file@[k].code);
        } else {
            let k = choose|k: int| 0 <= k < b.lines@.len() && line_targets(#[trigger] b.lines@[k], code, line);
            assert(b.lines@[k].line == a.lines@[k].line);
            assert(line_targets(a.lines@[k], code, line));
        }
    }
}

fn codes_contain(codes: &Vec<String>, code: &str) -> (r: bool)
    ensures
        r == strings_view(codes@).contains(code@),
{
    let mut i: usize = 0;
    while i < codes.len()
        invariant
            i <= codes@.len(),
            forall|q: int| 0 <= q < i ==> (#[trigger] codes@[q])@ != code@,
        decreases codes@.len() - i,
    {
        if str_eq(codes[i].as_str(), code) {
            proof {
                assert(strings_view(codes@)[i as int] == code@);
            }
            return true;
        }
        i += 1;
    }
    proof {
        if strings_view(codes@).contains(code@) {
            let q = choose|q: int| 0 <= q < strings_view(codes@).len() && strings_view(codes@)[q] == code@;
            assert(codes@[q]@ == code@);
        }
    }
    false
}

/// `b` is `a` with every directive that applies to a diagnostic with
/// `code` at `line` marked used.
pub open spec fn marked_one(a: Suppressions, b: Suppressions, code: Seq<char>, line: Option<usize>) -> bool {
    &&& same_directives(a, b)
    &&& forall|k: int|
        0 <= k < a.lines@.len() ==> (#[trigger] b.lines@[k]).used == (a.lines@[k].used || line_targets(
            a.lines@[k],
            code,
            line,
        ))
    &&& forall|k: int|
        0 <= k < a.file@.len() ==> (#[trigger] b.file@[k]).used == (a.file@[k].used || a.file@[k].code@
            == code)
}

/// A suppression comment can apply to a diagnostic with `code`: it can be
/// filtered and is not the suppression machinery's own.
pub open spec fn suppressible(code: Seq<char>) -> bool {
    !unfilterable(code) && !machinery(code)
}

/// Some suppressible diagnostic of `ds` falls under the line directive `d`.
pub open spec fn line_hit(d: LineDirective, ds: Seq<Diagnostic>) -> bool {
    exists|j: int|
        0 <= j < ds.len() && suppressible(ds[j].code@) && line_targets(d, (#[trigger] ds[j]).code@, ds[j].line)
}

/// Some suppressible diagnostic of `ds` has the code of the file directive
/// `d`.
pub open spec fn file_hit(d: FileDirective, ds: Seq<Diagnostic>) -> bool {
    exists|j: int| 0 <= j < ds.len() && suppressible(ds[j].code@) && d.code@ == (#[trigger] ds[j]).code@
}

/// `b` is `a` with every directive that applies to a diagnostic of `ds`
/// that can be filtered marked used.
pub open spec fn marked(a: Suppressions, b: Suppressions, ds: Seq<Diagnostic>) -> bool {
    &&& same_directives(a, b)
    &&& forall|k: int|
        0 <= k < a.lines@.len() ==> (#[trigger] b.lines@[k]).used == (a.lines@[k].used || line_hit(
            a.lines@[k],
            ds,
        ))
    &&& forall|k: int|
        0 <= k < a.file@.len() ==> (#[trigger] b.file@[k]).used == (a.file@[k].used || file_hit(
            a.file@[k],
            ds,
        ))
}

proof fn lemma_line_hit_push(ds: Seq<Diagnostic>, d: Diagnostic, l: LineDirective)
    ensures
        line_hit(l, ds.push(d)) == (line_hit(l, ds) || (suppressible(d.code@) && line_targets(
            l,
            d.code@,
            d.line,
        ))),
{
    let e = ds.push(d);
    if line_hit(l, e) {
        let j = choose|j: int|
            0 <= j < e.len() && suppressible(e[j].code@) && line_targets(l, (#[trigger] e[j]).code@, e[j].line);
        if j < ds.len() {
            assert(ds[j] == e[j]);
        }
    }
    if line_hit(l, ds) {
        let j = choose|j: int|
            0 <= j < ds.len() && suppressible(ds[j].code@) && line_targets(l, (#[trigger] ds[j]).code@, ds[j].line);
        assert(e[j] == ds[j]);
    }
    if suppressible(d.code@) && line_targets(l, d.code@, d.line) {
        assert(e[ds.len() as int] == d);
    }
}

proof fn lemma_file_hit_push(ds: Seq<Diagnostic>, d: Diagnostic, f: FileDirective)
    ensures
        file_hit(f, ds.push(d)) == (file_hit(f, ds) || (suppressible(d.code@) && f.code@ == d.code@)),
{
    let e = ds.push(d);
    if file_hit(f, e) {
        let j = choose|j: int| 0 <= j < e.len() && suppressible(e[j].code@) && f.code@ == (#[trigger] e[j]).code@;
        if j < ds.len() {
            assert(ds[j] == e[j]);
        }
    }
    if file_hit(f, ds) {
        let j = choose|j: int| 0 <= j < ds.len() && suppressible(ds[j].code@) && f.code@ == (#[trigger] ds[j]).code@;
        assert(e[j] == ds[j]);
    }
    if suppressible(d.code@) && f.code@ == d.code@ {
        assert(e[ds.len() as int] == d);
    }
}

impl Suppressions {
    /// Whether a diagnostic with `code` at `diag_line` is suppressed; every
    /// directive that applies to it is marked used.
    pub fn matches(&mut self, code: &str, diag_line: Option<usize>) -> (hit: bool)
        ensures
            hit == suppressed(*old(self), code@, diag_line),
            marked_one(*old(self), *final(self), code@, diag_line),
    {
        let mut hit = false;
        let mut k: usize = 0;
        while k < self.file.len()
            invariant
                k <= self.file@.len(),
                self.lines@ == old(self).lines@,
                same_directives(*old(self), *self),
                hit == exists|q: int| 0 <= q < k && (#[trigger] old(self).file@[q]).code@ == code@,
                forall|q: int|
                    0 <= q < k ==> (#[trigger] self.file@[q]).used == (old(self).file@[q].used || old(
                        self,
                    ).file@[q].code@ == code@),
                forall|q: int| k <= q < self.file@.len() ==> #[trigger] self.file@[q] == old(self).file@[q],
            decreases self.file@.len() - k,
        {
            if str_eq(self.file[k].code.as_str(), code) {
                let d = FileDirective { line: self.file[k].line, code: self.file[k].code.clone(), used: true };
                self.file.set(k, d);
                hit = true;
            }
            k += 1;
        }
        let ghost after_file = self.file@;
        match diag_line {
            Some(line) => {
                let mut k: usize = 0;
                while k < self.lines.len()
                    invariant
                        k <= self.lines@.len(),
                        diag_line == Some(line),
                        self.file@ == after_file,
                        self.file@.len() == old(self).file@.len(),
                        same_directives(*old(self), *self),
                        hit == ((exists|q: int| 0 <= q < old(self).file@.len() && (#[trigger] old(self).file@[q]).code@ == code@)
                            || exists|q: int| 0 <= q < k && line_targets(#[trigger] old(self).lines@[q], code@, diag_line)),
                        forall|q: int|
                            0 <= q < k ==> (#[trigger] self.lines@[q]).used == (old(self).lines@[q].used
                                || line_targets(old(self).lines@[q], code@, diag_line)),
                        forall|q: int|
                            k <= q < self.lines@.len() ==> #[trigger] self.lines@[q] == old(self).lines@[q],
                    decreases self.lines@.len() - k,
                {
                    let dl = self.lines[k].line;
                    let targets = dl == line || (line > 0 && dl == line - 1);
                    let code_match = match &self.lines[k].codes {
                        None => true,
                        Some(codes) => codes_contain(codes, code),
                    };
                    proof {
                        assert(self.lines@[k as int].codes == old(self).lines@[k as int].codes);
                        assert(self.lines@[k as int].line == old(self).lines@[k as int].line);
                        let od = old(self).lines@[k as int];
                        assert(targets == (od.line == line || od.line + 1 == line));
                        assert(code_match == match od.codes {
                            None => true,
                            Some(cs) => strings_view(cs@).contains(code@),
                        });
                        assert((targets && code_match) == line_targets(od, code@, diag_line));
                    }
                    let ghost hit0 = hit;
                    if targets && code_match {
                        let mut codes: Option<Vec<String>> = None;
                        let mut placeholder = LineDirective { line: 0, codes: None, used: false };
                        self.lines.set_and_swap(k, &mut placeholder);
                        codes = placeholder.codes;
                        let d = LineDirective { line: dl, codes, used: true };
                        self.lines.set(k, d);
                        hit = true;
                    }
                    proof {
                        if targets && code_match {
                            assert(line_targets(old(self).lines@[k as int], code@, diag_line));
                        }
                        if !(targets && code_match) {
                            assert forall|q: int| 0 <= q < k + 1 && line_targets(#[trigger] old(self).lines@[q], code@, diag_line) implies q < k by {}
                        }
                    }
                    k += 1;
                }
            },
            None => {},
        }
        hit
    }
}

/// Splitting text into lines, as `str::lines` does: the lines done so far
/// and the line being read.
pub open spec fn split_state(s: Seq<char>) -> (Seq<Seq<char>>, Seq<char>)
    decreases s.len(),
{
    if s.len() == 0 {
        (Seq::empty(), Seq::empty())
    } else {
        let (done, cur) = split_state(s.drop_last());
        if s.last() == '\n' {
            (done.push(strip_cr(cur)), Seq::empty())
        } else {
            (done, cur.push(s.last()))
        }
    }
}

/// A line without its `\r`, when it ended in `\r\n`.
pub open spec fn strip_cr(s: Seq<char>) -> Seq<char> {
    if s.len() > 0 && s.last() == '\r' {
        s.drop_last()
    } else {
        s
    }
}

/// The lines of a text (`str::lines`): split at `\n`, a `\r` before it
/// dropped, and no empty line after a final line ending.
pub open spec fn lines_of(s: Seq<char>) -> Seq<Seq<char>> {
    let (done, cur) = split_state(s);
    if cur.len() > 0 {
        done.push(cur)
    } else {
        done
    }
}

/// The lines of a text, as [`lines_of`] says.
pub fn split_lines(text: &str) -> (r: Vec<Vec<char>>)
    ensures
        r@.map_values(|l: Vec<char>| l@) == lines_of(text@),
{
    let chars = chars_of(text);
    let mut done: Vec<Vec<char>> = Vec::new();
    let mut cur: Vec<char> = Vec::new();
    let mut i: usize = 0;
    while i < chars.len()
        invariant
            i <= chars@.len(),
            chars@ == text@,
            (done@.map_values(|l: Vec<char>| l@), cur@) == split_state(chars@.take(i as int)),
        decreases chars@.len() - i,
    {
        proof {
            assert(chars@.take(i + 1).drop_last() =~= chars@.take(i as int));
        }
        let c = chars[i];
        if c == '\n' {
            let n = cur.len();
            let line = if n > 0 && cur[n - 1] == '\r' {
                slice_chars(&cur, 0, n - 1)
            } else {
                slice_chars(&cur, 0, n)
            };
            proof {
                assert(line@ =~= strip_cr(cur@));
            }
            let ghost before = done@;
            done.push(line);
            cur = Vec::new();
            proof {
                assert(done@.map_values(|l: Vec<char>| l@) =~= before.map_values(|l: Vec<char>| l@).push(
                    strip_cr(split_state(chars@.take(i as int)).1),
                ));
            }
        } else {
            cur.push(c);
        }
        i += 1;
    }
    proof {
        assert(chars@.take(chars@.len() as int) =~= chars@);
    }
    if cur.len() > 0 {
        let ghost before = done@;
        let ghost cv = cur@;
        done.push(cur);
        proof {
            assert(done@.map_values(|l: Vec<char>| l@) =~= before.map_values(|l: Vec<char>| l@).push(cv));
        }
    }
    done
}

/// The trimmed, non-empty pieces among `pieces`, in order.
pub open spec fn nonempty_trimmed(pieces: Seq<Seq<char>>) -> Seq<Seq<char>>
    decreases pieces.len(),
{
    if pieces.len() == 0 {
        Seq::empty()
    } else {
        nonempty_trimmed(pieces.drop_last()) + if trim_seq(pieces.last()).len() > 0 {
            seq![trim_seq(pieces.last())]
        } else {
            Seq::empty()
        }
    }
}

/// The codes of a suppression comment's list: split at commas, trimmed,
/// empty pieces dropped.
pub open spec fn codes_in(list: Seq<char>) -> Seq<Seq<char>> {
    nonempty_trimmed(split_on(list, ','))
}

/// The codes of a suppression comment's list (see [`codes_in`]).
pub fn split_codes(list: &[char]) -> (r: Vec<String>)
    ensures
        strings_view(r@) == codes_in(list@),
        forall|k: int| 0 <= k < r@.len() ==> (#[trigger] r@[k])@.len() > 0,
{
    let pieces = split_chars(list, ',');
    let ghost pv = lines_view(pieces@);
    let mut out: Vec<String> = Vec::new();
    let mut i: usize = 0;
    while i < pieces.len()
        invariant
            i <= pieces@.len(),
            pv == lines_view(pieces@),
            pv == split_on(list@, ','),
            strings_view(out@) == nonempty_trimmed(pv.take(i as int)),
            forall|k: int| 0 <= k < out@.len() ==> (#[trigger] out@[k])@.len() > 0,
        decreases pieces@.len() - i,
    {
        proof {
            assert(pv.take(i + 1).drop_last() =~= pv.take(i as int));
            assert(pv.take(i + 1).last() == pieces@[i as int]@);
        }
        let piece = trim(pieces[i].as_slice());
        let ghost before = out@;
        if piece.len() > 0 {
            out.push(string_of(&piece));
            proof {
                assert(strings_view(out@) =~= strings_view(before).push(piece@));
            }
        }
        i += 1;
    }
    proof {
        assert(pv.take(pv.len() as int) =~= pv);
    }
    out
}

/// Every code a directive names is a registered rule that can be filtered.
pub open spec fn directives_valid(s: Suppressions) -> bool {
    directives_valid_parts(s.lines@, s.file@)
}

proof fn lemma_valid_push_line(lines: Seq<LineDirective>, file: Seq<FileDirective>, d: LineDirective)
    requires
        directives_valid_parts(lines, file),
        d.codes matches Some(cs) ==> forall|q: int|
            0 <= q < cs@.len() ==> rule_codes().contains((#[trigger] cs@[q])@) && !unfilterable(cs@[q]@),
    ensures
        directives_valid_parts(lines.push(d), file),
{
    let l2 = lines.push(d);
    assert forall|k: int, j: int|
        #![trigger l2[k], l2[k].codes->Some_0@[j]]
        0 <= k < l2.len() && l2[k].codes is Some && 0 <= j < l2[k].codes->Some_0@.len() implies rule_codes().contains(
        l2[k].codes->Some_0@[j]@,
    ) && !unfilterable(l2[k].codes->Some_0@[j]@) by {
        if k < lines.len() {
            assert(l2[k] == lines[k]);
        }
    }
}

proof fn lemma_valid_push_file(lines: Seq<LineDirective>, file: Seq<FileDirective>, d: FileDirective)
    requires
        directives_valid_parts(lines, file),
        rule_codes().contains(d.code@) && !unfilterable(d.code@),
    ensures
        directives_valid_parts(lines, file.push(d)),
{
    let f2 = file.push(d);
    assert forall|k: int| #![trigger f2[k]] 0 <= k < f2.len() implies rule_codes().contains(f2[k].code@)
        && !unfilterable(f2[k].code@) by {
        if k < file.len() {
            assert(f2[k] == file[k]);
        }
    }
}

/// [`directives_valid`] of the two lists of directives.
pub open spec fn directives_valid_parts(lines: Seq<LineDirective>, file: Seq<FileDirective>) -> bool {
    &&& forall|k: int|
        #![trigger file[k]]
        0 <= k < file.len() ==> rule_codes().contains(file[k].code@) && !unfilterable(file[k].code@)
    &&& forall|k: int, j: int|
        #![trigger lines[k], lines[k].codes->Some_0@[j]]
        0 <= k < lines.len() && lines[k].codes is Some && 0 <= j < lines[k].codes->Some_0@.len()
            ==> rule_codes().contains(lines[k].codes->Some_0@[j]@) && !unfilterable(
            lines[k].codes->Some_0@[j]@,
        )
}

fn line_warning(code: &'static str, message: Vec<char>, line: usize) -> (d: Diagnostic)
    ensures
        d.code == code,
        d.level == DiagLevel::Warning,
        diag_view(d) == (DiagLevel::Warning, code@, message@, None::<Seq<char>>, Some(line), None::<usize>),
{
    Diagnostic::warning(code, string_of(&message)).at_line(Some(line))
}

/// A diagnostic by its values: level, code, message, location, line, column.
pub type DiagView = (DiagLevel, Seq<char>, Seq<char>, Option<Seq<char>>, Option<usize>, Option<usize>);

/// The values of a diagnostic.
pub open spec fn diag_view(d: Diagnostic) -> DiagView {
    (d.level, d.code@, d.message@, crate::frontmatter::opt_view(d.location), d.line, d.column)
}

/// The values of a diagnostic built with a level, code and message, then
/// given a location and a source position.
pub open spec fn placed_view(
    level: DiagLevel,
    code: Seq<char>,
    message: Seq<char>,
    location: Option<Seq<char>>,
    pos: Option<crate::error::SourcePos>,
) -> DiagView {
    match pos {
        Some(p) => (level, code, message, location, Some(p.line), Some(p.column)),
        None => (level, code, message, location, None, None),
    }
}

/// The values of a list of diagnostics.
pub open spec fn diags_view(s: Seq<Diagnostic>) -> Seq<DiagView> {
    s.map_values(|d: Diagnostic| diag_view(d))
}

/// A line directive by its values: line and codes (`None` when bare).
pub type LineView = (usize, Option<Seq<Seq<char>>>);

/// A file directive by its values: line and code.
pub type FileView = (usize, Seq<char>);

/// The values of a list of line directives.
pub open spec fn line_views(s: Seq<LineDirective>) -> Seq<LineView> {
    s.map_values(
        |d: LineDirective|
            (
                d.line,
                match d.codes {
                    Some(cs) => Some(strings_view(cs@)),
                    None => None,
                },
            ),
    )
}

/// The values of a list of file directives.
pub open spec fn file_views(s: Seq<FileDirective>) -> Seq<FileView> {
    s.map_values(|d: FileDirective| (d.line, d.code@))
}

/// The codes a suppression comment names: its capture group 2 split as
/// [`codes_in`] says, or none.
pub open spec fn capture_codes(t: Seq<char>, m: Seq<Option<(usize, usize)>>) -> Seq<Seq<char>> {
    if m.len() > 2 && m[2] is Some {
        let span = m[2]->Some_0;
        codes_in(t.subrange(span.0 as int, span.1 as int))
    } else {
        Seq::empty()
    }
}

/// The comment is file-level (`lexicon-ignore-file`): group 1 matched.
pub open spec fn file_level(m: Seq<Option<(usize, usize)>>) -> bool {
    m.len() > 1 && m[1] is Some
}

/// A code a directive may name: a registered rule that can be filtered.
pub open spec fn usable_code(c: Seq<char>) -> bool {
    rule_codes().contains(c) && !unfilterable(c)
}

/// The usable codes among `cs`, in order.
pub open spec fn valid_codes(cs: Seq<Seq<char>>) -> Seq<Seq<char>>
    decreases cs.len(),
{
    if cs.len() == 0 {
        Seq::empty()
    } else {
        valid_codes(cs.drop_last()) + if usable_code(cs.last()) {
            seq![cs.last()]
        } else {
            Seq::empty()
        }
    }
}

/// The warning for a code a comment names at `line`: unknown rules and
/// rules that can never be filtered are reported.
pub open spec fn code_diag(c: Seq<char>, line: usize) -> Seq<DiagView> {
    if !rule_codes().contains(c) {
        seq![
            (
                DiagLevel::Warning,
                "unknown-lint-rule"@,
                "Suppression comment names unknown rule '"@ + c + "'"@,
                None,
                Some(line),
                None,
            ),
        ]
    } else if unfilterable(c) {
        seq![
            (
                DiagLevel::Warning,
                "invalid-suppression"@,
                "Rule '"@ + c + "' cannot be suppressed"@,
                None,
                Some(line),
                None,
            ),
        ]
    } else {
        Seq::empty()
    }
}

/// The warnings for the codes `cs` a comment names at `line`.
pub open spec fn code_diags(cs: Seq<Seq<char>>, line: usize) -> Seq<DiagView>
    decreases cs.len(),
{
    if cs.len() == 0 {
        Seq::empty()
    } else {
        code_diags(cs.drop_last(), line) + code_diag(cs.last(), line)
    }
}

/// The message for a file-level comment that names no code.
pub open spec fn bare_file_message() -> Seq<char> {
    "lexicon-ignore-file requires one or more rule codes (e.g. <!-- lexicon-ignore-file: unused-anchor -->)"@
}

/// The warnings one comment at `line` gives.
pub open spec fn capture_diags(t: Seq<char>, m: Seq<Option<(usize, usize)>>, line: usize) -> Seq<DiagView> {
    let cs = capture_codes(t, m);
    code_diags(cs, line) + if file_level(m) && cs.len() == 0 {
        seq![(DiagLevel::Warning, "invalid-suppression"@, bare_file_message(), None, Some(line), None)]
    } else {
        Seq::empty()
    }
}

/// The file directives one comment at `line` makes: one per usable code of
/// a file-level comment.
pub open spec fn capture_files(t: Seq<char>, m: Seq<Option<(usize, usize)>>, line: usize) -> Seq<FileView> {
    if file_level(m) {
        valid_codes(capture_codes(t, m)).map_values(|c: Seq<char>| (line, c))
    } else {
        Seq::empty()
    }
}

/// The line directive one comment at `line` makes: a line-level comment
/// makes one, bare when it names no code.
pub open spec fn capture_lines(t: Seq<char>, m: Seq<Option<(usize, usize)>>, line: usize) -> Seq<LineView> {
    if file_level(m) {
        Seq::empty()
    } else if capture_codes(t, m).len() == 0 {
        seq![(line, None)]
    } else {
        seq![(line, Some(valid_codes(capture_codes(t, m))))]
    }
}

/// The line directives the comments `caps` on a line make.
pub open spec fn caps_lines(t: Seq<char>, caps: Seq<Seq<Option<(usize, usize)>>>, line: usize) -> Seq<LineView>
    decreases caps.len(),
{
    if caps.len() == 0 {
        Seq::empty()
    } else {
        caps_lines(t, caps.drop_last(), line) + capture_lines(t, caps.last(), line)
    }
}

/// The file directives the comments `caps` on a line make.
pub open spec fn caps_files(t: Seq<char>, caps: Seq<Seq<Option<(usize, usize)>>>, line: usize) -> Seq<FileView>
    decreases caps.len(),
{
    if caps.len() == 0 {
        Seq::empty()
    } else {
        caps_files(t, caps.drop_last(), line) + capture_files(t, caps.last(), line)
    }
}

/// The warnings the comments `caps` on a line give.
pub open spec fn caps_diags(t: Seq<char>, caps: Seq<Seq<Option<(usize, usize)>>>, line: usize) -> Seq<DiagView>
    decreases caps.len(),
{
    if caps.len() == 0 {
        Seq::empty()
    } else {
        caps_diags(t, caps.drop_last(), line) + capture_diags(t, caps.last(), line)
    }
}

/// The 1-based number of the line at index `i`.
pub open spec fn line_number(i: int) -> usize {
    if i < usize::MAX {
        (i + 1) as usize
    } else {
        i as usize
    }
}

/// The suppression comments on the line at index `i` of `ls`.
pub open spec fn comments_on(ls: Seq<Seq<char>>, i: int) -> Seq<Seq<Option<(usize, usize)>>> {
    regex_captures(SUPPRESSION_PATTERN@, ls[i])
}

/// The line directives the lines `ls` make.
pub open spec fn scan_lines(ls: Seq<Seq<char>>) -> Seq<LineView>
    decreases ls.len(),
{
    if ls.len() == 0 {
        Seq::empty()
    } else {
        let i = ls.len() - 1;
        scan_lines(ls.drop_last()) + caps_lines(ls[i], comments_on(ls, i), line_number(i))
    }
}

/// The file directives the lines `ls` make.
pub open spec fn scan_files(ls: Seq<Seq<char>>) -> Seq<FileView>
    decreases ls.len(),
{
    if ls.len() == 0 {
        Seq::empty()
    } else {
        let i = ls.len() - 1;
        scan_files(ls.drop_last()) + caps_files(ls[i], comments_on(ls, i), line_number(i))
    }
}

/// The warnings the suppression comments of the lines `ls` give.
pub open spec fn scan_diags(ls: Seq<Seq<char>>) -> Seq<DiagView>
    decreases ls.len(),
{
    if ls.len() == 0 {
        Seq::empty()
    } else {
        let i = ls.len() - 1;
        scan_diags(ls.drop_last()) + caps_diags(ls[i], comments_on(ls, i), line_number(i))
    }
}

/// The directives `s` are exactly those the comments of `input` make, none
/// used yet.
pub open spec fn scanned(s: Suppressions, input: Seq<char>) -> bool {
    &&& line_views(s.lines@) == scan_lines(lines_of(input))
    &&& file_views(s.file@) == scan_files(lines_of(input))
    &&& forall|k: int| 0 <= k < s.lines@.len() ==> !(#[trigger] s.lines@[k]).used
    &&& forall|k: int| 0 <= k < s.file@.len() ==> !(#[trigger] s.file@[k]).used
}

/// Apply one suppression comment of a line: its warnings, and the
/// directives it makes.
fn apply_comment(
    chars: &Vec<char>,
    groups: &Vec<Option<(usize, usize)>>,
    line: usize,
    lines: &mut Vec<LineDirective>,
    file: &mut Vec<FileDirective>,
    diags: &mut Vec<Diagnostic>,
)
    requires
        forall|g: int| 0 <= g < groups@.len() ==> (#[trigger] groups@[g] matches Some(sp) ==> sp.0 <= sp.1 <= chars@.len()),
        directives_valid_parts(old(lines)@, old(file)@),
        forall|k: int| 0 <= k < old(lines)@.len() ==> !(#[trigger] old(lines)@[k]).used,
        forall|k: int| 0 <= k < old(file)@.len() ==> !(#[trigger] old(file)@[k]).used,
    ensures
        line_views(final(lines)@) == line_views(old(lines)@) + capture_lines(chars@, groups@, line),
        file_views(final(file)@) == file_views(old(file)@) + capture_files(chars@, groups@, line),
        diags_view(final(diags)@) == diags_view(old(diags)@) + capture_diags(chars@, groups@, line),
        directives_valid_parts(final(lines)@, final(file)@),
        forall|k: int| 0 <= k < final(lines)@.len() ==> !(#[trigger] final(lines)@[k]).used,
        forall|k: int| 0 <= k < final(file)@.len() ==> !(#[trigger] final(file)@[k]).used,
        forall|k: int|
            old(diags)@.len() <= k < final(diags)@.len() ==> (#[trigger] final(diags)@[k]).code@
                == "unknown-lint-rule"@ || final(diags)@[k].code@ == "invalid-suppression"@,
        final(diags)@.take(old(diags)@.len() as int) == old(diags)@,
{
    let ghost t = chars@;
    let ghost d0 = diags@;
    let is_file = groups.len() > 1 && groups[1].is_some();
    let codes: Vec<String> = if groups.len() > 2 {
        match groups[2] {
            Some(span) => split_codes(&slice_chars(chars, span.0, span.1)),
            None => Vec::new(),
        }
    } else {
        Vec::new()
    };
    let ghost cs = strings_view(codes@);
    proof {
        assert(cs == capture_codes(t, groups@));
        assert(is_file == file_level(groups@));
        assert(diags@.take(d0.len() as int) =~= d0);
    }
    let is_bare = codes.len() == 0;
    let mut valid: Vec<String> = Vec::new();
    let mut k: usize = 0;
    while k < codes.len()
        invariant
            k <= codes@.len(),
            cs == strings_view(codes@),
            strings_view(valid@) == valid_codes(cs.take(k as int)),
            diags_view(diags@) == diags_view(d0) + code_diags(cs.take(k as int), line),
            diags@.take(d0.len() as int) == d0,
            forall|q: int|
                0 <= q < valid@.len() ==> rule_codes().contains((#[trigger] valid@[q])@)
                    && !unfilterable(valid@[q]@),
            forall|q: int|
                d0.len() <= q < diags@.len() ==> (#[trigger] diags@[q]).code@ == "unknown-lint-rule"@
                    || diags@[q].code@ == "invalid-suppression"@,
        decreases codes@.len() - k,
    {
        proof {
            assert(cs.take(k + 1).drop_last() =~= cs.take(k as int));
            assert(cs.take(k + 1).last() == codes@[k as int]@);
        }
        let code = codes[k].as_str();
        let ghost dv = diags@;
        if !is_known_rule(code) {
            let mut msg: Vec<char> = Vec::new();
            extend_str(&mut msg, "Suppression comment names unknown rule '");
            extend_str(&mut msg, code);
            extend_str(&mut msg, "'");
            diags.push(line_warning("unknown-lint-rule", msg, line));
            proof {
                assert(diags_view(diags@) =~= diags_view(dv).push(diag_view(diags@.last())));
                assert(diags@.take(d0.len() as int) =~= d0);
            }
        } else if is_unfilterable(code) {
            let mut msg: Vec<char> = Vec::new();
            extend_str(&mut msg, "Rule '");
            extend_str(&mut msg, code);
            extend_str(&mut msg, "' cannot be suppressed");
            diags.push(line_warning("invalid-suppression", msg, line));
            proof {
                assert(diags_view(diags@) =~= diags_view(dv).push(diag_view(diags@.last())));
                assert(diags@.take(d0.len() as int) =~= d0);
            }
        } else {
            let ghost vb = valid@;
            valid.push(codes[k].clone());
            proof {
                assert(strings_view(valid@) =~= strings_view(vb).push(codes@[k as int]@));
            }
        }
        proof {
            assert(code_diags(cs.take(k + 1), line) == code_diags(cs.take(k as int), line) + code_diag(
                cs[k as int],
                line,
            ));
        }
        k += 1;
    }
    proof {
        assert(cs.take(cs.len() as int) =~= cs);
    }
    if is_file {
        if is_bare {
            let mut msg: Vec<char> = Vec::new();
            extend_str(
                &mut msg,
                "lexicon-ignore-file requires one or more rule codes (e.g. <!-- lexicon-ignore-file: unused-anchor -->)",
            );
            let ghost dv = diags@;
            diags.push(line_warning("invalid-suppression", msg, line));
            proof {
                assert(diags_view(diags@) =~= diags_view(dv).push(diag_view(diags@.last())));
                assert(diags@.take(d0.len() as int) =~= d0);
                assert(valid_codes(cs) =~= Seq::<Seq<char>>::empty());
                assert(capture_files(t, groups@, line) =~= Seq::<FileView>::empty());
                assert(file_views(file@) =~= file_views(old(file)@) + capture_files(t, groups@, line));
            }
        } else {
            let ghost vs = strings_view(valid@);
            let ghost f0 = file_views(file@);
            let total = valid.len();
            let mut valid = valid;
            let mut j: usize = 0;
            while valid.len() > 0
                invariant
                    vs.len() == total,
                    j <= vs.len(),
                    strings_view(valid@) == vs.skip(j as int),
                    file_views(file@) == f0 + vs.take(j as int).map_values(|c: Seq<char>| (line, c)),
                    forall|q: int|
                        0 <= q < valid@.len() ==> rule_codes().contains((#[trigger] valid@[q])@)
                            && !unfilterable(valid@[q]@),
                    directives_valid_parts(lines@, file@),
                    forall|q: int| 0 <= q < file@.len() ==> !(#[trigger] file@[q]).used,
                decreases valid@.len(),
            {
                let ghost v0 = valid@;
                proof {
                    assert(strings_view(v0).len() == v0.len());
                    assert(j < vs.len());
                    assert(strings_view(v0)[0] == vs.skip(j as int)[0]);
                }
                let code = valid.remove(0);
                proof {
                    assert(code == v0[0]);
                    assert(code@ == vs[j as int]);
                    assert(strings_view(valid@) =~= strings_view(v0).skip(1));
                    assert(strings_view(v0).skip(1) =~= vs.skip(j + 1));
                    assert forall|q: int| 0 <= q < valid@.len() implies rule_codes().contains((#[trigger] valid@[q])@)
                        && !unfilterable(valid@[q]@) by {
                        assert(valid@[q] == v0[q + 1]);
                    }
                }
                let d = FileDirective { line, code, used: false };
                proof {
                    lemma_valid_push_file(lines@, file@, d);
                }
                let ghost fb = file@;
                file.push(d);
                proof {
                    assert(file_views(file@) =~= file_views(fb).push((line, vs[j as int])));
                    assert(vs.take(j + 1).map_values(|c: Seq<char>| (line, c)) =~= vs.take(j as int).map_values(
                        |c: Seq<char>| (line, c),
                    ).push((line, vs[j as int])));
                }
                j += 1;
            }
            proof {
                assert(vs.take(j as int) =~= vs);
                assert(capture_diags(t, groups@, line) =~= code_diags(cs, line));
            }
        }
    } else {
        let codes = if is_bare {
            None
        } else {
            Some(valid)
        };
        let d = LineDirective { line, codes, used: false };
        proof {
            lemma_valid_push_line(lines@, file@, d);
        }
        let ghost lb = lines@;
        lines.push(d);
        proof {
            assert(line_views(lines@) =~= line_views(lb).push(
                (
                    line,
                    match d.codes {
                        Some(cs) => Some(strings_view(cs@)),
                        None => None,
                    },
                ),
            ));
            assert(capture_diags(t, groups@, line) =~= code_diags(cs, line));
        }
    }
}

/// Scan the source for suppression comments: the directives they make and
/// diagnostics about malformed or unknown ones (see [`scanned`] and
/// [`scan_diags`]). Codes that are unknown or can never be filtered are
/// reported and left out; a file-level comment needs at least one code; a
/// line-level comment with no codes suppresses every rule, but one whose
/// codes were all left out suppresses nothing.
pub fn scan_suppressions(input: &str) -> (r: (Suppressions, Vec<Diagnostic>))
    ensures
        scanned(r.0, input@),
        diags_view(r.1@) == scan_diags(lines_of(input@)),
        directives_valid(r.0),
        forall|k: int| 0 <= k < r.0.lines@.len() ==> !(#[trigger] r.0.lines@[k]).used,
        forall|k: int| 0 <= k < r.0.file@.len() ==> !(#[trigger] r.0.file@[k]).used,
        forall|k: int|
            0 <= k < r.1@.len() ==> (#[trigger] r.1@[k]).code@ == "unknown-lint-rule"@ || r.1@[k].code@
                == "invalid-suppression"@,
{
    let mut lines: Vec<LineDirective> = Vec::new();
    let mut file: Vec<FileDirective> = Vec::new();
    let mut diags: Vec<Diagnostic> = Vec::new();
    let all = split_lines(input);
    let ghost ls = all@.map_values(|l: Vec<char>| l@);
    let mut idx: usize = 0;
    proof {
        assert(ls.take(0) =~= Seq::<Seq<char>>::empty());
    }
    while idx < all.len()
        invariant
            idx <= all@.len(),
            ls == all@.map_values(|l: Vec<char>| l@),
            ls == lines_of(input@),
            line_views(lines@) == scan_lines(ls.take(idx as int)),
            file_views(file@) == scan_files(ls.take(idx as int)),
            diags_view(diags@) == scan_diags(ls.take(idx as int)),
            directives_valid_parts(lines@, file@),
            forall|k: int| 0 <= k < lines@.len() ==> !(#[trigger] lines@[k]).used,
            forall|k: int| 0 <= k < file@.len() ==> !(#[trigger] file@[k]).used,
            forall|k: int|
                0 <= k < diags@.len() ==> (#[trigger] diags@[k]).code@ == "unknown-lint-rule"@
                    || diags@[k].code@ == "invalid-suppression"@,
        decreases all@.len() - idx,
    {
        let line = if idx < usize::MAX {
            idx + 1
        } else {
            idx
        };
        let text = string_of(&all[idx]);
        let caps = regex_captures_all(SUPPRESSION_PATTERN, text.as_str());
        let chars = chars_of(text.as_str());
        let ghost t = chars@;
        let ghost cv = caps@.map_values(|m: Vec<Option<(usize, usize)>>| m@);
        let ghost l0 = line_views(lines@);
        let ghost f0 = file_views(file@);
        let ghost g0 = diags_view(diags@);
        proof {
            assert(t == ls[idx as int]);
            assert(cv == comments_on(ls.take(idx + 1), idx as int));
            assert(line == line_number(idx as int));
            assert(cv.take(0) =~= Seq::<Seq<Option<(usize, usize)>>>::empty());
        }
        let mut c: usize = 0;
        while c < caps.len()
            invariant
                c <= caps@.len(),
                chars@ == t,
                t == text@,
                cv == caps@.map_values(|m: Vec<Option<(usize, usize)>>| m@),
                forall|i: int, g: int|
                    0 <= i < caps@.len() && 0 <= g < caps@[i]@.len() ==> (#[trigger] caps@[i]@[g] matches Some(
                        sp,
                    ) ==> sp.0 <= sp.1 <= text@.len()),
                line_views(lines@) == l0 + caps_lines(t, cv.take(c as int), line),
                file_views(file@) == f0 + caps_files(t, cv.take(c as int), line),
                diags_view(diags@) == g0 + caps_diags(t, cv.take(c as int), line),
                directives_valid_parts(lines@, file@),
                forall|k: int| 0 <= k < lines@.len() ==> !(#[trigger] lines@[k]).used,
                forall|k: int| 0 <= k < file@.len() ==> !(#[trigger] file@[k]).used,
                forall|k: int|
                    0 <= k < diags@.len() ==> (#[trigger] diags@[k]).code@ == "unknown-lint-rule"@
                        || diags@[k].code@ == "invalid-suppression"@,
            decreases caps@.len() - c,
        {
            proof {
                assert(cv.take(c + 1).drop_last() =~= cv.take(c as int));
                assert(cv.take(c + 1).last() == caps@[c as int]@);
                assert forall|g: int| 0 <= g < caps@[c as int]@.len() implies (#[trigger] caps@[c as int]@[g] matches Some(
                    sp,
                ) ==> sp.0 <= sp.1 <= chars@.len()) by {}
            }
            let ghost dl = diags@.len();
            let ghost old_d = diags@;
            apply_comment(&chars, &caps[c], line, &mut lines, &mut file, &mut diags);
            proof {
                assert(diags_view(diags@).len() == diags@.len());
                assert(diags_view(old_d).len() == dl);
                assert(diags@.len() >= dl);
                assert forall|k: int| 0 <= k < diags@.len() implies (#[trigger] diags@[k]).code@ == "unknown-lint-rule"@
                    || diags@[k].code@ == "invalid-suppression"@ by {
                    if k < dl {
                        assert(diags@[k] == diags@.take(dl as int)[k]);
                        assert(diags@.take(dl as int)[k] == old_d[k]);
                    }
                }
                assert(l0 + caps_lines(t, cv.take(c + 1), line) =~= l0 + caps_lines(t, cv.take(c as int), line) + capture_lines(t, caps@[c as int]@, line));
                assert(f0 + caps_files(t, cv.take(c + 1), line) =~= f0 + caps_files(t, cv.take(c as int), line) + capture_files(t, caps@[c as int]@, line));
                assert(g0 + caps_diags(t, cv.take(c + 1), line) =~= g0 + caps_diags(t, cv.take(c as int), line) + capture_diags(t, caps@[c as int]@, line));
            }
            c += 1;
        }
        proof {
            assert(cv.take(cv.len() as int) =~= cv);
            assert(ls.take(idx + 1).drop_last() =~= ls.take(idx as int));
            assert(ls.take(idx + 1)[idx as int] == ls[idx as int]);
        }
        idx += 1;
    }
    proof {
        assert(ls.take(ls.len() as int) =~= ls);
    }
    (Suppressions { lines, file }, diags)
}

// ---------------------------------------------------------------------------
// Filtering
// ---------------------------------------------------------------------------

/// A diagnostic with the severity override of its code applied.
pub open spec fn relevel(d: Diagnostic, options: LintOptions) -> Diagnostic {
    match severity_of(options.severity@, d.code@) {
        Some(l) => Diagnostic { level: l, ..d },
        None => d,
    }
}

/// The options ignore `code`.
pub open spec fn ignored(options: LintOptions, code: Seq<char>) -> bool {
    strings_view(options.ignore@).contains(code)
}

/// What filtering keeps of `diags`, in order: a diagnostic that can never
/// be filtered as it is; any other, re-levelled by its override, unless a
/// suppression applies to it (the suppression machinery's own codes aside)
/// or its code is ignored.
pub open spec fn filtered(diags: Seq<Diagnostic>, options: LintOptions, supp: Suppressions) -> Seq<
    Diagnostic,
>
    decreases diags.len(),
{
    if diags.len() == 0 {
        Seq::empty()
    } else {
        let d = diags.last();
        filtered(diags.drop_last(), options, supp) + if unfilterable(d.code@) {
            seq![d]
        } else if (!machinery(d.code@) && suppressed(supp, d.code@, d.line)) || ignored(options, d.code@) {
            Seq::empty()
        } else {
            seq![relevel(d, options)]
        }
    }
}

fn find_severity(pairs: &Vec<(String, DiagLevel)>, code: &str) -> (r: Option<DiagLevel>)
    ensures
        r == severity_of(pairs@, code@),
{
    let mut i: usize = 0;
    proof {
        assert(pairs@.skip(0) =~= pairs@);
    }
    while i < pairs.len()
        invariant
            i <= pairs@.len(),
            severity_of(pairs@, code@) == severity_of(pairs@.skip(i as int), code@),
        decreases pairs@.len() - i,
    {
        proof {
            assert(pairs@.skip(i as int).drop_first() =~= pairs@.skip(i + 1));
            assert(pairs@.skip(i as int)[0] == pairs@[i as int]);
        }
        if str_eq(pairs[i].0.as_str(), code) {
            return Some(pairs[i].1);
        }
        i += 1;
    }
    proof {
        assert(pairs@.skip(i as int) =~= Seq::<(String, DiagLevel)>::empty());
    }
    None
}

/// Apply severity overrides, suppressions and the ignore list to a list of
/// diagnostics (see [`filtered`]). Suppressions are checked before the
/// ignore list, so a directive counts as used even when its rule is also
/// ignored.
pub fn apply_filters(diagnostics: Vec<Diagnostic>, options: &LintOptions, supp: &mut Suppressions) -> (r: Vec<Diagnostic>)
    ensures
        r@ == filtered(diagnostics@, *options, *old(supp)),
        same_directives(*old(supp), *final(supp)),
        marked(*old(supp), *final(supp), diagnostics@),
{
    let ghost all = diagnostics@;
    let total = diagnostics.len();
    let mut rest = diagnostics;
    let mut kept: Vec<Diagnostic> = Vec::new();
    let mut n: usize = 0;
    proof {
        assert(all.take(0) =~= Seq::<Diagnostic>::empty());
        assert(same_directives(*old(supp), *supp));
    }
    while rest.len() > 0
        invariant
            n + rest@.len() == all.len(),
            all.len() == total,
            rest@ == all.skip(n as int),
            kept@ == filtered(all.take(n as int), *options, *old(supp)),
            same_directives(*old(supp), *supp),
            marked(*old(supp), *supp, all.take(n as int)),
        decreases rest@.len(),
    {
        let d = rest.remove(0);
        proof {
            assert(d == all[n as int]);
            assert(rest@ =~= all.skip(n + 1));
            assert(all.take(n + 1).drop_last() =~= all.take(n as int));
            assert(all.take(n + 1).last() == d);
        }
        let ghost before = kept@;
        let ghost s0 = *supp;
        let ghost d_code = d.code@;
        let ghost d_line = d.line;
        if is_unfilterable(d.code) {
            kept.push(d);
        } else {
            let mut d = d;
            match find_severity(&options.severity, d.code) {
                Some(level) => {
                    d.level = level;
                },
                None => {},
            }
            let hit = if is_machinery(d.code) {
                false
            } else {
                let h = supp.matches(d.code, d.line);
                proof {
                    lemma_same_directives_suppressed(*old(supp), s0, d.code@, d.line);
                    lemma_same_directives_trans(*old(supp), s0, *supp);
                }
                h
            };
            let mut ignore_hit = false;
            let mut k: usize = 0;
            while k < options.ignore.len()
                invariant
                    k <= options.ignore@.len(),
                    ignore_hit == exists|q: int| 0 <= q < k && (#[trigger] options.ignore@[q])@ == d.code@,
                decreases options.ignore@.len() - k,
            {
                if str_eq(options.ignore[k].as_str(), d.code) {
                    ignore_hit = true;
                }
                k += 1;
            }
            proof {
                if ignore_hit {
                    let q = choose|q: int| 0 <= q < options.ignore@.len() && (#[trigger] options.ignore@[q])@ == d.code@;
                    assert(strings_view(options.ignore@)[q] == d.code@);
                }
                if ignored(*options, d.code@) {
                    let q = choose|q: int| 0 <= q < strings_view(options.ignore@).len() && strings_view(options.ignore@)[q] == d.code@;
                    assert(options.ignore@[q]@ == d.code@);
                }
            }
            if !hit && !ignore_hit {
                kept.push(d);
            }
        }
        n += 1;
        proof {
            assert(kept@ =~= filtered(all.take(n as int), *options, *old(supp)));
            let pre = all.take(n - 1);
            assert(all.take(n as int) == pre.push(all[n - 1]));
            let o = *old(supp);
            assert forall|k: int| 0 <= k < o.lines@.len() implies (#[trigger] supp.lines@[k]).used == (o.lines@[k].used
                || line_hit(o.lines@[k], all.take(n as int))) by {
                lemma_line_hit_push(pre, all[n - 1], o.lines@[k]);
            }
            assert forall|k: int| 0 <= k < o.file@.len() implies (#[trigger] supp.file@[k]).used == (o.file@[k].used
                || file_hit(o.file@[k], all.take(n as int))) by {
                lemma_file_hit_push(pre, all[n - 1], o.file@[k]);
            }
        }
    }
    proof {
        assert(all.take(n as int) =~= all);
    }
    kept
}

proof fn lemma_scanned_suppressed(s: Suppressions, t: Suppressions, input: Seq<char>, code: Seq<char>, line: Option<usize>)
    requires
        scanned(s, input),
        scanned(t, input),
    ensures
        suppressed(s, code, line) == suppressed(t, code, line),
{
    assert(line_views(s.lines@).len() == line_views(t.lines@).len());
    assert(file_views(s.file@).len() == file_views(t.file@).len());
    assert forall|k: int| 0 <= k < s.lines@.len() implies line_targets(#[trigger] s.lines@[k], code, line)
        == line_targets(t.lines@[k], code, line) by {
        assert(line_views(s.lines@)[k] == line_views(t.lines@)[k]);
    }
    assert forall|k: int| 0 <= k < s.file@.len() implies (#[trigger] s.file@[k]).code@ == t.file@[k].code@ by {
        assert(file_views(s.file@)[k] == file_views(t.file@)[k]);
    }
    if suppressed(s, code, line) {
        if exists|k: int| 0 <= k < s.file@.len() && (#[trigger] s.file@[k]).code@ == code {
            let k = choose|k: int| 0 <= k < s.file@.len() && (#[trigger] s.file@[k]).code@ == code;
            assert(t.file@[k].code@ == code);
        } else {
            let k = choose|k: int| 0 <= k < s.lines@.len() && line_targets(#[trigger] s.lines@[k], code, line);
            assert(line_targets(t.lines@[k], code, line));
        }
    }
    if suppressed(t, code, line) {
        if exists|k: int| 0 <= k < t.file@.len() && (#[trigger] t.file@[k]).code@ == code {
            let k = choose|k: int| 0 <= k < t.file@.len() && (#[trigger] t.file@[k]).code@ == code;
            assert(s.file@[k].code@ == code);
        } else {
            let k = choose|k: int| 0 <= k < t.lines@.len() && line_targets(#[trigger] t.lines@[k], code, line);
            assert(line_targets(s.lines@[k], code, line));
        }
    }
}

/// Build and lint never disagree about a finding: filtering the same
/// diagnostics under the same ignore list and severity overrides, with the
/// suppression comments of the same input, keeps the same diagnostics at
/// the same levels. [`filter_build_diagnostics`] and [`lint`] both filter
/// this way, with options made from the configuration as
/// [`LintOptions::validate`] makes them.
pub proof fn lemma_build_and_lint_agree(
    ds: Seq<Diagnostic>,
    build_options: LintOptions,
    lint_options: LintOptions,
    build_supp: Suppressions,
    lint_supp: Suppressions,
    input: Seq<char>,
)
    requires
        strings_view(build_options.ignore@) == strings_view(lint_options.ignore@),
        build_options.severity@ == lint_options.severity@,
        scanned(build_supp, input),
        scanned(lint_supp, input),
    ensures
        filtered(ds, build_options, build_supp) == filtered(ds, lint_options, lint_supp),
    decreases ds.len(),
{
    if ds.len() > 0 {
        lemma_build_and_lint_agree(ds.drop_last(), build_options, lint_options, build_supp, lint_supp, input);
        lemma_scanned_suppressed(build_supp, lint_supp, input, ds.last().code@, ds.last().line);
    }
}

/// A diagnostic that can never be filtered survives filtering unchanged.
pub proof fn lemma_unfilterable_survive(
    diags: Seq<Diagnostic>,
    options: LintOptions,
    supp: Suppressions,
    k: int,
)
    requires
        0 <= k < diags.len(),
        unfilterable(diags[k].code@),
    ensures
        filtered(diags, options, supp).contains(diags[k]),
    decreases diags.len(),
{
    let f = filtered(diags, options, supp);
    if k == diags.len() - 1 {
        assert(f[f.len() - 1] == diags[k]);
    } else {
        lemma_unfilterable_survive(diags.drop_last(), options, supp, k);
        let g = filtered(diags.drop_last(), options, supp);
        let j = choose|j: int| 0 <= j < g.len() && g[j] == diags.drop_last()[k];
        assert(f[j] == g[j]);
    }
}

/// The message for a line directive that matched nothing.
pub open spec fn unused_line_message() -> Seq<char> {
    "Suppression comment does not match any diagnostic on this or the next line"@
}

/// Info diagnostics for the line directives of `ls` not marked used.
pub open spec fn unused_line_diags(ls: Seq<LineDirective>) -> Seq<DiagView>
    decreases ls.len(),
{
    if ls.len() == 0 {
        Seq::empty()
    } else {
        unused_line_diags(ls.drop_last()) + if !ls.last().used {
            seq![
                (
                    DiagLevel::Info,
                    "unused-suppression"@,
                    unused_line_message(),
                    None,
                    Some(ls.last().line),
                    None,
                ),
            ]
        } else {
            Seq::empty()
        }
    }
}

/// Info diagnostics for the file directives of `fs` not marked used.
pub open spec fn unused_file_diags(fs: Seq<FileDirective>) -> Seq<DiagView>
    decreases fs.len(),
{
    if fs.len() == 0 {
        Seq::empty()
    } else {
        unused_file_diags(fs.drop_last()) + if !fs.last().used {
            seq![
                (
                    DiagLevel::Info,
                    "unused-suppression"@,
                    "File-level suppression of '"@ + fs.last().code@ + "' does not match any diagnostic"@,
                    None,
                    Some(fs.last().line),
                    None,
                ),
            ]
        } else {
            Seq::empty()
        }
    }
}

/// Info diagnostics for the directives that matched nothing: each line
/// directive, then each file directive, not marked used.
pub fn unused_suppression_diags(supp: &Suppressions) -> (r: Vec<Diagnostic>)
    ensures
        diags_view(r@) == unused_line_diags(supp.lines@) + unused_file_diags(supp.file@),
        forall|k: int| 0 <= k < r@.len() ==> (#[trigger] r@[k]).code@ == "unused-suppression"@
            && r@[k].level == DiagLevel::Info,
{
    let mut out: Vec<Diagnostic> = Vec::new();
    let mut k: usize = 0;
    while k < supp.lines.len()
        invariant
            k <= supp.lines@.len(),
            diags_view(out@) == unused_line_diags(supp.lines@.take(k as int)),
            forall|q: int| 0 <= q < out@.len() ==> (#[trigger] out@[q]).code@ == "unused-suppression"@
                && out@[q].level == DiagLevel::Info,
        decreases supp.lines@.len() - k,
    {
        proof {
            assert(supp.lines@.take(k + 1).drop_last() =~= supp.lines@.take(k as int));
        }
        let ghost before = out@;
        if !supp.lines[k].used {
            out.push(
                Diagnostic::info(
                    "unused-suppression",
                    string_of(
                        &chars_of(
                            "Suppression comment does not match any diagnostic on this or the next line",
                        ),
                    ),
                ).at_line(Some(supp.lines[k].line)),
            );
            proof {
                assert(diags_view(out@) =~= diags_view(before).push(diag_view(out@.last())));
            }
        }
        k += 1;
    }
    proof {
        assert(supp.lines@.take(supp.lines@.len() as int) =~= supp.lines@);
    }
    let ghost lpart = diags_view(out@);
    let mut k: usize = 0;
    while k < supp.file.len()
        invariant
            k <= supp.file@.len(),
            diags_view(out@) == lpart + unused_file_diags(supp.file@.take(k as int)),
            forall|q: int| 0 <= q < out@.len() ==> (#[trigger] out@[q]).code@ == "unused-suppression"@
                && out@[q].level == DiagLevel::Info,
        decreases supp.file@.len() - k,
    {
        proof {
            assert(supp.file@.take(k + 1).drop_last() =~= supp.file@.take(k as int));
        }
        let ghost before = out@;
        if !supp.file[k].used {
            let mut msg: Vec<char> = Vec::new();
            extend_str(&mut msg, "File-level suppression of '");
            extend_str(&mut msg, supp.file[k].code.as_str());
            extend_str(&mut msg, "' does not match any diagnostic");
            out.push(
                Diagnostic::info("unused-suppression", string_of(&msg)).at_line(
                    Some(supp.file[k].line),
                ),
            );
            proof {
                assert(diags_view(out@) =~= diags_view(before).push(diag_view(out@.last())));
            }
        }
        k += 1;
    }
    proof {
        assert(supp.file@.take(supp.file@.len() as int) =~= supp.file@);
    }
    out
}

/// Filter build diagnostics through the same pipeline as lint: severity
/// overrides, inline suppressions and the configured ignore list all apply,
/// so build and lint never disagree about a finding. Configuration mistakes
/// and unused suppressions are lint's to report, not build's.
pub fn filter_build_diagnostics(input: &str, diagnostics: Vec<Diagnostic>, config: &LintConfig) -> (r: Vec<Diagnostic>)
    ensures
        exists|options: LintOptions, supp: Suppressions|
            {
                &&& strings_view(options.ignore@) == filterable_codes(strings_view(config.ignore@))
                &&& options.severity@ == effective_pairs(config.severity@)
                &&& directives_valid(supp)
                &&& scanned(supp, input@)
                &&& r@ == filtered(diagnostics@, options, supp)
            },
{
    let mut options = LintOptions::from_config(config);
    let _ = options.validate();
    let (mut supp, _) = scan_suppressions(input);
    let ghost s0 = supp;
    let r = apply_filters(diagnostics, &options, &mut supp);
    proof {
        assert(directives_valid(s0) && r@ == filtered(diagnostics@, options, s0));
        assert(strings_view(options.ignore@) == filterable_codes(strings_view(config.ignore@)));
    }
    r
}

// ---------------------------------------------------------------------------
// Reports
// ---------------------------------------------------------------------------

/// The result of linting one document.
#[derive(Debug)]
pub struct LintReport {
    pub diagnostics: Vec<Diagnostic>,
}

/// Number of diagnostics of `s` at `level`.
pub open spec fn level_count(s: Seq<Diagnostic>, level: DiagLevel) -> nat
    decreases s.len(),
{
    if s.len() == 0 {
        0
    } else {
        level_count(s.drop_last(), level) + if s.last().level == level {
            1nat
        } else {
            0nat
        }
    }
}

proof fn lemma_level_count_bound(s: Seq<Diagnostic>, level: DiagLevel)
    ensures
        level_count(s, level) <= s.len(),
    decreases s.len(),
{
    if s.len() > 0 {
        lemma_level_count_bound(s.drop_last(), level);
    }
}

impl LintReport {
    /// A report of a single diagnostic (used for unreadable files).
    pub fn from_diagnostic(diagnostic: Diagnostic) -> (r: Self)
        ensures
            r.diagnostics@ == seq![diagnostic],
    {
        let mut diagnostics: Vec<Diagnostic> = Vec::new();
        diagnostics.push(diagnostic);
        LintReport { diagnostics }
    }

    fn count(&self, level: DiagLevel) -> (r: usize)
        ensures
            r == level_count(self.diagnostics@, level),
    {
        let mut c: usize = 0;
        let mut i: usize = 0;
        while i < self.diagnostics.len()
            invariant
                i <= self.diagnostics@.len(),
                c == level_count(self.diagnostics@.take(i as int), level),
            decreases self.diagnostics@.len() - i,
        {
            proof {
                assert(self.diagnostics@.take(i + 1).drop_last() =~= self.diagnostics@.take(i as int));
                lemma_level_count_bound(self.diagnostics@.take(i as int), level);
            }
            if self.diagnostics[i].level == level {
                c += 1;
            }
            i += 1;
        }
        proof {
            assert(self.diagnostics@.take(self.diagnostics@.len() as int) =~= self.diagnostics@);
        }
        c
    }

    /// Number of errors.
    pub fn error_count(&self) -> (r: usize)
        ensures
            r == level_count(self.diagnostics@, DiagLevel::Error),
    {
        self.count(DiagLevel::Error)
    }

    /// Number of warnings.
    pub fn warning_count(&self) -> (r: usize)
        ensures
            r == level_count(self.diagnostics@, DiagLevel::Warning),
    {
        self.count(DiagLevel::Warning)
    }

    /// Number of info diagnostics.
    pub fn info_count(&self) -> (r: usize)
        ensures
            r == level_count(self.diagnostics@, DiagLevel::Info),
    {
        self.count(DiagLevel::Info)
    }

    /// Whether the report has an error.
    pub fn has_errors(&self) -> (r: bool)
        ensures
            r == (level_count(self.diagnostics@, DiagLevel::Error) > 0),
    {
        self.error_count() > 0
    }

    /// Whether the report has a warning.
    pub fn has_warnings(&self) -> (r: bool)
        ensures
            r == (level_count(self.diagnostics@, DiagLevel::Warning) > 0),
    {
        self.warning_count() > 0
    }
}

// ---------------------------------------------------------------------------
// Lint-only checks
// ---------------------------------------------------------------------------

/// The values of a diagnostic located at the front-matter.
pub open spec fn front_matter_view(level: DiagLevel, code: Seq<char>, message: Seq<char>) -> DiagView {
    (level, code, message, Some("front-matter"@), None, None)
}

/// The info findings for parties without a name, in order.
pub open spec fn party_findings(ps: Seq<crate::model::Party>) -> Seq<DiagView>
    decreases ps.len(),
{
    if ps.len() == 0 {
        Seq::empty()
    } else {
        party_findings(ps.drop_last()) + if ps.last().name is None {
            seq![
                front_matter_view(
                    DiagLevel::Info,
                    "missing-party-name"@,
                    "Party '"@ + ps.last().role@
                        + "' has no name; the rendered document will show a placeholder"@,
                ),
            ]
        } else {
            Seq::empty()
        }
    }
}

/// The metadata findings of a document (see [`check_metadata`]).
pub open spec fn metadata_findings(meta: crate::model::DocumentMeta) -> Seq<DiagView> {
    (if meta.date is None {
        seq![
            front_matter_view(
                DiagLevel::Info,
                "missing-date"@,
                "No date set; the rendered document will show a blank date line"@,
            ),
        ]
    } else {
        Seq::empty()
    }) + party_findings(meta.parties@)
}

fn front_matter_info(code: &'static str, message: Vec<char>) -> (d: Diagnostic)
    ensures
        d.code == code,
        d.level == DiagLevel::Info,
        diag_view(d) == front_matter_view(DiagLevel::Info, code@, message@),
{
    Diagnostic::info(code, string_of(&message)).at(string_of(&chars_of("front-matter")))
}

/// Metadata completeness, at info level (legitimate in drafts): a missing
/// date, and each party without a name.
pub fn check_metadata(doc: &Document, diagnostics: &mut Vec<Diagnostic>)
    ensures
        final(diagnostics)@.len() >= old(diagnostics)@.len(),
        final(diagnostics)@.take(old(diagnostics)@.len() as int) == old(diagnostics)@,
        forall|k: int|
            old(diagnostics)@.len() <= k < final(diagnostics)@.len() ==> (#[trigger] final(diagnostics)@[k]).level
                == DiagLevel::Info,
        diags_view(final(diagnostics)@) == diags_view(old(diagnostics)@) + metadata_findings(doc.meta),
{
    let ghost d0 = diagnostics@;
    let ghost date_part = metadata_findings(doc.meta).take(
        metadata_findings(doc.meta).len() - party_findings(doc.meta.parties@).len(),
    );
    if doc.meta.date.is_none() {
        let mut m: Vec<char> = Vec::new();
        extend_str(&mut m, "No date set; the rendered document will show a blank date line");
        diagnostics.push(front_matter_info("missing-date", m));
    }
    proof {
        assert(date_part + party_findings(doc.meta.parties@) =~= metadata_findings(doc.meta));
        assert(diags_view(diagnostics@) =~= diags_view(d0) + date_part);
        assert(doc.meta.parties@.take(0) =~= Seq::<crate::model::Party>::empty());
    }
    let mut p: usize = 0;
    while p < doc.meta.parties.len()
        invariant
            p <= doc.meta.parties@.len(),
            diagnostics@.len() >= d0.len(),
            diagnostics@.take(d0.len() as int) == d0,
            d0 == old(diagnostics)@,
            forall|k: int|
                d0.len() <= k < diagnostics@.len() ==> (#[trigger] diagnostics@[k]).level == DiagLevel::Info,
            diags_view(diagnostics@) == diags_view(d0) + date_part + party_findings(
                doc.meta.parties@.take(p as int),
            ),
        decreases doc.meta.parties@.len() - p,
    {
        let ghost before = diagnostics@;
        proof {
            crate::parser::clause::lemma_take_next(doc.meta.parties@, p as int);
        }
        if doc.meta.parties[p].name.is_none() {
            let mut m: Vec<char> = Vec::new();
            extend_str(&mut m, "Party '");
            extend_str(&mut m, doc.meta.parties[p].role.as_str());
            extend_str(&mut m, "' has no name; the rendered document will show a placeholder");
            diagnostics.push(front_matter_info("missing-party-name", m));
            proof {
                assert(diagnostics@.take(d0.len() as int) =~= before.take(d0.len() as int));
                assert(diags_view(diagnostics@) =~= diags_view(before).push(diag_view(diagnostics@.last())));
            }
        }
        proof {
            assert(diags_view(diagnostics@) =~= diags_view(d0) + date_part + party_findings(
                doc.meta.parties@.take(p + 1),
            ));
        }
        p += 1;
    }
    proof {
        assert(doc.meta.parties@.take(p as int) =~= doc.meta.parties@);
    }
}

/// The finding about one exhibit file: a URL path is unsupported; a file
/// that does not exist at `resolved` is missing; one of an unsupported type
/// is refused; otherwise none.
pub open spec fn exhibit_finding_code(path: Seq<char>, exists: bool, type_ok: bool) -> Option<Seq<char>> {
    if "http://"@.is_prefix_of(path) || "https://"@.is_prefix_of(path) {
        Some("exhibit-url-unsupported"@)
    } else if !exists {
        Some("exhibit-file-missing"@)
    } else if !type_ok {
        Some("exhibit-unsupported-type"@)
    } else {
        None
    }
}

/// Whether `path` is an `http://` or `https://` URL.
pub fn is_url(path: &str) -> (r: bool)
    ensures
        r == ("http://"@.is_prefix_of(path@) || "https://"@.is_prefix_of(path@)),
{
    let v = chars_of(path);
    starts_with(&v, &chars_of("http://")) || starts_with(&v, &chars_of("https://"))
}

/// The message of an exhibit finding with code `code`.
pub open spec fn exhibit_finding_message(title: Seq<char>, path: Seq<char>, resolved: Seq<char>, code: Seq<char>) -> Seq<char> {
    if code == "exhibit-url-unsupported"@ {
        "Exhibit '"@ + title
            + "' uses a URL path; URL import is not supported \u{2014} download the file and use a local path"@
    } else if code == "exhibit-file-missing"@ {
        "Exhibit '"@ + title + "' file not found: "@ + resolved
    } else {
        "Exhibit '"@ + title + "' has unsupported file type '"@ + path + "' (supported: png, jpg, jpeg, pdf)"@
    }
}

/// The finding for one exhibit, by its values (see [`exhibit_finding`]).
pub open spec fn exhibit_finding_view(
    title: Seq<char>,
    path: Seq<char>,
    resolved: Seq<char>,
    exists: bool,
    type_ok: bool,
) -> Option<DiagView> {
    match exhibit_finding_code(path, exists, type_ok) {
        Some(c) => Some(
            front_matter_view(DiagLevel::Error, c, exhibit_finding_message(title, path, resolved, c)),
        ),
        None => None,
    }
}

/// The error for one exhibit, given whether its resolved file exists and
/// whether its type is supported (see [`exhibit_finding_code`]).
pub fn exhibit_finding(exhibit_title: &str, path: &str, resolved: &str, exists: bool, type_ok: bool) -> (r: Option<Diagnostic>)
    ensures
        match exhibit_finding_code(path@, exists, type_ok) {
            Some(c) => r matches Some(d) && d.code@ == c && d.level == DiagLevel::Error,
            None => r is None,
        },
        match r {
            Some(d) => exhibit_finding_view(exhibit_title@, path@, resolved@, exists, type_ok) == Some(
                diag_view(d),
            ),
            None => exhibit_finding_view(exhibit_title@, path@, resolved@, exists, type_ok) is None,
        },
{
    let mut m: Vec<char> = Vec::new();
    let code = if is_url(path) {
        extend_str(&mut m, "Exhibit '");
        extend_str(&mut m, exhibit_title);
        extend_str(
            &mut m,
            "' uses a URL path; URL import is not supported \u{2014} download the file and use a local path",
        );
        "exhibit-url-unsupported"
    } else if !exists {
        extend_str(&mut m, "Exhibit '");
        extend_str(&mut m, exhibit_title);
        extend_str(&mut m, "' file not found: ");
        extend_str(&mut m, resolved);
        "exhibit-file-missing"
    } else if !type_ok {
        extend_str(&mut m, "Exhibit '");
        extend_str(&mut m, exhibit_title);
        extend_str(&mut m, "' has unsupported file type '");
        extend_str(&mut m, path);
        extend_str(&mut m, "' (supported: png, jpg, jpeg, pdf)");
        "exhibit-unsupported-type"
    } else {
        return None;
    };
    proof {
        reveal_strlit("exhibit-url-unsupported");
        reveal_strlit("exhibit-file-missing");
        reveal_strlit("exhibit-unsupported-type");
        assert("exhibit-url-unsupported"@.len() == 23);
        assert("exhibit-file-missing"@.len() == 20);
        assert("exhibit-unsupported-type"@.len() == 24);
        if code@ == "exhibit-url-unsupported"@ {
            assert(m@ =~= exhibit_finding_message(exhibit_title@, path@, resolved@, code@));
        } else if code@ == "exhibit-file-missing"@ {
            assert(m@ =~= exhibit_finding_message(exhibit_title@, path@, resolved@, code@));
        } else {
            assert(m@ =~= exhibit_finding_message(exhibit_title@, path@, resolved@, code@));
        }
    }
    Some(Diagnostic::error(code, string_of(&m)).at(string_of(&chars_of("front-matter"))))
}

/// What a check of one exhibit can have found out of the file system:
/// the path it resolved to, whether a file is there, and whether its type
/// is supported. A URL is not looked up; a supported type is only found
/// for a file that is there; with no input directory a relative path
/// stands as it is.
pub open spec fn exhibit_outcome_ok(ex: Exhibit, o: (Seq<char>, bool, bool), input_dir: Option<Seq<char>>) -> bool {
    match ex.path {
        Some(p) => if "http://"@.is_prefix_of(p@) || "https://"@.is_prefix_of(p@) {
            o == (p@, true, true)
        } else {
            &&& o.2 ==> o.1
            &&& input_dir is None ==> o.0 == p@
        },
        None => true,
    }
}

/// The findings for the exhibits, one per exhibit with a path that has
/// one, given what was found out of the file system for each.
pub open spec fn exhibit_findings(exs: Seq<Exhibit>, outs: Seq<(Seq<char>, bool, bool)>) -> Seq<DiagView>
    decreases exs.len(),
{
    if exs.len() == 0 || outs.len() == 0 {
        Seq::empty()
    } else {
        exhibit_findings(exs.drop_last(), outs.drop_last()) + match exs.last().path {
            Some(p) => match exhibit_finding_view(
                exs.last().title@,
                p@,
                outs.last().0,
                outs.last().1,
                outs.last().2,
            ) {
                Some(v) => seq![v],
                None => Seq::empty(),
            },
            None => Seq::empty(),
        }
    }
}

/// Check that declared exhibit files exist and are of a supported type;
/// these fail a build at render time, so linting surfaces them early. A
/// relative path is resolved against `input_dir` when there is one.
pub fn check_exhibits(doc: &Document, input_dir: Option<&str>, diagnostics: &mut Vec<Diagnostic>)
    ensures
        final(diagnostics)@.len() >= old(diagnostics)@.len(),
        final(diagnostics)@.take(old(diagnostics)@.len() as int) == old(diagnostics)@,
        forall|k: int|
            old(diagnostics)@.len() <= k < final(diagnostics)@.len() ==> (#[trigger] final(diagnostics)@[k]).level
                == DiagLevel::Error,
        exists|outs: Seq<(Seq<char>, bool, bool)>|
            {
                &&& outs.len() == doc.meta.exhibits@.len()
                &&& forall|k: int|
                    0 <= k < outs.len() ==> exhibit_outcome_ok(
                        #[trigger] doc.meta.exhibits@[k],
                        outs[k],
                        crate::terms::str_opt_view(input_dir),
                    )
                &&& diags_view(final(diagnostics)@) == diags_view(old(diagnostics)@)
                    + exhibit_findings(doc.meta.exhibits@, outs)
            },
{
    let ghost d0 = diagnostics@;
    let ghost dir = crate::terms::str_opt_view(input_dir);
    let ghost mut outs: Seq<(Seq<char>, bool, bool)> = Seq::empty();
    let mut e: usize = 0;
    while e < doc.meta.exhibits.len()
        invariant
            e <= doc.meta.exhibits@.len(),
            dir == crate::terms::str_opt_view(input_dir),
            diagnostics@.len() >= d0.len(),
            diagnostics@.take(d0.len() as int) == d0,
            d0 == old(diagnostics)@,
            forall|k: int|
                d0.len() <= k < diagnostics@.len() ==> (#[trigger] diagnostics@[k]).level == DiagLevel::Error,
            outs.len() == e,
            forall|k: int|
                0 <= k < outs.len() ==> exhibit_outcome_ok(#[trigger] doc.meta.exhibits@[k], outs[k], dir),
            diags_view(diagnostics@) == diags_view(d0) + exhibit_findings(
                doc.meta.exhibits@.take(e as int),
                outs,
            ),
        decreases doc.meta.exhibits@.len() - e,
    {
        let ex = &doc.meta.exhibits[e];
        let ghost before = diagnostics@;
        let ghost outs0 = outs;
        proof {
            crate::parser::clause::lemma_take_next(doc.meta.exhibits@, e as int);
        }
        match &ex.path {
            Some(path) => {
                let ghost mut o: (Seq<char>, bool, bool) = (path@, true, true);
                let finding = if is_url(path.as_str()) {
                    exhibit_finding(ex.title.as_str(), path.as_str(), path.as_str(), true, true)
                } else {
                    let resolved = match resolve_exhibit_path(path.as_str(), input_dir) {
                        Ok(r) => r,
                        Err(_) => string_of(&chars_of(path.as_str())),
                    };
                    let exists = path_exists(resolved.as_str());
                    let type_ok = exists && detect_file_type(resolved.as_str()).is_ok();
                    proof {
                        o = (resolved@, exists, type_ok);
                    }
                    exhibit_finding(ex.title.as_str(), path.as_str(), resolved.as_str(), exists, type_ok)
                };
                proof {
                    outs = outs.push(o);
                    assert(outs.drop_last() =~= outs0);
                    assert(exhibit_outcome_ok(doc.meta.exhibits@[e as int], o, dir));
                }
                match finding {
                    Some(d) => {
                        diagnostics.push(d);
                        proof {
                            assert(diagnostics@.take(d0.len() as int) =~= before.take(d0.len() as int));
                            assert(diags_view(diagnostics@) =~= diags_view(before).push(diag_view(d)));
                        }
                    },
                    None => {},
                }
            },
            None => {
                proof {
                    outs = outs.push((Seq::empty(), false, false));
                    assert(outs.drop_last() =~= outs0);
                }
            },
        }
        proof {
            assert(diags_view(diagnostics@) =~= diags_view(d0) + exhibit_findings(
                doc.meta.exhibits@.take(e + 1),
                outs,
            ));
        }
        e += 1;
    }
    proof {
        assert(doc.meta.exhibits@.take(e as int) =~= doc.meta.exhibits@);
    }
}

// ---------------------------------------------------------------------------
// Linting a document
// ---------------------------------------------------------------------------

/// The line a diagnostic sorts by: its line, or 0 when it has none.
pub open spec fn sort_line(d: Diagnostic) -> usize {
    match d.line {
        Some(l) => l,
        None => 0,
    }
}

/// Where `x` goes in `s`: before the first diagnostic with a later line.
pub open spec fn insert_pos(s: Seq<Diagnostic>, x: Diagnostic) -> int
    decreases s.len(),
{
    if s.len() == 0 {
        0
    } else if sort_line(s.last()) <= sort_line(x) {
        s.len() as int
    } else {
        insert_pos(s.drop_last(), x)
    }
}

/// A stable sort of diagnostics by line: each is inserted after those
/// with an earlier or equal line.
pub open spec fn sorted_by_line(s: Seq<Diagnostic>) -> Seq<Diagnostic>
    decreases s.len(),
{
    if s.len() == 0 {
        Seq::empty()
    } else {
        let t = sorted_by_line(s.drop_last());
        t.insert(insert_pos(t, s.last()), s.last())
    }
}

/// Lines never decrease along `s`.
pub open spec fn lines_ascending(s: Seq<Diagnostic>) -> bool {
    forall|i: int, j: int| 0 <= i < j < s.len() ==> sort_line(#[trigger] s[i]) <= sort_line(#[trigger] s[j])
}

proof fn lemma_insert_pos(s: Seq<Diagnostic>, x: Diagnostic)
    requires
        lines_ascending(s),
    ensures
        0 <= insert_pos(s, x) <= s.len(),
        forall|i: int| 0 <= i < insert_pos(s, x) ==> sort_line(#[trigger] s[i]) <= sort_line(x),
        forall|i: int| insert_pos(s, x) <= i < s.len() ==> sort_line(x) < sort_line(#[trigger] s[i]),
    decreases s.len(),
{
    if s.len() > 0 && !(sort_line(s.last()) <= sort_line(x)) {
        assert forall|i: int, j: int| 0 <= i < j < s.drop_last().len() implies sort_line(
            #[trigger] s.drop_last()[i],
        ) <= sort_line(#[trigger] s.drop_last()[j]) by {
            assert(s.drop_last()[i] == s[i] && s.drop_last()[j] == s[j]);
        }
        lemma_insert_pos(s.drop_last(), x);
        let p = insert_pos(s, x);
        assert forall|i: int| 0 <= i < p implies sort_line(#[trigger] s[i]) <= sort_line(x) by {
            assert(s[i] == s.drop_last()[i]);
        }
        assert forall|i: int| p <= i < s.len() implies sort_line(x) < sort_line(#[trigger] s[i]) by {
            if i < s.len() - 1 {
                assert(s[i] == s.drop_last()[i]);
            }
        }
    } else if s.len() > 0 {
        assert forall|i: int| 0 <= i < s.len() implies sort_line(#[trigger] s[i]) <= sort_line(x) by {
            if i < s.len() - 1 {
                assert(sort_line(s[i]) <= sort_line(s[s.len() - 1]));
            }
        }
    }
}

/// Sorting by line gives lines in ascending order, with the same
/// diagnostics.
pub proof fn lemma_sorted_by_line(s: Seq<Diagnostic>)
    ensures
        lines_ascending(sorted_by_line(s)),
        sorted_by_line(s).to_multiset() == s.to_multiset(),
    decreases s.len(),
{
    broadcast use vstd::seq_lib::group_to_multiset_ensures;

    if s.len() > 0 {
        let t = sorted_by_line(s.drop_last());
        lemma_sorted_by_line(s.drop_last());
        let x = s.last();
        lemma_insert_pos(t, x);
        let p = insert_pos(t, x);
        let u = t.insert(p, x);
        assert forall|i: int, j: int| 0 <= i < j < u.len() implies sort_line(#[trigger] u[i]) <= sort_line(
            #[trigger] u[j],
        ) by {
            if j < p {
                assert(u[i] == t[i] && u[j] == t[j]);
            } else if j == p {
                assert(u[i] == t[i]);
            } else if i == p {
                assert(u[j] == t[j - 1]);
            } else if i < p {
                assert(u[i] == t[i] && u[j] == t[j - 1]);
            } else {
                assert(u[i] == t[i - 1] && u[j] == t[j - 1]);
            }
        }
        vstd::seq_lib::to_multiset_insert(t, p, x);
        assert(s =~= s.drop_last().push(x));
    }
}

/// Sort diagnostics by line, stably (see [`sorted_by_line`]).
pub fn sort_by_line(v: Vec<Diagnostic>) -> (r: Vec<Diagnostic>)
    ensures
        r@ == sorted_by_line(v@),
{
    let ghost all = v@;
    let total = v.len();
    let mut rest = v;
    let mut out: Vec<Diagnostic> = Vec::new();
    let mut n: usize = 0;
    proof {
        assert(all.take(0) =~= Seq::<Diagnostic>::empty());
    }
    while rest.len() > 0
        invariant
            n + rest@.len() == all.len(),
            all.len() == total,
            rest@ == all.skip(n as int),
            out@ == sorted_by_line(all.take(n as int)),
        decreases rest@.len(),
    {
        let x = rest.remove(0);
        proof {
            assert(x == all[n as int]);
            assert(rest@ =~= all.skip(n + 1));
            assert(all.take(n + 1).drop_last() =~= all.take(n as int));
        }
        let key = match x.line {
            Some(l) => l,
            None => 0,
        };
        let mut p = out.len();
        let ghost t = out@;
        proof {
            assert(t.take(t.len() as int) =~= t);
            assert(key == sort_line(x));
        }
        while p > 0
            invariant
                p <= out@.len(),
                out@ == t,
                key == sort_line(x),
                insert_pos(t, x) == insert_pos(t.take(p as int), x),
            ensures
                p <= out@.len(),
                insert_pos(t, x) == p,
            decreases p,
        {
            let kp = match out[p - 1].line {
                Some(l) => l,
                None => 0,
            };
            proof {
                assert(t.take(p as int).drop_last() =~= t.take(p - 1));
                assert(t.take(p as int).last() == t[p - 1]);
                assert(sort_line(t[p - 1]) == kp);
            }
            if kp <= key {
                break;
            }
            p -= 1;
            proof {
                if p == 0 {
                    assert(t.take(0) =~= Seq::<Diagnostic>::empty());
                }
            }
        }
        out.insert(p, x);
        n += 1;
    }
    proof {
        assert(all.take(n as int) =~= all);
    }
    out
}

/// A report's diagnostics all reach the display floor `min`.
pub open spec fn at_least(s: Seq<Diagnostic>, min: DiagLevel) -> bool {
    forall|k: int| 0 <= k < s.len() ==> level_rank((#[trigger] s[k]).level) >= level_rank(min)
}

/// Levels rank strictly: info below warning below error.
pub proof fn lemma_levels_ordered()
    ensures
        level_rank(DiagLevel::Info) < level_rank(DiagLevel::Warning),
        level_rank(DiagLevel::Warning) < level_rank(DiagLevel::Error),
{
}

/// A floor at `error` lets only errors through, and a floor at `warning`
/// keeps every info out.
pub proof fn lemma_floor_hides_lower(s: Seq<Diagnostic>, min: DiagLevel)
    requires
        at_least(s, min),
    ensures
        min == DiagLevel::Error ==> forall|k: int| 0 <= k < s.len() ==> (#[trigger] s[k]).level == DiagLevel::Error,
        min == DiagLevel::Warning ==> forall|k: int| 0 <= k < s.len() ==> (#[trigger] s[k]).level != DiagLevel::Info,
{
    assert forall|k: int| 0 <= k < s.len() implies (min == DiagLevel::Error ==> (#[trigger] s[k]).level
        == DiagLevel::Error) && (min == DiagLevel::Warning ==> s[k].level != DiagLevel::Info) by {
        assert(level_rank(s[k].level) >= level_rank(min));
    }
}

/// `--min-severity error` hides every warning and info: a lint report
/// floored at error holds errors only.
pub proof fn lemma_lint_error_floor(r: LintReport, input: Seq<char>, options: LintOptions)
    requires
        report_fits(r, input, options),
        options.min_severity == DiagLevel::Error,
    ensures
        forall|k: int| 0 <= k < r.diagnostics@.len() ==> (#[trigger] r.diagnostics@[k]).level == DiagLevel::Error,
{
    lemma_floor_hides_lower(r.diagnostics@, options.min_severity);
}

/// The diagnostics of `s` at level `min` or above, in order.
pub open spec fn floored(s: Seq<Diagnostic>, min: DiagLevel) -> Seq<Diagnostic>
    decreases s.len(),
{
    if s.len() == 0 {
        Seq::empty()
    } else {
        floored(s.drop_last(), min) + if level_rank(s.last().level) >= level_rank(min) {
            seq![s.last()]
        } else {
            Seq::empty()
        }
    }
}

fn retain_at_least(v: Vec<Diagnostic>, min: DiagLevel) -> (r: Vec<Diagnostic>)
    ensures
        r@ == floored(v@, min),
        at_least(r@, min),
        forall|k: int|
            0 <= k < v@.len() && level_rank((#[trigger] v@[k]).level) >= level_rank(min) ==> r@.contains(v@[k]),
{
    let ghost all = v@;
    let total = v.len();
    let mut rest = v;
    let mut out: Vec<Diagnostic> = Vec::new();
    let mut n: usize = 0;
    while rest.len() > 0
        invariant
            n + rest@.len() == all.len(),
            all.len() == total,
            rest@ == all.skip(n as int),
            out@ == floored(all.take(n as int), min),
            at_least(out@, min),
            forall|k: int|
                0 <= k < n && level_rank((#[trigger] all[k]).level) >= level_rank(min) ==> out@.contains(all[k]),
        decreases rest@.len(),
    {
        let x = rest.remove(0);
        proof {
            assert(x == all[n as int]);
            assert(rest@ =~= all.skip(n + 1));
        }
        let ghost before = out@;
        proof {
            assert(all.take(n + 1).drop_last() =~= all.take(n as int));
            assert(all.take(n + 1).last() == x);
        }
        if x.level.rank() >= min.rank() {
            out.push(x);
            proof {
                assert(out@[out@.len() - 1] == x);
            }
        }
        proof {
            assert forall|k: int|
                0 <= k < n + 1 && level_rank((#[trigger] all[k]).level) >= level_rank(min) implies out@.contains(all[k]) by {
                if k < n {
                    let j = choose|j: int| 0 <= j < before.len() && before[j] == all[k];
                    assert(out@[j] == before[j]);
                }
            }
        }
        n += 1;
    }
    proof {
        assert(all.take(n as int) =~= all);
    }
    out
}

/// The parts a lint report is made of: `pre`, the configuration warnings
/// (see [`config_codes`]), then the suppression comments'
/// warnings, then what the document gives (a single `parse-error` when its
/// front-matter cannot be read); `opts`, the options made safe as
/// [`LintOptions::validate`] says; `s0`, the directives of the comments;
/// `s1`, those directives marked by `pre`; and `unused`, the notices for
/// the directives of `s1` that matched nothing.
pub open spec fn lint_parts(
    pre: Seq<Diagnostic>,
    unused: Seq<Diagnostic>,
    opts: LintOptions,
    s0: Suppressions,
    s1: Suppressions,
    input: Seq<char>,
    options: LintOptions,
    input_dir: Option<Seq<char>>,
    convention: NumberingConvention,
) -> bool {
    let nc = config_codes(options).len();
    let sd = scan_diags(lines_of(input));
    &&& strings_view(opts.ignore@) == filterable_codes(strings_view(options.ignore@))
    &&& opts.severity@ == effective_pairs(options.severity@)
    &&& opts.min_severity == options.min_severity
    &&& nc + sd.len() <= pre.len()
    &&& codes_of(pre.take(nc as int)) == config_codes(options)
    &&& diags_view(pre.subrange(nc as int, (nc + sd.len()) as int)) == sd
    &&& !frontmatter_accepts(input) ==> pre.len() == nc + sd.len() + 1 && pre.last().code@ == "parse-error"@
    &&& scanned(s0, input)
    &&& directives_valid(s0)
    &&& marked(s0, s1, pre)
    &&& diags_view(unused) == unused_line_diags(s1.lines@) + unused_file_diags(s1.file@)
    &&& frontmatter_accepts(input) ==> exists|doc: Document, rd: Document, a: int, outs: Seq<(Seq<char>, bool, bool)>|
        #![trigger document_findings_at(pre, (nc + sd.len()) as int, a, doc, rd, outs, input, input_dir, convention)]
        document_findings_at(pre, (nc + sd.len()) as int, a, doc, rd, outs, input, input_dir, convention)
}

/// What linting reports of a document that parses, from `start` in `pre`:
/// the diagnostics of `rd`, the parsed document `doc` once resolved (up to
/// `a`; they begin with the parsed document's own), then the metadata
/// findings, then the exhibit findings given what the file system answered
/// for each exhibit (`outs`). When the document can be resolved, `rd` is
/// what [`crate::resolve::resolve`] makes of it.
pub open spec fn document_findings_at(
    pre: Seq<Diagnostic>,
    start: int,
    a: int,
    doc: Document,
    rd: Document,
    outs: Seq<(Seq<char>, bool, bool)>,
    input: Seq<char>,
    input_dir: Option<Seq<char>>,
    convention: NumberingConvention,
) -> bool {
    &&& crate::parser::parsed_from(doc, input)
    &&& 0 <= start <= a <= pre.len()
    &&& pre.subrange(start, a) == rd.diagnostics@
    &&& crate::parser::clause::extends(doc.diagnostics@, rd.diagnostics@)
    &&& rd.meta == doc.meta
    &&& crate::resolve::resolvable(doc, convention) ==> crate::resolve::resolved_from(rd, doc)
        && crate::resolve::cross_refs_resolved(rd, doc, convention)
    &&& outs.len() == doc.meta.exhibits@.len()
    &&& forall|k: int|
        0 <= k < outs.len() ==> exhibit_outcome_ok(#[trigger] doc.meta.exhibits@[k], outs[k], input_dir)
    &&& diags_view(pre.skip(a)) == metadata_findings(doc.meta) + exhibit_findings(doc.meta.exhibits@, outs)
}

/// How a lint report comes about (see [`lint_parts`]): what filtering
/// keeps of `pre` under the comments' directives, then what it keeps of the
/// notices for unused directives, floored at the minimum severity and
/// sorted by line.
pub open spec fn lint_pipeline(
    r: LintReport,
    input: Seq<char>,
    options: LintOptions,
    input_dir: Option<Seq<char>>,
    convention: NumberingConvention,
) -> bool {
    exists|pre: Seq<Diagnostic>, unused: Seq<Diagnostic>, opts: LintOptions, s0: Suppressions, s1: Suppressions|
        #[trigger] lint_parts(pre, unused, opts, s0, s1, input, options, input_dir, convention) && r.diagnostics@ == sorted_by_line(
            floored(filtered(pre, opts, s0) + filtered(unused, opts, s1), options.min_severity),
        )
}

/// What every lint report guarantees: each diagnostic reaches the display
/// floor, lines ascend, and a document whose front-matter cannot be read
/// is reported with a `parse-error`.
pub open spec fn report_fits(r: LintReport, input: Seq<char>, options: LintOptions) -> bool {
    &&& at_least(r.diagnostics@, options.min_severity)
    &&& lines_ascending(r.diagnostics@)
    &&& !frontmatter_accepts(input) ==> exists|k: int|
        0 <= k < r.diagnostics@.len() && (#[trigger] r.diagnostics@[k]).code@ == "parse-error"@
}

/// Lint a document: the parse and resolve pipeline, metadata and exhibit
/// checks, configuration checks and suppression comments, filtered by the
/// options, floored at their minimum severity and sorted by line. It never
/// fails: a document that cannot be parsed is reported with a
/// `parse-error`. When a document's clause numbers cannot be formatted in
/// the convention, resolution stops after numbering.
pub fn lint(input: &str, input_dir: Option<&str>, convention: NumberingConvention, options: &LintOptions) -> (r: LintReport)
    ensures
        report_fits(r, input@, *options),
        lint_pipeline(r, input@, *options, crate::terms::str_opt_view(input_dir), convention),
{
    let ghost given = *options;
    let mut options = options.copy();
    let mut diagnostics = options.validate();
    let ghost config_diags = diagnostics@;
    let (mut supp, mut supp_diags) = scan_suppressions(input);
    let ghost scan_part = supp_diags@;
    diagnostics.append(&mut supp_diags);
    let ghost head = diagnostics@;
    proof {
        assert(head.take(config_diags.len() as int) =~= config_diags);
        assert(head.subrange(config_diags.len() as int, head.len() as int) =~= scan_part);
    }
    let ghost mut parse_at: int = -1;
    match crate::parser::parse(input) {
        Ok(doc) => {
            let mut doc = doc;
            let ghost parsed = doc;
            let _ = crate::resolve::try_resolve(&mut doc, convention);
            let ghost resolved = doc;
            let mut found: Vec<Diagnostic> = Vec::new();
            std::mem::swap(&mut found, &mut doc.diagnostics);
            let ghost found_view = found@;
            diagnostics.append(&mut found);
            proof {
                assert(diagnostics@.take(head.len() as int) =~= head);
            }
            let ghost h2 = diagnostics@;
            check_metadata(&doc, &mut diagnostics);
            proof {
                assert(diagnostics@.take(head.len() as int) =~= h2.take(head.len() as int)) by {
                    assert forall|k: int| 0 <= k < head.len() implies diagnostics@[k] == h2[k] by {
                        assert(diagnostics@.take(h2.len() as int)[k] == h2[k]);
                    }
                }
            }
            let ghost h3 = diagnostics@;
            check_exhibits(&doc, input_dir, &mut diagnostics);
            proof {
                assert(diagnostics@.take(head.len() as int) =~= h3.take(head.len() as int)) by {
                    assert forall|k: int| 0 <= k < head.len() implies diagnostics@[k] == h3[k] by {
                        assert(diagnostics@.take(h3.len() as int)[k] == h3[k]);
                    }
                }
                let outs = choose|outs: Seq<(Seq<char>, bool, bool)>|
                    {
                        &&& outs.len() == doc.meta.exhibits@.len()
                        &&& forall|k: int|
                            0 <= k < outs.len() ==> exhibit_outcome_ok(
                                #[trigger] doc.meta.exhibits@[k],
                                outs[k],
                                crate::terms::str_opt_view(input_dir),
                            )
                        &&& diags_view(diagnostics@) == diags_view(h3) + exhibit_findings(doc.meta.exhibits@, outs)
                    };
                let dg = diagnostics@;
                assert(h2.take(head.len() as int) =~= head);
                assert(dg.take(h3.len() as int) == h3);
                assert(h3.take(h2.len() as int) == h2);
                assert(dg.subrange(head.len() as int, h2.len() as int) =~= h2.skip(head.len() as int));
                assert(h2.skip(head.len() as int) =~= found_view);
                assert(diags_view(dg) =~= diags_view(h2) + metadata_findings(doc.meta) + exhibit_findings(
                    doc.meta.exhibits@,
                    outs,
                ));
                let tail = metadata_findings(doc.meta) + exhibit_findings(doc.meta.exhibits@, outs);
                assert(diags_view(dg) =~= diags_view(h2) + tail);
                assert(diags_view(dg).len() == dg.len());
                assert(diags_view(h2).len() == h2.len());
                assert(dg.len() == h2.len() + tail.len());
                assert(diags_view(dg.skip(h2.len() as int)) =~= tail) by {
                    assert forall|q: int| 0 <= q < tail.len() implies #[trigger] diags_view(
                        dg.skip(h2.len() as int),
                    )[q] == tail[q] by {
                        assert(dg.skip(h2.len() as int)[q] == dg[h2.len() + q]);
                        assert(diags_view(dg)[h2.len() + q] == diag_view(dg[h2.len() + q]));
                        assert((diags_view(h2) + tail)[h2.len() + q] == tail[q]);
                    }
                }
                assert(document_findings_at(dg, head.len() as int, h2.len() as int, parsed, resolved, outs, input@,
                    crate::terms::str_opt_view(input_dir), convention));
            }
        },
        Err(e) => {
            diagnostics.push(Diagnostic::error("parse-error", e.to_display_string()));
            proof {
                parse_at = diagnostics@.len() - 1;
                assert(diagnostics@.take(head.len() as int) =~= head);
            }
        },
    }
    let ghost before_filter = diagnostics@;
    let ghost s0 = supp;
    let ghost opts = options;
    proof {
        assert(before_filter.len() >= head.len());
        assert(before_filter.take(head.len() as int) =~= head);
        assert(before_filter.subrange(config_diags.len() as int, head.len() as int) =~= scan_part) by {
            assert(before_filter.subrange(config_diags.len() as int, head.len() as int) =~= head.subrange(
                config_diags.len() as int,
                head.len() as int,
            ));
        }
        assert(before_filter.take(config_diags.len() as int) =~= config_diags);
        assert(codes_of(before_filter.take(config_diags.len() as int)) == config_codes(given));
    }
    let mut diagnostics = apply_filters(diagnostics, &options, &mut supp);
    let ghost s1 = supp;
    proof {
        if parse_at >= 0 {
            lemma_unfilterable_survive(before_filter, options, s0, parse_at);
        }
    }
    let unused = unused_suppression_diags(&supp);
    let ghost unused0 = unused@;
    let mut unused = apply_filters(unused, &options, &mut supp);
    let ghost kept = diagnostics@;
    let ghost kept_unused = unused@;
    diagnostics.append(&mut unused);
    proof {
        assert(diagnostics@ =~= kept + kept_unused);
    }
    proof {
        if parse_at >= 0 {
            let j = choose|j: int| 0 <= j < kept.len() && kept[j] == before_filter[parse_at];
            assert(diagnostics@[j] == kept[j]);
        }
    }
    let ghost all = diagnostics@;
    let diagnostics = retain_at_least(diagnostics, options.min_severity);
    let ghost kept_floor = diagnostics@;
    proof {
        if parse_at >= 0 {
            let j = choose|j: int| 0 <= j < all.len() && all[j] == before_filter[parse_at];
            assert(level_rank(all[j].level) >= level_rank(options.min_severity));
        }
    }
    let diagnostics = sort_by_line(diagnostics);
    proof {
        lemma_sorted_by_line(kept_floor);
        broadcast use vstd::seq_lib::group_to_multiset_ensures;
        assert forall|k: int| 0 <= k < diagnostics@.len() implies level_rank(
            (#[trigger] diagnostics@[k]).level,
        ) >= level_rank(options.min_severity) by {
            assert(diagnostics@.to_multiset().count(diagnostics@[k]) > 0);
            assert(kept_floor.contains(diagnostics@[k]));
        }
        if parse_at >= 0 {
            let d = before_filter[parse_at];
            assert(kept_floor.contains(d));
            assert(kept_floor.to_multiset().count(d) > 0);
            assert(diagnostics@.contains(d));
        }
        if !frontmatter_accepts(input@) {
            assert(parse_at >= 0);
        }
        assert(lint_parts(before_filter, unused0, opts, s0, s1, input@, given, crate::terms::str_opt_view(input_dir), convention));
        assert(diagnostics@ == sorted_by_line(
            floored(filtered(before_filter, opts, s0) + filtered(unused0, opts, s1), given.min_severity),
        ));
    }
    LintReport { diagnostics }
}

// ---------------------------------------------------------------------------
// Rendering reports
// ---------------------------------------------------------------------------

/// Each diagnostic's display text on a line of its own.
pub open spec fn diagnostic_lines(s: Seq<Diagnostic>) -> Seq<char>
    decreases s.len(),
{
    if s.len() == 0 {
        Seq::empty()
    } else {
        diagnostic_lines(s.drop_last()) + diagnostic_text(s.last()) + "\n"@
    }
}

/// The counts line: `N error(s), N warning(s), N info`.
pub open spec fn counts_text(errors: nat, warnings: nat, info: nat) -> Seq<char> {
    decimal(errors) + " error(s), "@ + decimal(warnings) + " warning(s), "@ + decimal(info)
        + " info"@
}

/// One file's block of a text report: a blank line before all but the
/// first, its diagnostics, and its summary line.
pub open spec fn report_block(file: Seq<char>, r: LintReport, first: bool) -> Seq<char> {
    let d = r.diagnostics@;
    (if first {
        Seq::empty()
    } else {
        "\n"@
    }) + diagnostic_lines(d) + if d.len() == 0 {
        file + ": no issues found\n"@
    } else {
        file + ": "@ + counts_text(
            level_count(d, DiagLevel::Error),
            level_count(d, DiagLevel::Warning),
            level_count(d, DiagLevel::Info),
        ) + "\n"@
    }
}

/// The blocks of the first `n` reports.
pub open spec fn report_blocks(reports: Seq<(String, LintReport)>, n: int) -> Seq<char>
    decreases n,
{
    if n <= 0 {
        Seq::empty()
    } else {
        report_blocks(reports, n - 1) + report_block(reports[n - 1].0@, reports[n - 1].1, n == 1)
    }
}

/// The total of a level over the first `n` reports, saturating.
pub open spec fn total_count(reports: Seq<(String, LintReport)>, n: int, level: DiagLevel) -> nat
    decreases n,
{
    if n <= 0 {
        0
    } else {
        let t = total_count(reports, n - 1, level) + level_count(reports[n - 1].1.diagnostics@, level);
        if t <= usize::MAX {
            t
        } else {
            usize::MAX as nat
        }
    }
}

/// A text report: each file's block, and an overall total when more than
/// one file was linted.
pub open spec fn reports_text(reports: Seq<(String, LintReport)>) -> Seq<char> {
    let n = reports.len() as int;
    report_blocks(reports, n) + if n > 1 {
        "\n"@ + decimal(n as nat) + " files checked: "@ + counts_text(
            total_count(reports, n, DiagLevel::Error),
            total_count(reports, n, DiagLevel::Warning),
            total_count(reports, n, DiagLevel::Info),
        ) + "\n"@
    } else {
        Seq::empty()
    }
}

fn push_counts(out: &mut Vec<char>, e: usize, w: usize, i: usize)
    ensures
        final(out)@ == old(out)@ + counts_text(e as nat, w as nat, i as nat),
{
    extend_chars(out, &decimal_chars(e));
    extend_str(out, " error(s), ");
    extend_chars(out, &decimal_chars(w));
    extend_str(out, " warning(s), ");
    extend_chars(out, &decimal_chars(i));
    extend_str(out, " info");
    assert(out@ =~= old(out)@ + counts_text(e as nat, w as nat, i as nat));
}

fn sat_add(a: usize, b: usize) -> (r: usize)
    ensures
        r == if a + b <= usize::MAX {
            (a + b) as nat
        } else {
            usize::MAX as nat
        },
{
    if a > usize::MAX - b {
        usize::MAX
    } else {
        a + b
    }
}

/// Render reports as human-readable text (see [`reports_text`]).
pub fn reports_to_text(reports: &[(String, LintReport)]) -> (r: String)
    ensures
        r@ == reports_text(reports@),
{
    let mut out: Vec<char> = Vec::new();
    let mut errors: usize = 0;
    let mut warnings: usize = 0;
    let mut info: usize = 0;
    let mut i: usize = 0;
    while i < reports.len()
        invariant
            i <= reports@.len(),
            out@ == report_blocks(reports@, i as int),
            errors == total_count(reports@, i as int, DiagLevel::Error),
            warnings == total_count(reports@, i as int, DiagLevel::Warning),
            info == total_count(reports@, i as int, DiagLevel::Info),
        decreases reports@.len() - i,
    {
        let ghost before = out@;
        let file = reports[i].0.as_str();
        let report = &reports[i].1;
        if i > 0 {
            out.push('\n');
        }
        let mut k: usize = 0;
        let ghost mid = out@;
        proof {
            assert(report.diagnostics@.take(0) =~= Seq::<Diagnostic>::empty());
        }
        while k < report.diagnostics.len()
            invariant
                k <= report.diagnostics@.len(),
                out@ == mid + diagnostic_lines(report.diagnostics@.take(k as int)),
            decreases report.diagnostics@.len() - k,
        {
            proof {
                assert(report.diagnostics@.take(k + 1).drop_last() =~= report.diagnostics@.take(k as int));
            }
            extend_str(&mut out, report.diagnostics[k].to_display_string().as_str());
            out.push('\n');
            proof {
                reveal_strlit("\n");
                assert(out@ =~= mid + diagnostic_lines(report.diagnostics@.take(k + 1)));
            }
            k += 1;
        }
        proof {
            assert(report.diagnostics@.take(report.diagnostics@.len() as int) =~= report.diagnostics@);
        }
        let e = report.error_count();
        let w = report.warning_count();
        let n = report.info_count();
        extend_str(&mut out, file);
        if report.diagnostics.len() == 0 {
            extend_str(&mut out, ": no issues found\n");
        } else {
            extend_str(&mut out, ": ");
            push_counts(&mut out, e, w, n);
            out.push('\n');
        }
        proof {
            reveal_strlit("\n");
            assert(out@ =~= before + report_block(reports@[i as int].0@, reports@[i as int].1, i == 0));
        }
        errors = sat_add(errors, e);
        warnings = sat_add(warnings, w);
        info = sat_add(info, n);
        i += 1;
    }
    if reports.len() > 1 {
        out.push('\n');
        extend_chars(&mut out, &decimal_chars(reports.len()));
        extend_str(&mut out, " files checked: ");
        push_counts(&mut out, errors, warnings, info);
        out.push('\n');
    }
    proof {
        reveal_strlit("\n");
        assert(out@ =~= reports_text(reports@));
    }
    string_of(&out)
}

/// A GitHub workflow-command property value with `%`, CR, LF, `:` and `,`
/// escaped.
pub open spec fn github_property(s: Seq<char>) -> Seq<char> {
    replace_seq(
        replace_seq(
            replace_seq(replace_seq(replace_seq(s, "%"@, "%25"@), "\r"@, "%0D"@), "\n"@, "%0A"@),
            ":"@,
            "%3A"@,
        ),
        ","@,
        "%2C"@,
    )
}

/// A GitHub workflow-command message with `%`, CR and LF escaped.
pub open spec fn github_message(s: Seq<char>) -> Seq<char> {
    replace_seq(replace_seq(replace_seq(s, "%"@, "%25"@), "\r"@, "%0D"@), "\n"@, "%0A"@)
}

fn replace_lit(s: &Vec<char>, p: &str, r: &str) -> (out: Vec<char>)
    requires
        p@.len() > 0,
    ensures
        out@ == replace_seq(s@, p@, r@),
{
    crate::text::replace(s, &chars_of(p), &chars_of(r))
}

/// Escape a GitHub workflow-command property value.
pub fn github_escape_property(s: &str) -> (r: Vec<char>)
    ensures
        r@ == github_property(s@),
{
    proof {
        reveal_strlit("%");
        reveal_strlit("\r");
        reveal_strlit("\n");
        reveal_strlit(":");
        reveal_strlit(",");
    }
    let a = replace_lit(&chars_of(s), "%", "%25");
    let b = replace_lit(&a, "\r", "%0D");
    let c = replace_lit(&b, "\n", "%0A");
    let d = replace_lit(&c, ":", "%3A");
    replace_lit(&d, ",", "%2C")
}

/// Escape a GitHub workflow-command message.
pub fn github_escape_message(s: &str) -> (r: Vec<char>)
    ensures
        r@ == github_message(s@),
{
    proof {
        reveal_strlit("%");
        reveal_strlit("\r");
        reveal_strlit("\n");
    }
    let a = replace_lit(&chars_of(s), "%", "%25");
    let b = replace_lit(&a, "\r", "%0D");
    replace_lit(&b, "\n", "%0A")
}

/// The workflow command for a level.
pub open spec fn github_command(level: DiagLevel) -> Seq<char> {
    match level {
        DiagLevel::Error => "error"@,
        DiagLevel::Warning => "warning"@,
        DiagLevel::Info => "notice"@,
    }
}

/// The properties of an annotation: file, line and column where known,
/// and the rule code as title.
pub open spec fn github_props(file: Seq<char>, d: Diagnostic) -> Seq<char> {
    "file="@ + github_property(file) + match d.line {
        Some(l) => ",line="@ + decimal(l as nat),
        None => Seq::empty(),
    } + match d.column {
        Some(c) => ",col="@ + decimal(c as nat),
        None => Seq::empty(),
    } + ",title="@ + github_property(d.code@)
}

/// A diagnostic's message, with its location in brackets when it has one.
pub open spec fn located_message(d: Diagnostic) -> Seq<char> {
    match d.location {
        Some(loc) => d.message@ + " ("@ + loc@ + ")"@,
        None => d.message@,
    }
}

/// One annotation: `::level file=F,line=L,col=C,title=CODE::message (location)`.
pub open spec fn github_line(file: Seq<char>, d: Diagnostic) -> Seq<char> {
    "::"@ + github_command(d.level) + " "@ + github_props(file, d) + "::"@ + github_message(
        located_message(d),
    ) + "\n"@
}

/// The annotations of one file's diagnostics.
pub open spec fn github_lines(file: Seq<char>, s: Seq<Diagnostic>) -> Seq<char>
    decreases s.len(),
{
    if s.len() == 0 {
        Seq::empty()
    } else {
        github_lines(file, s.drop_last()) + github_line(file, s.last())
    }
}

/// The annotations of the first `n` reports.
pub open spec fn github_reports(reports: Seq<(String, LintReport)>, n: int) -> Seq<char>
    decreases n,
{
    if n <= 0 {
        Seq::empty()
    } else {
        github_reports(reports, n - 1) + github_lines(reports[n - 1].0@, reports[n - 1].1.diagnostics@)
    }
}

fn push_props(out: &mut Vec<char>, file: &str, d: &Diagnostic)
    ensures
        final(out)@ == old(out)@ + github_props(file@, *d),
{
    extend_str(out, "file=");
    extend_chars(out, &github_escape_property(file));
    let ghost a = out@;
    match d.line {
        Some(l) => {
            extend_str(out, ",line=");
            extend_chars(out, &decimal_chars(l));
        },
        None => {},
    }
    let ghost b = out@;
    match d.column {
        Some(c) => {
            extend_str(out, ",col=");
            extend_chars(out, &decimal_chars(c));
        },
        None => {},
    }
    let ghost c = out@;
    extend_str(out, ",title=");
    extend_chars(out, &github_escape_property(d.code));
    proof {
        assert(out@ =~= old(out)@ + github_props(file@, *d));
    }
}

fn located_message_exec(d: &Diagnostic) -> (r: Vec<char>)
    ensures
        r@ == located_message(*d),
{
    let mut message: Vec<char> = Vec::new();
    extend_str(&mut message, d.message.as_str());
    match &d.location {
        Some(loc) => {
            extend_str(&mut message, " (");
            extend_str(&mut message, loc.as_str());
            extend_str(&mut message, ")");
        },
        None => {},
    }
    message
}

fn github_annotation(file: &str, d: &Diagnostic) -> (r: Vec<char>)
    ensures
        r@ == github_line(file@, *d),
{
    let mut out: Vec<char> = Vec::new();
    extend_str(&mut out, "::");
    let command = match d.level {
        DiagLevel::Error => "error",
        DiagLevel::Warning => "warning",
        DiagLevel::Info => "notice",
    };
    extend_str(&mut out, command);
    out.push(' ');
    push_props(&mut out, file, d);
    extend_str(&mut out, "::");
    let message = located_message_exec(d);
    extend_chars(&mut out, &github_escape_message(string_of(&message).as_str()));
    out.push('\n');
    proof {
        reveal_strlit(" ");
        reveal_strlit("\n");
        assert(command@ == github_command(d.level));
        assert(out@ =~= github_line(file@, *d));
    }
    out
}

/// Render reports as GitHub Actions workflow commands, one annotation per
/// diagnostic, so findings appear inline on pull requests.
pub fn reports_to_github(reports: &[(String, LintReport)]) -> (r: String)
    ensures
        r@ == github_reports(reports@, reports@.len() as int),
{
    let mut out: Vec<char> = Vec::new();
    let mut i: usize = 0;
    while i < reports.len()
        invariant
            i <= reports@.len(),
            out@ == github_reports(reports@, i as int),
        decreases reports@.len() - i,
    {
        let file = reports[i].0.as_str();
        let ds = &reports[i].1.diagnostics;
        let ghost mid = out@;
        let mut k: usize = 0;
        proof {
            assert(ds@.take(0) =~= Seq::<Diagnostic>::empty());
        }
        while k < ds.len()
            invariant
                k <= ds@.len(),
                out@ == mid + github_lines(file@, ds@.take(k as int)),
            decreases ds@.len() - k,
        {
            proof {
                assert(ds@.take(k + 1).drop_last() =~= ds@.take(k as int));
            }
            extend_chars(&mut out, &github_annotation(file, &ds[k]));
            proof {
                assert(out@ =~= mid + github_lines(file@, ds@.take(k + 1)));
            }
            k += 1;
        }
        proof {
            assert(ds@.take(ds@.len() as int) =~= ds@);
        }
        i += 1;
    }
    string_of(&out)
}

} // verus!
