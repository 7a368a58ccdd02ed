use lexicon_docx::error::DiagLevel;
use lexicon_docx::lint::{
    filter_build_diagnostics, is_known_rule, lint, reports_to_github, rules, LintConfig,
    LintOptions, LintReport,
};
use lexicon_docx::style::NumberingConvention;
fn lint_str(input: &str) -> LintReport {
    lint(
        input,
        None,
        NumberingConvention::Commonwealth,
        &LintOptions::default(),
    )
}

fn lint_opts(input: &str, options: &LintOptions) -> LintReport {
    lint(input, None, NumberingConvention::Commonwealth, options)
}

const CLEAN_BASE: &str = r#"---
title: Test
date: 2026-01-01
parties:
  - name: Alice
    role: Seller
---
"#;

#[test]
fn parse_error_reported_as_diagnostic() {
    let report = lint_str("no front matter here");
    assert!(report.has_errors());
    assert_eq!(report.diagnostics[0].code, "parse-error");
}

#[test]
fn parse_error_cannot_be_ignored() {
    let mut options = LintOptions::default();
    options.ignore.push("parse-error".to_string());
    let report = lint_opts("no front matter here", &options);
    assert!(report.has_errors());
}

#[test]
fn missing_date_and_party_name_reported_as_info() {
    let input = r#"---
title: Test
parties:
  - role: Seller
---

1. ## Definitions

    1. The Seller agrees.
"#;
    let report = lint_str(input);
    assert!(!report.has_errors());
    let codes: Vec<&str> = report.diagnostics.iter().map(|d| d.code).collect();
    assert!(codes.contains(&"missing-date"));
    assert!(codes.contains(&"missing-party-name"));
}

#[test]
fn missing_exhibit_file_reported_as_error() {
    let input = r#"---
title: Test
date: 2026-01-01
parties:
  - name: Alice
    role: Seller
exhibits:
  - title: Plan
    path: does-not-exist.png
---

1. ## Definitions

    1. The Seller agrees.
"#;
    let report = lint(
        input,
        Some("/nonexistent-dir"),
        NumberingConvention::Commonwealth,
        &LintOptions::default(),
    );
    assert!(report.has_errors());
    assert!(
        report
            .diagnostics
            .iter()
            .any(|d| d.code == "exhibit-file-missing")
    );
}



#[test]
fn github_format_emits_annotations() {
    let input = format!(
        "{}\n1. ## Definitions\n\n    1. **Widget** means a thing nobody mentions again.\n",
        CLEAN_BASE
    );
    let report = lint_str(&input);
    let out = reports_to_github(&[("test.md".to_string(), report)]);
    assert!(
        out.lines()
            .any(|l| l.starts_with("::warning file=test.md,line=")
                && l.contains("title=unused-term")
                && l.contains("Widget")),
        "got: {}",
        out
    );
}

#[test]
fn ignore_option_drops_rule() {
    let input = format!(
        "{}\n1. ## Definitions\n\n    1. **Widget** means a thing nobody mentions again. This Agreement binds the Seller.\n",
        CLEAN_BASE
    );
    let mut options = LintOptions::default();
    options.ignore.push("unused-term".to_string());
    let report = lint_opts(&input, &options);
    assert!(
        !report.diagnostics.iter().any(|d| d.code == "unused-term"),
        "got: {:?}",
        report.diagnostics
    );
}

#[test]
fn severity_override_relevels_rule() {
    let input = format!(
        "{}\n1. ## Definitions\n\n    1. **Widget** means a thing nobody mentions again. This Agreement binds the Seller.\n",
        CLEAN_BASE
    );
    let mut options = LintOptions::default();
    options.set_severity("unused-term", DiagLevel::Error);
    let report = lint_opts(&input, &options);
    assert!(report.has_errors());
    assert!(
        report
            .diagnostics
            .iter()
            .any(|d| d.code == "unused-term" && d.level == DiagLevel::Error)
    );
}

#[test]
fn min_severity_hides_lower_levels() {
    let input = r#"---
title: Test
parties:
  - role: Seller
---

1. ## Obligations

    1. The Seller agrees to this Agreement.
"#;
    let options = LintOptions {
        min_severity: DiagLevel::Warning,
        ..Default::default()
    };
    let report = lint_opts(input, &options);
    assert!(
        !report
            .diagnostics
            .iter()
            .any(|d| d.level == DiagLevel::Info),
        "got: {:?}",
        report.diagnostics
    );
}

#[test]
fn unknown_rule_in_config_reported() {
    let mut options = LintOptions::default();
    options.ignore.push("not-a-rule".to_string());
    let clean = format!(
        "{}\n1. ## Obligations\n\n    1. The Seller must deliver under this Agreement.\n",
        CLEAN_BASE
    );
    let report = lint_opts(&clean, &options);
    assert!(
        report
            .diagnostics
            .iter()
            .any(|d| d.code == "unknown-lint-rule" && d.message.contains("not-a-rule"))
    );
}

#[test]
fn inline_suppression_same_line() {
    let input = format!(
        "{}\n1. ## Definitions\n\n    1. **Widget** means a thing nobody mentions again. <!-- lexicon-ignore: unused-term --> This Agreement binds the Seller.\n",
        CLEAN_BASE
    );
    let report = lint_str(&input);
    assert!(
        !report.diagnostics.iter().any(|d| d.code == "unused-term"),
        "got: {:?}",
        report.diagnostics
    );
    assert!(
        !report
            .diagnostics
            .iter()
            .any(|d| d.code == "unused-suppression"),
        "suppression matched, must not be reported unused: {:?}",
        report.diagnostics
    );
}

#[test]
fn file_level_suppression() {
    let input = format!(
        "{}\n<!-- lexicon-ignore-file: unused-anchor -->\n\n1. ## Definitions {{#defs}}\n\n    1. The Seller signs this Agreement.\n",
        CLEAN_BASE
    );
    let report = lint_str(&input);
    assert!(
        !report.diagnostics.iter().any(|d| d.code == "unused-anchor"),
        "got: {:?}",
        report.diagnostics
    );
}

#[test]
fn unused_suppression_reported() {
    let input = format!(
        "{}\n1. ## Obligations\n\n    1. The Seller must deliver under this Agreement. <!-- lexicon-ignore: unused-term -->\n",
        CLEAN_BASE
    );
    let report = lint_str(&input);
    assert!(
        report
            .diagnostics
            .iter()
            .any(|d| d.code == "unused-suppression"),
        "got: {:?}",
        report.diagnostics
    );
}

#[test]
fn suppression_with_unknown_code_reported() {
    let input = format!(
        "{}\n1. ## Obligations\n\n    1. The Seller must deliver under this Agreement. <!-- lexicon-ignore: bogus-rule -->\n",
        CLEAN_BASE
    );
    let report = lint_str(&input);
    assert!(
        report
            .diagnostics
            .iter()
            .any(|d| d.code == "unknown-lint-rule" && d.message.contains("bogus-rule"))
    );
}

#[test]
fn bare_file_suppression_is_invalid() {
    let input = format!(
        "{}\n<!-- lexicon-ignore-file -->\n\n1. ## Obligations\n\n    1. The Seller must deliver under this Agreement.\n",
        CLEAN_BASE
    );
    let report = lint_str(&input);
    assert!(
        report
            .diagnostics
            .iter()
            .any(|d| d.code == "invalid-suppression")
    );
}

#[test]
fn clean_document_produces_no_diagnostics() {
    let input = format!(
        "{}\n1. ## Obligations\n\n    1. The Seller must deliver the goods under this Agreement.\n",
        CLEAN_BASE
    );
    let report = lint_str(&input);
    assert!(
        report.diagnostics.is_empty(),
        "expected clean, got: {:?}",
        report.diagnostics
    );
}

#[test]
fn every_emitted_code_is_registered() {
    // The registry drives config validation; a code missing from it could
    // never be ignored or re-levelled.
    for rule in rules() {
        assert!(is_known_rule(rule.code));
    }
    // Spot-check registry completeness against a document that trips
    // several rules at once.
    let input = r#"---
title: Test
parties:
  - role: Seller
schedule:
  - title: Schedule
---

1. ## Definitions {#defs}

    1. **Widget** means a thing.

2. ## Scope {#defs}

    1. The **Widget** breaks [clause 9](#gone). The Seller signs this Agreement.
"#;
    let report = lint_str(input);
    for d in &report.diagnostics {
        assert!(
            is_known_rule(d.code),
            "emitted code '{}' is not in RULES",
            d.code
        );
    }
}

#[test]
fn build_filtering_applies_config_and_suppressions() {
    let input = format!(
        "{}\n1. ## Definitions\n\n    1. **Widget** means a thing. <!-- lexicon-ignore: unused-term -->\n\n    2. **Cog** means a gear.\n\n    3. The Seller signs this Agreement.\n",
        CLEAN_BASE
    );
    let config = LintConfig {
        ignore: Vec::new(),
        severity: vec![("unused-term".to_string(), DiagLevel::Error)],
    };

    let mut doc = lexicon_docx::parse(&input).unwrap();
    lexicon_docx::resolve(&mut doc, NumberingConvention::Commonwealth);
    let diagnostics =
        filter_build_diagnostics(&input, std::mem::take(&mut doc.diagnostics), &config);

    // Widget suppressed inline; Cog re-levelled to error by config.
    assert!(!diagnostics.iter().any(|d| d.message.contains("Widget")));
    assert!(
        diagnostics
            .iter()
            .any(|d| d.message.contains("Cog") && d.level == DiagLevel::Error),
        "got: {:?}",
        diagnostics
    );
}

#[test]
fn suppression_machinery_cannot_suppress_itself() {
    // A bare directive that matches nothing is reported, even though it
    // covers its own line.
    let input = format!(
        "{}\n1. ## Obligations\n\n    1. The Seller must deliver under this Agreement. <!-- lexicon-ignore -->\n",
        CLEAN_BASE
    );
    let report = lint_str(&input);
    assert!(report.diagnostics.iter().any(|d| d.code == "unused-suppression"));
}

#[test]
fn machinery_codes_are_still_ignorable_by_config() {
    let input = format!(
        "{}\n1. ## Obligations\n\n    1. The Seller must deliver under this Agreement. <!-- lexicon-ignore -->\n",
        CLEAN_BASE
    );
    let mut options = LintOptions::default();
    options.ignore.push("unused-suppression".to_string());
    let report = lint_opts(&input, &options);
    assert!(!report.diagnostics.iter().any(|d| d.code == "unused-suppression"));
}

#[test]
fn ignoring_unfilterable_rule_is_invalid_config() {
    let mut options = LintOptions::default();
    options.ignore.push("style-error".to_string());
    let clean = format!(
        "{}\n1. ## Obligations\n\n    1. The Seller must deliver under this Agreement.\n",
        CLEAN_BASE
    );
    let report = lint_opts(&clean, &options);
    assert!(report.diagnostics.iter().any(|d| d.code == "invalid-lint-config"
        && d.message == "Rule 'style-error' cannot be ignored"));
    assert!(!report.diagnostics.iter().any(|d| d.code == "unknown-lint-rule"));
}

#[test]
fn error_rules_cannot_be_demoted_below_warning() {
    let input = r#"---
title: Test
date: 2026-13-45
parties:
  - name: Alice
    role: Seller
---

1. ## Obligations

    1. The Seller must deliver under this Agreement.
"#;
    let mut options = LintOptions::default();
    options.set_severity("invalid-date", DiagLevel::Info);
    let report = lint_opts(input, &options);
    assert!(report
        .diagnostics
        .iter()
        .any(|d| d.code == "invalid-date" && d.level == DiagLevel::Warning));
    assert!(report.diagnostics.iter().any(|d| d.code == "invalid-lint-config"
        && d.message == "Rule 'invalid-date' defaults to error and cannot be demoted below warning"));
}

#[test]
fn emitted_parser_codes_are_configurable() {
    for code in [
        "continuation-indent",
        "continuation-reattached",
        "unsupported-block",
        "multiple-anchors",
        "hand-numbered-ordinal",
        "invalid-lint-config",
        "style-error",
    ] {
        assert!(is_known_rule(code), "{} is not registered", code);
    }
    let input = format!(
        "{}\n1. ## Obligations\n\n    10. The Seller must deliver under this Agreement.\n",
        CLEAN_BASE
    );
    let mut options = LintOptions::default();
    options.ignore.push("hand-numbered-ordinal".to_string());
    let report = lint_opts(&input, &options);
    assert!(!report.diagnostics.iter().any(|d| d.code == "hand-numbered-ordinal"));
    assert!(!report.diagnostics.iter().any(|d| d.code == "unknown-lint-rule"));
}

#[test]
fn duplicate_definition_counts_sites_and_points_at_second() {
    let input = format!(
        "{}\n1. ## Definitions\n\n    1. **Widget** means a thing.\n\n    2. **Widget** means another thing.\n\n    3. The Seller uses the Widget under this Agreement.\n",
        CLEAN_BASE
    );
    let report = lint_str(&input);
    let dups: Vec<_> = report
        .diagnostics
        .iter()
        .filter(|d| d.code == "duplicate-definition")
        .collect();
    assert_eq!(dups.len(), 1);
    let d = dups[0];
    assert_eq!(d.level, DiagLevel::Warning);
    assert!(d.message.starts_with("'Widget' is bold-defined 2 times (first at "));
    assert!(d.message.ends_with(
        "). If a later occurrence is a reference rather than a new definition, use plain text \u{2014} bold marks definition sites"
    ));
    assert_eq!(d.line, Some(13));
}

#[test]
fn build_and_lint_report_the_same_findings() {
    let input = format!(
        "{}\n1. ## Definitions {{#defs}}\n\n    1. **Widget** means a thing. <!-- lexicon-ignore: unused-term -->\n\n    2. **Cog** means a gear.\n\n    3. The Seller signs this Agreement.\n",
        CLEAN_BASE
    );
    let config = LintConfig {
        ignore: vec!["unused-anchor".to_string()],
        severity: vec![("unused-term".to_string(), DiagLevel::Error)],
    };
    let mut doc = lexicon_docx::parse(&input).unwrap();
    lexicon_docx::resolve(&mut doc, NumberingConvention::Commonwealth);
    let built = filter_build_diagnostics(&input, std::mem::take(&mut doc.diagnostics), &config);
    let options = LintOptions::from_config(&config);
    let report = lint(&input, None, NumberingConvention::Commonwealth, &options);
    let mut from_build: Vec<(String, String)> = built
        .iter()
        .map(|d| (d.code.to_string(), d.message.clone()))
        .collect();
    let mut from_lint: Vec<(String, String)> = report
        .diagnostics
        .iter()
        .map(|d| (d.code.to_string(), d.message.clone()))
        .collect();
    let resolution = ["unused-term", "unused-anchor", "duplicate-anchor", "broken-cross-ref", "undeclared-schedule"];
    from_build.retain(|(c, _)| resolution.contains(&c.as_str()));
    from_lint.retain(|(c, _)| resolution.contains(&c.as_str()));
    from_build.sort();
    from_lint.sort();
    assert!(!from_build.is_empty());
    assert_eq!(from_build, from_lint);
    assert!(built.iter().any(|d| d.message.contains("Cog") && d.level == DiagLevel::Error));
    assert!(!built.iter().any(|d| d.code == "unused-anchor" || d.message.contains("Widget")));
}
