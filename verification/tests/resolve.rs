use lexicon_docx::model::{InlineContent, ScheduleDecl};
use lexicon_docx::style::NumberingConvention;
use lexicon_docx::terms::{check_schedule_phrase, classify_term, ScheduleContext, TermKind};
fn make_schedule_patterns(titles: &[&str]) -> Vec<String> {
    let decls: Vec<ScheduleDecl> = titles
        .iter()
        .map(|t| ScheduleDecl {
            title: t.to_string(),
        })
        .collect();
    ScheduleContext::new(&decls).patterns
}

#[test]
fn schedule_phrase_given_by() {
    let patterns = make_schedule_patterns(&["Schedule"]);
    let inlines = vec![
        InlineContent::Bold("Objection Period".to_string()),
        InlineContent::Text(" has the meaning given by the Schedule.".to_string()),
    ];
    assert_eq!(check_schedule_phrase(&inlines, 0, &patterns), Some(0));
}

#[test]
fn schedule_phrase_set_out_in() {
    let patterns = make_schedule_patterns(&["Schedule"]);
    let inlines = vec![
        InlineContent::Bold("Term".to_string()),
        InlineContent::Text(" is set out in the Schedule.".to_string()),
    ];
    assert_eq!(check_schedule_phrase(&inlines, 0, &patterns), Some(0));
}

#[test]
fn schedule_phrase_case_insensitive() {
    let patterns = make_schedule_patterns(&["Schedule"]);
    let inlines = vec![
        InlineContent::Bold("Term".to_string()),
        InlineContent::Text(" has the meaning GIVEN BY THE SCHEDULE.".to_string()),
    ];
    assert_eq!(check_schedule_phrase(&inlines, 0, &patterns), Some(0));
}

#[test]
fn schedule_phrase_no_match() {
    let patterns = make_schedule_patterns(&["Schedule"]);
    let inlines = vec![
        InlineContent::Bold("Term".to_string()),
        InlineContent::Text(" means something ordinary.".to_string()),
    ];
    assert_eq!(check_schedule_phrase(&inlines, 0, &patterns), None);
}

#[test]
fn schedule_phrase_custom_title() {
    let patterns = make_schedule_patterns(&["Annexure"]);
    let inlines = vec![
        InlineContent::Bold("Rent".to_string()),
        InlineContent::Text(" has the meaning given by the Annexure.".to_string()),
    ];
    assert_eq!(check_schedule_phrase(&inlines, 0, &patterns), Some(0));
}

#[test]
fn schedule_phrase_multiple_schedules() {
    let patterns = make_schedule_patterns(&["Schedule", "Payment Schedule"]);
    let inlines_1 = vec![
        InlineContent::Bold("Term A".to_string()),
        InlineContent::Text(" is specified in the Schedule.".to_string()),
    ];
    let inlines_2 = vec![
        InlineContent::Bold("Term B".to_string()),
        InlineContent::Text(" is specified in the Payment Schedule.".to_string()),
    ];
    assert_eq!(check_schedule_phrase(&inlines_1, 0, &patterns), Some(0));
    assert_eq!(check_schedule_phrase(&inlines_2, 0, &patterns), Some(1));
}

#[test]
fn schedule_phrase_all_variants() {
    let patterns = make_schedule_patterns(&["Schedule"]);
    let phrases = [
        "given by the Schedule",
        "set out in the Schedule",
        "specified in the Schedule",
        "described in the Schedule",
        "defined in the Schedule",
        "provided in the Schedule",
        "contained in the Schedule",
        "stated in the Schedule",
        "referred to in the Schedule",
        "as per the Schedule",
        "in accordance with the Schedule",
        "pursuant to the Schedule",
        "detailed in the Schedule",
    ];
    for phrase in &phrases {
        let inlines = vec![
            InlineContent::Bold("Term".to_string()),
            InlineContent::Text(format!(" has the meaning {}.", phrase)),
        ];
        assert_eq!(
            check_schedule_phrase(&inlines, 0, &patterns),
            Some(0),
            "Failed to match phrase: {}",
            phrase,
        );
    }
}

#[test]
fn classify_term_schedule_definition() {
    let patterns = make_schedule_patterns(&["Schedule"]);
    let inlines = vec![
        InlineContent::Bold("Objection Period".to_string()),
        InlineContent::Text(" has the meaning given by the Schedule.".to_string()),
    ];
    let kind = classify_term("Objection Period", &inlines, 0, &patterns);
    assert_eq!(kind, TermKind::ScheduleDefinition(0));
}

#[test]
fn classify_term_formal_not_schedule() {
    let patterns = make_schedule_patterns(&["Schedule"]);
    let inlines = vec![
        InlineContent::Bold("Term".to_string()),
        InlineContent::Text(" means something.".to_string()),
    ];
    let kind = classify_term("Term", &inlines, 0, &patterns);
    assert_eq!(kind, TermKind::FormalDefinition);
}

#[test]
fn integration_schedule_collection() {
    let input = r#"---
title: Test
date: 2026-01-01
parties:
  - name: Alice
    role: Seller
  - name: Bob
    role: Buyer
schedule:
  - title: Schedule
---

1. ## Definitions {#definitions}

    1. **Payment Amount** has the meaning given by the Schedule.

    2. **Delivery Date** is set out in the Schedule.

    3. **Warranty** means the manufacturer's warranty.

2. ## Obligations {#obligations}

    1. The Seller shall deliver the goods by the Delivery Date.
"#;
    let mut doc = lexicon_docx::parse(input).unwrap();
    lexicon_docx::resolve(&mut doc, NumberingConvention::Commonwealth);

    assert_eq!(doc.schedule_items.len(), 2);
    assert_eq!(doc.schedule_items[0].term, "Payment Amount");
    assert_eq!(doc.schedule_items[0].schedule_index, 0);
    assert_eq!(doc.schedule_items[1].term, "Delivery Date");
    assert_eq!(doc.schedule_items[1].schedule_index, 0);
}

#[test]
fn integration_unreferenced_schedule_warning() {
    let input = r#"---
title: Test
date: 2026-01-01
parties:
  - name: Alice
    role: Seller
schedule:
  - title: Schedule
  - title: Payment Schedule
---

1. ## Definitions {#definitions}

    1. **Amount** has the meaning given by the Schedule.
"#;
    let mut doc = lexicon_docx::parse(input).unwrap();
    lexicon_docx::resolve(&mut doc, NumberingConvention::Commonwealth);

    // "Payment Schedule" is declared but no terms reference it
    let warnings: Vec<_> = doc
        .diagnostics
        .iter()
        .filter(|d| d.message.contains("Payment Schedule"))
        .collect();
    assert_eq!(warnings.len(), 1);
    assert!(
        warnings[0]
            .message
            .contains("declared but no terms reference it")
    );
}
