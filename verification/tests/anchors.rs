use lexicon_docx::parser::anchors::strip_anchor;

#[test]
fn test_strip_anchor() {
    let (text, anchor) = strip_anchor("Definitions {#definitions}");
    assert_eq!(text, "Definitions");
    assert_eq!(anchor, Some("definitions".to_string()));
}

#[test]
fn test_no_anchor() {
    let (text, anchor) = strip_anchor("Just some text");
    assert_eq!(text, "Just some text");
    assert_eq!(anchor, None);
}

#[test]
fn test_anchor_with_text_before() {
    let (text, anchor) = strip_anchor("The Employer shall pay. {#payment-timeframe}");
    assert_eq!(text, "The Employer shall pay.");
    assert_eq!(anchor, Some("payment-timeframe".to_string()));
}
