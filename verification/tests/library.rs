use std::io::{Read, Write};

use lexicon_docx::error::DiagLevel;
use lexicon_docx::fix::{normalise_ordinals, FixOutcome};
use lexicon_docx::model::{ClauseLevel, Party};
use lexicon_docx::render::common::{bookmark_name, clean_empty_parens, format_date_with_format, try_format_date};
use lexicon_docx::render::cover::{cover_lines, CoverLine, CoverText, PartyFormat};
use lexicon_docx::render::preamble::{preamble_lines, PreambleConfig, PreambleRun, PreambleStyle};
use lexicon_docx::render::contents::{build_bookmark_map, collect_toc_entries};
use lexicon_docx::render::numbering::{numbering_level_for, outline_level_for};
use lexicon_docx::render::watermark::{inject_watermark, watermark_parts};
use lexicon_docx::signatures::{
    execution_method, expand_field_value, resolve_signature_blocks, DefinitionEntry, Definitions,
    FieldDef, FieldType, Signatory, SignatoryDef, TemplateDefinition,
};
use lexicon_docx::style::{NumberingConvention, SignaturesConfig};

const HEAD: &str = "---\ntitle: T\ndate: 2026-01-01\nparties:\n  - name: Alice\n    role: Buyer\n---\n";

fn party(name: Option<&str>, role: &str, entity_type: Option<&str>) -> Party {
    Party {
        name: name.map(|n| n.to_string()),
        specifier: None,
        role: role.to_string(),
        entity_type: entity_type.map(|e| e.to_string()),
    }
}

// ---------------------------------------------------------------------------
// Ordinal normalisation
// ---------------------------------------------------------------------------

#[test]
fn wide_ordinal_rewritten_and_item_dedented() {
    let input = format!("{}\n10. ## Scope\n\n     1. The Buyer pays.\n", HEAD);
    match normalise_ordinals(&input) {
        FixOutcome::Fixed(out, n) => {
            assert_eq!(n, 1);
            assert_eq!(out, format!("{}\n1. ## Scope\n\n    1. The Buyer pays.\n", HEAD));
        }
        _ => panic!("expected a fix"),
    }
}

#[test]
fn narrow_ordinals_left_unchanged() {
    let input = format!("{}\n1. ## Scope\n\n    1. The Buyer pays.\n", HEAD);
    assert!(matches!(normalise_ordinals(&input), FixOutcome::Unchanged));
}

#[test]
fn unreadable_front_matter_left_unchanged() {
    assert!(matches!(normalise_ordinals("no front matter\n\n10. Item\n"), FixOutcome::Unchanged));
}

#[test]
fn fixed_source_parses_to_the_same_clauses() {
    let input = format!("{}\n10. ## Scope\n\n     1. The Buyer pays.\n", HEAD);
    if let FixOutcome::Fixed(out, _) = normalise_ordinals(&input) {
        let mut a = lexicon_docx::parse(&input).unwrap();
        lexicon_docx::resolve(&mut a, NumberingConvention::Commonwealth);
        let mut b = lexicon_docx::parse(&out).unwrap();
        lexicon_docx::resolve(&mut b, NumberingConvention::Commonwealth);
        assert_eq!(a.body.len(), b.body.len());
        assert_eq!(collect_toc_entries(&a), collect_toc_entries(&b));
    } else {
        panic!("expected a fix");
    }
}

// ---------------------------------------------------------------------------
// Rendering helpers
// ---------------------------------------------------------------------------

#[test]
fn empty_parentheses_and_double_spaces_removed() {
    assert_eq!(clean_empty_parens("Acme ( ) Pty  Ltd ()"), "Acme Pty Ltd");
    assert_eq!(clean_empty_parens("Acme (ACN 1)"), "Acme (ACN 1)");
    assert_eq!(clean_empty_parens("   "), "");
}

#[test]
fn bookmark_names_are_word_safe() {
    assert_eq!(bookmark_name("obligations"), "lx_obligations");
    assert_eq!(bookmark_name("a-b c.d"), "lx_a_b_c_d");
    let long = bookmark_name(&"x".repeat(60));
    assert_eq!(long.len(), 40);
    assert!(long.starts_with("lx_xxx"));
}

#[test]
fn levels_map_to_word_levels() {
    assert_eq!(numbering_level_for(ClauseLevel::TopLevel), 0);
    assert_eq!(numbering_level_for(ClauseLevel::SubClause), 2);
    assert_eq!(numbering_level_for(ClauseLevel::SubParagraph), 5);
    assert_eq!(outline_level_for(ClauseLevel::Clause), 1);
    assert_eq!(outline_level_for(ClauseLevel::Paragraph), 4);
}

#[test]
fn toc_lists_sections_clauses_addenda_and_exhibits() {
    let input = "---\ntitle: T\ndate: 2026-01-01\nparties:\n  - name: Alice\n    role: Buyer\nexhibits:\n  - title: Floor Plan\n---\n# Background\n\n1. A recital.\n\n# Operative Provisions\n\n1. ## Definitions\n\n    1. ## Meaning\n\n        1. Text.\n\n# ADDENDUM - Data\n\nText.\n";
    let mut doc = lexicon_docx::parse(input).unwrap();
    lexicon_docx::resolve(&mut doc, NumberingConvention::Commonwealth);
    let toc = collect_toc_entries(&doc);
    assert_eq!(
        toc,
        vec![
            ("BACKGROUND".to_string(), 1),
            ("OPERATIVE PROVISIONS".to_string(), 1),
            ("Definitions".to_string(), 1),
            ("Meaning".to_string(), 2),
            ("ADDENDUM 1 - DATA".to_string(), 1),
            ("EXHIBIT 1 - FLOOR PLAN".to_string(), 1),
        ]
    );
}

#[test]
fn bookmarks_numbered_in_document_order() {
    let input = format!(
        "{}\n1. ## Terms {{#terms}}\n\n    1. See [clause 2](#obligations).\n\n1. ## Obligations {{#obligations}}\n\n    1. The Buyer shall pay.\n",
        HEAD
    );
    let mut doc = lexicon_docx::parse(&input).unwrap();
    lexicon_docx::resolve(&mut doc, NumberingConvention::Commonwealth);
    let map = build_bookmark_map(&doc);
    assert_eq!(map.id_of("terms"), Some(1));
    assert_eq!(map.id_of("obligations"), Some(2));
    assert_eq!(map.id_of("missing"), None);
}

// ---------------------------------------------------------------------------
// Watermark
// ---------------------------------------------------------------------------

fn part(name: &str, text: &str) -> (String, Vec<u8>) {
    (name.to_string(), text.as_bytes().to_vec())
}

fn text_of<'a>(parts: &'a [(String, Vec<u8>)], name: &str) -> &'a str {
    let p = parts.iter().find(|(n, _)| n == name).expect("part present");
    std::str::from_utf8(&p.1).unwrap()
}

#[test]
fn watermark_added_to_headers_with_default_header_created() {
    let parts = vec![
        part("word/header1.xml", "<w:hdr><w:p><w:r/></w:p></w:hdr>"),
        part("word/document.xml", "<w:body><w:sectPr><w:titlePg/></w:sectPr></w:body>"),
        part("word/_rels/document.xml.rels", "<Relationships></Relationships>"),
        part("[Content_Types].xml", "<Types></Types>"),
        part("word/styles.xml", "<w:styles/>"),
    ];
    let out = watermark_parts(&parts, "DRAFT <1>");
    assert_eq!(out.len(), 6);
    let h1 = text_of(&out, "word/header1.xml");
    assert!(h1.contains("string=\"DRAFT &lt;1&gt;\""));
    assert!(h1.contains("PowerPlusWaterMarkObject1"));
    assert!(h1.contains("z-index:-251655168"));
    assert!(h1.ends_with("</w:p></w:hdr>"));
    assert!(text_of(&out, "word/document.xml")
        .contains("<w:headerReference w:type=\"default\" r:id=\"rIdWatermarkHeader\"/></w:sectPr>"));
    assert!(text_of(&out, "word/_rels/document.xml.rels").contains("Target=\"header2.xml\""));
    assert!(text_of(&out, "[Content_Types].xml").contains("PartName=\"/word/header2.xml\""));
    assert_eq!(text_of(&out, "word/styles.xml"), "<w:styles/>");
    assert_eq!(out[5].0, "word/header2.xml");
    assert!(text_of(&out, "word/header2.xml").starts_with("<?xml"));
    assert!(text_of(&out, "word/header2.xml").contains("PowerPlusWaterMarkObject2"));
}

#[test]
fn existing_default_header_gets_watermark_in_place() {
    let parts = vec![
        part("word/header1.xml", "<w:hdr/>"),
        part("word/header2.xml", "<w:hdr></w:hdr>"),
        part("word/document.xml", "<w:sectPr></w:sectPr>"),
    ];
    let out = watermark_parts(&parts, "DRAFT");
    assert_eq!(out.len(), 3);
    let h1 = text_of(&out, "word/header1.xml");
    assert!(h1.starts_with("<w:hdr><w:p>"));
    assert!(h1.ends_with("</w:p></w:hdr>"));
    let h2 = text_of(&out, "word/header2.xml");
    assert!(h2.starts_with("<w:hdr><w:p><w:pPr>"));
    assert!(h2.contains("PowerPlusWaterMarkObject2"));
    assert_eq!(text_of(&out, "word/document.xml"), "<w:sectPr></w:sectPr>");
}

#[test]
fn watermark_round_trips_through_a_zip_package() {
    let mut writer = zip::ZipWriter::new(std::io::Cursor::new(Vec::new()));
    let options = zip::write::SimpleFileOptions::default();
    writer.start_file("word/header1.xml", options).unwrap();
    writer.write_all(b"<w:hdr><w:p></w:p></w:hdr>").unwrap();
    writer.start_file("word/document.xml", options).unwrap();
    writer.write_all(b"<w:sectPr></w:sectPr>").unwrap();
    let bytes = writer.finish().unwrap().into_inner();

    let out = inject_watermark(bytes, "DRAFT").unwrap();
    let mut archive = zip::ZipArchive::new(std::io::Cursor::new(out)).unwrap();
    assert_eq!(archive.len(), 3);
    let mut header = String::new();
    archive.by_name("word/header1.xml").unwrap().read_to_string(&mut header).unwrap();
    assert!(header.contains("string=\"DRAFT\""));
    let mut header2 = String::new();
    archive.by_name("word/header2.xml").unwrap().read_to_string(&mut header2).unwrap();
    assert!(header2.contains("PowerPlusWaterMarkObject2"));
}

#[test]
fn watermark_rejects_bytes_that_are_not_a_package() {
    assert!(inject_watermark(b"not a zip".to_vec(), "DRAFT").is_err());
}

// ---------------------------------------------------------------------------
// Signature blocks
// ---------------------------------------------------------------------------

#[test]
fn execution_method_from_document_type() {
    assert_eq!(execution_method(Some("Deed")), "deed");
    assert_eq!(execution_method(Some("DEED")), "deed");
    assert_eq!(execution_method(Some("Agreement")), "agreement");
    assert_eq!(execution_method(None), "agreement");
}

#[test]
fn field_value_placeholders_expanded() {
    let p = party(Some("Acme"), "Supplier", None);
    let s = Signatory { title: Some("Director".to_string()) };
    assert_eq!(expand_field_value("{title} of {name} ({role})", &p, &s), "Director of Acme (Supplier)");
    let none = Signatory { title: None };
    assert_eq!(expand_field_value("{title}{specifier}", &p, &none), "");
}

#[test]
fn party_without_entity_type_gets_builtin_block_and_warning() {
    let parties = vec![party(Some("Acme"), "Supplier", None)];
    let mut diags = Vec::new();
    let blocks = resolve_signature_blocks(&parties, None, &SignaturesConfig::default_config(), &None, &mut diags);
    assert_eq!(blocks.len(), 1);
    let b = &blocks[0];
    assert_eq!(b.intro, "**Signed by Acme**:");
    assert_eq!(b.signatories.len(), 1);
    assert_eq!(b.fields.len(), 3);
    assert_eq!(b.fields[0].field_type, FieldType::Line);
    assert_eq!(b.fields[1].label.as_deref(), Some("Name"));
    assert_eq!(b.fields[1].value.as_deref(), Some("{name}"));
    assert!(!b.witness);
    assert_eq!(b.witness_fields.len(), 3);
    assert_eq!(b.witness_fields[1].label.as_deref(), Some("Witness name"));
    assert_eq!(diags.len(), 1);
    assert_eq!(diags[0].code, "signature-missing-entity-type");
    assert_eq!(diags[0].level, DiagLevel::Warning);
    assert_eq!(diags[0].location.as_deref(), Some("front-matter"));
    assert_eq!(diags[0].message, "Party 'Supplier' has no entity_type; using generic signature block");
}

fn definitions() -> Definitions {
    let template = TemplateDefinition {
        intro: "Executed by {name} ({specifier}) as a {short_title}".to_string(),
        signatories: vec![SignatoryDef { title: Some("Director".to_string()) }],
        fields: vec![
            FieldDef { field_type: Some("line".to_string()), label: None, value: None },
            FieldDef { field_type: None, label: Some("Name".to_string()), value: Some("{name}".to_string()) },
        ],
        witness: true,
        witness_fields: vec![],
    };
    Definitions {
        entries: vec![DefinitionEntry {
            jurisdiction: "au".to_string(),
            entity_type: "company".to_string(),
            execution: "deed".to_string(),
            template,
        }],
    }
}

#[test]
fn entity_type_selects_template_by_execution_method() {
    let parties = vec![party(Some("Acme Pty Ltd"), "Supplier", Some("au-company"))];
    let mut diags = Vec::new();
    let blocks = resolve_signature_blocks(
        &parties,
        Some("Deed"),
        &SignaturesConfig::default_config(),
        &Some(definitions()),
        &mut diags,
    );
    assert!(diags.is_empty());
    let b = &blocks[0];
    assert_eq!(b.intro, "Executed by Acme Pty Ltd as a Deed");
    assert_eq!(b.signatories[0].title.as_deref(), Some("Director"));
    assert_eq!(b.fields[0].field_type, FieldType::Line);
    assert_eq!(b.fields[1].field_type, FieldType::Blank);
    assert!(b.witness);
    assert_eq!(b.witness_fields.len(), 3);
}

#[test]
fn missing_template_warns_and_falls_back() {
    let parties = vec![party(Some("Acme"), "Supplier", Some("au-company"))];
    let mut diags = Vec::new();
    let blocks = resolve_signature_blocks(
        &parties,
        None,
        &SignaturesConfig::default_config(),
        &Some(definitions()),
        &mut diags,
    );
    assert_eq!(blocks[0].intro, "**Signed by Acme**:");
    assert_eq!(diags.len(), 1);
    assert_eq!(diags[0].code, "signature-template-missing");
    assert_eq!(
        diags[0].message,
        "No signature template found for party 'Supplier' (entity_type: au-company, execution: agreement); using fallback"
    );
}

#[test]
fn configured_template_key_and_override_apply() {
    let parties = vec![party(Some("Acme"), "Supplier", None)];
    let mut config = SignaturesConfig::default_config();
    config.party.push((
        "Supplier".to_string(),
        lexicon_docx::style::SignaturesPartyOverride {
            template: Some("au.company.deed".to_string()),
            signatories: Some(vec![
                lexicon_docx::style::SignatoryOverride { title: Some("Sole Director".to_string()) },
            ]),
            witness: Some(false),
        },
    ));
    let mut diags = Vec::new();
    let blocks = resolve_signature_blocks(&parties, None, &config, &Some(definitions()), &mut diags);
    assert!(diags.is_empty());
    assert_eq!(blocks[0].intro, "Executed by Acme as a Agreement");
    assert_eq!(blocks[0].signatories.len(), 1);
    assert_eq!(blocks[0].signatories[0].title.as_deref(), Some("Sole Director"));
    assert!(!blocks[0].witness);
}

#[test]
fn iso_date_is_formatted_and_trimmed() {
    assert_eq!(format_date_with_format("2026-01-05", "%e %B %Y"), "5 January 2026");
    assert_eq!(format_date_with_format("2026-01-05", "%d/%m/%Y"), "05/01/2026");
}

#[test]
fn non_iso_date_is_kept_as_written() {
    assert_eq!(format_date_with_format("1 March 2026", "%d %B %Y"), "1 March 2026");
    assert_eq!(format_date_with_format("", "%d %B %Y"), "");
}

#[test]
fn invalid_date_format_is_refused() {
    assert_eq!(try_format_date("2026-01-05", "%Q"), None);
    assert_eq!(try_format_date("not a date", "%Q"), Some("not a date".to_string()));
}

#[test]
fn unmatched_entity_type_uses_builtin_block_not_another_template() {
    let mut defs = definitions();
    let mut us = defs.entries[0].clone();
    us.jurisdiction = "us".to_string();
    us.entity_type = "individual".to_string();
    us.execution = "agreement".to_string();
    defs.entries.push(us);
    let parties = vec![party(Some("Acme"), "Supplier", Some("au-company"))];
    let mut diags = Vec::new();
    let blocks = resolve_signature_blocks(
        &parties,
        None,
        &SignaturesConfig::default_config(),
        &Some(defs),
        &mut diags,
    );
    assert_eq!(blocks[0].intro, "**Signed by Acme**:");
    assert_eq!(diags.len(), 1);
    assert_eq!(diags[0].code, "signature-template-missing");
}

#[test]
fn cover_lines_follow_settings() {
    let mut meta = lexicon_docx::parse("---\ntitle: T\nstatus: draft\nversion: 2\nparties:\n  - name: Acme\n    specifier: ACN 1\n    role: Supplier\n  - name: Bob\n    role: Buyer\n---\n").unwrap().meta;
    meta.ref_ = Some("X-1".to_string());
    let text = CoverText {
        between_label: "BETWEEN".to_string(),
        party_format: PartyFormat::NameSpecRole,
        show_ref: true,
        show_author: true,
        show_status: true,
    };
    let lines = cover_lines(&meta, &text, "1 January 2026");
    let shown: Vec<String> = lines
        .iter()
        .map(|l| match l {
            CoverLine::Blank => "".to_string(),
            CoverLine::Title => "<title>".to_string(),
            CoverLine::Plain(t) | CoverLine::Italic(t) | CoverLine::Label(t) | CoverLine::Role(t) => t.clone(),
            CoverLine::Party(n, x) => format!("{}{}", n, x.clone().unwrap_or_default()),
        })
        .collect();
    assert_eq!(
        shown,
        vec![
            "", "", "<title>", "", "DRAFT \u{2014} Version 2", "1 January 2026", "", "", "Ref: X-1", "", "",
            "BETWEEN", "", "Acme ACN 1", "(\"Supplier\")", "", "and", "", "Bob", "(\"Buyer\")",
        ]
    );
}

#[test]
fn preamble_styles_write_the_parties() {
    let meta = lexicon_docx::parse("---\ntitle: Services Agreement\nparties:\n  - name: Acme\n    role: Supplier\n  - name: Bob\n    role: Customer\n  - name: Cy\n    role: Guarantor\n---\n").unwrap().meta;
    let text = |runs: &Vec<PreambleRun>| -> String {
        runs.iter()
            .map(|r| match r {
                PreambleRun::Plain(t) => t.clone(),
                PreambleRun::Term(t) => format!("[{}]", t),
            })
            .collect()
    };
    let mut cfg = PreambleConfig {
        style: PreambleStyle::Prose,
        template: "This {title} (**{type}**)\\nis dated {date} ()".to_string(),
        party_template: "{name} ({specifier}) as **{role}**".to_string(),
        party_separator: ";".to_string(),
    };
    let prose = preamble_lines(&meta, &cfg, "1 May 2026");
    assert_eq!(
        text(&prose[0]),
        "This Services Agreement ([Agreement]) is entered into as of 1 May 2026 between Acme ([Supplier]), Bob ([Customer]) and Cy ([Guarantor])."
    );
    cfg.style = PreambleStyle::Simple;
    let simple = preamble_lines(&meta, &cfg, "1 May 2026");
    assert_eq!(text(&simple[0]), "This Services Agreement ([Agreement]) is dated 1 May 2026 between");
    assert_eq!(text(&simple[2]), "Acme ([Supplier]); and");
    assert_eq!(text(&simple[4]), "Cy ([Guarantor])");
    cfg.style = PreambleStyle::Custom;
    let custom = preamble_lines(&meta, &cfg, "1 May 2026");
    assert_eq!(text(&custom[0]), "This Services Agreement ([Agreement])");
    assert_eq!(text(&custom[1]), "is dated 1 May 2026");
    assert_eq!(text(&custom[3]), "Acme as [Supplier];");
    assert_eq!(text(&custom[5]), "Cy as [Guarantor]");
}

fn resolved(input: &str) -> lexicon_docx::model::Document {
    let mut doc = lexicon_docx::parse(input).unwrap();
    lexicon_docx::resolve(&mut doc, NumberingConvention::Commonwealth);
    doc
}

const FRONT: &str = "---\ntitle: Test Agreement\ndate: 2026-01-01\nparties:\n  - name: Alice\n    role: Buyer\n  - name: Bob\n    role: Seller\n---\n";

#[test]
fn undeclared_schedule_warning_is_placed_at_its_clause() {
    let input = format!(
        "{}\n1. ## Definitions\n\n    1. **Fee** has the meaning given by the Payment Schedule.\n\n    2. The Buyer pays the Fee to the Seller.\n",
        FRONT
    );
    let doc = resolved(&input);
    let found: Vec<_> = doc.diagnostics.iter().filter(|d| d.code == "undeclared-schedule").collect();
    assert_eq!(found.len(), 1);
    assert!(matches!(found[0].level, DiagLevel::Warning));
    assert_eq!(
        found[0].message,
        "'Fee' appears to reference schedule 'Payment Schedule', which is not declared in front-matter"
    );
    assert_eq!(found[0].location.as_deref(), Some("clause 1.1"));
}

#[test]
fn unused_anchor_info_names_the_anchor_and_its_clause() {
    let input = format!("{}\n1. ## Definitions {{#defs}}\n\n    1. The Buyer pays the Seller.\n", FRONT);
    let doc = resolved(&input);
    let found: Vec<_> = doc.diagnostics.iter().filter(|d| d.code == "unused-anchor").collect();
    assert_eq!(found.len(), 1);
    assert!(matches!(found[0].level, DiagLevel::Info));
    assert_eq!(found[0].message, "Anchor '#defs' is never referenced by a cross-reference");
    assert_eq!(found[0].location.as_deref(), Some("clause 1"));
}

#[test]
fn unreferenced_schedule_warning_is_at_the_front_matter() {
    let input = "---\ntitle: Test\ndate: 2026-01-01\nparties:\n  - name: Alice\n    role: Seller\nschedule:\n  - title: Payment Schedule\n---\n\n1. ## Scope\n\n    1. The Seller sells.\n";
    let doc = resolved(input);
    let found: Vec<_> = doc.diagnostics.iter().filter(|d| d.code == "unreferenced-schedule").collect();
    assert_eq!(found.len(), 1);
    assert!(matches!(found[0].level, DiagLevel::Warning));
    assert_eq!(found[0].message, "Schedule 'Payment Schedule' is declared but no terms reference it");
    assert_eq!(found[0].location.as_deref(), Some("front-matter"));
}

#[test]
fn broken_cross_ref_warning_names_the_reference_and_its_clause() {
    let input = format!("{}\n1. ## Scope\n\n    1. See [clause 9](#nowhere).\n", FRONT);
    let doc = resolved(&input);
    let found: Vec<_> = doc.diagnostics.iter().filter(|d| d.code == "broken-cross-ref").collect();
    assert_eq!(found.len(), 1);
    assert!(matches!(found[0].level, DiagLevel::Warning));
    assert_eq!(found[0].message, "Cross-reference 'clause 9' (#nowhere) points to non-existent anchor");
    assert_eq!(found[0].location.as_deref(), Some("clause 1.1"));
}
