//! Parsing a Lexicon Markdown document into the document model.
pub mod anchors;
pub mod clause;

use vstd::prelude::*;

use crate::error::{Diagnostic, LexiconError};
use crate::frontmatter::{
    count_newlines, meta_conforms, meta_readable, parse_frontmatter, split_spec, validation_codes,
};
use crate::markdown::{flatten, markdown_events, markdown_tree, MdNode};
use crate::model::Document;
use crate::yaml::yaml_parse;
use clause::{body_fits, body_read_from, extract_body};

verus! {

/// The front-matter of `input` splits off, parses as YAML and has the shape
/// of the metadata.
pub open spec fn frontmatter_accepts(input: Seq<char>) -> bool {
    &&& split_spec(input) matches Some((yaml, body))
    &&& yaml_parse(yaml) matches Some(t)
    &&& meta_readable(t)
}

/// Number of source lines before the body of `input`.
pub open spec fn body_offset(input: Seq<char>, body: Seq<char>) -> nat {
    count_newlines(input.take(input.len() - body.len()))
}

/// What a parsed document is, given its input: metadata read from the
/// front-matter, front-matter diagnostics first, the recitals, body heading,
/// body and addenda as [`extract_body`] reads them from the syntax tree of
/// the body, and no schedule items yet.
pub open spec fn parsed_from(doc: Document, input: Seq<char>) -> bool {
    &&& split_spec(input) matches Some((yaml, body))
    &&& yaml_parse(yaml) matches Some(t)
    &&& meta_conforms(doc.meta, t)
    &&& doc.schedule_items@.len() == 0
    &&& validation_codes(doc.meta).len() <= doc.diagnostics@.len()
    &&& doc.diagnostics@.take(validation_codes(doc.meta).len() as int).map_values(
        |d: Diagnostic| d.code@,
    ) == validation_codes(doc.meta)
    &&& body_fits((doc.recitals, doc.body_heading, doc.body, doc.addenda, doc.diagnostics))
    &&& exists|root: MdNode|
        #[trigger] flatten(root) == markdown_events(body) && body_read_from(
            doc.recitals,
            doc.body_heading,
            doc.body@,
            doc.addenda@,
            root.children@,
            body_offset(input, body) as usize,
        )
}

/// Parse a Lexicon Markdown document: its front-matter, then its body.
/// Fails, with a front-matter error, exactly when the front-matter cannot
/// be read.
pub fn parse(input: &str) -> (r: Result<Document, LexiconError>)
    ensures
        r is Ok <==> frontmatter_accepts(input@),
        match r {
            Ok(doc) => parsed_from(doc, input@),
            Err(e) => e is FrontMatter,
        },
{
    let fm = parse_frontmatter(input)?;
    let root = markdown_tree(fm.body.as_str());
    let (recitals, body_heading, body, addenda, parser_diags) = extract_body(
        &root,
        fm.body_line_offset,
    );
    let mut diagnostics = fm.diagnostics;
    let ghost front = diagnostics@;
    let mut parser_diags = parser_diags;
    let ghost tail = parser_diags@;
    diagnostics.append(&mut parser_diags);
    proof {
        assert(diagnostics@.take(front.len() as int) =~= front);
        if tail.len() > 0 {
            assert(diagnostics@.last() == tail.last());
        }
    }
    Ok(
        Document {
            meta: fm.meta,
            recitals,
            body_heading,
            body,
            addenda,
            schedule_items: Vec::new(),
            diagnostics,
        },
    )
}

} // verus!
