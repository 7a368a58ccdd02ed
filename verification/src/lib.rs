//! Lexicon: contracts written as Markdown with YAML front-matter, parsed
//! into a document model, numbered, cross-referenced and checked.
pub mod error;
pub mod exhibit;
pub mod fix;
pub mod frontmatter;
pub mod lint;
pub mod markdown;
pub mod model;
pub mod parser;
pub mod pattern;
pub mod render;
pub mod resolve;
pub mod signatures;
pub mod style;
pub mod terms;
pub mod text;
pub mod yaml;

use vstd::prelude::*;

use error::LexiconError;
use model::Document;
use style::NumberingConvention;

verus! {

/// Parse a Lexicon Markdown document (see [`parser::parse`]).
pub fn parse(input: &str) -> (r: Result<Document, LexiconError>)
    ensures
        r is Ok <==> parser::frontmatter_accepts(input@),
        match r {
            Ok(doc) => parser::parsed_from(doc, input@),
            Err(e) => e is FrontMatter,
        },
{
    parser::parse(input)
}

/// Resolve a parsed document (see [`resolve::resolve`]).
pub fn resolve(doc: &mut Document, convention: NumberingConvention)
    requires
        resolve::resolvable(*old(doc), convention),
    ensures
        resolve::resolved_from(*final(doc), *old(doc)),
        resolve::cross_refs_resolved(*final(doc), *old(doc), convention),
{
    resolve::resolve(doc, convention)
}

} // verus!
