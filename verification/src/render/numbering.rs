//! Word numbering and outline levels of clause levels.
use vstd::prelude::*;

use crate::model::{level_depth, ClauseLevel};

verus! {

/// The level of a clause in the clause numbering definition: 0 for top-level
/// clauses down to 5 for sub-paragraphs.
pub fn numbering_level_for(level: ClauseLevel) -> (r: usize)
    ensures
        r == level_depth(level),
{
    match level {
        ClauseLevel::TopLevel => 0,
        ClauseLevel::Clause => 1,
        ClauseLevel::SubClause => 2,
        ClauseLevel::SubSubClause => 3,
        ClauseLevel::Paragraph => 4,
        ClauseLevel::SubParagraph => 5,
    }
}

/// The outline (navigation pane) level of a clause heading: 0 for top-level
/// clauses down to 5 for sub-paragraphs.
pub fn outline_level_for(level: ClauseLevel) -> (r: usize)
    ensures
        r == level_depth(level),
{
    match level {
        ClauseLevel::TopLevel => 0,
        ClauseLevel::Clause => 1,
        ClauseLevel::SubClause => 2,
        ClauseLevel::SubSubClause => 3,
        ClauseLevel::Paragraph => 4,
        ClauseLevel::SubParagraph => 5,
    }
}

} // verus!
