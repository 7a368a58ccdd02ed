//! `{#id}` anchors at the end of headings and paragraphs.
use vstd::prelude::*;

use crate::pattern::{regex_captures, regex_captures_all};
use crate::text::{chars_of, extend_chars, slice_chars, string_of};

verus! {

/// An anchor `{#id}` (letters, digits, `_`, `-`) at the end of the text,
/// with the white space around it.
pub const ANCHOR_PATTERN: &'static str = r"\s*\{#([a-zA-Z0-9_-]+)\}\s*$";

/// What [`strip_anchor`] returns for `text`: when the anchor pattern matches,
/// the text with the match cut out and the id; otherwise the text unchanged
/// and no id.
pub open spec fn strip_anchor_spec(text: Seq<char>) -> (Seq<char>, Option<Seq<char>>) {
    let caps = regex_captures(ANCHOR_PATTERN@, text);
    if caps.len() > 0 && caps[0].len() > 1 && caps[0][0] is Some && caps[0][1] is Some {
        let whole = caps[0][0]->0;
        let id = caps[0][1]->0;
        (text.take(whole.0 as int) + text.skip(whole.1 as int), Some(
            text.subrange(id.0 as int, id.1 as int),
        ))
    } else {
        (text, None)
    }
}

/// Strip an anchor like `{#some-id}` from the end of a string. Returns the
/// cleaned text and the anchor id, or the original text and `None`.
pub fn strip_anchor(text: &str) -> (r: (String, Option<String>))
    ensures
        r.0@ == strip_anchor_spec(text@).0,
        match r.1 {
            Some(id) => strip_anchor_spec(text@).1 == Some(id@),
            None => strip_anchor_spec(text@).1 is None,
        },
{
    let caps = regex_captures_all(ANCHOR_PATTERN, text);
    let chars = chars_of(text);
    if caps.len() > 0 && caps[0].len() > 1 {
        proof {
            assert(caps@.map_values(|m: Vec<Option<(usize, usize)>>| m@)[0] == caps@[0]@);
        }
        match (caps[0][0], caps[0][1]) {
            (Some(whole), Some(id)) => {
                proof {
                    assert(caps@[0]@[0] == Some(whole));
                    assert(caps@[0]@[1] == Some(id));
                }
                let mut cleaned = slice_chars(&chars, 0, whole.0);
                let tail = slice_chars(&chars, whole.1, chars.len());
                extend_chars(&mut cleaned, &tail);
                let anchor = slice_chars(&chars, id.0, id.1);
                proof {
                    assert(cleaned@ =~= text@.take(whole.0 as int) + text@.skip(whole.1 as int));
                }
                return (string_of(&cleaned), Some(string_of(&anchor)));
            },
            _ => {},
        }
    }
    (string_of(&chars), None)
}

} // verus!
