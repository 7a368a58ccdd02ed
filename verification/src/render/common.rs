//! Text helpers shared by the renderers: template clean-up and bookmark
//! names.
use vstd::prelude::*;

use crate::pattern::{date_parses, date_text, parses_as_date, strftime_text};
use crate::text::{
    ascii_alnum, chars_eq, chars_of, is_ascii_alnum, replace, replace_seq, string_of, trim,
    trim_seq,
};

verus! {

/// A date as the document shows it: an ISO date (`%Y-%m-%d`) written in
/// the strftime format `fmt`, trimmed; any other text as it is. `None`
/// when the date parses but the format is not valid.
pub open spec fn formatted_date(date: Seq<char>, fmt: Seq<char>) -> Option<Seq<char>> {
    if date_parses(date, "%Y-%m-%d"@) {
        match date_text(date, fmt) {
            Some(t) => Some(trim_seq(t)),
            None => None,
        }
    } else {
        Some(date)
    }
}

/// Format an ISO date with a strftime format; other text is kept as it is.
pub fn format_date_with_format(date_str: &str, fmt: &str) -> (r: String)
    requires
        formatted_date(date_str@, fmt@) is Some,
    ensures
        Some(r@) == formatted_date(date_str@, fmt@),
{
    match try_format_date(date_str, fmt) {
        Some(r) => r,
        None => string_of(&chars_of(date_str)),
    }
}

/// Format an ISO date with a strftime format, as
/// [`format_date_with_format`] does; `None` when the format is not a valid
/// strftime format for that date.
pub fn try_format_date(date_str: &str, fmt: &str) -> (r: Option<String>)
    ensures
        match r {
            Some(t) => formatted_date(date_str@, fmt@) == Some(t@),
            None => formatted_date(date_str@, fmt@) is None,
        },
{
    if !parses_as_date(date_str, "%Y-%m-%d") {
        return Some(string_of(&chars_of(date_str)));
    }
    match strftime_text(date_str, fmt) {
        Some(t) => Some(string_of(&trim(&chars_of(t.as_str())))),
        None => None,
    }
}

/// Replacing a pattern by something shorter never lengthens a text, and
/// leaves it as it was when its length is unchanged.
pub proof fn lemma_replace_shrinks(s: Seq<char>, p: Seq<char>, r: Seq<char>)
    requires
        p.len() > r.len(),
    ensures
        replace_seq(s, p, r).len() <= s.len(),
        replace_seq(s, p, r).len() == s.len() ==> replace_seq(s, p, r) == s,
    decreases s.len(),
{
    if s.len() > 0 {
        if p.is_prefix_of(s) {
            lemma_replace_shrinks(s.skip(p.len() as int), p, r);
        } else {
            lemma_replace_shrinks(s.drop_first(), p, r);
            if replace_seq(s, p, r).len() == s.len() {
                assert(replace_seq(s, p, r) =~= s);
            }
        }
    }
}

/// `s` with `"  "` replaced by `" "` again and again until nothing changes.
pub open spec fn collapse_spaces(s: Seq<char>) -> Seq<char>
    decreases s.len(),
{
    let t = replace_seq(s, seq![' ', ' '], seq![' ']);
    if t == s {
        s
    } else {
        proof {
            lemma_replace_shrinks(s, seq![' ', ' '], seq![' ']);
        }
        collapse_spaces(t)
    }
}

/// A template line with the empty parentheses that an absent placeholder
/// leaves behind removed: `()` and then `( )` deleted, runs of spaces
/// collapsed, and the ends trimmed.
pub open spec fn without_empty_parens(text: Seq<char>) -> Seq<char> {
    trim_seq(
        collapse_spaces(replace_seq(replace_seq(text, seq!['(', ')'], Seq::empty()), seq!['(', ' ', ')'], Seq::empty())),
    )
}

/// Remove the empty parentheses left when `{specifier}` is absent: `()`,
/// `( )`, and the double spaces they leave.
pub fn clean_empty_parens(text: &str) -> (r: String)
    ensures
        r@ == without_empty_parens(text@),
{
    let t = chars_of(text);
    let mut open_close: Vec<char> = Vec::new();
    open_close.push('(');
    open_close.push(')');
    let mut open_space_close: Vec<char> = Vec::new();
    open_space_close.push('(');
    open_space_close.push(' ');
    open_space_close.push(')');
    let nothing: Vec<char> = Vec::new();
    let mut two: Vec<char> = Vec::new();
    two.push(' ');
    two.push(' ');
    let mut one: Vec<char> = Vec::new();
    one.push(' ');
    assert(open_close@ =~= seq!['(', ')']);
    assert(open_space_close@ =~= seq!['(', ' ', ')']);
    assert(nothing@ =~= Seq::<char>::empty());
    assert(two@ =~= seq![' ', ' ']);
    assert(one@ =~= seq![' ']);
    let a = replace(&t, &open_close, &nothing);
    let mut cur = replace(&a, &open_space_close, &nothing);
    let ghost start = cur@;
    loop
        invariant
            two@ == seq![' ', ' '],
            one@ == seq![' '],
            collapse_spaces(cur@) == collapse_spaces(start),
        ensures
            cur@ == collapse_spaces(start),
        decreases cur@.len(),
    {
        let next = replace(&cur, &two, &one);
        if chars_eq(&next, &cur) {
            break;
        }
        proof {
            lemma_replace_shrinks(cur@, seq![' ', ' '], seq![' ']);
        }
        cur = next;
    }
    let out = trim(&cur);
    string_of(&out)
}

/// The character an anchor keeps in a bookmark name: ASCII letters, digits
/// and `_` as they are, anything else as `_`.
pub open spec fn bookmark_char(c: char) -> char {
    if is_ascii_alnum(c) || c == '_' {
        c
    } else {
        '_'
    }
}

/// The Word bookmark name of an anchor: `lx_` and the anchor with every
/// character outside `[A-Za-z0-9_]` replaced by `_`, cut to 40 characters.
pub open spec fn bookmark_name_of(anchor_id: Seq<char>) -> Seq<char> {
    let full = seq!['l', 'x', '_'] + anchor_id.map_values(|c: char| bookmark_char(c));
    if full.len() > 40 {
        full.take(40)
    } else {
        full
    }
}

/// Every bookmark name is one Word accepts: at most 40 characters, starting
/// with a letter, made of ASCII letters, digits and `_` only.
pub proof fn lemma_bookmark_name_valid(anchor_id: Seq<char>)
    ensures
        bookmark_name_of(anchor_id).len() <= 40,
        bookmark_name_of(anchor_id)[0] == 'l',
        forall|i: int|
            0 <= i < bookmark_name_of(anchor_id).len() ==> is_ascii_alnum(
                #[trigger] bookmark_name_of(anchor_id)[i],
            ) || bookmark_name_of(anchor_id)[i] == '_',
{
    let full = seq!['l', 'x', '_'] + anchor_id.map_values(|c: char| bookmark_char(c));
    assert forall|i: int| 0 <= i < full.len() implies is_ascii_alnum(#[trigger] full[i]) || full[i] == '_' by {
        if i >= 3 {
            assert(full[i] == bookmark_char(anchor_id[i - 3]));
        }
    }
}

/// Convert an anchor ID to a valid Word bookmark name: it starts with a
/// letter, holds only `[A-Za-z0-9_]` and has at most 40 characters. The
/// `lx_` prefix keeps it apart from Word's reserved `_` bookmarks.
pub fn bookmark_name(anchor_id: &str) -> (r: String)
    ensures
        r@ == bookmark_name_of(anchor_id@),
{
    let id = chars_of(anchor_id);
    let mut name: Vec<char> = Vec::new();
    name.push('l');
    name.push('x');
    name.push('_');
    let mut i: usize = 0;
    while i < id.len()
        invariant
            i <= id@.len(),
            name@ == seq!['l', 'x', '_'] + id@.take(i as int).map_values(|c: char| bookmark_char(c)),
        decreases id@.len() - i,
    {
        let c = id[i];
        if ascii_alnum(c) || c == '_' {
            name.push(c);
        } else {
            name.push('_');
        }
        assert(id@.take(i + 1).map_values(|c: char| bookmark_char(c)) =~= id@.take(i as int).map_values(
            |c: char| bookmark_char(c),
        ).push(bookmark_char(c)));
        i += 1;
    }
    assert(id@.take(id@.len() as int) =~= id@);
    if name.len() > 40 {
        name.truncate(40);
    }
    string_of(&name)
}

} // verus!
