//! Source rewrites for lint findings that can be fixed mechanically.
//!
//! One fix: normalising hand-numbered ordinals. A list marker of `10.` or
//! wider widens the content column of its item, which is what lets
//! continuation content sit under-indented at all. Clauses are renumbered on
//! render, so the typed ordinal carries no information and rewriting it to
//! `1.` is free, provided the rest of the item is dedented by the width the
//! marker lost, so that every column relationship in the source is kept.
//!
//! Lines here are split on `\n` alone, and byte offsets reported by the
//! Markdown parser are mapped to character positions.
use vstd::prelude::*;

use crate::frontmatter::{count_newlines, parse_frontmatter, split_spec};
use crate::markdown::{markdown_events, parse_markdown_events, MdEvent, MdKind};
use crate::model::{
    Addendum, AddendumContent, BodyElement, Clause, ClauseBody, ClauseContent, Document,
    InlineContent,
};
use crate::model::Table;
use crate::parser::{frontmatter_accepts, parsed_from};
use crate::terms::utf8_width;
use crate::text::{
    chars_eq, chars_of, decimal, lines_view, split_chars, split_on, decimal_chars, extend_chars, extend_str, is_blank, is_digit, string_of,
    trim_seq,
};

verus! {

// ---------------------------------------------------------------------------
// Lines
// ---------------------------------------------------------------------------

/// Lines joined with `\n` between them (`join("\n")`).
pub open spec fn join_newlines(lines: Seq<Seq<char>>) -> Seq<char>
    decreases lines.len(),
{
    if lines.len() == 0 {
        Seq::empty()
    } else if lines.len() == 1 {
        lines[0]
    } else {
        join_newlines(lines.drop_last()).push('\n') + lines.last()
    }
}

/// Join lines from index `from` on with `\n`.
fn join_from(lines: &Vec<Vec<char>>, from: usize) -> (r: String)
    requires
        from <= lines@.len(),
    ensures
        r@ == join_newlines(lines_view(lines@).skip(from as int)),
{
    let ghost all = lines_view(lines@).skip(from as int);
    let mut out: Vec<char> = Vec::new();
    let mut i: usize = from;
    while i < lines.len()
        invariant
            from <= i <= lines@.len(),
            all == lines_view(lines@).skip(from as int),
            out@ == join_newlines(all.take(i - from)),
        decreases lines@.len() - i,
    {
        let ghost before = out@;
        if i > from {
            out.push('\n');
        }
        let line = &lines[i];
        let mut j: usize = 0;
        while j < line.len()
            invariant
                j <= line@.len(),
                out@ == (if i > from {
                    before.push('\n')
                } else {
                    before
                }) + line@.take(j as int),
            decreases line@.len() - j,
        {
            out.push(line[j]);
            assert(line@.take(j + 1) =~= line@.take(j as int).push(line[j as int]));
            j += 1;
        }
        proof {
            assert(line@.take(j as int) =~= line@);
            let t = all.take(i + 1 - from);
            assert(t.drop_last() =~= all.take(i - from));
            assert(t.last() == line@);
            if i == from {
                assert(before =~= Seq::<char>::empty());
                assert(out@ =~= join_newlines(t));
            } else {
                assert(out@ =~= join_newlines(t));
            }
        }
        i += 1;
    }
    proof {
        assert(all.take(lines@.len() - from) =~= all);
    }
    string_of(&out)
}

// ---------------------------------------------------------------------------
// Byte offsets
// ---------------------------------------------------------------------------

/// The character position of `s` that starts at byte `b` of its UTF-8
/// encoding; `None` when `b` falls inside a character or past the end.
pub open spec fn char_at_byte(s: Seq<char>, b: nat) -> Option<nat>
    decreases s.len(),
{
    if b == 0 {
        Some(0)
    } else if s.len() == 0 || utf8_width(s[0]) > b {
        None
    } else {
        match char_at_byte(s.drop_first(), (b - utf8_width(s[0])) as nat) {
            Some(k) => Some(k + 1),
            None => None,
        }
    }
}

proof fn lemma_char_at_byte_bound(s: Seq<char>, b: nat)
    ensures
        char_at_byte(s, b) matches Some(k) ==> k <= s.len(),
    decreases s.len(),
{
    if b > 0 && s.len() > 0 && utf8_width(s[0]) <= b {
        lemma_char_at_byte_bound(s.drop_first(), (b - utf8_width(s[0])) as nat);
    }
}

fn char_width(c: char) -> (w: usize)
    ensures
        w == utf8_width(c),
{
    if (c as u32) < 0x80 {
        1
    } else if (c as u32) < 0x800 {
        2
    } else if (c as u32) < 0x10000 {
        3
    } else {
        4
    }
}

/// Find the character that starts at byte `b` of `s`.
fn find_char_at_byte(s: &Vec<char>, b: usize) -> (r: Option<usize>)
    ensures
        match r {
            Some(k) => char_at_byte(s@, b as nat) == Some(k as nat),
            None => char_at_byte(s@, b as nat) is None,
        },
{
    let mut i: usize = 0;
    let mut left: usize = b;
    proof {
        assert(s@.skip(0) =~= s@);
    }
    while left > 0 && i < s.len()
        invariant
            i <= s@.len(),
            left <= b,
            char_at_byte(s@, b as nat) == (match char_at_byte(s@.skip(i as int), left as nat) {
                Some(k) => Some((k + i) as nat),
                None => None::<nat>,
            }),
        decreases s@.len() - i,
    {
        let w = char_width(s[i]);
        proof {
            assert(s@.skip(i as int)[0] == s@[i as int]);
            assert(s@.skip(i as int).drop_first() =~= s@.skip(i + 1));
        }
        if w > left {
            return None;
        }
        left = left - w;
        i += 1;
    }
    if left == 0 {
        Some(i)
    } else {
        proof {
            assert(s@.skip(i as int).len() == 0);
        }
        None
    }
}

// ---------------------------------------------------------------------------
// Rewriting one ordinal
// ---------------------------------------------------------------------------

/// Number of leading spaces (`' '` only) of a line.
pub open spec fn leading_spaces(s: Seq<char>) -> nat
    decreases s.len(),
{
    if s.len() > 0 && s[0] == ' ' {
        1 + leading_spaces(s.drop_first())
    } else {
        0
    }
}

/// A continuation line of a rewritten item: blank lines, and lines with
/// fewer than `delta` leading spaces (lazy continuations), stay as they are;
/// every other line loses its first `delta` spaces.
pub open spec fn dedent(s: Seq<char>, delta: nat) -> Seq<char> {
    if trim_seq(s).len() == 0 || leading_spaces(s) < delta {
        s
    } else {
        s.skip(delta as int)
    }
}

proof fn lemma_leading_spaces(s: Seq<char>, n: nat)
    requires
        n <= leading_spaces(s),
    ensures
        n <= s.len(),
        forall|i: int| 0 <= i < n ==> s[i] == ' ',
    decreases n,
{
    if n > 0 {
        lemma_leading_spaces(s.drop_first(), (n - 1) as nat);
        assert forall|i: int| 0 <= i < n implies s[i] == ' ' by {
            if i > 0 {
                assert(s[i] == s.drop_first()[i - 1]);
            }
        }
    }
}

fn count_leading_spaces(s: &Vec<char>) -> (r: usize)
    ensures
        r == leading_spaces(s@),
{
    let mut i: usize = 0;
    proof {
        assert(s@.skip(0) =~= s@);
    }
    while i < s.len() && s[i] == ' '
        invariant
            i <= s@.len(),
            leading_spaces(s@) == i + leading_spaces(s@.skip(i as int)),
        decreases s@.len() - i,
    {
        assert(s@.skip(i as int).drop_first() =~= s@.skip(i + 1));
        i += 1;
    }
    i
}

fn dedent_line(s: &Vec<char>, delta: usize) -> (r: Vec<char>)
    ensures
        r@ == dedent(s@, delta as nat),
{
    if is_blank(s) {
        return s.clone();
    }
    let lead = count_leading_spaces(s);
    if lead < delta {
        return s.clone();
    }
    proof {
        lemma_leading_spaces(s@, lead as nat);
    }
    let mut r: Vec<char> = Vec::new();
    let mut i: usize = delta;
    while i < s.len()
        invariant
            delta <= i <= s@.len(),
            lead <= s@.len(),
            r@ == s@.subrange(delta as int, i as int),
        decreases s@.len() - i,
    {
        r.push(s[i]);
        assert(s@.subrange(delta as int, i + 1) =~= s@.subrange(delta as int, i as int).push(
            s@[i as int],
        ));
        i += 1;
    }
    assert(r@ =~= s@.skip(delta as int));
    r
}

/// The marker line with the `digits` digits at character `k` replaced by a
/// single `1`.
pub open spec fn shrink_marker(line: Seq<char>, k: int, digits: nat) -> Seq<char> {
    line.take(k) + seq!['1'] + line.skip(k + digits)
}

/// Rewrite the ordinal whose marker has `digits` digits starting at byte
/// `offset` of 1-based line `line`, in an item whose last line is
/// `end_line`: the digits become `1`, and the item's later lines, up to
/// `end_line` or the end of the text, are [`dedent`]ed by the width lost.
/// `None`, with nothing rewritten, when the line does not exist or does not
/// carry `digits` ASCII digits at that offset.
pub open spec fn rewrite_ordinal(
    lines: Seq<Seq<char>>,
    line: int,
    offset: nat,
    digits: nat,
    end_line: int,
) -> Option<Seq<Seq<char>>> {
    let idx = line - 1;
    if line < 1 || idx >= lines.len() || digits < 1 {
        None
    } else {
        match char_at_byte(lines[idx], offset) {
            None => None,
            Some(k) => if k + digits > lines[idx].len() || !(forall|j: int|
                k <= j < k + digits ==> is_digit(#[trigger] lines[idx][j])) {
                None
            } else {
                let last = if end_line < lines.len() {
                    end_line
                } else {
                    lines.len() as int
                };
                Some(
                    Seq::new(
                        lines.len(),
                        |i: int|
                            if i == idx {
                                shrink_marker(lines[idx], k as int, digits)
                            } else if idx < i < last {
                                dedent(lines[i], (digits - 1) as nat)
                            } else {
                                lines[i]
                            },
                    ),
                )
            },
        }
    }
}

/// One ordinal to rewrite: the 1-based line of its marker, the byte offset
/// of the first digit within that line, the number of digits, and the
/// 1-based last line of the item.
pub struct Target {
    pub line: usize,
    pub offset: usize,
    pub digits: usize,
    pub end_line: usize,
}

fn all_digits(line: &Vec<char>, from: usize, n: usize) -> (r: bool)
    requires
        from + n <= line@.len(),
    ensures
        r == (forall|j: int| from <= j < from + n ==> is_digit(#[trigger] line@[j])),
{
    let len = line.len();
    let end = from + n;
    let mut j: usize = from;
    while j < end
        invariant
            from <= j <= end,
            end == from + n,
            end <= line@.len(),
            forall|m: int| from <= m < j ==> is_digit(#[trigger] line@[m]),
        decreases end - j,
    {
        if !('0' <= line[j] && line[j] <= '9') {
            return false;
        }
        j += 1;
    }
    true
}

/// Apply one [`Target`]: shrink its marker to `1.` and dedent the rest of
/// the item by the width the marker lost. Returns whether the rewrite was
/// made; the lines are untouched when it was not.
fn apply(lines: &mut Vec<Vec<char>>, t: &Target) -> (ok: bool)
    ensures
        match rewrite_ordinal(
            lines_view(old(lines)@),
            t.line as int,
            t.offset as nat,
            t.digits as nat,
            t.end_line as int,
        ) {
            Some(n) => ok && lines_view(final(lines)@) == n,
            None => !ok && final(lines)@ == old(lines)@,
        },
{
    let ghost before = lines_view(lines@);
    if t.line < 1 || t.digits < 1 {
        return false;
    }
    let idx = t.line - 1;
    if idx >= lines.len() {
        return false;
    }
    let k = match find_char_at_byte(&lines[idx], t.offset) {
        None => {
            return false;
        },
        Some(k) => k,
    };
    proof {
        lemma_char_at_byte_bound(lines@[idx as int]@, t.offset as nat);
    }
    if t.digits > lines[idx].len() - k {
        return false;
    }
    if !all_digits(&lines[idx], k, t.digits) {
        return false;
    }
    proof {
        assert(before[idx as int] == lines@[idx as int]@);
        assert(char_at_byte(before[idx as int], t.offset as nat) == Some(k as nat));
        assert(rewrite_ordinal(before, t.line as int, t.offset as nat, t.digits as nat, t.end_line as int) is Some);
    }
    let ghost expected = rewrite_ordinal(
        before,
        t.line as int,
        t.offset as nat,
        t.digits as nat,
        t.end_line as int,
    ).unwrap();
    let mut marker: Vec<char> = Vec::new();
    let mut j: usize = 0;
    while j < k
        invariant
            j <= k,
            idx < lines@.len(),
            k + t.digits <= lines@[idx as int]@.len(),
            marker@ == lines@[idx as int]@.take(j as int),
        decreases k - j,
    {
        marker.push(lines[idx][j]);
        assert(lines@[idx as int]@.take(j + 1) =~= lines@[idx as int]@.take(j as int).push(
            lines@[idx as int]@[j as int],
        ));
        j += 1;
    }
    marker.push('1');
    let mut j: usize = k + t.digits;
    let n = lines[idx].len();
    while j < n
        invariant
            k + t.digits <= j <= n,
            idx < lines@.len(),
            n == lines@[idx as int]@.len(),
            marker@ == lines@[idx as int]@.take(k as int) + seq!['1'] + lines@[idx as int]@.subrange(
                k + t.digits,
                j as int,
            ),
        decreases n - j,
    {
        marker.push(lines[idx][j]);
        assert(lines@[idx as int]@.subrange(k + t.digits, j + 1) =~= lines@[idx as int]@.subrange(
            k + t.digits,
            j as int,
        ).push(lines@[idx as int]@[j as int]));
        j += 1;
    }
    assert(marker@ =~= shrink_marker(before[idx as int], k as int, t.digits as nat));
    lines.set(idx, marker);
    let delta = t.digits - 1;
    let last = if t.end_line < lines.len() {
        t.end_line
    } else {
        lines.len()
    };
    assert forall|m: int| idx < m < last implies expected[m] == dedent(before[m], delta as nat) by {}
    let mut i: usize = idx + 1;
    while i < last
        invariant
            forall|m: int| idx < m < last ==> expected[m] == dedent(before[m], delta as nat),
            idx < i,
            idx + 1 <= i <= last || i == idx + 1,
            last <= lines@.len(),
            lines@.len() == before.len(),
            expected.len() == before.len(),
            forall|m: int|
                0 <= m < before.len() ==> #[trigger] lines@[m]@ == (if m < i {
                    expected[m]
                } else {
                    before[m]
                }),
        decreases last - i,
    {
        let d = dedent_line(&lines[i], delta);
        lines.set(i, d);
        i += 1;
    }
    assert(lines_view(lines@) =~= expected);
    true
}

// ---------------------------------------------------------------------------
// Structural fingerprints
// ---------------------------------------------------------------------------

/// The text an inline contributes to a fingerprint: the text of text runs
/// and the display text of cross-references; nothing for links and breaks.
pub open spec fn fp_inline(i: InlineContent) -> Seq<char> {
    match i {
        InlineContent::Text(t) => t@,
        InlineContent::Bold(t) => t@,
        InlineContent::Italic(t) => t@,
        InlineContent::Superscript(t) => t@,
        InlineContent::CrossRef { display, .. } => display@,
        _ => Seq::empty(),
    }
}

/// The fingerprint text of a run of inlines.
pub open spec fn fp_inlines(s: Seq<InlineContent>) -> Seq<char>
    decreases s.len(),
{
    if s.len() == 0 {
        Seq::empty()
    } else {
        fp_inlines(s.drop_last()) + fp_inline(s.last())
    }
}

/// One fingerprint entry, `head:tag:text`.
pub open spec fn tagged(head: Seq<char>, tag: Seq<char>, text: Seq<char>) -> Seq<char> {
    head + seq![':'] + tag + seq![':'] + text
}

/// One entry per list item.
pub open spec fn fp_items(head: Seq<char>, tag: Seq<char>, items: Seq<Vec<InlineContent>>) -> Seq<
    Seq<char>,
> {
    items.map_values(|it: Vec<InlineContent>| tagged(head, tag, fp_inlines(it@)))
}

/// The fingerprint of a table's rows: for each, its cell count, then the
/// text of each cell.
pub open spec fn fp_rows(head: Seq<char>, rows: Seq<Vec<Vec<InlineContent>>>) -> Seq<Seq<char>>
    decreases rows.len(),
{
    if rows.len() == 0 {
        Seq::empty()
    } else {
        fp_rows(head, rows.drop_last()) + seq![tagged(head, "tr"@, decimal(rows.last()@.len()))]
            + fp_items(head, "tc"@, rows.last()@)
    }
}

/// The fingerprint of a table: its row count, the text of each header
/// cell, then its rows.
pub open spec fn fp_table(head: Seq<char>, t: Table) -> Seq<Seq<char>> {
    seq![tagged(head, seq!['t'], decimal(t.rows@.len()))] + fp_items(head, "th"@, t.headers@) + fp_rows(
        head,
        t.rows@,
    )
}

/// The depth of a clause's children (the counter stops at the largest
/// `usize`).
pub open spec fn deeper(d: usize) -> usize {
    if d < usize::MAX {
        (d + 1) as usize
    } else {
        d
    }
}

/// The fingerprint of a block of clause content at depth `d`.
pub open spec fn fp_content(c: ClauseContent, d: usize) -> Seq<Seq<char>> {
    match c {
        ClauseContent::Paragraph(i) => seq![tagged(decimal(d as nat), seq!['p'], fp_inlines(i@))],
        ClauseContent::Blockquote(i) => seq![tagged(decimal(d as nat), seq!['q'], fp_inlines(i@))],
        ClauseContent::BulletList(items) => fp_items(decimal(d as nat), seq!['b'], items@),
        ClauseContent::Table(t) => fp_table(decimal(d as nat), t),
    }
}

/// The fingerprint of a clause at depth `d`: its heading, its anchor, then
/// its body, children one level deeper.
pub open spec fn fp_clause(c: Clause, d: usize) -> Seq<Seq<char>>
    decreases c, 2int,
{
    (match c.heading {
        Some(h) => seq![tagged(decimal(d as nat), seq!['h'], fp_inlines(h.text@))],
        None => Seq::empty(),
    }) + (match c.anchor {
        Some(a) => seq![tagged(decimal(d as nat), seq!['a'], a@)],
        None => Seq::empty(),
    }) + fp_runs(c.body@, d)
}

/// The fingerprint of the pieces of a clause body.
pub open spec fn fp_runs(body: Seq<ClauseBody>, d: usize) -> Seq<Seq<char>>
    decreases body, 1int,
{
    if body.len() == 0 {
        Seq::empty()
    } else {
        fp_runs(body.drop_last(), d) + match body.last() {
            ClauseBody::Content(x) => fp_content(x, d),
            ClauseBody::Children(kids) => fp_kids(kids@, deeper(d)),
        }
    }
}

/// The fingerprints of sibling clauses, in order.
pub open spec fn fp_kids(kids: Seq<Clause>, d: usize) -> Seq<Seq<char>>
    decreases kids, 0int,
{
    if kids.len() == 0 {
        Seq::empty()
    } else {
        fp_kids(kids.drop_last(), d) + fp_clause(kids.last(), d)
    }
}

/// The fingerprint of a top-level body element.
pub open spec fn fp_element(e: BodyElement) -> Seq<Seq<char>> {
    match e {
        BodyElement::Clause(c) => fp_clause(c, 0),
        BodyElement::Prose(i) => seq![tagged(seq!['0'], "prose"@, fp_inlines(i@))],
        BodyElement::BulletList(items) => fp_items(seq!['0'], seq!['b'], items@),
    }
}

/// The fingerprints of body elements, in order.
pub open spec fn fp_elements(es: Seq<BodyElement>) -> Seq<Seq<char>>
    decreases es.len(),
{
    if es.len() == 0 {
        Seq::empty()
    } else {
        fp_elements(es.drop_last()) + fp_element(es.last())
    }
}

/// The fingerprint of a block of addendum content.
pub open spec fn fp_addendum_item(c: AddendumContent) -> Seq<Seq<char>> {
    match c {
        AddendumContent::Paragraph(i) => seq![tagged("add"@, seq!['p'], fp_inlines(i@))],
        AddendumContent::Heading(l, i) => seq![
            tagged("add"@, seq!['h'] + decimal(l as nat), fp_inlines(i@)),
        ],
        AddendumContent::ClauseList(cs) => fp_kids(cs@, 0),
        AddendumContent::NumberedList(items) => fp_items("add"@, seq!['l'], items@),
        AddendumContent::BulletList(items) => fp_items("add"@, seq!['l'], items@),
        AddendumContent::Table(t) => fp_table("add"@, t),
    }
}

/// The fingerprints of an addendum's content, in order.
pub open spec fn fp_addendum_items(cs: Seq<AddendumContent>) -> Seq<Seq<char>>
    decreases cs.len(),
{
    if cs.len() == 0 {
        Seq::empty()
    } else {
        fp_addendum_items(cs.drop_last()) + fp_addendum_item(cs.last())
    }
}

/// The fingerprints of the addenda: each one's title, then its content.
pub open spec fn fp_addenda(adds: Seq<Addendum>) -> Seq<Seq<char>>
    decreases adds.len(),
{
    if adds.len() == 0 {
        Seq::empty()
    } else {
        fp_addenda(adds.drop_last()) + seq!["addendum:"@ + adds.last().title@]
            + fp_addendum_items(adds.last().content@)
    }
}

/// A structural fingerprint of a document: every piece of rendered text, in
/// order, tagged with the kind of block it sits in and the clause depth.
/// Two documents with the same fingerprint render the same, so comparing
/// fingerprints before and after a rewrite shows that the rewrite changed
/// nothing but source ordinals.
pub open spec fn fingerprint_of(doc: Document) -> Seq<Seq<char>> {
    (match doc.recitals {
        Some(rec) => seq!["recitals:"@ + rec.heading@] + fp_elements(rec.body@),
        None => Seq::empty(),
    }) + fp_elements(doc.body@) + fp_addenda(doc.addenda@)
}

fn fp_text(items: &Vec<InlineContent>) -> (r: Vec<char>)
    ensures
        r@ == fp_inlines(items@),
{
    let mut out: Vec<char> = Vec::new();
    let mut i: usize = 0;
    while i < items.len()
        invariant
            i <= items@.len(),
            out@ == fp_inlines(items@.take(i as int)),
        decreases items@.len() - i,
    {
        match &items[i] {
            InlineContent::Text(t)
            | InlineContent::Bold(t)
            | InlineContent::Italic(t)
            | InlineContent::Superscript(t) => extend_str(&mut out, t.as_str()),
            InlineContent::CrossRef { display, .. } => extend_str(&mut out, display.as_str()),
            _ => {},
        }
        assert(items@.take(i + 1).drop_last() =~= items@.take(i as int));
        assert(out@ =~= fp_inlines(items@.take(i + 1)));
        i += 1;
    }
    assert(items@.take(items@.len() as int) =~= items@);
    out
}

fn entry(head: &Vec<char>, tag: &Vec<char>, text: &Vec<char>) -> (r: Vec<char>)
    ensures
        r@ == tagged(head@, tag@, text@),
{
    let mut r = head.clone();
    assert(r@ == head@);
    r.push(':');
    extend_chars(&mut r, tag.as_slice());
    r.push(':');
    extend_chars(&mut r, text.as_slice());
    assert(r@ =~= tagged(head@, tag@, text@));
    r
}

fn one(c: char) -> (r: Vec<char>)
    ensures
        r@ == seq![c],
{
    let mut r: Vec<char> = Vec::new();
    r.push(c);
    assert(r@ =~= seq![c]);
    r
}

fn push_line(out: &mut Vec<Vec<char>>, line: Vec<char>)
    ensures
        lines_view(final(out)@) == lines_view(old(out)@).push(line@),
{
    out.push(line);
    assert(lines_view(out@) =~= lines_view(old(out)@).push(line@));
}

fn push_items(
    out: &mut Vec<Vec<char>>,
    head: &Vec<char>,
    tag: &Vec<char>,
    items: &Vec<Vec<InlineContent>>,
)
    ensures
        lines_view(final(out)@) == lines_view(old(out)@) + fp_items(head@, tag@, items@),
{
    let ghost start = lines_view(out@);
    let mut i: usize = 0;
    while i < items.len()
        invariant
            i <= items@.len(),
            lines_view(out@) == start + fp_items(head@, tag@, items@.take(i as int)),
        decreases items@.len() - i,
    {
        let text = fp_text(&items[i]);
        let e = entry(head, tag, &text);
        push_line(out, e);
        assert(fp_items(head@, tag@, items@.take(i + 1)) =~= fp_items(
            head@,
            tag@,
            items@.take(i as int),
        ).push(tagged(head@, tag@, fp_inlines(items@[i as int]@))));
        assert(lines_view(out@) =~= start + fp_items(head@, tag@, items@.take(i + 1)));
        i += 1;
    }
    assert(items@.take(items@.len() as int) =~= items@);
}

fn push_content(out: &mut Vec<Vec<char>>, c: &ClauseContent, d: usize)
    ensures
        lines_view(final(out)@) == lines_view(old(out)@) + fp_content(*c, d),
{
    let head = decimal_chars(d);
    match c {
        ClauseContent::Paragraph(i) => {
            let text = fp_text(i);
            let e = entry(&head, &one('p'), &text);
            push_line(out, e);
        },
        ClauseContent::Blockquote(i) => {
            let text = fp_text(i);
            let e = entry(&head, &one('q'), &text);
            push_line(out, e);
        },
        ClauseContent::BulletList(items) => {
            push_items(out, &head, &one('b'), items);
        },
        ClauseContent::Table(t) => push_table(out, &head, t),
    }
    assert(lines_view(out@) =~= lines_view(old(out)@) + fp_content(*c, d));
}

fn push_table(out: &mut Vec<Vec<char>>, head: &Vec<char>, t: &Table)
    ensures
        lines_view(final(out)@) == lines_view(old(out)@) + fp_table(head@, *t),
{
    let text = decimal_chars(t.rows.len());
    let e = entry(head, &one('t'), &text);
    push_line(out, e);
    push_items(out, head, &chars_of("th"), &t.headers);
    let ghost mid = lines_view(out@);
    proof {
        assert(t.rows@.take(0) =~= Seq::<Vec<Vec<InlineContent>>>::empty());
    }
    let mut r: usize = 0;
    while r < t.rows.len()
        invariant
            r <= t.rows@.len(),
            lines_view(out@) == mid + fp_rows(head@, t.rows@.take(r as int)),
        decreases t.rows@.len() - r,
    {
        proof {
            crate::parser::clause::lemma_take_next(t.rows@, r as int);
        }
        let n = decimal_chars(t.rows[r].len());
        let e = entry(head, &chars_of("tr"), &n);
        push_line(out, e);
        push_items(out, head, &chars_of("tc"), &t.rows[r]);
        r += 1;
    }
    proof {
        assert(t.rows@.take(r as int) =~= t.rows@);
    }
}

fn deeper_depth(d: usize) -> (r: usize)
    ensures
        r == deeper(d),
{
    if d < usize::MAX {
        d + 1
    } else {
        d
    }
}

#[verifier::loop_isolation(false)]
fn push_clause(out: &mut Vec<Vec<char>>, c: &Clause, d: usize)
    ensures
        lines_view(final(out)@) == lines_view(old(out)@) + fp_clause(*c, d),
    decreases c, 1int,
{
    let ghost start = lines_view(out@);
    let head = decimal_chars(d);
    if let Some(h) = &c.heading {
        let text = fp_text(&h.text);
        let e = entry(&head, &one('h'), &text);
        push_line(out, e);
    }
    if let Some(a) = &c.anchor {
        let text = chars_of(a.as_str());
        let e = entry(&head, &one('a'), &text);
        push_line(out, e);
    }
    let ghost mid = lines_view(out@);
    assert(mid =~= start + (match c.heading {
        Some(h) => seq![tagged(decimal(d as nat), seq!['h'], fp_inlines(h.text@))],
        None => Seq::empty(),
    }) + (match c.anchor {
        Some(a) => seq![tagged(decimal(d as nat), seq!['a'], a@)],
        None => Seq::empty(),
    }));
    let mut i: usize = 0;
    while i < c.body.len()
        invariant
            i <= c.body@.len(),
            lines_view(out@) == mid + fp_runs(c.body@.take(i as int), d),
        decreases c.body@.len() - i,
    {
        let ghost before = lines_view(out@);
        match &c.body[i] {
            ClauseBody::Content(x) => push_content(out, x, d),
            ClauseBody::Children(kids) => {
                proof {
                    let e = c.body@[i as int];
                    assert(decreases_to!(*c => c.body));
                    assert(decreases_to!(c.body => c.body@));
                    assert(decreases_to!(c.body@ => e));
                    assert(decreases_to!(e => e->Children_0));
                    assert(e->Children_0 == *kids);
                }
                let dd = deeper_depth(d);
                push_kids(out, kids, dd);
            },
        }
        proof {
            let t = c.body@.take(i + 1);
            assert(t.drop_last() =~= c.body@.take(i as int));
            assert(t.last() == c.body@[i as int]);
            assert(lines_view(out@) =~= mid + fp_runs(t, d));
        }
        i += 1;
    }
    assert(c.body@.take(c.body@.len() as int) =~= c.body@);
    assert(lines_view(out@) =~= start + fp_clause(*c, d));
}

fn push_kids(out: &mut Vec<Vec<char>>, kids: &Vec<Clause>, d: usize)
    ensures
        lines_view(final(out)@) == lines_view(old(out)@) + fp_kids(kids@, d),
    decreases kids, 0int,
{
    let ghost start = lines_view(out@);
    let mut j: usize = 0;
    while j < kids.len()
        invariant
            j <= kids@.len(),
            lines_view(out@) == start + fp_kids(kids@.take(j as int), d),
        decreases kids@.len() - j,
    {
        proof {
            assert(decreases_to!(*kids => kids@));
            assert(decreases_to!(kids@ => kids@[j as int]));
        }
        push_clause(out, &kids[j], d);
        proof {
            let t = kids@.take(j + 1);
            assert(t.drop_last() =~= kids@.take(j as int));
            assert(t.last() == kids@[j as int]);
            assert(lines_view(out@) =~= start + fp_kids(t, d));
        }
        j += 1;
    }
    assert(kids@.take(kids@.len() as int) =~= kids@);
}

fn push_elements(out: &mut Vec<Vec<char>>, es: &Vec<BodyElement>)
    ensures
        lines_view(final(out)@) == lines_view(old(out)@) + fp_elements(es@),
{
    let ghost start = lines_view(out@);
    let zero = one('0');
    let mut i: usize = 0;
    while i < es.len()
        invariant
            i <= es@.len(),
            zero@ == seq!['0'],
            lines_view(out@) == start + fp_elements(es@.take(i as int)),
        decreases es@.len() - i,
    {
        let ghost before = lines_view(out@);
        match &es[i] {
            BodyElement::Clause(c) => push_clause(out, c, 0),
            BodyElement::Prose(inl) => {
                let text = fp_text(inl);
                let e = entry(&zero, &chars_of("prose"), &text);
                push_line(out, e);
            },
            BodyElement::BulletList(items) => push_items(out, &zero, &one('b'), items),
        }
        proof {
            assert(decimal(0) == seq!['0']);
            let t = es@.take(i + 1);
            assert(t.drop_last() =~= es@.take(i as int));
            assert(lines_view(out@) =~= before + fp_element(es@[i as int]));
            assert(lines_view(out@) =~= start + fp_elements(t));
        }
        i += 1;
    }
    assert(es@.take(es@.len() as int) =~= es@);
}

fn push_addendum_item(out: &mut Vec<Vec<char>>, c: &AddendumContent)
    ensures
        lines_view(final(out)@) == lines_view(old(out)@) + fp_addendum_item(*c),
{
    let add = chars_of("add");
    match c {
        AddendumContent::Paragraph(i) => {
            let text = fp_text(i);
            let e = entry(&add, &one('p'), &text);
            push_line(out, e);
        },
        AddendumContent::Heading(l, i) => {
            let text = fp_text(i);
            let mut tag = one('h');
            let n = decimal_chars(*l as usize);
            extend_chars(&mut tag, n.as_slice());
            let e = entry(&add, &tag, &text);
            push_line(out, e);
        },
        AddendumContent::ClauseList(cs) => push_kids(out, cs, 0),
        AddendumContent::NumberedList(items) => push_items(out, &add, &one('l'), items),
        AddendumContent::BulletList(items) => push_items(out, &add, &one('l'), items),
        AddendumContent::Table(t) => push_table(out, &add, t),
    }
}

fn push_addenda(out: &mut Vec<Vec<char>>, adds: &Vec<Addendum>)
    ensures
        lines_view(final(out)@) == lines_view(old(out)@) + fp_addenda(adds@),
{
    let ghost start = lines_view(out@);
    let mut i: usize = 0;
    while i < adds.len()
        invariant
            i <= adds@.len(),
            lines_view(out@) == start + fp_addenda(adds@.take(i as int)),
        decreases adds@.len() - i,
    {
        let a = &adds[i];
        let ghost before = lines_view(out@);
        let mut title = chars_of("addendum:");
        extend_str(&mut title, a.title.as_str());
        push_line(out, title);
        let ghost mid = lines_view(out@);
        let mut j: usize = 0;
        while j < a.content.len()
            invariant
                j <= a.content@.len(),
                lines_view(out@) == mid + fp_addendum_items(a.content@.take(j as int)),
            decreases a.content@.len() - j,
        {
            push_addendum_item(out, &a.content[j]);
            let ghost t = a.content@.take(j + 1);
            assert(t.drop_last() =~= a.content@.take(j as int));
            assert(lines_view(out@) =~= mid + fp_addendum_items(t));
            j += 1;
        }
        proof {
            assert(a.content@.take(a.content@.len() as int) =~= a.content@);
            let t = adds@.take(i + 1);
            assert(t.drop_last() =~= adds@.take(i as int));
            assert(lines_view(out@) =~= start + fp_addenda(t));
        }
        i += 1;
    }
    assert(adds@.take(adds@.len() as int) =~= adds@);
}

/// The structural fingerprint of a document ([`fingerprint_of`]).
fn fingerprint(doc: &Document) -> (r: Vec<Vec<char>>)
    ensures
        lines_view(r@) == fingerprint_of(*doc),
{
    let mut out: Vec<Vec<char>> = Vec::new();
    if let Some(rec) = &doc.recitals {
        let mut head = chars_of("recitals:");
        extend_str(&mut head, rec.heading.as_str());
        push_line(&mut out, head);
        push_elements(&mut out, &rec.body);
    }
    push_elements(&mut out, &doc.body);
    push_addenda(&mut out, &doc.addenda);
    assert(lines_view(out@) =~= fingerprint_of(*doc));
    out
}

/// Whether two fingerprints are equal, line by line.
fn same_lines(a: &Vec<Vec<char>>, b: &Vec<Vec<char>>) -> (r: bool)
    ensures
        r == (lines_view(a@) == lines_view(b@)),
{
    if a.len() != b.len() {
        assert(lines_view(a@).len() != lines_view(b@).len());
        return false;
    }
    let mut i: usize = 0;
    while i < a.len()
        invariant
            i <= a@.len(),
            a@.len() == b@.len(),
            forall|k: int| 0 <= k < i ==> a@[k]@ == b@[k]@,
        decreases a@.len() - i,
    {
        if !chars_eq(a[i].as_slice(), b[i].as_slice()) {
            assert(lines_view(a@)[i as int] != lines_view(b@)[i as int]);
            return false;
        }
        i += 1;
    }
    assert(lines_view(a@) =~= lines_view(b@));
    true
}

// ---------------------------------------------------------------------------
// Finding ordinals
// ---------------------------------------------------------------------------

/// A list item whose typed ordinal is 10 or more.
pub open spec fn wide_item(e: MdEvent) -> bool {
    e matches MdEvent::Open { kind: MdKind::Item { start, .. }, .. } && start >= 10
}

/// Position of the first wide item in a walk of the syntax tree, which is
/// the first in document order.
pub open spec fn first_wide_item(ev: Seq<MdEvent>) -> Option<int>
    decreases ev.len(),
{
    if ev.len() == 0 {
        None
    } else {
        match first_wide_item(ev.drop_last()) {
            Some(i) => Some(i),
            None => if wide_item(ev.last()) {
                Some(ev.len() - 1)
            } else {
                None
            },
        }
    }
}

/// The target of an item node, relative to the parsed text: marker line,
/// byte offset of the first digit (the node's column, from 1), number of
/// digits of the ordinal, and last line (never before the first).
pub open spec fn target_of(e: MdEvent) -> (int, nat, nat, int) {
    match e {
        MdEvent::Open { kind: MdKind::Item { start, .. }, line, column, end_line } => (
            line as int,
            if column >= 1 {
                (column - 1) as nat
            } else {
                0
            },
            decimal(start as nat).len(),
            if end_line >= line {
                end_line as int
            } else {
                line as int
            },
        ),
        _ => (0, 0, 0, 0),
    }
}

/// The first hand-numbered ordinal of 10 or more in a document body.
pub open spec fn next_target_spec(body: Seq<char>) -> Option<(int, nat, nat, int)> {
    match first_wide_item(markdown_events(body)) {
        Some(i) => Some(target_of(markdown_events(body)[i])),
        None => None,
    }
}

proof fn lemma_first_wide_item_extends(ev: Seq<MdEvent>, j: int, i: int)
    requires
        0 <= j <= ev.len(),
        first_wide_item(ev.take(j)) == Some(i),
    ensures
        first_wide_item(ev) == Some(i),
    decreases ev.len() - j,
{
    if j < ev.len() {
        assert(ev.take(j + 1).drop_last() =~= ev.take(j));
        lemma_first_wide_item_extends(ev, j + 1, i);
    } else {
        assert(ev.take(j) =~= ev);
    }
}

proof fn lemma_first_wide_item_bound(ev: Seq<MdEvent>)
    ensures
        first_wide_item(ev) matches Some(i) ==> 0 <= i < ev.len() && wide_item(ev[i]),
    decreases ev.len(),
{
    if ev.len() > 0 {
        lemma_first_wide_item_bound(ev.drop_last());
    }
}

/// The first ordinal to rewrite in a document body.
fn next_target(body: &str) -> (r: Option<Target>)
    ensures
        match r {
            Some(t) => next_target_spec(body@) == Some(
                (t.line as int, t.offset as nat, t.digits as nat, t.end_line as int),
            ),
            None => next_target_spec(body@) is None,
        },
{
    let events = parse_markdown_events(body);
    let ghost ev = events@;
    let mut i: usize = 0;
    while i < events.len()
        invariant
            i <= ev.len(),
            ev == events@,
            ev == markdown_events(body@),
            first_wide_item(ev.take(i as int)) is None,
        decreases ev.len() - i,
    {
        proof {
            assert(ev.take(i + 1).drop_last() =~= ev.take(i as int));
        }
        if let MdEvent::Open { kind: MdKind::Item { start, .. }, line, column, end_line } = &events[i] {
            if *start >= 10 {
                proof {
                    assert(first_wide_item(ev.take(i + 1)) == Some(i as int));
                    lemma_first_wide_item_extends(ev, i + 1, i as int);
                }
                let offset = if *column >= 1 {
                    *column - 1
                } else {
                    0
                };
                let digits = decimal_chars(*start).len();
                let last = if *end_line >= *line {
                    *end_line
                } else {
                    *line
                };
                return Some(Target { line: *line, offset, digits, end_line: last });
            }
        }
        i += 1;
    }
    proof {
        assert(ev.take(ev.len() as int) =~= ev);
    }
    None
}

// ---------------------------------------------------------------------------
// The fix
// ---------------------------------------------------------------------------

/// The line of the input where the document body starts.
pub open spec fn body_line_offset(input: Seq<char>) -> nat {
    match split_spec(input) {
        Some((_, body)) => count_newlines(input.take(input.len() - body.len())),
        None => 0,
    }
}

/// The document body within a list of lines: the lines from `offset` on.
pub open spec fn body_from(lines: Seq<Seq<char>>, offset: nat) -> Seq<char> {
    join_newlines(lines.skip(if offset < lines.len() { offset as int } else { lines.len() as int }))
}

/// One pass: find the first wide ordinal of the body that starts at line
/// `offset`, and rewrite it there, lines counted in the whole text. `None`
/// when there is none, or its rewrite is refused.
pub open spec fn fix_step(lines: Seq<Seq<char>>, offset: nat) -> Option<Seq<Seq<char>>> {
    match next_target_spec(body_from(lines, offset)) {
        None => None,
        Some((line, byte, digits, end_line)) => rewrite_ordinal(
            lines,
            line + offset,
            byte,
            digits,
            end_line + offset,
        ),
    }
}

/// The lines after `n` successful passes; `None` if a pass before the
/// `n`-th found nothing to do.
pub open spec fn fix_steps(lines: Seq<Seq<char>>, offset: nat, n: nat) -> Option<Seq<Seq<char>>>
    decreases n,
{
    if n == 0 {
        Some(lines)
    } else {
        match fix_steps(lines, offset, (n - 1) as nat) {
            Some(l) => fix_step(l, offset),
            None => None,
        }
    }
}

/// The most passes one run makes before it gives up as runaway.
pub const MAX_FIXES: usize = 10000;

/// Outcome of an autofix run.
pub enum FixOutcome {
    /// Nothing to fix.
    Unchanged,
    /// The rewritten source, and how many ordinals were normalised.
    Fixed(String, usize),
    /// The rewrite would have changed the document's structure, so it was
    /// abandoned. The source is left untouched.
    Unsafe,
}

/// The passes settle after exactly `n` rewrites: `n` passes succeed and the
/// next finds nothing to do.
pub open spec fn settles_after(lines: Seq<Seq<char>>, offset: nat, n: nat) -> bool {
    &&& fix_steps(lines, offset, n) matches Some(l)
    &&& fix_step(l, offset) is None
}

/// The text the passes leave after `n` rewrites.
pub open spec fn fixed_text(lines: Seq<Seq<char>>, offset: nat, n: nat) -> Seq<char> {
    join_newlines(fix_steps(lines, offset, n).unwrap())
}

/// Normalise every hand-numbered ordinal of 10 or more in the document body
/// to `1.`.
///
/// Rewrites one ordinal per pass and parses again between passes, so each
/// pass works from positions that are current. The result is compared with
/// the original by [`fingerprint_of`] before it is returned: if the rewrite
/// would move, drop or re-level any content, it is discarded.
pub fn normalise_ordinals(input: &str) -> (r: FixOutcome)
    ensures
        ({
            let lines = split_on(input@, '\n');
            let offset = body_line_offset(input@);
            match r {
                FixOutcome::Unchanged => !frontmatter_accepts(input@) || fix_step(lines, offset) is None,
                FixOutcome::Fixed(out, n) => {
                    &&& frontmatter_accepts(input@)
                    &&& 1 <= n <= MAX_FIXES
                    &&& settles_after(lines, offset, n as nat)
                    &&& out@ == fixed_text(lines, offset, n as nat)
                    &&& exists|before: Document, after: Document|
                        #![trigger parsed_from(before, input@), parsed_from(after, out@)]
                        parsed_from(before, input@) && parsed_from(after, out@) && fingerprint_of(
                            after,
                        ) == fingerprint_of(before)
                },
                FixOutcome::Unsafe => {
                    &&& frontmatter_accepts(input@)
                    &&& fix_step(lines, offset) is Some
                    &&& (fix_steps(lines, offset, (MAX_FIXES + 1) as nat) is Some || exists|n: nat|
                        1 <= n <= MAX_FIXES && #[trigger] settles_after(lines, offset, n) && ({
                            let out = fixed_text(lines, offset, n);
                            !frontmatter_accepts(out) || exists|before: Document, after: Document|
                                #![trigger parsed_from(before, input@), parsed_from(after, out)]
                                parsed_from(before, input@) && parsed_from(after, out)
                                    && fingerprint_of(after) != fingerprint_of(before)
                        }))
                },
            }
        }),
{
    let before_doc = match crate::parser::parse(input) {
        Ok(d) => d,
        Err(_) => {
            return FixOutcome::Unchanged;
        },
    };
    let before = fingerprint(&before_doc);
    let fm = match parse_frontmatter(input) {
        Ok(fm) => fm,
        Err(_) => {
            return FixOutcome::Unchanged;
        },
    };
    let offset = fm.body_line_offset;
    let chars = chars_of(input);
    let mut lines = split_chars(&chars, '\n');
    let ghost lines0 = lines_view(lines@);
    let ghost off = offset as nat;
    assert(off == body_line_offset(input@));
    let mut fixed: usize = 0;
    loop
        invariant_except_break
            fixed <= MAX_FIXES,
        invariant
            fixed <= MAX_FIXES + 1,
            off == offset as nat,
            fix_steps(lines0, off, fixed as nat) == Some(lines_view(lines@)),
        ensures
            fixed <= MAX_FIXES + 1,
            fix_steps(lines0, off, fixed as nat) == Some(lines_view(lines@)),
            fixed <= MAX_FIXES ==> fix_step(lines_view(lines@), off) is None,
        decreases MAX_FIXES - fixed,
    {
        let n = lines.len();
        let from = if offset < n {
            offset
        } else {
            n
        };
        let body = join_from(&lines, from);
        let ghost cur = lines_view(lines@);
        assert(cur.len() == lines@.len());
        assert(body@ == body_from(cur, off));
        let t = match next_target(body.as_str()) {
            None => {
                break;
            },
            Some(t) => t,
        };
        let line = match t.line.checked_add(offset) {
            None => {
                assert(fix_step(cur, off) is None);
                break;
            },
            Some(l) => l,
        };
        let end_line = t.end_line.saturating_add(offset);
        let target = Target { line, offset: t.offset, digits: t.digits, end_line };
        proof {
            lemma_rewrite_same_last(
                cur,
                line as int,
                t.offset as nat,
                t.digits as nat,
                end_line as int,
                t.end_line + off,
            );
        }
        if !apply(&mut lines, &target) {
            break;
        }
        fixed += 1;
        if fixed > MAX_FIXES {
            break;
        }
    }
    if fixed > MAX_FIXES {
        proof {
            lemma_fix_steps_first(lines0, off, fixed as nat);
        }
        return FixOutcome::Unsafe;
    }
    if fixed == 0 {
        return FixOutcome::Unchanged;
    }
    proof {
        lemma_fix_steps_first(lines0, off, fixed as nat);
        assert(settles_after(lines0, off, fixed as nat));
    }
    let output = join_from(&lines, 0);
    assert(lines_view(lines@).skip(0) =~= lines_view(lines@));
    assert(output@ == fixed_text(lines0, off, fixed as nat));
    match crate::parser::parse(output.as_str()) {
        Ok(after_doc) => {
            let after = fingerprint(&after_doc);
            if same_lines(&after, &before) {
                FixOutcome::Fixed(output, fixed)
            } else {
                FixOutcome::Unsafe
            }
        },
        Err(_) => FixOutcome::Unsafe,
    }
}

proof fn lemma_rewrite_same_last(
    lines: Seq<Seq<char>>,
    line: int,
    offset: nat,
    digits: nat,
    e1: int,
    e2: int,
)
    requires
        (e1 < lines.len()) == (e2 < lines.len()),
        e1 < lines.len() ==> e1 == e2,
    ensures
        rewrite_ordinal(lines, line, offset, digits, e1) == rewrite_ordinal(
            lines,
            line,
            offset,
            digits,
            e2,
        ),
{
    let a = rewrite_ordinal(lines, line, offset, digits, e1);
    let b = rewrite_ordinal(lines, line, offset, digits, e2);
    if a is Some {
        assert(a.unwrap() =~= b.unwrap());
    }
}

proof fn lemma_fix_steps_first(lines: Seq<Seq<char>>, offset: nat, n: nat)
    requires
        n >= 1,
        fix_steps(lines, offset, n) is Some,
    ensures
        fix_step(lines, offset) is Some,
    decreases n,
{
    assert(fix_steps(lines, offset, 0) == Some(lines));
    if n > 1 {
        assert(fix_steps(lines, offset, (n - 1) as nat) is Some);
        lemma_fix_steps_first(lines, offset, (n - 1) as nat);
    }
}

} // verus!
