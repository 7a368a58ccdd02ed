//! Reading the clause structure, recitals and addenda out of the document
//! body's syntax tree.
use vstd::prelude::*;

use crate::error::{DiagLevel, Diagnostic, SourcePos};
use crate::lint::{diag_view, placed_view};
use crate::markdown::{MdKind, MdNode};
use crate::frontmatter::opt_view;
use crate::model::{
    inlines_plain_text, inlines_text, inlines_view, next_level, next_level_spec, runs_view, Addendum,
    AddendumContent, BodyElement, Clause, ClauseBody, ClauseContent, ClauseHeading, ClauseLevel,
    InlineContent, InlineView, Recitals, Table,
};
use crate::pattern::{regex_captures, regex_captures_all, regex_is_match, regex_matches};
use crate::parser::anchors::{strip_anchor, strip_anchor_spec};
use crate::text::{
    chars_of, decimal, decimal_chars, extend_chars, extend_str, slice_chars, string_of, trim, trim_seq,
};

verus! {

/// Taking one more element of a sequence adds that element at the end.
pub proof fn lemma_take_next<T>(s: Seq<T>, i: int)
    requires
        0 <= i < s.len(),
    ensures
        s.take(i + 1).drop_last() == s.take(i),
        s.take(i + 1).last() == s[i],
{
    assert(s.take(i + 1).drop_last() =~= s.take(i));
}

// ---------------------------------------------------------------------------
// Plain text and inline runs
// ---------------------------------------------------------------------------

/// All text below a node, formatting dropped: text and code spans as
/// written, a soft break as a space, a hard break as a newline.
pub open spec fn plain_text(n: MdNode) -> Seq<char>
    decreases n, 1int,
{
    plain_text_all(n.children@)
}

/// [`plain_text`] of a run of sibling nodes, concatenated.
pub open spec fn plain_text_all(s: Seq<MdNode>) -> Seq<char>
    decreases s, 0int,
{
    if s.len() == 0 {
        Seq::empty()
    } else {
        plain_text_all(s.drop_last()) + match s.last().kind {
            MdKind::Text(t) => t@,
            MdKind::SoftBreak => seq![' '],
            MdKind::LineBreak => seq!['\n'],
            MdKind::Code(c) => c@,
            _ => plain_text(s.last()),
        }
    }
}

/// Collect all text from a node as plain text (ignoring formatting).
pub fn collect_plain_text(node: &MdNode) -> (r: Vec<char>)
    ensures
        r@ == plain_text(*node),
    decreases node,
{
    let mut out: Vec<char> = Vec::new();
    let mut i: usize = 0;
    while i < node.children.len()
        invariant
            i <= node.children@.len(),
            out@ == plain_text_all(node.children@.take(i as int)),
        decreases node.children@.len() - i,
    {
        let c = &node.children[i];
        proof {
            lemma_take_next(node.children@, i as int);
        }
        let ghost before = out@;
        match &c.kind {
            MdKind::Text(t) => extend_str(&mut out, t.as_str()),
            MdKind::SoftBreak => out.push(' '),
            MdKind::LineBreak => out.push('\n'),
            MdKind::Code(t) => extend_str(&mut out, t.as_str()),
            _ => {
                let inner = collect_plain_text(c);
                extend_chars(&mut out, &inner);
            },
        }
        proof {
            assert(out@ =~= plain_text_all(node.children@.take(i + 1)));
        }
        i += 1;
    }
    proof {
        assert(node.children@.take(node.children@.len() as int) =~= node.children@);
    }
    out
}

/// The inline a link becomes: a cross-reference when its URL is `#id`,
/// otherwise an external link.
pub open spec fn link_view(url: Seq<char>, display: Seq<char>) -> InlineView {
    if url.len() > 0 && url[0] == '#' {
        InlineView::CrossRef { display, anchor_id: url.skip(1), resolved: None }
    } else {
        InlineView::Link { text: display, url }
    }
}

/// The inline run of a node's children: text and code as text, strong,
/// emphasis and superscript by their plain text, links as [`link_view`],
/// breaks as breaks, and any other node by its own children's run.
pub open spec fn inlines_of(n: MdNode) -> Seq<InlineView>
    decreases n, 1int,
{
    inlines_all(n.children@)
}

/// [`inlines_of`] of a run of sibling nodes, concatenated.
pub open spec fn inlines_all(s: Seq<MdNode>) -> Seq<InlineView>
    decreases s, 0int,
{
    if s.len() == 0 {
        Seq::empty()
    } else {
        inlines_all(s.drop_last()) + match s.last().kind {
            MdKind::Text(t) => seq![InlineView::Text(t@)],
            MdKind::Strong => seq![InlineView::Bold(plain_text(s.last()))],
            MdKind::Emph => seq![InlineView::Italic(plain_text(s.last()))],
            MdKind::Link(url) => seq![link_view(url@, plain_text(s.last()))],
            MdKind::SoftBreak => seq![InlineView::SoftBreak],
            MdKind::LineBreak => seq![InlineView::LineBreak],
            MdKind::Code(c) => seq![InlineView::Text(c@)],
            MdKind::Superscript => seq![InlineView::Superscript(plain_text(s.last()))],
            _ => inlines_of(s.last()),
        }
    }
}

/// Append `more` to `out`.
fn append_inlines(out: &mut Vec<InlineContent>, more: Vec<InlineContent>)
    ensures
        inlines_view(final(out)@) == inlines_view(old(out)@) + inlines_view(more@),
{
    let mut more = more;
    let ghost m = more@;
    out.append(&mut more);
    assert(inlines_view(out@) =~= inlines_view(old(out)@) + inlines_view(m));
}

/// The inline for a link to `url` displaying `display`.
fn link_inline(url: &str, display: Vec<char>) -> (r: InlineContent)
    ensures
        r@ == link_view(url@, display@),
{
    let u = chars_of(url);
    if u.len() > 0 && u[0] == '#' {
        let id = slice_chars(&u, 1, u.len());
        proof {
            assert(id@ =~= url@.skip(1));
        }
        InlineContent::CrossRef { display: string_of(&display), anchor_id: string_of(&id), resolved: None }
    } else {
        InlineContent::Link { text: string_of(&display), url: string_of(&u) }
    }
}

/// Extract inline content from a node's children.
pub fn extract_inlines(node: &MdNode) -> (r: Vec<InlineContent>)
    ensures
        inlines_view(r@) == inlines_of(*node),
    decreases node,
{
    let mut out: Vec<InlineContent> = Vec::new();
    let mut i: usize = 0;
    while i < node.children.len()
        invariant
            i <= node.children@.len(),
            inlines_view(out@) == inlines_all(node.children@.take(i as int)),
        decreases node.children@.len() - i,
    {
        let c = &node.children[i];
        proof {
            lemma_take_next(node.children@, i as int);
        }
        let piece: Vec<InlineContent> = match &c.kind {
            MdKind::Text(t) => vec![InlineContent::Text(string_of(&chars_of(t.as_str())))],
            MdKind::Strong => vec![InlineContent::Bold(string_of(&collect_plain_text(c)))],
            MdKind::Emph => vec![InlineContent::Italic(string_of(&collect_plain_text(c)))],
            MdKind::Link(url) => vec![link_inline(url.as_str(), collect_plain_text(c))],
            MdKind::SoftBreak => vec![InlineContent::SoftBreak],
            MdKind::LineBreak => vec![InlineContent::LineBreak],
            MdKind::Code(t) => vec![InlineContent::Text(string_of(&chars_of(t.as_str())))],
            MdKind::Superscript => vec![
                InlineContent::Superscript(string_of(&collect_plain_text(c))),
            ],
            _ => extract_inlines(c),
        };
        append_inlines(&mut out, piece);
        proof {
            assert(inlines_view(out@) =~= inlines_all(node.children@.take(i + 1)));
        }
        i += 1;
    }
    proof {
        assert(node.children@.take(node.children@.len() as int) =~= node.children@);
    }
    out
}

// ---------------------------------------------------------------------------
// Blockquotes, tables, bullet lists
// ---------------------------------------------------------------------------

/// The paragraphs of a blockquote's children, each followed by a line break.
pub open spec fn quote_lines(s: Seq<MdNode>) -> Seq<InlineView>
    decreases s.len(),
{
    if s.len() == 0 {
        Seq::empty()
    } else {
        quote_lines(s.drop_last()) + if s.last().kind is Paragraph {
            inlines_of(s.last()).push(InlineView::LineBreak)
        } else {
            Seq::empty()
        }
    }
}

/// A blockquote's inline run: its paragraphs joined by line breaks.
pub open spec fn blockquote_inlines(n: MdNode) -> Seq<InlineView> {
    let all = quote_lines(n.children@);
    if all.len() > 0 && all.last() is LineBreak {
        all.drop_last()
    } else {
        all
    }
}

/// The paragraphs of a blockquote as one inline run, separated by line breaks.
pub fn extract_blockquote_inlines(node: &MdNode) -> (r: Vec<InlineContent>)
    ensures
        inlines_view(r@) == blockquote_inlines(*node),
{
    let mut out: Vec<InlineContent> = Vec::new();
    let mut i: usize = 0;
    while i < node.children.len()
        invariant
            i <= node.children@.len(),
            inlines_view(out@) == quote_lines(node.children@.take(i as int)),
        decreases node.children@.len() - i,
    {
        let c = &node.children[i];
        proof {
            lemma_take_next(node.children@, i as int);
        }
        if matches!(c.kind, MdKind::Paragraph) {
            let piece = extract_inlines(c);
            append_inlines(&mut out, piece);
            let ghost before = out@;
            out.push(InlineContent::LineBreak);
            proof {
                assert(inlines_view(out@) =~= inlines_view(before).push(InlineView::LineBreak));
            }
        }
        proof {
            assert(inlines_view(out@) =~= quote_lines(node.children@.take(i + 1)));
        }
        i += 1;
    }
    proof {
        assert(node.children@.take(node.children@.len() as int) =~= node.children@);
    }
    let n = out.len();
    if n > 0 && matches!(out[n - 1], InlineContent::LineBreak) {
        let ghost before = out@;
        out.pop();
        proof {
            assert(inlines_view(out@) =~= inlines_view(before).drop_last());
        }
    }
    out
}

/// The inline runs of the cells among a row's children.
pub open spec fn row_cells(s: Seq<MdNode>) -> Seq<Seq<InlineView>>
    decreases s.len(),
{
    if s.len() == 0 {
        Seq::empty()
    } else {
        row_cells(s.drop_last()) + if s.last().kind is TableCell {
            seq![inlines_of(s.last())]
        } else {
            Seq::empty()
        }
    }
}

/// The cells of the last header row among a table's children.
pub open spec fn table_headers(s: Seq<MdNode>) -> Seq<Seq<InlineView>>
    decreases s.len(),
{
    if s.len() == 0 {
        Seq::empty()
    } else if s.last().kind == MdKind::TableRow(true) {
        row_cells(s.last().children@)
    } else {
        table_headers(s.drop_last())
    }
}

/// The cells of each body row among a table's children, in order.
pub open spec fn table_body(s: Seq<MdNode>) -> Seq<Seq<Seq<InlineView>>>
    decreases s.len(),
{
    if s.len() == 0 {
        Seq::empty()
    } else {
        table_body(s.drop_last()) + if s.last().kind == MdKind::TableRow(false) {
            seq![row_cells(s.last().children@)]
        } else {
            Seq::empty()
        }
    }
}

/// The cell values of a list of rows.
pub open spec fn rows_view(s: Seq<Vec<Vec<InlineContent>>>) -> Seq<Seq<Seq<InlineView>>> {
    s.map_values(|row: Vec<Vec<InlineContent>>| runs_view(row@))
}

/// The cells of a table row.
fn extract_row(row: &MdNode) -> (r: Vec<Vec<InlineContent>>)
    ensures
        runs_view(r@) == row_cells(row.children@),
{
    let mut out: Vec<Vec<InlineContent>> = Vec::new();
    let mut i: usize = 0;
    while i < row.children.len()
        invariant
            i <= row.children@.len(),
            runs_view(out@) == row_cells(row.children@.take(i as int)),
        decreases row.children@.len() - i,
    {
        let c = &row.children[i];
        proof {
            lemma_take_next(row.children@, i as int);
        }
        if matches!(c.kind, MdKind::TableCell) {
            let cell = extract_inlines(c);
            let ghost before = out@;
            out.push(cell);
            proof {
                assert(runs_view(out@) =~= runs_view(before).push(inlines_of(*c)));
            }
        }
        proof {
            assert(runs_view(out@) =~= row_cells(row.children@.take(i + 1)));
        }
        i += 1;
    }
    proof {
        assert(row.children@.take(row.children@.len() as int) =~= row.children@);
    }
    out
}

/// Read a table: the cells of its header row and of each body row.
pub fn extract_table(node: &MdNode) -> (r: Table)
    ensures
        runs_view(r.headers@) == table_headers(node.children@),
        rows_view(r.rows@) == table_body(node.children@),
{
    let mut headers: Vec<Vec<InlineContent>> = Vec::new();
    let mut rows: Vec<Vec<Vec<InlineContent>>> = Vec::new();
    let mut i: usize = 0;
    while i < node.children.len()
        invariant
            i <= node.children@.len(),
            runs_view(headers@) == table_headers(node.children@.take(i as int)),
            rows_view(rows@) == table_body(node.children@.take(i as int)),
        decreases node.children@.len() - i,
    {
        let c = &node.children[i];
        proof {
            lemma_take_next(node.children@, i as int);
        }
        match &c.kind {
            MdKind::TableRow(is_header) => {
                let row = extract_row(c);
                if *is_header {
                    headers = row;
                } else {
                    let ghost before = rows@;
                    rows.push(row);
                    proof {
                        assert(rows_view(rows@) =~= rows_view(before).push(
                            row_cells(c.children@),
                        ));
                    }
                }
            },
            _ => {},
        }
        proof {
            assert(runs_view(headers@) =~= table_headers(node.children@.take(i + 1)));
            assert(rows_view(rows@) =~= table_body(node.children@.take(i + 1)));
        }
        i += 1;
    }
    proof {
        assert(node.children@.take(node.children@.len() as int) =~= node.children@);
    }
    Table { headers, rows }
}

/// The inline runs of the paragraphs among a list item's children.
pub open spec fn item_paragraphs(s: Seq<MdNode>) -> Seq<Seq<InlineView>>
    decreases s.len(),
{
    if s.len() == 0 {
        Seq::empty()
    } else {
        item_paragraphs(s.drop_last()) + if s.last().kind is Paragraph {
            seq![inlines_of(s.last())]
        } else {
            Seq::empty()
        }
    }
}

/// The paragraphs of every item of a list, in order.
pub open spec fn list_paragraphs(s: Seq<MdNode>) -> Seq<Seq<InlineView>>
    decreases s.len(),
{
    if s.len() == 0 {
        Seq::empty()
    } else {
        list_paragraphs(s.drop_last()) + if s.last().kind is Item {
            item_paragraphs(s.last().children@)
        } else {
            Seq::empty()
        }
    }
}

/// Read a list as plain items: one inline run per paragraph of each item.
pub fn extract_bullet_list(node: &MdNode) -> (r: Vec<Vec<InlineContent>>)
    ensures
        runs_view(r@) == list_paragraphs(node.children@),
{
    let mut out: Vec<Vec<InlineContent>> = Vec::new();
    let mut i: usize = 0;
    while i < node.children.len()
        invariant
            i <= node.children@.len(),
            runs_view(out@) == list_paragraphs(node.children@.take(i as int)),
        decreases node.children@.len() - i,
    {
        let c = &node.children[i];
        proof {
            lemma_take_next(node.children@, i as int);
        }
        if matches!(c.kind, MdKind::Item { .. }) {
            let ghost start = out@;
            let mut j: usize = 0;
            while j < c.children.len()
                invariant
                    j <= c.children@.len(),
                    runs_view(out@) == runs_view(start) + item_paragraphs(
                        c.children@.take(j as int),
                    ),
                decreases c.children@.len() - j,
            {
                let p = &c.children[j];
                proof {
                    lemma_take_next(c.children@, j as int);
                }
                if matches!(p.kind, MdKind::Paragraph) {
                    let run = extract_inlines(p);
                    let ghost before = out@;
                    out.push(run);
                    proof {
                        assert(runs_view(out@) =~= runs_view(before).push(inlines_of(*p)));
                    }
                }
                proof {
                    assert(runs_view(out@) =~= runs_view(start) + item_paragraphs(
                        c.children@.take(j + 1),
                    ));
                }
                j += 1;
            }
            proof {
                assert(c.children@.take(c.children@.len() as int) =~= c.children@);
            }
        }
        proof {
            assert(runs_view(out@) =~= list_paragraphs(node.children@.take(i + 1)));
        }
        i += 1;
    }
    proof {
        assert(node.children@.take(node.children@.len() as int) =~= node.children@);
    }
    out
}

// ---------------------------------------------------------------------------
// Source positions and list item geometry
// ---------------------------------------------------------------------------

/// `a + b`, or `usize::MAX` when that does not fit.
pub open spec fn sat_add(a: usize, b: usize) -> usize {
    if a + b <= usize::MAX {
        (a + b) as usize
    } else {
        usize::MAX
    }
}

/// A column, at least 1.
pub open spec fn at_least_one(c: usize) -> usize {
    if c < 1 {
        1
    } else {
        c
    }
}

/// The 1-based source position of a node, its line shifted by the number of
/// lines that precede the body; `None` when the parser gave no position.
pub open spec fn node_pos(n: MdNode, line_offset: usize) -> Option<SourcePos> {
    if n.line == 0 {
        None
    } else {
        Some(SourcePos { line: sat_add(n.line, line_offset), column: at_least_one(n.column) })
    }
}

fn saturating_add(a: usize, b: usize) -> (r: usize)
    ensures
        r == sat_add(a, b),
{
    if a > usize::MAX - b {
        usize::MAX
    } else {
        a + b
    }
}

/// 1-based position in the source file of a node.
pub fn node_position(n: &MdNode, line_offset: usize) -> (r: Option<SourcePos>)
    ensures
        r == node_pos(*n, line_offset),
{
    if n.line == 0 {
        None
    } else {
        let column = if n.column < 1 {
            1
        } else {
            n.column
        };
        Some(SourcePos { line: saturating_add(n.line, line_offset), column })
    }
}

/// The source column of a list item's marker.
pub open spec fn marker_col(item: MdNode) -> usize {
    at_least_one(item.column)
}

/// The source column at which a list item's content begins: the marker's
/// column plus the width of the marker as written and the spaces after it.
pub open spec fn content_col(item: MdNode) -> usize {
    let padding = match item.kind {
        MdKind::Item { padding, .. } => padding,
        _ => 0,
    };
    sat_add(at_least_one(item.column), padding)
}

fn item_marker_col(item: &MdNode) -> (r: usize)
    ensures
        r == marker_col(*item),
{
    if item.column < 1 {
        1
    } else {
        item.column
    }
}

fn item_content_col(item: &MdNode) -> (r: usize)
    ensures
        r == content_col(*item),
{
    let padding = match &item.kind {
        MdKind::Item { padding, .. } => *padding,
        _ => 0,
    };
    saturating_add(item_marker_col(item), padding)
}

/// Number of leading spaces corresponding to a 1-based source column.
pub open spec fn indent_of(col: usize) -> usize {
    if col == 0 {
        0
    } else {
        (col - 1) as usize
    }
}

fn col_to_indent(col: usize) -> (r: usize)
    ensures
        r == indent_of(col),
{
    if col == 0 {
        0
    } else {
        col - 1
    }
}

/// Index of the last node of `s` that satisfies `p`.
pub open spec fn last_where(s: Seq<MdNode>, p: spec_fn(MdNode) -> bool) -> Option<int>
    decreases s.len(),
{
    if s.len() == 0 {
        None
    } else if p(s.last()) {
        Some(s.len() - 1)
    } else {
        last_where(s.drop_last(), p)
    }
}

/// A node is a list item.
pub open spec fn item_pred() -> spec_fn(MdNode) -> bool {
    |n: MdNode| n.kind is Item
}

/// A node is an ordered list.
pub open spec fn ordered_pred() -> spec_fn(MdNode) -> bool {
    |n: MdNode| n.kind == (MdKind::List { ordered: true })
}

/// [`last_where`] is the index found by scanning back from the end.
proof fn lemma_last_where(s: Seq<MdNode>, p: spec_fn(MdNode) -> bool, r: Option<int>)
    requires
        match r {
            Some(i) => 0 <= i < s.len() && p(s[i]) && forall|j: int| i < j < s.len() ==> !p(#[trigger] s[j]),
            None => forall|j: int| 0 <= j < s.len() ==> !p(#[trigger] s[j]),
        },
    ensures
        last_where(s, p) == r,
    decreases s.len(),
{
    if s.len() > 0 {
        let n = s.len() - 1;
        assert(s.last() == s[n]);
        if !p(s.last()) {
            assert forall|j: int| 0 <= j < s.drop_last().len() implies s.drop_last()[j] == s[j] by {}
            if r is Some {
                let i = r->Some_0;
                assert(i != n);
                assert forall|j: int| i < j < s.drop_last().len() implies !p(#[trigger] s.drop_last()[j]) by {
                    assert(s.drop_last()[j] == s[j]);
                }
            } else {
                assert forall|j: int| 0 <= j < s.drop_last().len() implies !p(#[trigger] s.drop_last()[j]) by {
                    assert(s.drop_last()[j] == s[j]);
                }
            }
            lemma_last_where(s.drop_last(), p, r);
        } else {
            if r is Some {
                let i = r->Some_0;
                if i < n {
                    assert(!p(s[n]));
                }
            } else {
                assert(!p(s[n]));
            }
        }
    }
}

/// Index of the last list item among a node's children.
fn last_item(list: &MdNode) -> (r: Option<usize>)
    ensures
        match r {
            Some(i) => i < list.children@.len() && list.children@[i as int].kind is Item
                && forall|j: int|
                i < j < list.children@.len() ==> !(#[trigger] list.children@[j].kind is Item),
            None => forall|j: int|
                0 <= j < list.children@.len() ==> !(#[trigger] list.children@[j].kind is Item),
        },
{
    let mut i = list.children.len();
    while i > 0
        invariant
            i <= list.children@.len(),
            forall|j: int|
                i <= j < list.children@.len() ==> !(#[trigger] list.children@[j].kind is Item),
        decreases i,
    {
        i -= 1;
        if matches!(list.children[i].kind, MdKind::Item { .. }) {
            return Some(i);
        }
    }
    None
}

/// Index of the last ordered list among a list item's children.
fn last_ordered_sublist(item: &MdNode) -> (r: Option<usize>)
    ensures
        match r {
            Some(i) => i < item.children@.len() && last_where(item.children@, ordered_pred()) == Some(
                i as int,
            ),
            None => last_where(item.children@, ordered_pred()) is None,
        },
{
    let mut i = item.children.len();
    while i > 0
        invariant
            i <= item.children@.len(),
            forall|j: int| i <= j < item.children@.len() ==> !ordered_pred()(#[trigger] item.children@[j]),
        decreases i,
    {
        i -= 1;
        if matches!(item.children[i].kind, MdKind::List { ordered: true }) {
            proof {
                lemma_last_where(item.children@, ordered_pred(), Some(i as int));
            }
            return Some(i);
        }
    }
    proof {
        lemma_last_where(item.children@, ordered_pred(), None);
    }
    None
}

/// The chain of list items a trailing nested list leaves open (see
/// [`open_item_chain`]).
pub open spec fn item_chain(list: MdNode) -> Seq<MdNode>
    decreases list,
{
    match last_where(list.children@, item_pred()) {
        Some(i) => if 0 <= i < list.children@.len() {
            let item = list.children@[i];
            seq![item] + match last_where(item.children@, ordered_pred()) {
                Some(j) => if 0 <= j < item.children@.len() {
                    proof {
                        assert(decreases_to!(list => list.children));
                        assert(decreases_to!(list.children => list.children@));
                        assert(decreases_to!(list.children@ => item));
                        assert(decreases_to!(item => item.children));
                        assert(decreases_to!(item.children => item.children@));
                        assert(decreases_to!(item.children@ => item.children@[j]));
                    }
                    item_chain(item.children@[j])
                } else {
                    Seq::empty()
                },
                None => Seq::empty(),
            }
        } else {
            Seq::empty()
        },
        None => Seq::empty(),
    }
}

/// The chain of list items a trailing nested list leaves open: the list's
/// last item, then that item's own trailing ordered list's last item, and so
/// on, shallowest first. Continuation content that under-indents falls out
/// of one of these and lands on an ancestor.
fn open_item_chain(list: &MdNode) -> (r: Vec<&MdNode>)
    ensures
        forall|k: int| 0 <= k < r@.len() ==> (#[trigger] r@[k]).kind is Item,
        r@.len() == item_chain(*list).len(),
        forall|k: int| 0 <= k < r@.len() ==> *(#[trigger] r@[k]) == item_chain(*list)[k],
    decreases list,
{
    match last_item(list) {
        None => {
            proof {
                lemma_last_where(list.children@, item_pred(), None);
            }
            Vec::new()
        },
        Some(i) => {
            proof {
                lemma_last_where(list.children@, item_pred(), Some(i as int));
            }
            let item = &list.children[i];
            let mut chain: Vec<&MdNode> = Vec::new();
            chain.push(item);
            match last_ordered_sublist(item) {
                Some(j) => {
                    let mut rest = open_item_chain(&item.children[j]);
                    let ghost tail = rest@;
                    chain.append(&mut rest);
                    proof {
                        assert(item_chain(*list) == seq![*item] + item_chain(item.children@[j as int]));
                        assert forall|k: int| 0 <= k < chain@.len() implies *(#[trigger] chain@[k])
                            == item_chain(*list)[k] by {
                            if k > 0 {
                                assert(chain@[k] == tail[k - 1]);
                            }
                        }
                    }
                },
                None => {},
            }
            chain
        },
    }
}

// ---------------------------------------------------------------------------
// Diagnostics helpers
// ---------------------------------------------------------------------------

/// `after` is `before` with zero or more diagnostics appended.
pub open spec fn extends(before: Seq<Diagnostic>, after: Seq<Diagnostic>) -> bool {
    before.len() <= after.len() && after.take(before.len() as int) == before
}

/// `after` is `before`, or `before` with one diagnostic of code `code` appended.
pub open spec fn adds_at_most(before: Seq<Diagnostic>, after: Seq<Diagnostic>, code: Seq<char>) -> bool {
    after == before || (after.len() == before.len() + 1 && after.drop_last() == before
        && after.last().code@ == code)
}

pub proof fn lemma_extends_trans(a: Seq<Diagnostic>, b: Seq<Diagnostic>, c: Seq<Diagnostic>)
    requires
        extends(a, b),
        extends(b, c),
    ensures
        extends(a, c),
{
    assert(c.take(a.len() as int) =~= b.take(a.len() as int));
}

pub proof fn lemma_adds_extends(a: Seq<Diagnostic>, b: Seq<Diagnostic>, code: Seq<char>)
    requires
        adds_at_most(a, b, code),
    ensures
        extends(a, b),
{
    assert(b.take(a.len() as int) =~= a);
}

/// `text` trimmed, cut to its first 40 characters.
pub open spec fn snippet(text: Seq<char>) -> Seq<char> {
    let t = trim_seq(text);
    if t.len() <= 40 {
        t
    } else {
        t.take(40)
    }
}

/// `clause starting '<snippet>…'`.
fn starting_label(text: &[char]) -> (r: String)
    ensures
        r@ == "clause starting '"@ + snippet(text@) + "\u{2026}'"@,
{
    let t = trim(text);
    let cut = if t.len() <= 40 {
        t.len()
    } else {
        40
    };
    let s = slice_chars(&t, 0, cut);
    let mut out: Vec<char> = Vec::new();
    extend_str(&mut out, "clause starting '");
    extend_chars(&mut out, &s);
    extend_str(&mut out, "\u{2026}'");
    proof {
        assert(s@ =~= snippet(text@));
    }
    string_of(&out)
}

/// The label of a paragraph with text: `clause starting '<snippet>…'`.
pub open spec fn para_label(n: MdNode) -> Option<Seq<char>> {
    if n.kind is Paragraph && trim_seq(plain_text(n)).len() > 0 {
        Some("clause starting '"@ + snippet(plain_text(n)) + "\u{2026}'"@)
    } else {
        None
    }
}

/// The label of the first paragraph with text among `s`.
pub open spec fn first_para_label(s: Seq<MdNode>) -> Option<Seq<char>>
    decreases s.len(),
{
    if s.len() == 0 {
        None
    } else {
        match first_para_label(s.drop_last()) {
            Some(l) => Some(l),
            None => para_label(s.last()),
        }
    }
}

/// The label of a list item (see [`item_label`]).
pub open spec fn item_label_of(item: MdNode) -> Seq<char> {
    match first_para_label(item.children@) {
        Some(l) => l,
        None => "the preceding clause"@,
    }
}

/// Short label for a list item, for diagnostics emitted before numbering:
/// the start of its first paragraph with text.
fn item_label(item: &MdNode) -> (r: String)
    ensures
        r@ == item_label_of(*item),
{
    let mut i: usize = 0;
    while i < item.children.len()
        invariant
            i <= item.children@.len(),
            first_para_label(item.children@.take(i as int)) is None,
        decreases item.children@.len() - i,
    {
        let c = &item.children[i];
        proof {
            lemma_take_next(item.children@, i as int);
        }
        if matches!(c.kind, MdKind::Paragraph) {
            let text = collect_plain_text(c);
            let t = trim(&text);
            if t.len() > 0 {
                let r = starting_label(&text);
                proof {
                    lemma_first_para_label_prefix(item.children@, i as int + 1);
                }
                return r;
            }
        }
        i += 1;
    }
    proof {
        assert(item.children@.take(i as int) =~= item.children@);
    }
    string_of(&chars_of("the preceding clause"))
}

/// A label found in a prefix of `s` is the label of `s`.
proof fn lemma_first_para_label_prefix(s: Seq<MdNode>, n: int)
    requires
        0 <= n <= s.len(),
        first_para_label(s.take(n)) is Some,
    ensures
        first_para_label(s) == first_para_label(s.take(n)),
    decreases s.len() - n,
{
    if n < s.len() {
        lemma_take_next(s, n);
        lemma_first_para_label_prefix(s, n + 1);
    } else {
        assert(s.take(n) =~= s);
    }
}

/// An open list item that a block at column `col` falls inside of without
/// reaching its content: past its marker, short of its content column.
pub open spec fn straddled_by(col: usize) -> spec_fn(MdNode) -> bool {
    |t: MdNode| marker_col(t) < col && col < content_col(t)
}

/// The message of a `continuation-reattached` warning for a block at
/// column `col` that falls out of `target` and lands on `location`.
pub open spec fn reattached_message(col: usize, target: MdNode, location: Seq<char>) -> Seq<char> {
    "Continuation content is indented "@ + decimal(indent_of(col) as nat) + " spaces, short of the "@
        + decimal(indent_of(content_col(target)) as nat) + " needed to stay inside "@
        + item_label_of(target) + ". It will render under "@ + location
        + " instead \u{2014} one level too shallow."@
}

/// Warn when a content block is indented past the marker of an open clause
/// but short of its content column: it still renders, one or more levels
/// too shallow, under the wrong clause.
fn check_reattached(
    block: &MdNode,
    prev_list: Option<&MdNode>,
    location: String,
    diagnostics: &mut Vec<Diagnostic>,
    line_offset: usize,
)
    ensures
        adds_at_most(old(diagnostics)@, final(diagnostics)@, "continuation-reattached"@),
        match prev_list {
            Some(l) => match last_where(item_chain(*l), straddled_by(marker_col(*block))) {
                Some(k) => {
                    &&& final(diagnostics)@.len() == old(diagnostics)@.len() + 1
                    &&& final(diagnostics)@.drop_last() == old(diagnostics)@
                    &&& diag_view(final(diagnostics)@.last()) == placed_view(
                        DiagLevel::Warning,
                        "continuation-reattached"@,
                        reattached_message(marker_col(*block), item_chain(*l)[k], location@),
                        Some(location@),
                        node_pos(*block, line_offset),
                    )
                },
                None => final(diagnostics)@ == old(diagnostics)@,
            },
            None => final(diagnostics)@ == old(diagnostics)@,
        },
{
    let list = match prev_list {
        Some(l) => l,
        None => return,
    };
    let col = item_marker_col(block);
    let chain = open_item_chain(list);
    let ghost items = item_chain(*list);
    let mut k = chain.len();
    while k > 0
        invariant
            k <= chain@.len(),
            prev_list == Some(list),
            col == marker_col(*block),
            items == item_chain(*list),
            chain@.len() == items.len(),
            forall|j: int| 0 <= j < chain@.len() ==> *(#[trigger] chain@[j]) == items[j],
            forall|j: int| k <= j < items.len() ==> !straddled_by(col)(#[trigger] items[j]),
            diagnostics@ == old(diagnostics)@,
        decreases k,
    {
        k -= 1;
        let target = chain[k];
        let content = item_content_col(target);
        proof {
            assert(*target == items[k as int]);
        }
        if item_marker_col(target) < col && col < content {
            proof {
                lemma_last_where(items, straddled_by(col), Some(k as int));
            }
            let mut msg: Vec<char> = Vec::new();
            extend_str(&mut msg, "Continuation content is indented ");
            extend_chars(&mut msg, &decimal_chars(col_to_indent(col)));
            extend_str(&mut msg, " spaces, short of the ");
            extend_chars(&mut msg, &decimal_chars(col_to_indent(content)));
            extend_str(&mut msg, " needed to stay inside ");
            extend_str(&mut msg, item_label(target).as_str());
            extend_str(&mut msg, ". It will render under ");
            extend_str(&mut msg, location.as_str());
            extend_str(&mut msg, " instead \u{2014} one level too shallow.");
            let ghost loc = location@;
            let ghost label = item_label_of(*target);
            proof {
                assert(msg@ =~= reattached_message(col, *target, loc));
            }
            let d = Diagnostic::warning("continuation-reattached", string_of(&msg)).at(
                location,
            ).at_pos(node_position(block, line_offset));
            proof {
                assert(diag_view(d) == placed_view(
                    DiagLevel::Warning,
                    "continuation-reattached"@,
                    reattached_message(col, items[k as int], loc),
                    Some(loc),
                    node_pos(*block, line_offset),
                ));
            }
            diagnostics.push(d);
            assert(diagnostics@.drop_last() =~= old(diagnostics)@);
            return;
        }
    }
    proof {
        lemma_last_where(items, straddled_by(col), None);
    }
}

/// Error on an indented code block in the clause hierarchy: it is always
/// mis-indented continuation content, and is dropped from the output.
fn report_indented_code(
    block: &MdNode,
    required_col: Option<usize>,
    location: String,
    diagnostics: &mut Vec<Diagnostic>,
    line_offset: usize,
)
    ensures
        final(diagnostics)@.len() == old(diagnostics)@.len() + 1,
        final(diagnostics)@.drop_last() == old(diagnostics)@,
        final(diagnostics)@.last().code@ == "continuation-indent"@,
{
    let mut msg: Vec<char> = Vec::new();
    extend_str(
        &mut msg,
        "Content is indented too far below its clause's content column and has been parsed as an indented code block. It will be dropped from the output.",
    );
    match required_col {
        Some(col) => {
            extend_str(&mut msg, " Indent it to ");
            extend_chars(&mut msg, &decimal_chars(col_to_indent(col)));
            extend_str(&mut msg, " spaces.");
        },
        None => {},
    }
    let d = Diagnostic::error("continuation-indent", string_of(&msg)).at(location).at_pos(
        node_position(block, line_offset),
    );
    diagnostics.push(d);
    assert(diagnostics@.drop_last() =~= old(diagnostics)@);
}

/// What a block the format has no place for is called in diagnostics.
pub open spec fn unsupported_name(k: MdKind) -> Option<Seq<char>> {
    match k {
        MdKind::CodeBlock { .. } => Some("fenced code block"@),
        MdKind::HtmlBlock => Some("raw HTML block"@),
        MdKind::ThematicBreak => Some("thematic break"@),
        MdKind::FootnoteDefinition => Some("footnote definition"@),
        MdKind::DescriptionList => Some("description list"@),
        _ => None,
    }
}

/// Warn about a block the format has no representation for (fenced code,
/// raw HTML, thematic breaks, footnote definitions, description lists),
/// which would otherwise vanish from the output silently.
fn report_unsupported_block(
    block: &MdNode,
    location: String,
    diagnostics: &mut Vec<Diagnostic>,
    line_offset: usize,
)
    ensures
        unsupported_name(block.kind) is None ==> final(diagnostics)@ == old(diagnostics)@,
        unsupported_name(block.kind) is Some ==> final(diagnostics)@.len() == old(diagnostics)@.len() + 1
            && final(diagnostics)@.drop_last() == old(diagnostics)@
            && final(diagnostics)@.last().code@ == "unsupported-block"@,
{
    let kind = match &block.kind {
        MdKind::CodeBlock { .. } => "fenced code block",
        MdKind::HtmlBlock => "raw HTML block",
        MdKind::ThematicBreak => "thematic break",
        MdKind::FootnoteDefinition => "footnote definition",
        MdKind::DescriptionList => "description list",
        _ => return,
    };
    let mut msg: Vec<char> = Vec::new();
    extend_str(&mut msg, "A ");
    extend_str(&mut msg, kind);
    extend_str(&mut msg, " is not part of the Lexicon format and will not appear in the output.");
    let d = Diagnostic::warning("unsupported-block", string_of(&msg)).at(location).at_pos(
        node_position(block, line_offset),
    );
    diagnostics.push(d);
    assert(diagnostics@.drop_last() =~= old(diagnostics)@);
}

// ---------------------------------------------------------------------------
// Clauses
// ---------------------------------------------------------------------------

/// A list item child that makes its list a clause structure: a heading or
/// a nested ordered list.
pub open spec fn starts_clause(c: MdNode) -> bool {
    c.kind is Heading || c.kind == (MdKind::List { ordered: true })
}

/// Some item of the list has a heading or a nested ordered list.
pub open spec fn is_clause_list_spec(list: MdNode) -> bool {
    exists|i: int|
        0 <= i < list.children@.len() && (#[trigger] list.children@[i]).kind is Item && exists|
            j: int,
        |
            0 <= j < list.children@[i].children@.len() && starts_clause(
                #[trigger] list.children@[i].children@[j],
            )
}

/// Whether an ordered list holds clause structure (headings or nested
/// ordered lists) rather than plain numbered paragraphs.
pub fn is_clause_list(list: &MdNode) -> (r: bool)
    ensures
        r == is_clause_list_spec(*list),
{
    let mut i: usize = 0;
    while i < list.children.len()
        invariant
            i <= list.children@.len(),
            forall|a: int, b: int|
                0 <= a < i && (#[trigger] list.children@[a]).kind is Item && 0 <= b
                    < list.children@[a].children@.len() ==> !starts_clause(
                    #[trigger] list.children@[a].children@[b],
                ),
        decreases list.children@.len() - i,
    {
        let item = &list.children[i];
        if matches!(item.kind, MdKind::Item { .. }) {
            let mut j: usize = 0;
            while j < item.children.len()
                invariant
                    i < list.children@.len(),
                    *item == list.children@[i as int],
                    list.children@[i as int].kind is Item,
                    j <= item.children@.len(),
                    forall|b: int| 0 <= b < j ==> !starts_clause(#[trigger] item.children@[b]),
                decreases item.children@.len() - j,
            {
                match &item.children[j].kind {
                    MdKind::Heading(_) => {
                        assert(starts_clause(list.children@[i as int].children@[j as int]));
                        return true;
                    },
                    MdKind::List { ordered } => {
                        if *ordered {
                            assert(starts_clause(list.children@[i as int].children@[j as int]));
                            return true;
                        }
                    },
                    _ => {},
                }
                j += 1;
            }
        }
        i += 1;
    }
    false
}

/// The list items among a list's children, in order.
pub open spec fn items_of(s: Seq<MdNode>) -> Seq<MdNode>
    decreases s.len(),
{
    if s.len() == 0 {
        Seq::empty()
    } else if s.last().kind is Item {
        items_of(s.drop_last()).push(s.last())
    } else {
        items_of(s.drop_last())
    }
}

/// Some child of the item is a heading.
pub open spec fn has_heading_child(item: MdNode) -> bool {
    exists|j: int| 0 <= j < item.children@.len() && (#[trigger] item.children@[j]).kind is Heading
}

/// What every clause read from the `k`-th item of a list at `level` is:
/// at that level, unnumbered, at the item's position.
pub open spec fn clause_fits(c: Clause, item: MdNode, level: ClauseLevel, line_offset: usize) -> bool {
    &&& c.level == level
    &&& c.number is None
    &&& c.source_pos == node_pos(item, line_offset)
    &&& (c.heading is Some <==> has_heading_child(item))
}

/// The label of a clause body piece that is a paragraph with text.
pub open spec fn piece_label(b: ClauseBody) -> Option<Seq<char>> {
    match b {
        ClauseBody::Content(ClauseContent::Paragraph(inlines)) => if trim_seq(
            inlines_text(inlines@),
        ).len() > 0 {
            Some("clause starting '"@ + snippet(inlines_text(inlines@)) + "\u{2026}'"@)
        } else {
            None
        },
        _ => None,
    }
}

/// The label of the first paragraph with text in a clause body.
pub open spec fn first_piece_label(s: Seq<ClauseBody>) -> Option<Seq<char>>
    decreases s.len(),
{
    if s.len() == 0 {
        None
    } else {
        match first_piece_label(s.drop_last()) {
            Some(l) => Some(l),
            None => piece_label(s.last()),
        }
    }
}

/// The location hint of a clause (see [`clause_location_hint`]).
pub open spec fn location_hint(heading: Option<ClauseHeading>, body: Seq<ClauseBody>) -> Seq<char> {
    let from_heading = match heading {
        Some(h) => if trim_seq(inlines_text(h.text@)).len() > 0 {
            Some("clause '"@ + trim_seq(inlines_text(h.text@)) + "'"@)
        } else {
            None
        },
        None => None,
    };
    match from_heading {
        Some(l) => l,
        None => match first_piece_label(body) {
            Some(l) => l,
            None => "clause body"@,
        },
    }
}

/// A label found in a prefix of a clause body is the label of the body.
proof fn lemma_first_piece_label_prefix(s: Seq<ClauseBody>, n: int)
    requires
        0 <= n <= s.len(),
        first_piece_label(s.take(n)) is Some,
    ensures
        first_piece_label(s) == first_piece_label(s.take(n)),
    decreases s.len() - n,
{
    if n < s.len() {
        lemma_take_next(s, n);
        lemma_first_piece_label_prefix(s, n + 1);
    } else {
        assert(s.take(n) =~= s);
    }
}

/// Best-effort location hint for diagnostics emitted before numbering: the
/// clause heading, else the start of the first paragraph with text, else
/// "clause body".
fn clause_location_hint(heading: &Option<ClauseHeading>, body: &Vec<ClauseBody>) -> (r: String)
    ensures
        r@ == location_hint(*heading, body@),
{
    match heading {
        Some(h) => {
            let text = inlines_plain_text(h.text.as_slice());
            let t = trim(&text);
            if t.len() > 0 {
                let mut out: Vec<char> = Vec::new();
                extend_str(&mut out, "clause '");
                extend_chars(&mut out, &t);
                extend_str(&mut out, "'");
                return string_of(&out);
            }
        },
        None => {},
    }
    let mut i: usize = 0;
    while i < body.len()
        invariant
            i <= body@.len(),
            first_piece_label(body@.take(i as int)) is None,
            match *heading {
                Some(h) => trim_seq(inlines_text(h.text@)).len() == 0,
                None => true,
            },
        decreases body@.len() - i,
    {
        proof {
            lemma_take_next(body@, i as int);
        }
        match &body[i] {
            ClauseBody::Content(ClauseContent::Paragraph(inlines)) => {
                let text = inlines_plain_text(inlines.as_slice());
                let t = trim(&text);
                if t.len() > 0 {
                    let r = starting_label(&text);
                    proof {
                        lemma_first_piece_label_prefix(body@, i as int + 1);
                    }
                    return r;
                }
            },
            _ => {},
        }
        i += 1;
    }
    proof {
        assert(body@.take(i as int) =~= body@);
    }
    string_of(&chars_of("clause body"))
}

/// The plain text of an inline value (see [`inline_text`]).
pub open spec fn view_text(i: InlineView) -> Seq<char> {
    match i {
        InlineView::Text(s) => s,
        InlineView::Bold(s) => s,
        InlineView::Italic(s) => s,
        InlineView::Superscript(s) => s,
        InlineView::CrossRef { display, resolved, .. } => match resolved {
            Some(r) => r,
            None => display,
        },
        InlineView::Link { text, .. } => text,
        InlineView::SoftBreak => seq![' '],
        InlineView::LineBreak => seq!['\n'],
    }
}

/// The plain text of a run of inline values.
pub open spec fn views_text(s: Seq<InlineView>) -> Seq<char>
    decreases s.len(),
{
    if s.len() == 0 {
        Seq::empty()
    } else {
        views_text(s.drop_last()) + view_text(s.last())
    }
}

proof fn lemma_views_text(s: Seq<InlineContent>)
    ensures
        inlines_text(s) == views_text(inlines_view(s)),
    decreases s.len(),
{
    if s.len() > 0 {
        lemma_views_text(s.drop_last());
        assert(inlines_view(s).drop_last() =~= inlines_view(s.drop_last()));
    }
}

/// A run with the anchor cut out of its last text inline, if it ends in one.
pub open spec fn strip_last_text(v: Seq<InlineView>) -> Seq<InlineView> {
    if v.len() > 0 && v.last() is Text {
        v.drop_last().push(InlineView::Text(strip_anchor_spec(v.last()->Text_0).0))
    } else {
        v
    }
}

/// A clause heading's inline run and the anchor it declares: the anchor is
/// read from the heading's plain text, and when it is there the run loses
/// it from its last text inline.
pub open spec fn heading_view(n: MdNode) -> (Seq<InlineView>, Option<Seq<char>>) {
    let raw = inlines_of(n);
    let text = views_text(raw);
    let (cleaned, anchor) = strip_anchor_spec(text);
    (if cleaned == text { raw } else { strip_last_text(raw) }, anchor)
}

/// A clause paragraph's inline run and the anchor it declares: an anchor
/// at the end of its last text inline is cut out, and that inline dropped
/// when nothing else is left of it.
pub open spec fn para_split(v: Seq<InlineView>) -> (Seq<InlineView>, Option<Seq<char>>) {
    if v.len() > 0 && v.last() is Text && strip_anchor_spec(v.last()->Text_0).1 is Some {
        let (cleaned, anchor) = strip_anchor_spec(v.last()->Text_0);
        (
            if cleaned.len() == 0 {
                v.drop_last()
            } else {
                v.drop_last().push(InlineView::Text(cleaned))
            },
            anchor,
        )
    } else {
        (v, None)
    }
}

/// The heading of a clause: its last heading child's run and level.
pub open spec fn clause_heading(cs: Seq<MdNode>) -> Option<(Seq<InlineView>, u8)>
    decreases cs.len(),
{
    if cs.len() == 0 {
        None
    } else if cs.last().kind is Heading {
        Some((heading_view(cs.last()).0, cs.last().kind->Heading_0))
    } else {
        clause_heading(cs.drop_last())
    }
}

/// The anchor a child of a clause item declares.
pub open spec fn child_anchor(c: MdNode) -> Option<Seq<char>> {
    match c.kind {
        MdKind::Heading(_) => heading_view(c).1,
        MdKind::Paragraph => para_split(inlines_of(c)).1,
        _ => None,
    }
}

/// The anchor of a clause: the last one its children declare.
pub open spec fn clause_anchor(cs: Seq<MdNode>) -> Option<Seq<char>>
    decreases cs.len(),
{
    if cs.len() == 0 {
        None
    } else if child_anchor(cs.last()) is Some {
        child_anchor(cs.last())
    } else {
        clause_anchor(cs.drop_last())
    }
}

/// The child adds a piece to the clause body: a paragraph with something
/// left once its anchor is cut out, a list, a blockquote or a table.
pub open spec fn contributes(c: MdNode) -> bool {
    match c.kind {
        MdKind::Paragraph => para_split(inlines_of(c)).0.len() > 0,
        MdKind::List { .. } => true,
        MdKind::BlockQuote => true,
        MdKind::Table => true,
        _ => false,
    }
}

/// A clause's heading agrees with [`clause_heading`].
pub open spec fn heading_read(h: Option<ClauseHeading>, expected: Option<(Seq<InlineView>, u8)>) -> bool {
    match (h, expected) {
        (Some(h), Some((v, l))) => inlines_view(h.text@) == v && h.level == l,
        (None, None) => true,
        _ => false,
    }
}

/// `c` is the clause read from list item `item` at `level`: unnumbered, at
/// the item's position, with the item's heading and anchor, and one body
/// piece per contributing child, in order.
pub open spec fn clause_read(c: Clause, item: MdNode, level: ClauseLevel, line_offset: usize) -> bool
    decreases item, 3int,
{
    &&& c.level == level
    &&& c.number is None
    &&& c.source_pos == node_pos(item, line_offset)
    &&& heading_read(c.heading, clause_heading(item.children@))
    &&& opt_view(c.anchor) == clause_anchor(item.children@)
    &&& body_read(c.body@, item.children@, level, line_offset)
}

/// `b` is the clause body read from the children `cs` of an item at `level`.
pub open spec fn body_read(b: Seq<ClauseBody>, cs: Seq<MdNode>, level: ClauseLevel, line_offset: usize) -> bool
    decreases cs, 2int,
{
    if cs.len() == 0 {
        b.len() == 0
    } else if contributes(cs.last()) {
        &&& b.len() > 0
        &&& body_read(b.drop_last(), cs.drop_last(), level, line_offset)
        &&& piece_read(b.last(), cs.last(), level, line_offset)
    } else {
        body_read(b, cs.drop_last(), level, line_offset)
    }
}

/// `p` is the body piece read from the child `c` of an item at `level`.
pub open spec fn piece_read(p: ClauseBody, c: MdNode, level: ClauseLevel, line_offset: usize) -> bool
    decreases c, 1int,
{
    match c.kind {
        MdKind::Paragraph => p matches ClauseBody::Content(ClauseContent::Paragraph(v)) && inlines_view(
            v@,
        ) == para_split(inlines_of(c)).0,
        MdKind::List { ordered } => if ordered {
            p matches ClauseBody::Children(kids) && list_read(
                kids@,
                c.children@,
                next_level_spec(level),
                line_offset,
            )
        } else {
            p matches ClauseBody::Content(ClauseContent::BulletList(items)) && runs_view(items@)
                == list_paragraphs(c.children@)
        },
        MdKind::BlockQuote => p matches ClauseBody::Content(ClauseContent::Blockquote(v)) && inlines_view(
            v@,
        ) == blockquote_inlines(c),
        MdKind::Table => p matches ClauseBody::Content(ClauseContent::Table(t)) && runs_view(t.headers@)
            == table_headers(c.children@) && rows_view(t.rows@) == table_body(c.children@),
        _ => false,
    }
}

/// `cl` are the clauses read, at `level`, from the items among the children
/// `cs` of an ordered list, one per item.
pub open spec fn list_read(cl: Seq<Clause>, cs: Seq<MdNode>, level: ClauseLevel, line_offset: usize) -> bool
    decreases cs, 0int,
{
    if cs.len() == 0 {
        cl.len() == 0
    } else if cs.last().kind is Item {
        &&& cl.len() > 0
        &&& list_read(cl.drop_last(), cs.drop_last(), level, line_offset)
        &&& clause_read(cl.last(), cs.last(), level, line_offset)
    } else {
        list_read(cl, cs.drop_last(), level, line_offset)
    }
}

/// A heading's inlines with any anchor stripped from its last text run.
fn rebuild_inlines_stripped(node: &MdNode) -> (r: Vec<InlineContent>)
    ensures
        inlines_view(r@) == strip_last_text(inlines_of(*node)),
{
    let mut inlines = extract_inlines(node);
    let n = inlines.len();
    if n > 0 {
        let cleaned = match &inlines[n - 1] {
            InlineContent::Text(t) => Some(strip_anchor(t.as_str()).0),
            _ => None,
        };
        match cleaned {
            Some(c) => {
                let ghost before = inlines@;
                inlines.set(n - 1, InlineContent::Text(c));
                proof {
                    assert(inlines_view(inlines@) =~= inlines_view(before).drop_last().push(
                        InlineView::Text(c@),
                    ));
                }
            },
            None => {},
        }
    }
    inlines
}

/// Extract the clauses of an ordered list, one per item.
pub fn extract_clauses_from_list(
    list: &MdNode,
    level: ClauseLevel,
    diagnostics: &mut Vec<Diagnostic>,
    line_offset: usize,
) -> (r: Vec<Clause>)
    ensures
        r@.len() == items_of(list.children@).len(),
        forall|k: int|
            0 <= k < r@.len() ==> clause_fits(
                #[trigger] r@[k],
                items_of(list.children@)[k],
                level,
                line_offset,
            ),
        list_read(r@, list.children@, level, line_offset),
        extends(old(diagnostics)@, final(diagnostics)@),
    decreases list, 1int,
{
    let mut clauses: Vec<Clause> = Vec::new();
    let mut i: usize = 0;
    proof {
        assert(diagnostics@.take(diagnostics@.len() as int) =~= diagnostics@);
    }
    while i < list.children.len()
        invariant
            i <= list.children@.len(),
            clauses@.len() == items_of(list.children@.take(i as int)).len(),
            forall|k: int|
                0 <= k < clauses@.len() ==> clause_fits(
                    #[trigger] clauses@[k],
                    items_of(list.children@.take(i as int))[k],
                    level,
                    line_offset,
                ),
            list_read(clauses@, list.children@.take(i as int), level, line_offset),
            extends(old(diagnostics)@, diagnostics@),
        decreases list.children@.len() - i,
    {
        let item = &list.children[i];
        proof {
            lemma_take_next(list.children@, i as int);
        }
        match &item.kind {
            MdKind::Item { start, .. } => {
                let ordinal = *start;
                if ordinal >= 10 {
                    let digits = decimal_chars(ordinal);
                    let mut msg: Vec<char> = Vec::new();
                    extend_str(&mut msg, "Source ordinal '");
                    extend_chars(&mut msg, &digits);
                    extend_str(&mut msg, ".' is ");
                    let width = if digits.len() < usize::MAX {
                        digits.len() + 1
                    } else {
                        digits.len()
                    };
                    extend_chars(&mut msg, &decimal_chars(width));
                    extend_str(
                        &mut msg,
                        " characters wide, which shifts this clause's content column to ",
                    );
                    extend_chars(&mut msg, &decimal_chars(col_to_indent(item_content_col(item))));
                    extend_str(
                        &mut msg,
                        " spaces. Write '1.' instead \u{2014} the rendered numbering is unaffected.",
                    );
                    let d = Diagnostic::info("hand-numbered-ordinal", string_of(&msg)).at_pos(
                        node_position(item, line_offset),
                    );
                    let ghost before = diagnostics@;
                    diagnostics.push(d);
                    proof {
                        assert(diagnostics@.take(before.len() as int) =~= before);
                        lemma_extends_trans(old(diagnostics)@, before, diagnostics@);
                    }
                }
                let ghost before = diagnostics@;
                let clause = extract_clause_from_item(item, level, diagnostics, line_offset);
                proof {
                    lemma_extends_trans(old(diagnostics)@, before, diagnostics@);
                }
                let ghost prev = clauses@;
                clauses.push(clause);
                proof {
                    assert(clauses@.drop_last() =~= prev);
                    let its = items_of(list.children@.take(i + 1));
                    assert(its == items_of(list.children@.take(i as int)).push(*item));
                    assert forall|k: int| 0 <= k < clauses@.len() implies clause_fits(
                        #[trigger] clauses@[k],
                        its[k],
                        level,
                        line_offset,
                    ) by {
                        if k < prev.len() {
                            assert(clauses@[k] == prev[k]);
                        }
                    }
                }
            },
            _ => {
                proof {
                    assert(items_of(list.children@.take(i + 1)) == items_of(
                        list.children@.take(i as int),
                    ));
                }
            },
        }
        i += 1;
    }
    proof {
        assert(list.children@.take(list.children@.len() as int) =~= list.children@);
    }
    clauses
}

/// Extract a single clause from a list item: its heading, anchor and body
/// of content and nested clauses, reporting mis-indented and unsupported
/// blocks as it goes.
pub fn extract_clause_from_item(
    item: &MdNode,
    level: ClauseLevel,
    diagnostics: &mut Vec<Diagnostic>,
    line_offset: usize,
) -> (r: Clause)
    ensures
        clause_fits(r, *item, level, line_offset),
        clause_read(r, *item, level, line_offset),
        extends(old(diagnostics)@, final(diagnostics)@),
    decreases item, 0int,
{
    let mut heading: Option<ClauseHeading> = None;
    let mut anchor: Option<String> = None;
    let mut body: Vec<ClauseBody> = Vec::new();
    let mut prev_list: Option<&MdNode> = None;
    let mut i: usize = 0;
    proof {
        assert(diagnostics@.take(diagnostics@.len() as int) =~= diagnostics@);
        assert(item.children@.take(0) =~= Seq::<MdNode>::empty());
    }
    while i < item.children.len()
        invariant
            i <= item.children@.len(),
            heading is Some <==> exists|j: int|
                0 <= j < i && (#[trigger] item.children@[j]).kind is Heading,
            heading_read(heading, clause_heading(item.children@.take(i as int))),
            opt_view(anchor) == clause_anchor(item.children@.take(i as int)),
            body_read(body@, item.children@.take(i as int), level, line_offset),
            extends(old(diagnostics)@, diagnostics@),
        decreases item.children@.len() - i,
    {
        let child = &item.children[i];
        let ghost before = diagnostics@;
        let ghost body0 = body@;
        let ghost anchor0 = opt_view(anchor);
        let ghost pre = item.children@.take(i as int);
        proof {
            lemma_take_next(item.children@, i as int);
        }
        match &child.kind {
            MdKind::Heading(hlevel) => {
                let raw_inlines = extract_inlines(child);
                let heading_text = string_of(&inlines_plain_text(raw_inlines.as_slice()));
                proof {
                    lemma_views_text(raw_inlines@);
                }
                let (cleaned_text, head_anchor) = strip_anchor(heading_text.as_str());
                if head_anchor.is_some() {
                    anchor = head_anchor;
                }
                let same = crate::text::str_eq(cleaned_text.as_str(), heading_text.as_str());
                let text = if same {
                    raw_inlines
                } else {
                    rebuild_inlines_stripped(child)
                };
                heading = Some(ClauseHeading { text, level: *hlevel });
                proof {
                    assert(diagnostics@.take(before.len() as int) =~= before);
                    assert(!contributes(*child));
                    assert(child_anchor(*child) == heading_view(*child).1);
                }
            },
            MdKind::Paragraph => {
                let mut inlines = extract_inlines(child);
                let ghost raw = inlines_view(inlines@);
                let n = inlines.len();
                if n > 0 {
                    let stripped = match &inlines[n - 1] {
                        InlineContent::Text(t) => Some(strip_anchor(t.as_str())),
                        _ => None,
                    };
                    proof {
                        assert(raw.last() == inlines@[n - 1]@);
                    }
                    match stripped {
                        Some((cleaned, Some(para_anchor))) => {
                            match &anchor {
                                Some(previous) => {
                                    let mut msg: Vec<char> = Vec::new();
                                    extend_str(
                                        &mut msg,
                                        "Clause declares more than one anchor; '#",
                                    );
                                    extend_str(&mut msg, previous.as_str());
                                    extend_str(&mut msg, "' is dropped in favour of '#");
                                    extend_str(&mut msg, para_anchor.as_str());
                                    extend_str(
                                        &mut msg,
                                        "'. Cross-references to the dropped anchor will not resolve \u{2014} move it to its own sub-clause",
                                    );
                                    let d = Diagnostic::warning(
                                        "multiple-anchors",
                                        string_of(&msg),
                                    ).at_pos(node_position(child, line_offset));
                                    diagnostics.push(d);
                                    proof {
                                        assert(diagnostics@.take(before.len() as int) =~= before);
                                    }
                                },
                                None => {},
                            }
                            anchor = Some(para_anchor);
                            if chars_of(cleaned.as_str()).len() == 0 {
                                inlines.pop();
                                proof {
                                    assert(inlines_view(inlines@) =~= raw.drop_last());
                                }
                            } else {
                                inlines.set(n - 1, InlineContent::Text(cleaned));
                                proof {
                                    assert(inlines_view(inlines@) =~= raw.drop_last().push(
                                        InlineView::Text(cleaned@),
                                    ));
                                }
                            }
                        },
                        _ => {},
                    }
                }
                proof {
                    assert(diagnostics@.take(before.len() as int) =~= before);
                    assert(inlines_view(inlines@) == para_split(inlines_of(*child)).0);
                    assert(opt_view(anchor) == if child_anchor(*child) is Some {
                        child_anchor(*child)
                    } else {
                        anchor0
                    });
                }
                if inlines.len() > 0 {
                    let ghost mid = diagnostics@;
                    let hint = clause_location_hint(&heading, &body);
                    check_reattached(child, prev_list, hint, diagnostics, line_offset);
                    proof {
                        lemma_adds_extends(mid, diagnostics@, "continuation-reattached"@);
                        lemma_extends_trans(before, mid, diagnostics@);
                    }
                    body.push(ClauseBody::Content(ClauseContent::Paragraph(inlines)));
                    proof {
                        assert(body@.drop_last() =~= body0);
                        assert(piece_read(body@.last(), *child, level, line_offset));
                    }
                }
            },
            MdKind::List { ordered } => {
                if *ordered {
                    let child_clauses = extract_clauses_from_list(
                        child,
                        next_level(level),
                        diagnostics,
                        line_offset,
                    );
                    body.push(ClauseBody::Children(child_clauses));
                    proof {
                        assert(piece_read(body@.last(), *child, level, line_offset));
                    }
                    prev_list = Some(child);
                } else {
                    let items = extract_bullet_list(child);
                    let location = clause_location_hint(&heading, &body);
                    let d = Diagnostic::warning(
                        "bullet-outside-clause",
                        string_of(
                            &chars_of(
                                "Bullet point inside clause body \u{2014} bullets are not part of the structured outline, will not be numbered, and cannot be cross-referenced.",
                            ),
                        ),
                    ).at(location).at_pos(node_position(child, line_offset));
                    diagnostics.push(d);
                    proof {
                        assert(diagnostics@.take(before.len() as int) =~= before);
                    }
                    body.push(ClauseBody::Content(ClauseContent::BulletList(items)));
                    proof {
                        assert(piece_read(body@.last(), *child, level, line_offset));
                    }
                }
                proof {
                    assert(body@.drop_last() =~= body0);
                }
            },
            MdKind::BlockQuote => {
                let hint = clause_location_hint(&heading, &body);
                check_reattached(child, prev_list, hint, diagnostics, line_offset);
                proof {
                    lemma_adds_extends(before, diagnostics@, "continuation-reattached"@);
                }
                let inlines = extract_blockquote_inlines(child);
                body.push(ClauseBody::Content(ClauseContent::Blockquote(inlines)));
                proof {
                    assert(body@.drop_last() =~= body0);
                    assert(piece_read(body@.last(), *child, level, line_offset));
                }
            },
            MdKind::Table => {
                let hint = clause_location_hint(&heading, &body);
                check_reattached(child, prev_list, hint, diagnostics, line_offset);
                proof {
                    lemma_adds_extends(before, diagnostics@, "continuation-reattached"@);
                }
                let table = extract_table(child);
                body.push(ClauseBody::Content(ClauseContent::Table(table)));
                proof {
                    assert(body@.drop_last() =~= body0);
                    assert(piece_read(body@.last(), *child, level, line_offset));
                }
            },
            MdKind::CodeBlock { fenced: false } => {
                let required = match prev_list {
                    Some(l) => {
                        let chain = open_item_chain(l);
                        let n = chain.len();
                        if n > 0 {
                            item_content_col(chain[n - 1])
                        } else {
                            item_content_col(item)
                        }
                    },
                    None => item_content_col(item),
                };
                let hint = clause_location_hint(&heading, &body);
                report_indented_code(child, Some(required), hint, diagnostics, line_offset);
                proof {
                    assert(diagnostics@.take(before.len() as int) =~= before);
                }
            },
            _ => {
                let hint = clause_location_hint(&heading, &body);
                report_unsupported_block(child, hint, diagnostics, line_offset);
                proof {
                    assert(diagnostics@.take(before.len() as int) =~= before);
                }
            },
        }
        proof {
            lemma_extends_trans(old(diagnostics)@, before, diagnostics@);
            assert(item.children@.take(i + 1).drop_last() == pre);
            assert(item.children@.take(i + 1).last() == *child);
            if contributes(*child) {
                assert(body@.len() > 0);
                assert(body@.drop_last() == body0);
                assert(piece_read(body@.last(), *child, level, line_offset));
            } else {
                assert(body@ == body0);
            }
            assert(body_read(body@, item.children@.take(i + 1), level, line_offset));
        }
        i += 1;
    }
    proof {
        assert(item.children@.take(item.children@.len() as int) =~= item.children@);
    }
    Clause {
        level,
        heading,
        anchor,
        number: None,
        source_pos: node_position(item, line_offset),
        body,
    }
}

// ---------------------------------------------------------------------------
// The document body
// ---------------------------------------------------------------------------

/// A top-level heading that opens the recitals.
pub const RECITALS_PATTERN: &'static str = r"(?i)^(recitals|background)$";

/// A top-level heading that opens an addendum: `Addendum`, an optional
/// number, and an optional title after a dash (group 1).
pub const ADDENDUM_PATTERN: &'static str =
    r"(?i)^addendum(?:\s+\d+)?(?:\s*[-–—]\s*(.*))?$";

/// What [`extract_body`] returns: the recitals, the body heading, the body,
/// the addenda and the diagnostics.
pub type ExtractBodyResult = (
    Option<Recitals>,
    Option<String>,
    Vec<BodyElement>,
    Vec<Addendum>,
    Vec<Diagnostic>,
);

/// The number the `k`-th addendum (from 0) gets: its position from 1,
/// saturating at `u32::MAX`.
pub open spec fn addendum_number(k: int) -> u32 {
    if k + 1 < u32::MAX {
        (k + 1) as u32
    } else {
        u32::MAX
    }
}

/// A body element read at the top level: a clause is a top-level clause,
/// not yet numbered.
pub open spec fn top_level_element(e: BodyElement) -> bool {
    e matches BodyElement::Clause(c) ==> c.level == ClauseLevel::TopLevel && c.number is None
}

/// The properties [`extract_body`] guarantees of what it returns.
pub open spec fn body_fits(r: ExtractBodyResult) -> bool {
    let (recitals, body_heading, body, addenda, diagnostics) = r;
    &&& body_heading is Some ==> recitals is Some
    &&& forall|k: int| 0 <= k < addenda@.len() ==> (#[trigger] addenda@[k]).number == addendum_number(k)
    &&& forall|k: int| 0 <= k < body@.len() ==> top_level_element(#[trigger] body@[k])
    &&& recitals matches Some(rec) ==> forall|k: int|
        0 <= k < rec.body@.len() ==> top_level_element(#[trigger] rec.body@[k])
    &&& (recitals is Some && body_heading is None) ==> diagnostics@.len() > 0
        && diagnostics@.last().code@ == "missing-body-heading"@
}

// ---------------------------------------------------------------------------
// What the body walk reads
// ---------------------------------------------------------------------------

/// A level-1 heading.
pub open spec fn is_top_heading(c: MdNode) -> bool {
    c.kind matches MdKind::Heading(l) && l == 1
}

/// A level-1 heading's text, its anchor cut out.
pub open spec fn top_text(c: MdNode) -> Seq<char> {
    strip_anchor_spec(plain_text(c)).0
}

/// A level-1 heading's anchor.
pub open spec fn top_anchor(c: MdNode) -> Option<Seq<char>> {
    strip_anchor_spec(plain_text(c)).1
}

/// A level-1 heading naming the recitals.
pub open spec fn names_recitals(c: MdNode) -> bool {
    is_top_heading(c) && regex_matches(RECITALS_PATTERN@, top_text(c))
}

/// A level-1 heading that opens an addendum.
pub open spec fn opens_addendum(c: MdNode) -> bool {
    &&& is_top_heading(c)
    &&& !regex_matches(RECITALS_PATTERN@, top_text(c))
    &&& regex_captures(ADDENDUM_PATTERN@, top_text(c)).len() > 0
}

/// Where the walk over the top-level children stands: whether the recitals
/// were opened, whether they are current, and whether an addendum is.
pub struct WalkState {
    pub has_recitals: bool,
    pub in_recitals: bool,
    pub in_addendum: bool,
}

/// The level-1 heading `c` closes the recitals and heads the body.
pub open spec fn heads_body(st: WalkState, c: MdNode) -> bool {
    &&& is_top_heading(c)
    &&& !regex_matches(RECITALS_PATTERN@, top_text(c))
    &&& !opens_addendum(c)
    &&& st.in_recitals
}

/// One step of the walk: a recitals heading opens the recitals (the first
/// time), an addendum heading opens an addendum and leaves the recitals,
/// another level-1 heading inside the recitals closes them.
pub open spec fn walk_step(st: WalkState, c: MdNode) -> WalkState {
    if names_recitals(c) {
        if st.has_recitals {
            st
        } else {
            WalkState { has_recitals: true, in_recitals: true, in_addendum: st.in_addendum }
        }
    } else if opens_addendum(c) {
        WalkState { has_recitals: st.has_recitals, in_recitals: false, in_addendum: true }
    } else if heads_body(st, c) {
        WalkState { has_recitals: st.has_recitals, in_recitals: false, in_addendum: st.in_addendum }
    } else {
        st
    }
}

/// The state after walking the children `cs`.
pub open spec fn walk(cs: Seq<MdNode>) -> WalkState
    decreases cs.len(),
{
    if cs.len() == 0 {
        WalkState { has_recitals: false, in_recitals: false, in_addendum: false }
    } else {
        walk_step(walk(cs.drop_last()), cs.last())
    }
}

/// The text of the heading that opened the recitals.
pub open spec fn recitals_heading_of(cs: Seq<MdNode>) -> Option<Seq<char>>
    decreases cs.len(),
{
    if cs.len() == 0 {
        None
    } else if recitals_heading_of(cs.drop_last()) is Some {
        recitals_heading_of(cs.drop_last())
    } else if names_recitals(cs.last()) {
        Some(top_text(cs.last()))
    } else {
        None
    }
}

/// The text of the heading that closed the recitals.
pub open spec fn body_heading_of(cs: Seq<MdNode>) -> Option<Seq<char>>
    decreases cs.len(),
{
    if cs.len() == 0 {
        None
    } else if heads_body(walk(cs.drop_last()), cs.last()) {
        Some(top_text(cs.last()))
    } else {
        body_heading_of(cs.drop_last())
    }
}

/// How many body elements a top-level child outside the addenda gives: a
/// paragraph with inline content one, an ordered list one per item, a
/// bullet list one, anything else none.
pub open spec fn top_count(c: MdNode) -> nat {
    match c.kind {
        MdKind::Paragraph => if inlines_of(c).len() > 0 {
            1nat
        } else {
            0nat
        },
        MdKind::List { ordered } => if ordered {
            items_of(c.children@).len()
        } else {
            1nat
        },
        _ => 0nat,
    }
}

/// The clauses wrapped in body elements.
pub open spec fn clauses_of(p: Seq<BodyElement>) -> Seq<Clause> {
    p.map_values(|e: BodyElement| e->Clause_0)
}

/// `p` are the body elements read from the top-level child `c`: prose, the
/// top-level clauses of an ordered list, or a bullet list.
pub open spec fn top_pieces_read(p: Seq<BodyElement>, c: MdNode, line_offset: usize) -> bool {
    match c.kind {
        MdKind::Paragraph => {
            &&& p.len() == top_count(c)
            &&& p.len() > 0 ==> (p[0] matches BodyElement::Prose(v) && inlines_view(v@) == inlines_of(c))
        },
        MdKind::List { ordered } => if ordered {
            &&& forall|k: int| 0 <= k < p.len() ==> (#[trigger] p[k]) is Clause
            &&& list_read(clauses_of(p), c.children@, ClauseLevel::TopLevel, line_offset)
        } else {
            &&& p.len() == 1
            &&& p[0] matches BodyElement::BulletList(items)
            &&& runs_view(p[0]->BulletList_0@) == list_paragraphs(c.children@)
        },
        _ => p.len() == 0,
    }
}

/// The child is read into the recitals (`recitals`) or the body (otherwise)
/// when it comes in state `st`.
pub open spec fn in_section(st: WalkState, recitals: bool) -> bool {
    !st.in_addendum && st.in_recitals == recitals
}

/// `b` are the elements the children `cs` give the recitals (`recitals`) or
/// the body: each child read while that section is current, in order.
pub open spec fn elements_read(b: Seq<BodyElement>, cs: Seq<MdNode>, recitals: bool, line_offset: usize) -> bool
    decreases cs.len(),
{
    if cs.len() == 0 {
        b.len() == 0
    } else if in_section(walk(cs.drop_last()), recitals) {
        let n = top_count(cs.last());
        &&& n <= b.len()
        &&& elements_read(b.take(b.len() - n), cs.drop_last(), recitals, line_offset)
        &&& top_pieces_read(b.skip(b.len() - n), cs.last(), line_offset)
    } else {
        elements_read(b, cs.drop_last(), recitals, line_offset)
    }
}

/// The child adds a piece to the current addendum: a heading below level
/// 1, a list, a paragraph with inline content, or a table.
pub open spec fn adds_piece(c: MdNode) -> bool {
    match c.kind {
        MdKind::Heading(l) => l != 1,
        MdKind::List { .. } => true,
        MdKind::Paragraph => inlines_of(c).len() > 0,
        MdKind::Table => true,
        _ => false,
    }
}

/// `p` is the addendum content read from the child `c`.
pub open spec fn addendum_piece_read(p: AddendumContent, c: MdNode, line_offset: usize) -> bool {
    match c.kind {
        MdKind::Heading(l) => p matches AddendumContent::Heading(l2, v) && l2 == l && inlines_view(v@)
            == inlines_of(c),
        MdKind::List { ordered } => if !ordered {
            p matches AddendumContent::BulletList(items) && runs_view(items@) == list_paragraphs(
                c.children@,
            )
        } else if is_clause_list_spec(c) {
            p matches AddendumContent::ClauseList(cl) && list_read(
                cl@,
                c.children@,
                ClauseLevel::TopLevel,
                line_offset,
            )
        } else {
            p matches AddendumContent::NumberedList(items) && runs_view(items@) == list_paragraphs(
                c.children@,
            )
        },
        MdKind::Paragraph => p matches AddendumContent::Paragraph(v) && inlines_view(v@) == inlines_of(c),
        MdKind::Table => p matches AddendumContent::Table(t) && runs_view(t.headers@) == table_headers(
            c.children@,
        ) && rows_view(t.rows@) == table_body(c.children@),
        _ => false,
    }
}

/// The title an addendum heading gives: capture group 1 of the addendum
/// pattern, else nothing.
pub open spec fn addendum_title(c: MdNode) -> Seq<char> {
    let t = top_text(c);
    let caps = regex_captures(ADDENDUM_PATTERN@, t);
    if caps[0].len() > 1 && caps[0][1] is Some {
        let span = caps[0][1]->Some_0;
        t.subrange(span.0 as int, span.1 as int)
    } else {
        Seq::empty()
    }
}

/// What an addendum says of its heading: title, anchor and position.
pub type AddendumHead = (Seq<char>, Option<Seq<char>>, Option<SourcePos>);

/// The head an addendum heading gives.
pub open spec fn opener_head(c: MdNode, line_offset: usize) -> AddendumHead {
    (addendum_title(c), top_anchor(c), node_pos(c, line_offset))
}

/// The head of an addendum.
pub open spec fn head_of(a: Addendum) -> AddendumHead {
    (a.title@, opt_view(a.anchor), a.source_pos)
}

/// `heads` and `contents` are the addenda the children `cs` open, each with
/// the pieces read while it is current, in order.
pub open spec fn adds_read(
    heads: Seq<AddendumHead>,
    contents: Seq<Seq<AddendumContent>>,
    cs: Seq<MdNode>,
    line_offset: usize,
) -> bool
    decreases cs.len(),
{
    if cs.len() == 0 {
        heads.len() == 0 && contents.len() == 0
    } else if opens_addendum(cs.last()) {
        &&& heads.len() > 0
        &&& contents.len() == heads.len()
        &&& contents.last().len() == 0
        &&& heads.last() == opener_head(cs.last(), line_offset)
        &&& adds_read(heads.drop_last(), contents.drop_last(), cs.drop_last(), line_offset)
    } else if walk(cs.drop_last()).in_addendum && adds_piece(cs.last()) {
        let n = contents.len();
        &&& n > 0
        &&& contents.last().len() > 0
        &&& addendum_piece_read(contents.last().last(), cs.last(), line_offset)
        &&& adds_read(heads, contents.update(n - 1, contents.last().drop_last()), cs.drop_last(), line_offset)
    } else {
        adds_read(heads, contents, cs.drop_last(), line_offset)
    }
}

/// The heads and contents of a list of addenda.
pub open spec fn heads_of(s: Seq<Addendum>) -> Seq<AddendumHead> {
    s.map_values(|a: Addendum| head_of(a))
}

/// The contents of a list of addenda.
pub open spec fn contents_of(s: Seq<Addendum>) -> Seq<Seq<AddendumContent>> {
    s.map_values(|a: Addendum| a.content@)
}

/// What the body walk reads from the top-level children `cs` of the body's
/// syntax tree: the recitals (opened by the first recitals heading), the
/// body heading, the elements of the recitals and of the body, and the
/// addenda.
pub open spec fn body_read_from(
    recitals: Option<Recitals>,
    body_heading: Option<String>,
    body: Seq<BodyElement>,
    addenda: Seq<Addendum>,
    cs: Seq<MdNode>,
    line_offset: usize,
) -> bool {
    &&& match recitals {
        Some(rec) => recitals_heading_of(cs) == Some(rec.heading@) && elements_read(
            rec.body@,
            cs,
            true,
            line_offset,
        ),
        None => recitals_heading_of(cs) is None,
    }
    &&& opt_view(body_heading) == body_heading_of(cs)
    &&& elements_read(body, cs, false, line_offset)
    &&& adds_read(heads_of(addenda), contents_of(addenda), cs, line_offset)
}

// ---------------------------------------------------------------------------
// The walk
// ---------------------------------------------------------------------------

/// The state of the walk over the top-level children.
struct TopAcc {
    recitals: Option<Recitals>,
    in_recitals: bool,
    body_heading: Option<String>,
    body: Vec<BodyElement>,
    addenda: Vec<Addendum>,
    in_addendum: Option<Addendum>,
    addendum_counter: u32,
}

/// All addenda opened so far, the current one last.
spec fn all_addenda(acc: TopAcc) -> Seq<Addendum> {
    match acc.in_addendum {
        Some(a) => acc.addenda@.push(a),
        None => acc.addenda@,
    }
}

/// What holds of the walk's state after the children `cs`.
spec fn acc_fits(acc: TopAcc, cs: Seq<MdNode>, line_offset: usize) -> bool {
    &&& walk(cs) == WalkState {
        has_recitals: acc.recitals is Some,
        in_recitals: acc.in_recitals,
        in_addendum: acc.in_addendum is Some,
    }
    &&& acc.body_heading is Some ==> acc.recitals is Some
    &&& acc.in_recitals ==> acc.recitals is Some
    &&& acc.addendum_counter as int == if acc.in_addendum is Some {
        addendum_number(acc.addenda@.len() as int) as int
    } else if acc.addenda@.len() == 0 {
        0
    } else {
        addendum_number(acc.addenda@.len() - 1) as int
    }
    &&& acc.in_addendum matches Some(a) ==> a.number == addendum_number(acc.addenda@.len() as int)
    &&& forall|k: int|
        0 <= k < acc.addenda@.len() ==> (#[trigger] acc.addenda@[k]).number == addendum_number(k)
    &&& forall|k: int| 0 <= k < acc.body@.len() ==> top_level_element(#[trigger] acc.body@[k])
    &&& acc.recitals matches Some(rec) ==> forall|k: int|
        0 <= k < rec.body@.len() ==> top_level_element(#[trigger] rec.body@[k])
    &&& match acc.recitals {
        Some(rec) => recitals_heading_of(cs) == Some(rec.heading@) && elements_read(
            rec.body@,
            cs,
            true,
            line_offset,
        ),
        None => recitals_heading_of(cs) is None && elements_read(Seq::empty(), cs, true, line_offset),
    }
    &&& opt_view(acc.body_heading) == body_heading_of(cs)
    &&& elements_read(acc.body@, cs, false, line_offset)
    &&& adds_read(heads_of(all_addenda(acc)), contents_of(all_addenda(acc)), cs, line_offset)
}

/// Reading `c` adds `added` to the elements of the current section.
proof fn lemma_elements_step(
    b: Seq<BodyElement>,
    added: Seq<BodyElement>,
    cs: Seq<MdNode>,
    c: MdNode,
    recitals: bool,
    line_offset: usize,
)
    requires
        elements_read(b, cs, recitals, line_offset),
        in_section(walk(cs), recitals),
        added.len() == top_count(c),
        top_pieces_read(added, c, line_offset),
    ensures
        elements_read(b + added, cs.push(c), recitals, line_offset),
{
    let cs2 = cs.push(c);
    assert(cs2.drop_last() =~= cs);
    assert((b + added).take(b.len() as int) =~= b);
    assert((b + added).skip(b.len() as int) =~= added);
}

/// A child read outside the section leaves its elements as they are.
proof fn lemma_elements_other(b: Seq<BodyElement>, cs: Seq<MdNode>, c: MdNode, recitals: bool, line_offset: usize)
    requires
        elements_read(b, cs, recitals, line_offset),
        !in_section(walk(cs), recitals) || (top_count(c) == 0 && top_pieces_read(Seq::empty(), c, line_offset)),
    ensures
        elements_read(b, cs.push(c), recitals, line_offset),
{
    let cs2 = cs.push(c);
    assert(cs2.drop_last() =~= cs);
    assert(b.take(b.len() as int) =~= b);
    assert(b.skip(b.len() as int) =~= Seq::<BodyElement>::empty());
}

/// A child that neither opens an addendum nor adds to the current one
/// leaves the addenda as they are.
proof fn lemma_adds_other(
    heads: Seq<AddendumHead>,
    contents: Seq<Seq<AddendumContent>>,
    cs: Seq<MdNode>,
    c: MdNode,
    line_offset: usize,
)
    requires
        adds_read(heads, contents, cs, line_offset),
        !opens_addendum(c),
        !(walk(cs).in_addendum && adds_piece(c)),
    ensures
        adds_read(heads, contents, cs.push(c), line_offset),
{
    assert(cs.push(c).drop_last() =~= cs);
}

/// Reading `c` into the current addendum `a` adds `p` to its content.
proof fn lemma_adds_piece(closed: Seq<Addendum>, a: Addendum, a2: Addendum, p: AddendumContent, cs: Seq<MdNode>, c: MdNode, line_offset: usize)
    requires
        adds_read(heads_of(closed.push(a)), contents_of(closed.push(a)), cs, line_offset),
        walk(cs).in_addendum,
        !opens_addendum(c),
        adds_piece(c),
        addendum_piece_read(p, c, line_offset),
        head_of(a2) == head_of(a),
        a2.content@ == a.content@.push(p),
    ensures
        adds_read(heads_of(closed.push(a2)), contents_of(closed.push(a2)), cs.push(c), line_offset),
{
    let cs2 = cs.push(c);
    assert(cs2.drop_last() =~= cs);
    let n = closed.len() + 1;
    assert(heads_of(closed.push(a2)) =~= heads_of(closed.push(a)));
    let c2 = contents_of(closed.push(a2));
    assert(c2.last() == a.content@.push(p));
    assert(a.content@.push(p).drop_last() =~= a.content@);
    assert(c2.update(n - 1, c2.last().drop_last()) =~= contents_of(closed.push(a)));
}

/// Push the top-level clauses of an ordered list onto a body.
fn push_clauses(out: &mut Vec<BodyElement>, clauses: Vec<Clause>)
    requires
        forall|k: int| 0 <= k < old(out)@.len() ==> top_level_element(#[trigger] old(out)@[k]),
        forall|k: int|
            0 <= k < clauses@.len() ==> (#[trigger] clauses@[k]).level == ClauseLevel::TopLevel
                && clauses@[k].number is None,
    ensures
        forall|k: int| 0 <= k < final(out)@.len() ==> top_level_element(#[trigger] final(out)@[k]),
        final(out)@ == old(out)@ + clauses@.map_values(|c: Clause| BodyElement::Clause(c)),
{
    let ghost all = clauses@;
    let total = clauses.len();
    let mut clauses = clauses;
    let mut n: usize = 0;
    while clauses.len() > 0
        invariant
            all.len() == total,
            forall|k: int| 0 <= k < out@.len() ==> top_level_element(#[trigger] out@[k]),
            forall|k: int|
                0 <= k < clauses@.len() ==> (#[trigger] clauses@[k]).level == ClauseLevel::TopLevel
                    && clauses@[k].number is None,
            n <= all.len(),
            clauses@ == all.skip(n as int),
            out@ == old(out)@ + all.take(n as int).map_values(|c: Clause| BodyElement::Clause(c)),
        decreases clauses@.len(),
    {
        let ghost before = out@;
        let c = clauses.remove(0);
        proof {
            assert(c == all[n as int]);
            assert(clauses@ =~= all.skip(n + 1));
        }
        out.push(BodyElement::Clause(c));
        proof {
            assert(all.take(n + 1).map_values(|c: Clause| BodyElement::Clause(c)) =~= all.take(
                n as int,
            ).map_values(|c: Clause| BodyElement::Clause(c)).push(BodyElement::Clause(c)));
            assert(out@ =~= old(out)@ + all.take(n + 1).map_values(|c: Clause| BodyElement::Clause(c)));
        }
        n += 1;
    }
    proof {
        assert(all.take(n as int) =~= all);
    }
}

/// Where a diagnostic at the top level is: an addendum, the recitals or the
/// document body.
fn top_location(in_addendum: bool, in_recitals: bool) -> (r: String)
    ensures
        r@ == (if in_addendum {
            "addendum content"@
        } else if in_recitals {
            "recitals"@
        } else {
            "document body"@
        }),
{
    if in_addendum {
        string_of(&chars_of("addendum content"))
    } else if in_recitals {
        string_of(&chars_of("recitals"))
    } else {
        string_of(&chars_of("document body"))
    }
}

fn located_warning(
    code: &'static str,
    message: &str,
    location: &str,
    pos: Option<SourcePos>,
) -> (d: Diagnostic)
    ensures
        d.code == code,
{
    Diagnostic::warning(code, string_of(&chars_of(message))).at(string_of(&chars_of(location))).at_pos(
        pos,
    )
}

/// A child that changes nothing the walk reads leaves its state fitting.
proof fn lemma_fits_unchanged(acc: TopAcc, cs: Seq<MdNode>, c: MdNode, line_offset: usize)
    requires
        acc_fits(acc, cs, line_offset),
        walk_step(walk(cs), c) == walk(cs),
        !names_recitals(c) || walk(cs).has_recitals,
        !heads_body(walk(cs), c),
        !opens_addendum(c),
        !(walk(cs).in_addendum && adds_piece(c)),
        walk(cs).in_addendum || (top_count(c) == 0 && top_pieces_read(Seq::empty(), c, line_offset)),
    ensures
        acc_fits(acc, cs.push(c), line_offset),
{
    let cs2 = cs.push(c);
    assert(cs2.drop_last() =~= cs);
    match acc.recitals {
        Some(rec) => lemma_elements_other(rec.body@, cs, c, true, line_offset),
        None => lemma_elements_other(Seq::empty(), cs, c, true, line_offset),
    }
    lemma_elements_other(acc.body@, cs, c, false, line_offset);
    lemma_adds_other(heads_of(all_addenda(acc)), contents_of(all_addenda(acc)), cs, c, line_offset);
}

/// Add the elements read from the child `c` to the current section.
fn add_elements(acc: &mut TopAcc, items: Vec<BodyElement>, Ghost(cs): Ghost<Seq<MdNode>>, Ghost(c): Ghost<MdNode>, line_offset: usize)
    requires
        acc_fits(*old(acc), cs, line_offset),
        old(acc).in_addendum is None,
        !is_top_heading(c),
        !(c.kind is Heading),
        items@.len() == top_count(c),
        top_pieces_read(items@, c, line_offset),
        forall|k: int| 0 <= k < items@.len() ==> top_level_element(#[trigger] items@[k]),
    ensures
        acc_fits(*final(acc), cs.push(c), line_offset),
{
    let ghost a0 = *acc;
    let ghost cs2 = cs.push(c);
    proof {
        assert(cs2.drop_last() =~= cs);
        assert(walk(cs2) == walk(cs));
        lemma_adds_other(heads_of(all_addenda(a0)), contents_of(all_addenda(a0)), cs, c, line_offset);
    }
    let ghost added = items@;
    let mut items = items;
    if acc.in_recitals {
        let mut rec: Option<Recitals> = None;
        std::mem::swap(&mut rec, &mut acc.recitals);
        match rec {
            Some(r) => {
                let mut r = r;
                let ghost b0 = r.body@;
                r.body.append(&mut items);
                proof {
                    lemma_elements_step(b0, added, cs, c, true, line_offset);
                    lemma_elements_other(a0.body@, cs, c, false, line_offset);
                    assert forall|k: int| 0 <= k < r.body@.len() implies top_level_element(#[trigger] r.body@[k]) by {
                        if k < b0.len() {
                            assert(r.body@[k] == b0[k]);
                        } else {
                            assert(r.body@[k] == added[k - b0.len()]);
                        }
                    }
                }
                acc.recitals = Some(r);
            },
            None => {},
        }
    } else {
        let ghost b0 = acc.body@;
        acc.body.append(&mut items);
        proof {
            lemma_elements_step(b0, added, cs, c, false, line_offset);
            match a0.recitals {
                Some(rec) => lemma_elements_other(rec.body@, cs, c, true, line_offset),
                None => lemma_elements_other(Seq::empty(), cs, c, true, line_offset),
            }
            assert forall|k: int| 0 <= k < acc.body@.len() implies top_level_element(#[trigger] acc.body@[k]) by {
                if k < b0.len() {
                    assert(acc.body@[k] == b0[k]);
                } else {
                    assert(acc.body@[k] == added[k - b0.len()]);
                }
            }
        }
    }
}

/// Add the content read from the child `c` to the current addendum.
fn add_to_addendum(acc: &mut TopAcc, p: AddendumContent, Ghost(cs): Ghost<Seq<MdNode>>, Ghost(c): Ghost<MdNode>, line_offset: usize)
    requires
        acc_fits(*old(acc), cs, line_offset),
        old(acc).in_addendum is Some,
        !is_top_heading(c),
        adds_piece(c),
        addendum_piece_read(p, c, line_offset),
    ensures
        acc_fits(*final(acc), cs.push(c), line_offset),
{
    let ghost a0 = *acc;
    let ghost cs2 = cs.push(c);
    proof {
        assert(cs2.drop_last() =~= cs);
        assert(walk(cs2) == walk(cs));
        assert(!in_section(walk(cs), true) && !in_section(walk(cs), false));
        match a0.recitals {
            Some(rec) => lemma_elements_other(rec.body@, cs, c, true, line_offset),
            None => lemma_elements_other(Seq::empty(), cs, c, true, line_offset),
        }
        lemma_elements_other(a0.body@, cs, c, false, line_offset);
    }
    let mut open: Option<Addendum> = None;
    std::mem::swap(&mut open, &mut acc.in_addendum);
    match open {
        Some(a) => {
            let ghost old_a = a;
            let mut a = a;
            a.content.push(p);
            proof {
                lemma_adds_piece(a0.addenda@, old_a, a, p, cs, c, line_offset);
            }
            acc.in_addendum = Some(a);
        },
        None => {},
    }
}

/// Read a level-1 heading: it opens the recitals or an addendum, or heads
/// the body; any other is reported.
fn read_top_heading(
    acc: &mut TopAcc,
    child: &MdNode,
    diagnostics: &mut Vec<Diagnostic>,
    line_offset: usize,
    Ghost(cs): Ghost<Seq<MdNode>>,
)
    requires
        acc_fits(*old(acc), cs, line_offset),
        is_top_heading(*child),
    ensures
        acc_fits(*final(acc), cs.push(*child), line_offset),
        extends(old(diagnostics)@, final(diagnostics)@),
{
    let ghost a0 = *acc;
    let ghost c = *child;
    let ghost cs2 = cs.push(c);
    let ghost w = walk(cs);
    proof {
        assert(cs2.drop_last() =~= cs);
        assert(cs2.last() == c);
        assert(walk(cs2) == walk_step(w, c));
        assert(top_count(c) == 0 && top_pieces_read(Seq::empty(), c, line_offset));
        assert(!adds_piece(c));
        assert(diagnostics@.take(diagnostics@.len() as int) =~= diagnostics@);
    }
    let raw_heading = string_of(&collect_plain_text(child));
    let (heading_text, heading_anchor) = strip_anchor(raw_heading.as_str());
    let ghost before = diagnostics@;
    if regex_is_match(RECITALS_PATTERN, heading_text.as_str()) {
        if acc.recitals.is_some() {
            diagnostics.push(
                located_warning(
                    "duplicate-recitals",
                    "Duplicate recitals/background heading. Only one recitals section is allowed.",
                    "document body",
                    node_position(child, line_offset),
                ),
            );
            proof {
                assert(diagnostics@.take(before.len() as int) =~= before);
                lemma_fits_unchanged(a0, cs, c, line_offset);
            }
        } else {
            acc.in_recitals = true;
            acc.recitals = Some(Recitals { heading: heading_text, body: Vec::new() });
            proof {
                lemma_elements_other(Seq::empty(), cs, c, true, line_offset);
                lemma_elements_other(a0.body@, cs, c, false, line_offset);
                lemma_adds_other(heads_of(all_addenda(a0)), contents_of(all_addenda(a0)), cs, c, line_offset);
                assert(recitals_heading_of(cs2) == Some(top_text(c)));
                assert(acc.recitals->Some_0.body@ =~= Seq::<BodyElement>::empty());
            }
        }
    } else {
        let caps = regex_captures_all(ADDENDUM_PATTERN, heading_text.as_str());
        proof {
            assert(caps@.len() == regex_captures(ADDENDUM_PATTERN@, heading_text@).len());
        }
        if caps.len() > 0 {
            acc.in_recitals = false;
            let mut open: Option<Addendum> = None;
            std::mem::swap(&mut open, &mut acc.in_addendum);
            match open {
                Some(add) => acc.addenda.push(add),
                None => {},
            }
            if acc.addendum_counter < u32::MAX {
                acc.addendum_counter += 1;
            }
            let chars = chars_of(heading_text.as_str());
            let mut title = String::new();
            proof {
                assert(caps@.map_values(|m: Vec<Option<(usize, usize)>>| m@)[0] == caps@[0]@);
            }
            if caps[0].len() > 1 {
                match caps[0][1] {
                    Some(span) => {
                        proof {
                            assert(caps@[0]@[1] == Some(span));
                        }
                        title = string_of(&slice_chars(&chars, span.0, span.1));
                    },
                    None => {},
                }
            }
            let add = Addendum {
                number: acc.addendum_counter,
                title,
                anchor: heading_anchor,
                source_pos: node_position(child, line_offset),
                content: Vec::new(),
            };
            proof {
                assert(head_of(add) == opener_head(c, line_offset));
                assert(all_addenda(a0) =~= acc.addenda@);
            }
            acc.in_addendum = Some(add);
            proof {
                lemma_elements_other(a0.body@, cs, c, false, line_offset);
                match a0.recitals {
                    Some(rec) => lemma_elements_other(rec.body@, cs, c, true, line_offset),
                    None => lemma_elements_other(Seq::empty(), cs, c, true, line_offset),
                }
                let all2 = all_addenda(*acc);
                assert(all2 =~= all_addenda(a0).push(add));
                assert(heads_of(all2).drop_last() =~= heads_of(all_addenda(a0)));
                assert(contents_of(all2).drop_last() =~= contents_of(all_addenda(a0)));
                assert(add.content@.len() == 0);
                assert(adds_read(heads_of(all2), contents_of(all2), cs2, line_offset));
                assert forall|k: int| 0 <= k < acc.addenda@.len() implies (#[trigger] acc.addenda@[k]).number
                    == addendum_number(k) by {
                    if k < a0.addenda@.len() {
                        assert(acc.addenda@[k] == a0.addenda@[k]);
                    }
                }
            }
        } else if acc.in_recitals {
            acc.in_recitals = false;
            acc.body_heading = Some(heading_text);
            proof {
                assert(heads_body(w, c));
                lemma_elements_other(a0.body@, cs, c, false, line_offset);
                match a0.recitals {
                    Some(rec) => lemma_elements_other(rec.body@, cs, c, true, line_offset),
                    None => lemma_elements_other(Seq::empty(), cs, c, true, line_offset),
                }
                lemma_adds_other(heads_of(all_addenda(a0)), contents_of(all_addenda(a0)), cs, c, line_offset);
            }
        } else if acc.recitals.is_none() {
            let mut msg: Vec<char> = Vec::new();
            extend_str(&mut msg, "Unrecognised top-level heading '# ");
            extend_str(&mut msg, heading_text.as_str());
            extend_str(
                &mut msg,
                "'. Top-level headings must be 'RECITALS', 'BACKGROUND', or begin with 'ADDENDUM'.",
            );
            diagnostics.push(
                Diagnostic::warning("unknown-top-heading", string_of(&msg)).at(
                    string_of(&chars_of("document body")),
                ).at_pos(node_position(child, line_offset)),
            );
            proof {
                assert(diagnostics@.take(before.len() as int) =~= before);
                lemma_fits_unchanged(a0, cs, c, line_offset);
            }
        } else {
            let mut msg: Vec<char> = Vec::new();
            extend_str(&mut msg, "Unexpected top-level heading '# ");
            extend_str(&mut msg, heading_text.as_str());
            extend_str(&mut msg, "' after body section.");
            diagnostics.push(
                Diagnostic::warning("heading-after-body", string_of(&msg)).at(
                    string_of(&chars_of("document body")),
                ).at_pos(node_position(child, line_offset)),
            );
            proof {
                assert(diagnostics@.take(before.len() as int) =~= before);
                lemma_fits_unchanged(a0, cs, c, line_offset);
            }
        }
    }
}

/// Read one top-level child of the body into the walk's state.
fn read_top_child(
    acc: &mut TopAcc,
    child: &MdNode,
    diagnostics: &mut Vec<Diagnostic>,
    line_offset: usize,
    Ghost(cs): Ghost<Seq<MdNode>>,
)
    requires
        acc_fits(*old(acc), cs, line_offset),
    ensures
        acc_fits(*final(acc), cs.push(*child), line_offset),
        extends(old(diagnostics)@, final(diagnostics)@),
{
    let ghost a0 = *acc;
    let ghost c = *child;
    let ghost cs2 = cs.push(c);
    proof {
        assert(cs2.drop_last() =~= cs);
        assert(diagnostics@.take(diagnostics@.len() as int) =~= diagnostics@);
    }
    let ghost before = diagnostics@;
    match &child.kind {
        MdKind::Heading(level) => {
            if *level == 1 {
                read_top_heading(acc, child, diagnostics, line_offset, Ghost(cs));
            } else if acc.in_addendum.is_some() {
                let inlines = extract_inlines(child);
                add_to_addendum(acc, AddendumContent::Heading(*level, inlines), Ghost(cs), Ghost(c), line_offset);
            } else {
                proof {
                    lemma_fits_unchanged(a0, cs, c, line_offset);
                }
            }
        },
        MdKind::List { ordered: true } => {
            if acc.in_addendum.is_some() {
                if is_clause_list(child) {
                    let clauses = extract_clauses_from_list(
                        child,
                        ClauseLevel::TopLevel,
                        diagnostics,
                        line_offset,
                    );
                    add_to_addendum(acc, AddendumContent::ClauseList(clauses), Ghost(cs), Ghost(c), line_offset);
                } else {
                    let items = extract_bullet_list(child);
                    add_to_addendum(acc, AddendumContent::NumberedList(items), Ghost(cs), Ghost(c), line_offset);
                }
            } else {
                let clauses = extract_clauses_from_list(
                    child,
                    ClauseLevel::TopLevel,
                    diagnostics,
                    line_offset,
                );
                let mut items: Vec<BodyElement> = Vec::new();
                push_clauses(&mut items, clauses);
                proof {
                    assert(clauses_of(items@) =~= clauses@);
                }
                add_elements(acc, items, Ghost(cs), Ghost(c), line_offset);
            }
        },
        MdKind::Paragraph => {
            let inlines = extract_inlines(child);
            if inlines.len() > 0 {
                if acc.in_addendum.is_some() {
                    add_to_addendum(acc, AddendumContent::Paragraph(inlines), Ghost(cs), Ghost(c), line_offset);
                } else {
                    let mut items: Vec<BodyElement> = Vec::new();
                    items.push(BodyElement::Prose(inlines));
                    add_elements(acc, items, Ghost(cs), Ghost(c), line_offset);
                }
            } else {
                proof {
                    lemma_fits_unchanged(a0, cs, c, line_offset);
                }
            }
        },
        MdKind::Table => {
            let table = extract_table(child);
            if acc.in_addendum.is_some() {
                add_to_addendum(acc, AddendumContent::Table(table), Ghost(cs), Ghost(c), line_offset);
            } else {
                proof {
                    lemma_fits_unchanged(a0, cs, c, line_offset);
                }
            }
        },
        MdKind::List { ordered: false } => {
            let items = extract_bullet_list(child);
            if acc.in_addendum.is_some() {
                add_to_addendum(acc, AddendumContent::BulletList(items), Ghost(cs), Ghost(c), line_offset);
            } else {
                let location = if acc.in_recitals {
                    "recitals"
                } else {
                    "document body"
                };
                let message = if acc.in_recitals {
                    "Bullet point in recitals \u{2014} bullets are not part of the structured outline and will not be numbered."
                } else {
                    "Bullet point at top level of document body \u{2014} bullets are not part of the structured outline and will not be numbered."
                };
                diagnostics.push(
                    located_warning(
                        "bullet-outside-clause",
                        message,
                        location,
                        node_position(child, line_offset),
                    ),
                );
                proof {
                    assert(diagnostics@.take(before.len() as int) =~= before);
                }
                let mut elems: Vec<BodyElement> = Vec::new();
                elems.push(BodyElement::BulletList(items));
                add_elements(acc, elems, Ghost(cs), Ghost(c), line_offset);
            }
        },
        MdKind::CodeBlock { fenced: false } => {
            let location = top_location(acc.in_addendum.is_some(), acc.in_recitals);
            report_indented_code(child, None, location, diagnostics, line_offset);
            proof {
                assert(diagnostics@.take(before.len() as int) =~= before);
                lemma_fits_unchanged(a0, cs, c, line_offset);
            }
        },
        _ => {
            let location = top_location(acc.in_addendum.is_some(), acc.in_recitals);
            report_unsupported_block(child, location, diagnostics, line_offset);
            proof {
                assert(diagnostics@.take(before.len() as int) =~= before);
                lemma_fits_unchanged(a0, cs, c, line_offset);
            }
        },
    }
    proof {
        lemma_extends_trans(old(diagnostics)@, before, diagnostics@);
    }
}

/// Walk the document body's syntax tree and read out the recitals, the
/// body heading, the body (clauses, prose and bullet lists) and the
/// addenda. `line_offset` is the number of source lines before the body.
pub fn extract_body(root: &MdNode, line_offset: usize) -> (r: ExtractBodyResult)
    ensures
        body_fits(r),
        body_read_from(r.0, r.1, r.2@, r.3@, root.children@, line_offset),
{
    let mut acc = TopAcc {
        recitals: None,
        in_recitals: false,
        body_heading: None,
        body: Vec::new(),
        addenda: Vec::new(),
        in_addendum: None,
        addendum_counter: 0,
    };
    let mut diagnostics: Vec<Diagnostic> = Vec::new();
    let mut i: usize = 0;
    proof {
        assert(root.children@.take(0) =~= Seq::<MdNode>::empty());
        assert(all_addenda(acc) =~= Seq::<Addendum>::empty());
        assert(heads_of(all_addenda(acc)) =~= Seq::<AddendumHead>::empty());
        assert(contents_of(all_addenda(acc)) =~= Seq::<Seq<AddendumContent>>::empty());
    }
    while i < root.children.len()
        invariant
            i <= root.children@.len(),
            acc_fits(acc, root.children@.take(i as int), line_offset),
        decreases root.children@.len() - i,
    {
        let child = &root.children[i];
        proof {
            assert(root.children@.take(i + 1) =~= root.children@.take(i as int).push(*child));
        }
        read_top_child(&mut acc, child, &mut diagnostics, line_offset, Ghost(root.children@.take(i as int)));
        i += 1;
    }
    proof {
        assert(root.children@.take(root.children@.len() as int) =~= root.children@);
    }
    let ghost all = all_addenda(acc);
    let mut addenda = acc.addenda;
    match acc.in_addendum {
        Some(add) => addenda.push(add),
        None => {},
    }
    proof {
        assert(addenda@ =~= all);
    }
    let recitals = acc.recitals;
    let body_heading = acc.body_heading;
    if recitals.is_some() && body_heading.is_none() {
        diagnostics.push(
            located_warning(
                "missing-body-heading",
                "Recitals section present but no body heading found. Add a top-level heading (e.g. '# Operative Provisions') before the contract clauses.",
                "document body",
                None,
            ),
        );
    }
    (recitals, body_heading, acc.body, addenda, diagnostics)
}

} // verus!
