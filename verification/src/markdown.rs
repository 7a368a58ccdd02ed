//! CommonMark syntax trees, parsed by `comrak`.
//!
//! `comrak` parses the document body; its tree is read out as a sequence of
//! open/close events over [`MdKind`], the node attributes the document logic
//! reads, and rebuilt here into an [`MdNode`] tree.
use vstd::prelude::*;

use comrak::arena_tree::NodeEdge;
use comrak::nodes::{ListType, NodeValue, NodeValue as V};

verus! {

/// The kind of a CommonMark node, with the attributes that the document
/// logic reads.
#[derive(Debug)]
pub enum MdKind {
    Document,
    Heading(u8),
    List { ordered: bool },
    /// A list item: the ordinal written in the source and the width of the
    /// marker plus the spaces after it.
    Item { start: usize, padding: usize },
    Paragraph,
    Text(String),
    Strong,
    Emph,
    Link(String),
    SoftBreak,
    LineBreak,
    Code(String),
    Superscript,
    BlockQuote,
    Table,
    TableRow(bool),
    TableCell,
    CodeBlock { fenced: bool },
    HtmlBlock,
    ThematicBreak,
    FootnoteDefinition,
    DescriptionList,
    Other,
}

/// One step of a depth-first walk of the syntax tree.
#[derive(Debug)]
pub enum MdEvent {
    /// A node starts: its kind, 1-based start line and column, and last line.
    Open { kind: MdKind, line: usize, column: usize, end_line: usize },
    /// The most recently opened node ends.
    Close,
}

/// `comrak`'s node value type, carried through opaquely.
#[verifier::external_type_specification]
#[verifier::external_body]
pub struct ExNodeValue(comrak::nodes::NodeValue);

/// A node start as `comrak` reports it: the node's value and its 1-based
/// start line, start column and end line.
pub struct RawNode {
    pub value: NodeValue,
    pub line: usize,
    pub column: usize,
    pub end_line: usize,
}

/// The [`MdKind`] of a `comrak` node value: the variant of the same name,
/// with the attributes [`MdKind`] keeps; `Other` for every other variant.
pub uninterp spec fn node_kind(v: NodeValue) -> MdKind;

/// The walk of the syntax tree `comrak` builds for a document body (tables
/// and superscript enabled), each node reduced to its [`MdKind`].
pub uninterp spec fn markdown_events(text: Seq<char>) -> Seq<MdEvent>;

/// The events of a raw walk: `Some` opens a node, `None` closes one.
pub open spec fn raw_events(raw: Seq<Option<RawNode>>) -> Seq<MdEvent> {
    raw.map_values(
        |e: Option<RawNode>|
            match e {
                Some(n) => MdEvent::Open {
                    kind: node_kind(n.value),
                    line: n.line,
                    column: n.column,
                    end_line: n.end_line,
                },
                None => MdEvent::Close,
            },
    )
}

/// Parse `text` with `comrak::parse_document` (tables and superscript on)
/// and walk the tree with `traverse()`: `Some` for each node start, `None`
/// for each node end. Claimed: reduced to kinds, this is
/// [`markdown_events`] of the text, and as `traverse` opens each node before
/// its descendants and closes it after them, it is the walk of a tree.
#[verifier::external_body]
fn parse_markdown_raw(text: &str) -> (r: Vec<Option<RawNode>>)
    ensures
        raw_events(r@) == markdown_events(text@),
        is_walk(raw_events(r@)),
{
    let arena = comrak::Arena::new();
    let mut opts = comrak::Options::default();
    opts.extension.table = true;
    opts.extension.superscript = true;
    let root = comrak::parse_document(&arena, text, &opts);
    root.traverse().map(|edge| match edge {
        NodeEdge::Start(n) => {
            let d = n.data.borrow();
            let (start, end) = (d.sourcepos.start, d.sourcepos.end);
            Some(RawNode { value: d.value.clone(), line: start.line, column: start.column, end_line: end.line })
        },
        NodeEdge::End(_) => None,
    }).collect()
}

/// The kinds [`block_kind`] reads.
pub open spec fn is_block_kind(k: MdKind) -> bool {
    ||| k is Document
    ||| k is Heading
    ||| k is List
    ||| k is Item
    ||| k is Paragraph
    ||| k is BlockQuote
    ||| k is CodeBlock
}

/// The kinds [`leaf_block_kind`] reads.
pub open spec fn is_leaf_block_kind(k: MdKind) -> bool {
    ||| k is Table
    ||| k is TableRow
    ||| k is TableCell
    ||| k is HtmlBlock
    ||| k is ThematicBreak
    ||| k is FootnoteDefinition
    ||| k is DescriptionList
}

/// The kinds [`inline_kind`] reads.
pub open spec fn is_inline_kind(k: MdKind) -> bool {
    ||| k is Text
    ||| k is Strong
    ||| k is Emph
    ||| k is Link
    ||| k is SoftBreak
    ||| k is LineBreak
    ||| k is Code
    ||| k is Superscript
}

/// Tell apart `comrak`'s container and paragraph-like block variants.
#[verifier::external_body]
fn block_kind(v: &NodeValue) -> (r: Option<MdKind>)
    ensures
        r matches Some(k) ==> k == node_kind(*v) && is_block_kind(k),
        r is None ==> !is_block_kind(node_kind(*v)),
{
    match v {
        V::Document => Some(MdKind::Document),
        V::Heading(h) => Some(MdKind::Heading(h.level)),
        V::List(l) => Some(MdKind::List { ordered: matches!(l.list_type, ListType::Ordered) }),
        V::Item(l) => Some(MdKind::Item { start: l.start, padding: l.padding }),
        V::Paragraph => Some(MdKind::Paragraph),
        V::BlockQuote => Some(MdKind::BlockQuote),
        V::CodeBlock(c) => Some(MdKind::CodeBlock { fenced: c.fenced }),
        _ => None,
    }
}

/// Tell apart `comrak`'s table and other leaf block variants.
#[verifier::external_body]
fn leaf_block_kind(v: &NodeValue) -> (r: Option<MdKind>)
    ensures
        r matches Some(k) ==> k == node_kind(*v) && is_leaf_block_kind(k),
        r is None ==> !is_leaf_block_kind(node_kind(*v)),
{
    match v {
        V::Table(_) => Some(MdKind::Table),
        V::TableRow(header) => Some(MdKind::TableRow(*header)),
        V::TableCell => Some(MdKind::TableCell),
        V::HtmlBlock(_) => Some(MdKind::HtmlBlock),
        V::ThematicBreak => Some(MdKind::ThematicBreak),
        V::FootnoteDefinition(_) => Some(MdKind::FootnoteDefinition),
        V::DescriptionList => Some(MdKind::DescriptionList),
        _ => None,
    }
}

/// Tell apart `comrak`'s inline variants.
#[verifier::external_body]
fn inline_kind(v: &NodeValue) -> (r: Option<MdKind>)
    ensures
        r matches Some(k) ==> k == node_kind(*v) && is_inline_kind(k),
        r is None ==> !is_inline_kind(node_kind(*v)),
{
    match v {
        V::Text(t) => Some(MdKind::Text(t.to_string())),
        V::Strong => Some(MdKind::Strong),
        V::Emph => Some(MdKind::Emph),
        V::Link(l) => Some(MdKind::Link(l.url.clone())),
        V::SoftBreak => Some(MdKind::SoftBreak),
        V::LineBreak => Some(MdKind::LineBreak),
        V::Code(c) => Some(MdKind::Code(c.literal.clone())),
        V::Superscript => Some(MdKind::Superscript),
        _ => None,
    }
}

/// The [`MdKind`] of a node value.
fn kind_of(v: &NodeValue) -> (k: MdKind)
    ensures
        k == node_kind(*v),
{
    match block_kind(v) {
        Some(k) => k,
        None => match leaf_block_kind(v) {
            Some(k) => k,
            None => match inline_kind(v) {
                Some(k) => k,
                None => MdKind::Other,
            },
        },
    }
}

/// The events of a document body's syntax tree.
pub fn parse_markdown_events(text: &str) -> (r: Vec<MdEvent>)
    ensures
        r@ == markdown_events(text@),
        is_walk(r@),
{
    let raw = parse_markdown_raw(text);
    let mut out: Vec<MdEvent> = Vec::new();
    let mut i: usize = 0;
    while i < raw.len()
        invariant
            i <= raw@.len(),
            out@ == raw_events(raw@.take(i as int)),
        decreases raw@.len() - i,
    {
        let ev = match &raw[i] {
            Some(n) => MdEvent::Open { kind: kind_of(&n.value), line: n.line, column: n.column, end_line: n.end_line },
            None => MdEvent::Close,
        };
        out.push(ev);
        i += 1;
        proof {
            assert(out@ =~= raw_events(raw@.take(i as int)));
        }
    }
    proof {
        assert(raw@.take(raw@.len() as int) =~= raw@);
    }
    out
}

/// A node of the syntax tree.
#[derive(Debug)]
pub struct MdNode {
    pub kind: MdKind,
    /// 1-based start line (0 when unknown).
    pub line: usize,
    /// 1-based start column.
    pub column: usize,
    /// Last line of the node.
    pub end_line: usize,
    pub children: Vec<MdNode>,
}

/// The event that opens `n`.
pub open spec fn open_event(n: MdNode) -> MdEvent {
    MdEvent::Open { kind: n.kind, line: n.line, column: n.column, end_line: n.end_line }
}

/// The depth-first walk of a tree: open, the children's walks, close.
pub open spec fn flatten(n: MdNode) -> Seq<MdEvent>
    decreases n, 1int,
{
    seq![open_event(n)] + flatten_all(n.children@) + seq![MdEvent::Close]
}

/// The walks of a run of sibling trees, concatenated.
pub open spec fn flatten_all(s: Seq<MdNode>) -> Seq<MdEvent>
    decreases s, 0int,
{
    if s.len() == 0 {
        Seq::empty()
    } else {
        flatten_all(s.drop_last()) + flatten(s.last())
    }
}

/// `events` is the walk of some tree.
pub open spec fn is_walk(events: Seq<MdEvent>) -> bool {
    exists|t: MdNode| flatten(t) == events
}

proof fn lemma_flatten_starts_open(n: MdNode)
    ensures
        flatten(n).len() >= 2,
        flatten(n)[0] == open_event(n),
{
}

proof fn lemma_flatten_all_prefix(s: Seq<MdNode>, j: int)
    requires
        0 <= j < s.len(),
    ensures
        flatten_all(s.take(j + 1)) == flatten_all(s.take(j)) + flatten(s[j]),
{
    assert(s.take(j + 1).drop_last() =~= s.take(j));
}

fn clone_kind(k: &MdKind) -> (r: MdKind)
    ensures
        r == *k,
{
    match k {
        MdKind::Document => MdKind::Document,
        MdKind::Heading(l) => MdKind::Heading(*l),
        MdKind::List { ordered } => MdKind::List { ordered: *ordered },
        MdKind::Item { start, padding } => MdKind::Item { start: *start, padding: *padding },
        MdKind::Paragraph => MdKind::Paragraph,
        MdKind::Text(t) => MdKind::Text(t.clone()),
        MdKind::Strong => MdKind::Strong,
        MdKind::Emph => MdKind::Emph,
        MdKind::Link(u) => MdKind::Link(u.clone()),
        MdKind::SoftBreak => MdKind::SoftBreak,
        MdKind::LineBreak => MdKind::LineBreak,
        MdKind::Code(c) => MdKind::Code(c.clone()),
        MdKind::Superscript => MdKind::Superscript,
        MdKind::BlockQuote => MdKind::BlockQuote,
        MdKind::Table => MdKind::Table,
        MdKind::TableRow(h) => MdKind::TableRow(*h),
        MdKind::TableCell => MdKind::TableCell,
        MdKind::CodeBlock { fenced } => MdKind::CodeBlock { fenced: *fenced },
        MdKind::HtmlBlock => MdKind::HtmlBlock,
        MdKind::ThematicBreak => MdKind::ThematicBreak,
        MdKind::FootnoteDefinition => MdKind::FootnoteDefinition,
        MdKind::DescriptionList => MdKind::DescriptionList,
        MdKind::Other => MdKind::Other,
    }
}

/// Rebuild the node whose walk starts at `events[pos]`. On a walk that is
/// well formed from `pos` on, this returns the node of that walk and the
/// position just past it.
fn build_at(events: &Vec<MdEvent>, pos: usize, Ghost(t): Ghost<MdNode>) -> (r: (MdNode, usize))
    requires
        pos + flatten(t).len() <= events@.len(),
        events@.subrange(pos as int, pos + flatten(t).len()) == flatten(t),
    ensures
        flatten(r.0) == flatten(t),
        r.1 == pos + flatten(t).len(),
    decreases t,
{
    proof {
        lemma_flatten_starts_open(t);
        assert(events@[pos as int] == flatten(t)[0]);
    }
    let (kind, line, column, end_line) = match &events[pos] {
        MdEvent::Open { kind, line, column, end_line } => (clone_kind(kind), *line, *column, *end_line),
        MdEvent::Close => {
            assert(false);
            (MdKind::Other, 0, 0, 0)
        },
    };
    let ghost kids = t.children@;
    let mut children: Vec<MdNode> = Vec::new();
    let n = events.len();
    let mut p = pos + 1;
    let mut j: usize = 0;
    proof {
        assert(kids.take(0) =~= Seq::<MdNode>::empty());
    }
    loop
        invariant
            j <= kids.len(),
            j <= p,
            n == events@.len(),
            kids == t.children@,
            pos + flatten(t).len() <= events@.len(),
            events@.subrange(pos as int, pos + flatten(t).len()) == flatten(t),
            p == pos + 1 + flatten_all(kids.take(j as int)).len(),
            flatten_all(children@) == flatten_all(kids.take(j as int)),
        ensures
            j == kids.len(),
            p == pos + 1 + flatten_all(kids.take(j as int)).len(),
            flatten_all(children@) == flatten_all(kids.take(j as int)),
        decreases kids.len() - j,
    {
        let ghost whole = flatten(t);
        proof {
            assert(whole == seq![open_event(t)] + flatten_all(kids) + seq![MdEvent::Close]);
            lemma_flatten_all_take_prefix(kids, j as int);
            assert(p < pos + whole.len());
            assert(events@[p as int] == whole[p - pos]);
            if j == kids.len() {
                assert(kids.take(j as int) =~= kids);
                assert(p - pos == whole.len() - 1);
            } else {
                lemma_flatten_all_skip(kids, j as int);
                lemma_flatten_starts_open(kids[j as int]);
                assert(whole[p - pos] == flatten(kids[j as int])[0]);
            }
        }
        let is_open = match &events[p] {
            MdEvent::Open { .. } => true,
            MdEvent::Close => false,
        };
        if !is_open {
            break;
        }
        proof {
            lemma_flatten_all_prefix(kids, j as int);
            lemma_flatten_all_take_prefix(kids, j as int + 1);
            let pre = flatten_all(kids.take(j + 1));
            assert(flatten_all(kids) == pre + flatten_all(kids.skip(j + 1)));
            assert(events@.subrange(p as int, p + flatten(kids[j as int]).len()) =~= flatten(
                kids[j as int],
            )) by {
                assert(events@.subrange(p as int, p + flatten(kids[j as int]).len())
                    =~= whole.subrange(p - pos, p - pos + flatten(kids[j as int]).len()));
            }
        }
        proof {
            lemma_flatten_starts_open(kids[j as int]);
        }
        let (child, next) = build_at(events, p, Ghost(kids[j as int]));
        let ghost before = children@;
        children.push(child);
        proof {
            assert(children@.drop_last() =~= before);
            assert(flatten_all(children@) == flatten_all(before) + flatten(child));
        }
        p = next;
        j += 1;
    }
    proof {
        assert(kids.take(kids.len() as int) =~= kids);
        assert(flatten(t).len() == 2 + flatten_all(kids).len());
    }
    let node = MdNode { kind, line, column, end_line, children };
    proof {
        assert(open_event(node) == open_event(t));
        assert(flatten(node) =~= flatten(t));
    }
    (node, p + 1)
}

proof fn lemma_flatten_all_take_prefix(s: Seq<MdNode>, j: int)
    requires
        0 <= j <= s.len(),
    ensures
        flatten_all(s) == flatten_all(s.take(j)) + flatten_all(s.skip(j)),
    decreases s.len() - j,
{
    if j == s.len() {
        assert(s.take(j) =~= s);
        assert(s.skip(j) =~= Seq::<MdNode>::empty());
        assert(flatten_all(s) =~= flatten_all(s.take(j)) + flatten_all(s.skip(j)));
    } else {
        lemma_flatten_all_take_prefix(s, j + 1);
        lemma_flatten_all_prefix(s, j);
        let rest = s.skip(j);
        assert(rest.drop_last() == s.skip(j).drop_last());
        lemma_flatten_all_skip(s, j);
    }
}

proof fn lemma_flatten_all_skip(s: Seq<MdNode>, j: int)
    requires
        0 <= j < s.len(),
    ensures
        flatten_all(s.skip(j)) == flatten(s[j]) + flatten_all(s.skip(j + 1)),
    decreases s.len() - j,
{
    let r = s.skip(j);
    if j + 1 == s.len() {
        assert(r =~= seq![s[j]]);
        assert(r.drop_last() =~= Seq::<MdNode>::empty());
        assert(s.skip(j + 1) =~= Seq::<MdNode>::empty());
        assert(flatten_all(r) =~= flatten(s[j]) + flatten_all(s.skip(j + 1)));
    } else {
        lemma_flatten_all_skip(s.drop_last(), j);
        assert(s.drop_last().skip(j) =~= r.drop_last());
        assert(s.drop_last().skip(j + 1) =~= s.skip(j + 1).drop_last());
        assert(r.last() == s.skip(j + 1).last());
        assert(flatten_all(r) =~= flatten(s[j]) + flatten_all(s.skip(j + 1)));
    }
}

/// Parse a document body into its syntax tree.
pub fn markdown_tree(text: &str) -> (r: MdNode)
    ensures
        flatten(r) == markdown_events(text@),
{
    let events = parse_markdown_events(text);
    let ghost t = choose|t: MdNode| flatten(t) == events@;
    proof {
        assert(events@.subrange(0, flatten(t).len() as int) =~= events@);
    }
    let (node, _) = build_at(&events, 0, Ghost(t));
    node
}

} // verus!
