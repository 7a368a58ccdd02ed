//! What the table of contents lists and which bookmark each anchor gets.
use vstd::prelude::*;

use crate::model::{
    addendum_heading, inlines_text, inlines_plain_text, level_depth, AddendumContent,
    BodyElement, Clause, ClauseBody, Document, Exhibit,
};
use crate::pattern::{to_uppercase, uppercase};
use crate::text::{strings_view, chars_of, decimal, decimal_chars, extend_chars, extend_str, str_eq, string_of};

verus! {

// ---------------------------------------------------------------------------
// Table of contents
// ---------------------------------------------------------------------------

/// A table-of-contents entry: its text and heading level (1 to 3).
pub type TocEntry = (Seq<char>, usize);

/// The entries of a clause and the clauses below it: each clause heading
/// whose heading level (outline level plus one) is at most 3.
pub open spec fn clause_toc(c: Clause) -> Seq<TocEntry>
    decreases c, 2int,
{
    (match c.heading {
        Some(h) => if level_depth(c.level) + 1 <= 3 {
            seq![(inlines_text(h.text@), (level_depth(c.level) + 1) as usize)]
        } else {
            Seq::empty()
        },
        None => Seq::empty(),
    }) + runs_toc(c.body@)
}

/// The entries of the children in a clause body.
pub open spec fn runs_toc(body: Seq<ClauseBody>) -> Seq<TocEntry>
    decreases body, 1int,
{
    if body.len() == 0 {
        Seq::empty()
    } else {
        runs_toc(body.drop_last()) + match body.last() {
            ClauseBody::Children(kids) => kids_toc(kids@),
            _ => Seq::empty(),
        }
    }
}

/// The entries of sibling clauses, in order.
pub open spec fn kids_toc(kids: Seq<Clause>) -> Seq<TocEntry>
    decreases kids, 0int,
{
    if kids.len() == 0 {
        Seq::empty()
    } else {
        kids_toc(kids.drop_last()) + clause_toc(kids.last())
    }
}

/// The entries of the clauses among body elements.
pub open spec fn elements_toc(es: Seq<BodyElement>) -> Seq<TocEntry>
    decreases es.len(),
{
    if es.len() == 0 {
        Seq::empty()
    } else {
        elements_toc(es.drop_last()) + match es.last() {
            BodyElement::Clause(c) => clause_toc(c),
            _ => Seq::empty(),
        }
    }
}

/// The heading of the `i`-th exhibit (from 0): `EXHIBIT n - Title`.
pub open spec fn exhibit_heading(i: int, title: Seq<char>) -> Seq<char> {
    "EXHIBIT "@ + decimal((i + 1) as nat) + " - "@ + title
}

/// The table of contents of a document: the recitals and body headings,
/// then the clause headings of the recitals and the body, then the
/// addenda, then the exhibits; section headings upper-cased at level 1.
pub open spec fn toc_entries_of(doc: Document) -> Seq<TocEntry> {
    (match doc.recitals {
        Some(rec) => seq![(uppercase(rec.heading@), 1usize)],
        None => Seq::empty(),
    }) + (match doc.body_heading {
        Some(h) => seq![(uppercase(h@), 1usize)],
        None => Seq::empty(),
    }) + (match doc.recitals {
        Some(rec) => elements_toc(rec.body@),
        None => Seq::empty(),
    }) + elements_toc(doc.body@) + doc.addenda@.map_values(
        |a: crate::model::Addendum| (uppercase(addendum_heading(a.number, a.title@)), 1usize),
    ) + doc.meta.exhibits@.map(
        |i: int, e: Exhibit| (uppercase(exhibit_heading(i, e.title@)), 1usize),
    )
}

/// The text and level of a list of entries.
pub open spec fn entries_view(v: Seq<(String, usize)>) -> Seq<TocEntry> {
    v.map_values(|e: (String, usize)| (e.0@, e.1))
}

fn push_entry(out: &mut Vec<(String, usize)>, text: String, level: usize)
    ensures
        entries_view(final(out)@) == entries_view(old(out)@).push((text@, level)),
{
    out.push((text, level));
    assert(entries_view(out@) =~= entries_view(old(out)@).push((text@, level)));
}

#[verifier::loop_isolation(false)]
fn push_clause_toc(out: &mut Vec<(String, usize)>, c: &Clause)
    ensures
        entries_view(final(out)@) == entries_view(old(out)@) + clause_toc(*c),
    decreases c, 1int,
{
    let ghost start = entries_view(out@);
    if let Some(h) = &c.heading {
        let outline = crate::render::numbering::outline_level_for(c.level);
        let heading_level = outline + 1;
        if heading_level <= 3 {
            let text = inlines_plain_text(h.text.as_slice());
            push_entry(out, string_of(&text), heading_level);
        }
    }
    let ghost mid = entries_view(out@);
    let mut i: usize = 0;
    while i < c.body.len()
        invariant
            i <= c.body@.len(),
            entries_view(out@) == mid + runs_toc(c.body@.take(i as int)),
        decreases c.body@.len() - i,
    {
        let ghost before = entries_view(out@);
        if let ClauseBody::Children(kids) = &c.body[i] {
            proof {
                let e = c.body@[i as int];
                assert(decreases_to!(*c => c.body));
                assert(decreases_to!(c.body => c.body@));
                assert(decreases_to!(c.body@ => e));
                assert(decreases_to!(e => e->Children_0));
                assert(e->Children_0 == *kids);
            }
            push_kids_toc(out, kids);
        }
        proof {
            let t = c.body@.take(i + 1);
            assert(t.drop_last() =~= c.body@.take(i as int));
            assert(t.last() == c.body@[i as int]);
            assert(entries_view(out@) =~= mid + runs_toc(t));
        }
        i += 1;
    }
    assert(c.body@.take(c.body@.len() as int) =~= c.body@);
    assert(entries_view(out@) =~= start + clause_toc(*c));
}

fn push_kids_toc(out: &mut Vec<(String, usize)>, kids: &Vec<Clause>)
    ensures
        entries_view(final(out)@) == entries_view(old(out)@) + kids_toc(kids@),
    decreases kids, 0int,
{
    let ghost start = entries_view(out@);
    let mut j: usize = 0;
    while j < kids.len()
        invariant
            j <= kids@.len(),
            entries_view(out@) == start + kids_toc(kids@.take(j as int)),
        decreases kids@.len() - j,
    {
        proof {
            assert(decreases_to!(*kids => kids@));
            assert(decreases_to!(kids@ => kids@[j as int]));
        }
        push_clause_toc(out, &kids[j]);
        proof {
            let t = kids@.take(j + 1);
            assert(t.drop_last() =~= kids@.take(j as int));
            assert(t.last() == kids@[j as int]);
            assert(entries_view(out@) =~= start + kids_toc(t));
        }
        j += 1;
    }
    assert(kids@.take(kids@.len() as int) =~= kids@);
}

fn push_elements_toc(out: &mut Vec<(String, usize)>, es: &Vec<BodyElement>)
    ensures
        entries_view(final(out)@) == entries_view(old(out)@) + elements_toc(es@),
{
    let ghost start = entries_view(out@);
    let mut i: usize = 0;
    while i < es.len()
        invariant
            i <= es@.len(),
            entries_view(out@) == start + elements_toc(es@.take(i as int)),
        decreases es@.len() - i,
    {
        let ghost before = entries_view(out@);
        if let BodyElement::Clause(c) = &es[i] {
            push_clause_toc(out, c);
        }
        proof {
            let t = es@.take(i + 1);
            assert(t.drop_last() =~= es@.take(i as int));
            assert(entries_view(out@) =~= start + elements_toc(t));
        }
        i += 1;
    }
    assert(es@.take(es@.len() as int) =~= es@);
}

/// The table-of-contents entries of a document (see [`toc_entries_of`]).
pub fn collect_toc_entries(doc: &Document) -> (r: Vec<(String, usize)>)
    ensures
        entries_view(r@) == toc_entries_of(*doc),
{
    let mut out: Vec<(String, usize)> = Vec::new();
    if let Some(rec) = &doc.recitals {
        push_entry(&mut out, to_uppercase(rec.heading.as_str()), 1);
    }
    if let Some(h) = &doc.body_heading {
        push_entry(&mut out, to_uppercase(h.as_str()), 1);
    }
    if let Some(rec) = &doc.recitals {
        push_elements_toc(&mut out, &rec.body);
    }
    push_elements_toc(&mut out, &doc.body);
    let ghost mid = entries_view(out@);
    let mut i: usize = 0;
    while i < doc.addenda.len()
        invariant
            i <= doc.addenda@.len(),
            entries_view(out@) == mid + doc.addenda@.take(i as int).map_values(
                |a: crate::model::Addendum| (uppercase(addendum_heading(a.number, a.title@)), 1usize),
            ),
        decreases doc.addenda@.len() - i,
    {
        let heading = doc.addenda[i].heading();
        push_entry(&mut out, to_uppercase(heading.as_str()), 1);
        assert(doc.addenda@.take(i + 1) =~= doc.addenda@.take(i as int).push(doc.addenda@[i as int]));
        assert(entries_view(out@) =~= mid + doc.addenda@.take(i + 1).map_values(
            |a: crate::model::Addendum| (uppercase(addendum_heading(a.number, a.title@)), 1usize),
        ));
        i += 1;
    }
    assert(doc.addenda@.take(doc.addenda@.len() as int) =~= doc.addenda@);
    let ghost mid2 = entries_view(out@);
    let mut k: usize = 0;
    while k < doc.meta.exhibits.len()
        invariant
            k <= doc.meta.exhibits@.len(),
            entries_view(out@) == mid2 + doc.meta.exhibits@.take(k as int).map(
                |i: int, e: Exhibit| (uppercase(exhibit_heading(i, e.title@)), 1usize),
            ),
        decreases doc.meta.exhibits@.len() - k,
    {
        let mut text = chars_of("EXHIBIT ");
        let n = decimal_chars(k + 1);
        extend_chars(&mut text, n.as_slice());
        extend_str(&mut text, " - ");
        extend_str(&mut text, doc.meta.exhibits[k].title.as_str());
        assert(text@ == exhibit_heading(k as int, doc.meta.exhibits@[k as int].title@));
        let s = string_of(&text);
        push_entry(&mut out, to_uppercase(s.as_str()), 1);
        assert(entries_view(out@) =~= mid2 + doc.meta.exhibits@.take(k + 1).map(
            |i: int, e: Exhibit| (uppercase(exhibit_heading(i, e.title@)), 1usize),
        ));
        k += 1;
    }
    assert(doc.meta.exhibits@.take(doc.meta.exhibits@.len() as int) =~= doc.meta.exhibits@);
    assert(entries_view(out@) =~= toc_entries_of(*doc));
    out
}

// ---------------------------------------------------------------------------
// Bookmarks
// ---------------------------------------------------------------------------

/// The anchors of a clause and the clauses below it, in document order.
pub open spec fn clause_anchors(c: Clause) -> Seq<Seq<char>>
    decreases c, 2int,
{
    (match c.anchor {
        Some(a) => seq![a@],
        None => Seq::empty(),
    }) + runs_anchors(c.body@)
}

/// The anchors of the children in a clause body.
pub open spec fn runs_anchors(body: Seq<ClauseBody>) -> Seq<Seq<char>>
    decreases body, 1int,
{
    if body.len() == 0 {
        Seq::empty()
    } else {
        runs_anchors(body.drop_last()) + match body.last() {
            ClauseBody::Children(kids) => kids_anchors(kids@),
            _ => Seq::empty(),
        }
    }
}

/// The anchors of sibling clauses, in order.
pub open spec fn kids_anchors(kids: Seq<Clause>) -> Seq<Seq<char>>
    decreases kids, 0int,
{
    if kids.len() == 0 {
        Seq::empty()
    } else {
        kids_anchors(kids.drop_last()) + clause_anchors(kids.last())
    }
}

/// The anchors of the clauses among body elements.
pub open spec fn elements_anchors(es: Seq<BodyElement>) -> Seq<Seq<char>>
    decreases es.len(),
{
    if es.len() == 0 {
        Seq::empty()
    } else {
        elements_anchors(es.drop_last()) + match es.last() {
            BodyElement::Clause(c) => clause_anchors(c),
            _ => Seq::empty(),
        }
    }
}

/// The anchors of an addendum's clause lists.
pub open spec fn addendum_items_anchors(cs: Seq<AddendumContent>) -> Seq<Seq<char>>
    decreases cs.len(),
{
    if cs.len() == 0 {
        Seq::empty()
    } else {
        addendum_items_anchors(cs.drop_last()) + match cs.last() {
            AddendumContent::ClauseList(cl) => kids_anchors(cl@),
            _ => Seq::empty(),
        }
    }
}

/// The anchors of the addenda: each one's own anchor, then its clauses'.
pub open spec fn addenda_anchors(adds: Seq<crate::model::Addendum>) -> Seq<Seq<char>>
    decreases adds.len(),
{
    if adds.len() == 0 {
        Seq::empty()
    } else {
        addenda_anchors(adds.drop_last()) + (match adds.last().anchor {
            Some(a) => seq![a@],
            None => Seq::empty(),
        }) + addendum_items_anchors(adds.last().content@)
    }
}

/// Every anchor of a document in the order bookmarks are numbered:
/// recitals, body, then addenda.
pub open spec fn anchor_order(doc: Document) -> Seq<Seq<char>> {
    (match doc.recitals {
        Some(rec) => elements_anchors(rec.body@),
        None => Seq::empty(),
    }) + elements_anchors(doc.body@) + addenda_anchors(doc.addenda@)
}

/// Bookmark numbers: the anchors in [`anchor_order`]; the `k`-th (from 0)
/// is numbered `k + 1`, and an anchor that occurs twice keeps the number of
/// its last occurrence.
pub struct BookmarkMap {
    pub anchors: Vec<String>,
}

/// Position of the last occurrence of `a` in `s`.
pub open spec fn last_position(s: Seq<Seq<char>>, a: Seq<char>) -> Option<int>
    decreases s.len(),
{
    if s.len() == 0 {
        None
    } else if s.last() == a {
        Some(s.len() - 1)
    } else {
        last_position(s.drop_last(), a)
    }
}

impl BookmarkMap {
    /// The bookmark number of an anchor: one more than the position of its
    /// last occurrence; `None` for an anchor that does not occur.
    pub fn id_of(&self, anchor: &str) -> (r: Option<usize>)
        ensures
            match last_position(strings_view(self.anchors@), anchor@) {
                Some(k) => r matches Some(id) && id == k + 1,
                None => r is None,
            },
    {
        let v = &self.anchors;
        let mut n: usize = v.len();
        let ghost s = strings_view(v@);
        proof {
            assert(s.take(n as int) =~= s);
        }
        while n > 0
            invariant
                n <= v@.len(),
                v@ == self.anchors@,
                s == strings_view(v@),
                last_position(s, anchor@) == last_position(s.take(n as int), anchor@),
            decreases n,
        {
            let ghost t = s.take(n as int);
            if str_eq(v[n - 1].as_str(), anchor) {
                assert(t.last() == anchor@);
                return Some(n);
            }
            assert(t.drop_last() =~= s.take(n - 1));
            n -= 1;
        }
        None
    }
}

fn push_anchor(out: &mut Vec<String>, a: &String)
    ensures
        strings_view(final(out)@) == strings_view(old(out)@).push(a@),
{
    out.push(a.clone());
    assert(strings_view(out@) =~= strings_view(old(out)@).push(a@));
}

#[verifier::loop_isolation(false)]
fn push_clause_anchors(out: &mut Vec<String>, c: &Clause)
    ensures
        strings_view(final(out)@) == strings_view(old(out)@) + clause_anchors(*c),
    decreases c, 1int,
{
    let ghost start = strings_view(out@);
    if let Some(a) = &c.anchor {
        push_anchor(out, a);
    }
    let ghost mid = strings_view(out@);
    let mut i: usize = 0;
    while i < c.body.len()
        invariant
            i <= c.body@.len(),
            strings_view(out@) == mid + runs_anchors(c.body@.take(i as int)),
        decreases c.body@.len() - i,
    {
        if let ClauseBody::Children(kids) = &c.body[i] {
            proof {
                let e = c.body@[i as int];
                assert(decreases_to!(*c => c.body));
                assert(decreases_to!(c.body => c.body@));
                assert(decreases_to!(c.body@ => e));
                assert(decreases_to!(e => e->Children_0));
                assert(e->Children_0 == *kids);
            }
            push_kids_anchors(out, kids);
        }
        proof {
            let t = c.body@.take(i + 1);
            assert(t.drop_last() =~= c.body@.take(i as int));
            assert(t.last() == c.body@[i as int]);
            assert(strings_view(out@) =~= mid + runs_anchors(t));
        }
        i += 1;
    }
    assert(c.body@.take(c.body@.len() as int) =~= c.body@);
    assert(strings_view(out@) =~= start + clause_anchors(*c));
}

fn push_kids_anchors(out: &mut Vec<String>, kids: &Vec<Clause>)
    ensures
        strings_view(final(out)@) == strings_view(old(out)@) + kids_anchors(kids@),
    decreases kids, 0int,
{
    let ghost start = strings_view(out@);
    let mut j: usize = 0;
    while j < kids.len()
        invariant
            j <= kids@.len(),
            strings_view(out@) == start + kids_anchors(kids@.take(j as int)),
        decreases kids@.len() - j,
    {
        proof {
            assert(decreases_to!(*kids => kids@));
            assert(decreases_to!(kids@ => kids@[j as int]));
        }
        push_clause_anchors(out, &kids[j]);
        proof {
            let t = kids@.take(j + 1);
            assert(t.drop_last() =~= kids@.take(j as int));
            assert(t.last() == kids@[j as int]);
            assert(strings_view(out@) =~= start + kids_anchors(t));
        }
        j += 1;
    }
    assert(kids@.take(kids@.len() as int) =~= kids@);
}

fn push_elements_anchors(out: &mut Vec<String>, es: &Vec<BodyElement>)
    ensures
        strings_view(final(out)@) == strings_view(old(out)@) + elements_anchors(es@),
{
    let ghost start = strings_view(out@);
    let mut i: usize = 0;
    while i < es.len()
        invariant
            i <= es@.len(),
            strings_view(out@) == start + elements_anchors(es@.take(i as int)),
        decreases es@.len() - i,
    {
        if let BodyElement::Clause(c) = &es[i] {
            push_clause_anchors(out, c);
        }
        proof {
            let t = es@.take(i + 1);
            assert(t.drop_last() =~= es@.take(i as int));
            assert(strings_view(out@) =~= start + elements_anchors(t));
        }
        i += 1;
    }
    assert(es@.take(es@.len() as int) =~= es@);
}

/// Number the bookmarks of a document's anchors (see [`BookmarkMap`]).
pub fn build_bookmark_map(doc: &Document) -> (r: BookmarkMap)
    ensures
        strings_view(r.anchors@) == anchor_order(*doc),
{
    let mut out: Vec<String> = Vec::new();
    if let Some(rec) = &doc.recitals {
        push_elements_anchors(&mut out, &rec.body);
    }
    push_elements_anchors(&mut out, &doc.body);
    let ghost mid = strings_view(out@);
    let mut i: usize = 0;
    while i < doc.addenda.len()
        invariant
            i <= doc.addenda@.len(),
            strings_view(out@) == mid + addenda_anchors(doc.addenda@.take(i as int)),
        decreases doc.addenda@.len() - i,
    {
        let a = &doc.addenda[i];
        let ghost before = strings_view(out@);
        if let Some(anchor) = &a.anchor {
            push_anchor(&mut out, anchor);
        }
        let ghost mid_a = strings_view(out@);
        let mut j: usize = 0;
        while j < a.content.len()
            invariant
                j <= a.content@.len(),
                strings_view(out@) == mid_a + addendum_items_anchors(a.content@.take(j as int)),
            decreases a.content@.len() - j,
        {
            if let AddendumContent::ClauseList(cl) = &a.content[j] {
                push_kids_anchors(&mut out, cl);
            }
            proof {
                let t = a.content@.take(j + 1);
                assert(t.drop_last() =~= a.content@.take(j as int));
                assert(strings_view(out@) =~= mid_a + addendum_items_anchors(t));
            }
            j += 1;
        }
        proof {
            assert(a.content@.take(a.content@.len() as int) =~= a.content@);
            let t = doc.addenda@.take(i + 1);
            assert(t.drop_last() =~= doc.addenda@.take(i as int));
            assert(strings_view(out@) =~= mid + addenda_anchors(t));
        }
        i += 1;
    }
    assert(doc.addenda@.take(doc.addenda@.len() as int) =~= doc.addenda@);
    assert(strings_view(out@) =~= anchor_order(*doc));
    BookmarkMap { anchors: out }
}

} // verus!
