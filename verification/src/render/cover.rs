//! The text of the cover page, line by line: title, status and version,
//! date, reference and author, the label before the parties, and each
//! party, with "and" between them.
use vstd::prelude::*;

use crate::frontmatter::opt_view;
use crate::model::{status_name, DocumentMeta, Party};
use crate::text::{chars_of, extend_str, string_of};

verus! {

/// How a party is shown on the cover: name and specifier then role, name
/// then role, or name only.
#[derive(Debug, Clone, Copy, PartialEq, Eq, Structural)]
pub enum PartyFormat {
    NameSpecRole,
    NameRole,
    NameOnly,
}

/// The cover page's text settings.
pub struct CoverText {
    pub between_label: String,
    pub party_format: PartyFormat,
    pub show_ref: bool,
    pub show_author: bool,
    pub show_status: bool,
}

/// One line of the cover page, centred.
pub enum CoverLine {
    /// An empty line.
    Blank,
    /// The document title.
    Title,
    /// Body text.
    Plain(String),
    /// Body text in italics.
    Italic(String),
    /// The label before the parties, bold at heading size.
    Label(String),
    /// A party's name in bold, then, when there is one, further text.
    Party(String, Option<String>),
    /// A party's role line, in italics.
    Role(String),
}

/// A cover line by its values.
pub enum CoverLineView {
    Blank,
    Title,
    Plain(Seq<char>),
    Italic(Seq<char>),
    Label(Seq<char>),
    Party(Seq<char>, Option<Seq<char>>),
    Role(Seq<char>),
}

/// The values of a cover line.
pub open spec fn cover_line_view(l: CoverLine) -> CoverLineView {
    match l {
        CoverLine::Blank => CoverLineView::Blank,
        CoverLine::Title => CoverLineView::Title,
        CoverLine::Plain(s) => CoverLineView::Plain(s@),
        CoverLine::Italic(s) => CoverLineView::Italic(s@),
        CoverLine::Label(s) => CoverLineView::Label(s@),
        CoverLine::Party(n, x) => CoverLineView::Party(n@, opt_view(x)),
        CoverLine::Role(s) => CoverLineView::Role(s@),
    }
}

/// The values of cover lines.
pub open spec fn cover_view(s: Seq<CoverLine>) -> Seq<CoverLineView> {
    s.map_values(|l: CoverLine| cover_line_view(l))
}

/// The status and version line: `DRAFT — Version 2`, either part alone
/// when the other is missing; `None` when the setting is off or both are
/// missing.
pub open spec fn status_line(meta: DocumentMeta, show: bool) -> Option<Seq<char>> {
    if !show {
        None
    } else {
        match (meta.status, meta.version) {
            (Some(s), Some(v)) => Some(status_name(s) + " \u{2014} "@ + "Version "@ + v@),
            (Some(s), None) => Some(status_name(s)),
            (None, Some(v)) => Some("Version "@ + v@),
            (None, None) => None,
        }
    }
}

/// The lines of one party: its name (with ` <specifier>` in the
/// name-specifier-role format), then `("<role>")` unless only names are
/// shown.
pub open spec fn party_lines(p: Party, format: PartyFormat) -> Seq<CoverLineView> {
    let name = match p.name {
        Some(n) => n@,
        None => Seq::empty(),
    };
    let extra = match (format, p.specifier) {
        (PartyFormat::NameSpecRole, Some(s)) => Some(" "@ + s@),
        _ => None,
    };
    seq![CoverLineView::Party(name, extra)] + if format == PartyFormat::NameOnly {
        Seq::empty()
    } else {
        seq![CoverLineView::Role("(\""@ + p.role@ + "\")"@)]
    }
}

/// The lines of the parties, with a blank line, `and` and a blank line
/// between each two.
pub open spec fn parties_lines(ps: Seq<Party>, format: PartyFormat) -> Seq<CoverLineView>
    decreases ps.len(),
{
    if ps.len() == 0 {
        Seq::empty()
    } else {
        parties_lines(ps.drop_last(), format) + (if ps.len() > 1 {
            seq![CoverLineView::Blank, CoverLineView::Plain("and"@), CoverLineView::Blank]
        } else {
            Seq::empty()
        }) + party_lines(ps.last(), format)
    }
}

/// The cover page: two blank lines, the title, a blank line, the status
/// line, the date, two blank lines, the reference and author lines, two
/// blank lines, the label, a blank line, then the parties.
pub open spec fn cover_spec(meta: DocumentMeta, cover: CoverText, date: Seq<char>) -> Seq<CoverLineView> {
    seq![CoverLineView::Blank, CoverLineView::Blank, CoverLineView::Title, CoverLineView::Blank]
        + (match status_line(meta, cover.show_status) {
        Some(t) => seq![CoverLineView::Plain(t)],
        None => Seq::empty(),
    }) + seq![CoverLineView::Plain(date), CoverLineView::Blank, CoverLineView::Blank] + (match meta.ref_ {
        Some(r) => if cover.show_ref {
            seq![CoverLineView::Italic("Ref: "@ + r@)]
        } else {
            Seq::empty()
        },
        None => Seq::empty(),
    }) + (match meta.author {
        Some(a) => if cover.show_author {
            seq![CoverLineView::Italic(a@)]
        } else {
            Seq::empty()
        },
        None => Seq::empty(),
    }) + seq![
        CoverLineView::Blank,
        CoverLineView::Blank,
        CoverLineView::Label(cover.between_label@),
        CoverLineView::Blank,
    ] + parties_lines(meta.parties@, cover.party_format)
}

fn push_line(out: &mut Vec<CoverLine>, l: CoverLine)
    ensures
        cover_view(final(out)@) == cover_view(old(out)@).push(cover_line_view(l)),
{
    let ghost v = cover_line_view(l);
    out.push(l);
    assert(cover_view(out@) =~= cover_view(old(out)@).push(v));
}

fn copy_text(s: &String) -> (r: String)
    ensures
        r@ == s@,
{
    string_of(&chars_of(s.as_str()))
}

fn push_party(out: &mut Vec<CoverLine>, p: &Party, format: PartyFormat)
    ensures
        cover_view(final(out)@) == cover_view(old(out)@) + party_lines(*p, format),
{
    let name = match &p.name {
        Some(n) => copy_text(n),
        None => String::new(),
    };
    let extra = match (format, &p.specifier) {
        (PartyFormat::NameSpecRole, Some(s)) => {
            let mut t = chars_of(" ");
            extend_str(&mut t, s.as_str());
            Some(string_of(&t))
        },
        _ => None,
    };
    let ghost before = cover_view(out@);
    push_line(out, CoverLine::Party(name, extra));
    match format {
        PartyFormat::NameOnly => {},
        _ => {
            let mut t = chars_of("(\"");
            extend_str(&mut t, p.role.as_str());
            extend_str(&mut t, "\")");
            push_line(out, CoverLine::Role(string_of(&t)));
        },
    }
    assert(cover_view(out@) =~= before + party_lines(*p, format));
}

/// The lines of the cover page of a document with metadata `meta`, the
/// date as it is shown being `date` (see [`cover_spec`]).
pub fn cover_lines(meta: &DocumentMeta, cover: &CoverText, date: &str) -> (r: Vec<CoverLine>)
    ensures
        cover_view(r@) == cover_spec(*meta, *cover, date@),
{
    let mut out: Vec<CoverLine> = Vec::new();
    push_line(&mut out, CoverLine::Blank);
    push_line(&mut out, CoverLine::Blank);
    push_line(&mut out, CoverLine::Title);
    push_line(&mut out, CoverLine::Blank);
    let ghost head = cover_view(out@);
    if cover.show_status {
        let mut t: Vec<char> = Vec::new();
        let mut any = false;
        match &meta.status {
            Some(s) => {
                extend_str(&mut t, s.to_display_string().as_str());
                any = true;
            },
            None => {},
        }
        match &meta.version {
            Some(v) => {
                if any {
                    extend_str(&mut t, " \u{2014} ");
                }
                extend_str(&mut t, "Version ");
                extend_str(&mut t, v.as_str());
                any = true;
            },
            None => {},
        }
        if any {
            proof {
                assert(t@ =~= status_line(*meta, true)->Some_0);
            }
            push_line(&mut out, CoverLine::Plain(string_of(&t)));
        }
    }
    push_line(&mut out, CoverLine::Plain(string_of(&chars_of(date))));
    push_line(&mut out, CoverLine::Blank);
    push_line(&mut out, CoverLine::Blank);
    if cover.show_ref {
        match &meta.ref_ {
            Some(r) => {
                let mut t = chars_of("Ref: ");
                extend_str(&mut t, r.as_str());
                push_line(&mut out, CoverLine::Italic(string_of(&t)));
            },
            None => {},
        }
    }
    if cover.show_author {
        match &meta.author {
            Some(a) => push_line(&mut out, CoverLine::Italic(copy_text(a))),
            None => {},
        }
    }
    push_line(&mut out, CoverLine::Blank);
    push_line(&mut out, CoverLine::Blank);
    push_line(&mut out, CoverLine::Label(copy_text(&cover.between_label)));
    push_line(&mut out, CoverLine::Blank);
    let ghost mid = cover_view(out@);
    let mut i: usize = 0;
    proof {
        assert(meta.parties@.take(0) =~= Seq::<Party>::empty());
        assert(mid + parties_lines(meta.parties@.take(0), cover.party_format) =~= mid);
    }
    while i < meta.parties.len()
        invariant
            i <= meta.parties@.len(),
            cover_view(out@) == mid + parties_lines(meta.parties@.take(i as int), cover.party_format),
        decreases meta.parties@.len() - i,
    {
        proof {
            crate::parser::clause::lemma_take_next(meta.parties@, i as int);
        }
        if i > 0 {
            push_line(&mut out, CoverLine::Blank);
            push_line(&mut out, CoverLine::Plain(string_of(&chars_of("and"))));
            push_line(&mut out, CoverLine::Blank);
        }
        push_party(&mut out, &meta.parties[i], cover.party_format);
        proof {
            assert(cover_view(out@) =~= mid + parties_lines(meta.parties@.take(i + 1), cover.party_format));
        }
        i += 1;
    }
    proof {
        assert(meta.parties@.take(i as int) =~= meta.parties@);
        assert(cover_view(out@) =~= cover_spec(*meta, *cover, date@));
    }
    out
}

} // verus!
