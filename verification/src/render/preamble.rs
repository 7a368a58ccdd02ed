//! The text of the parties preamble: "This <title> (<type>) is dated
//! <date> between" and the parties, in the simple, prose or custom style.
//! Defined terms are marked as such, for the renderer to style.
use vstd::prelude::*;

use crate::model::{DocumentMeta, Party};
use crate::render::common::{clean_empty_parens, without_empty_parens};
use crate::text::{
    chars_of, extend_chars, extend_str, find, first_occurrence, occurs_at, replace_seq, replace_str,
    slice_chars, string_of,
};

verus! {

/// How the preamble is written.
#[derive(Debug, Clone, Copy, PartialEq, Eq, Structural)]
pub enum PreambleStyle {
    /// An opening line, then one paragraph per party.
    Simple,
    /// One sentence naming every party.
    Prose,
    /// The configured templates.
    Custom,
}

/// The preamble settings that decide its text.
pub struct PreambleConfig {
    pub style: PreambleStyle,
    /// The opening, with `{title}`, `{type}` and `{date}`; `\n` (a backslash
    /// and an `n`) separates paragraphs.
    pub template: String,
    /// One party, with `{name}`, `{specifier}` and `{role}`.
    pub party_template: String,
    /// Put after each party but the last.
    pub party_separator: String,
}

/// A run of preamble text: plain, or a defined term.
pub enum PreambleRun {
    Plain(String),
    Term(String),
}

/// A run by its values.
pub enum RunView {
    Plain(Seq<char>),
    Term(Seq<char>),
}

/// The values of a run.
pub open spec fn run_view(r: PreambleRun) -> RunView {
    match r {
        PreambleRun::Plain(s) => RunView::Plain(s@),
        PreambleRun::Term(s) => RunView::Term(s@),
    }
}

/// The values of the runs of a paragraph.
pub open spec fn runs_view(s: Seq<PreambleRun>) -> Seq<RunView> {
    s.map_values(|r: PreambleRun| run_view(r))
}

/// The values of the paragraphs of a preamble (an empty one is a spacer).
pub open spec fn paras_view(s: Seq<Vec<PreambleRun>>) -> Seq<Seq<RunView>> {
    s.map_values(|p: Vec<PreambleRun>| runs_view(p@))
}

/// The runs of a template paragraph: `**term**` is a defined term, text
/// around it plain. An opening `**` with no closing one leaves the text
/// from the last closed term on as plain text, after the text before it.
pub open spec fn template_runs(s: Seq<char>) -> Seq<RunView>
    decreases s.len(),
{
    match first_occurrence(s, "**"@) {
        None => if s.len() > 0 {
            seq![RunView::Plain(s)]
        } else {
            Seq::empty()
        },
        Some(i) => {
            let pre = if i > 0 {
                seq![RunView::Plain(s.take(i))]
            } else {
                Seq::empty()
            };
            if 0 <= i && i + 2 <= s.len() {
                let after = s.skip(i + 2);
                match first_occurrence(after, "**"@) {
                    Some(j) => if 0 <= j && j + 2 <= after.len() {
                        pre + seq![RunView::Term(after.take(j))] + template_runs(after.skip(j + 2))
                    } else {
                        pre
                    },
                    None => pre + seq![RunView::Plain(s)],
                }
            } else {
                pre
            }
        },
    }
}

/// The pieces of `s` between occurrences of the two characters `\n`.
pub open spec fn split_template(s: Seq<char>) -> Seq<Seq<char>>
    decreases s.len(),
{
    match first_occurrence(s, "\\n"@) {
        Some(i) => if 0 <= i && i + 2 <= s.len() {
            seq![s.take(i)] + split_template(s.skip(i + 2))
        } else {
            seq![s]
        },
        None => seq![s],
    }
}

/// The document type named in the preamble: the front-matter's, else
/// `Agreement`.
pub open spec fn doc_type_text(meta: DocumentMeta) -> Seq<char> {
    match meta.doc_type {
        Some(t) => t@,
        None => "Agreement"@,
    }
}

/// `by` for one party, `between` otherwise.
pub open spec fn between_word(n: nat) -> Seq<char> {
    if n == 1 {
        "by"@
    } else {
        "between"@
    }
}

/// A party's name, or nothing.
pub open spec fn name_text(p: Party) -> Seq<char> {
    match p.name {
        Some(n) => n@,
        None => Seq::empty(),
    }
}

/// A party as the simple and prose styles write it: name, ` (<specifier>)`
/// when there is one, then ` (` the role as a defined term `)`.
pub open spec fn party_runs(p: Party) -> Seq<RunView> {
    seq![RunView::Plain(name_text(p))] + (match p.specifier {
        Some(s) => seq![RunView::Plain(" ("@ + s@ + ")"@)],
        None => Seq::empty(),
    }) + seq![RunView::Plain(" ("@), RunView::Term(p.role@), RunView::Plain(")"@)]
}

/// The opening runs: `This <title> (`, the document type as a defined
/// term, then `<middle>`.
pub open spec fn opening_runs(meta: DocumentMeta, middle: Seq<char>) -> Seq<RunView> {
    seq![
        RunView::Plain("This "@ + meta.title@ + " ("@),
        RunView::Term(doc_type_text(meta)),
        RunView::Plain(middle),
    ]
}

/// The simple style's party paragraphs, `; and` after all but the last.
pub open spec fn simple_parties(ps: Seq<Party>, n: nat) -> Seq<Seq<RunView>>
    decreases ps.len(),
{
    if ps.len() == 0 {
        Seq::empty()
    } else {
        simple_parties(ps.drop_last(), n) + seq![
            party_runs(ps.last()) + if ps.len() < n {
                seq![RunView::Plain("; and"@)]
            } else {
                Seq::empty()
            },
        ]
    }
}

/// What the prose style puts after party `i` of `n`: `, ` between parties
/// of three or more, ` and ` before the last.
pub open spec fn prose_separator(i: int, n: int) -> Seq<RunView> {
    if n > 2 && i + 1 < n {
        if i + 2 < n {
            seq![RunView::Plain(", "@)]
        } else {
            seq![RunView::Plain(" and "@)]
        }
    } else if n == 2 && i == 0 {
        seq![RunView::Plain(" and "@)]
    } else {
        Seq::empty()
    }
}

/// The prose style's parties, each followed by its separator.
pub open spec fn prose_parties(ps: Seq<Party>, n: int) -> Seq<RunView>
    decreases ps.len(),
{
    if ps.len() == 0 {
        Seq::empty()
    } else {
        prose_parties(ps.drop_last(), n) + party_runs(ps.last()) + prose_separator(ps.len() - 1, n)
    }
}

/// A custom party line before templating: the party template with
/// `{name}`, `{specifier}` and `{role}` filled in, empty parentheses
/// removed, and the separator after all but the last party.
pub open spec fn custom_party_text(cfg: PreambleConfig, p: Party, last: bool) -> Seq<char> {
    let spec_text = match p.specifier {
        Some(s) => s@,
        None => Seq::empty(),
    };
    let filled = replace_seq(
        replace_seq(replace_seq(cfg.party_template@, "{name}"@, name_text(p)), "{specifier}"@, spec_text),
        "{role}"@,
        p.role@,
    );
    without_empty_parens(filled) + if last {
        Seq::empty()
    } else {
        cfg.party_separator@
    }
}

/// The custom style's party paragraphs.
pub open spec fn custom_parties(cfg: PreambleConfig, ps: Seq<Party>, n: nat) -> Seq<Seq<RunView>>
    decreases ps.len(),
{
    if ps.len() == 0 {
        Seq::empty()
    } else {
        custom_parties(cfg, ps.drop_last(), n) + seq![
            template_runs(custom_party_text(cfg, ps.last(), ps.len() >= n)),
        ]
    }
}

/// The custom opening: the template with `{title}`, `{type}` and `{date}`
/// filled in.
pub open spec fn custom_opening(cfg: PreambleConfig, meta: DocumentMeta, date: Seq<char>) -> Seq<char> {
    replace_seq(
        replace_seq(replace_seq(cfg.template@, "{title}"@, meta.title@), "{type}"@, doc_type_text(meta)),
        "{date}"@,
        date,
    )
}

/// The preamble's paragraphs, the date as shown being `date`.
pub open spec fn preamble_spec(meta: DocumentMeta, cfg: PreambleConfig, date: Seq<char>) -> Seq<Seq<RunView>> {
    let n = meta.parties@.len();
    match cfg.style {
        PreambleStyle::Simple => seq![
            opening_runs(meta, ") is dated "@ + date + " "@ + between_word(n)),
            Seq::empty(),
        ] + simple_parties(meta.parties@, n) + seq![Seq::empty()],
        PreambleStyle::Prose => seq![
            opening_runs(meta, ") is entered into as of "@ + date + " "@ + between_word(n) + " "@)
                + prose_parties(meta.parties@, n as int) + seq![RunView::Plain("."@)],
            Seq::empty(),
        ],
        PreambleStyle::Custom => split_template(custom_opening(cfg, meta, date)).map_values(
            |l: Seq<char>| template_runs(without_empty_parens(l)),
        ) + seq![Seq::empty()] + custom_parties(cfg, meta.parties@, n) + seq![Seq::empty()],
    }
}

fn plain(s: &[char]) -> (r: PreambleRun)
    ensures
        run_view(r) == RunView::Plain(s@),
{
    PreambleRun::Plain(string_of(s))
}

fn push_run(out: &mut Vec<PreambleRun>, r: PreambleRun)
    ensures
        runs_view(final(out)@) == runs_view(old(out)@).push(run_view(r)),
{
    let ghost v = run_view(r);
    out.push(r);
    assert(runs_view(out@) =~= runs_view(old(out)@).push(v));
}

fn push_para(out: &mut Vec<Vec<PreambleRun>>, p: Vec<PreambleRun>)
    ensures
        paras_view(final(out)@) == paras_view(old(out)@).push(runs_view(p@)),
{
    let ghost v = runs_view(p@);
    out.push(p);
    assert(paras_view(out@) =~= paras_view(old(out)@).push(v));
}

fn push_empty(out: &mut Vec<Vec<PreambleRun>>)
    ensures
        paras_view(final(out)@) == paras_view(old(out)@).push(Seq::empty()),
{
    let p: Vec<PreambleRun> = Vec::new();
    assert(runs_view(p@) =~= Seq::<RunView>::empty());
    push_para(out, p);
}

/// The runs of a template paragraph (see [`template_runs`]).
pub fn template_paragraph(s: &[char]) -> (r: Vec<PreambleRun>)
    ensures
        runs_view(r@) == template_runs(s@),
{
    let mut out: Vec<PreambleRun> = Vec::new();
    let mut rest: Vec<char> = slice_chars(s, 0, s.len());
    let marker = chars_of("**");
    proof {
        reveal_strlit("**");
        assert(rest@ =~= s@);
        assert(runs_view(out@) + template_runs(rest@) =~= template_runs(s@));
    }
    loop
        invariant
            marker@ == "**"@,
            marker@.len() == 2,
            runs_view(out@) + template_runs(rest@) == template_runs(s@),
        decreases rest@.len(),
    {
        let ghost r0 = rest@;
        let ghost o0 = runs_view(out@);
        match find(&rest, &marker) {
            None => {
                if rest.len() > 0 {
                    push_run(&mut out, plain(&rest));
                }
                proof {
                    assert(runs_view(out@) =~= o0 + template_runs(r0));
                }
                return out;
            },
            Some(i) => {
                if i > 0 {
                    push_run(&mut out, plain(&slice_chars(&rest, 0, i)));
                    proof {
                        assert(rest@.subrange(0, i as int) =~= rest@.take(i as int));
                    }
                }
                assert(occurs_at(rest@, marker@, i as int));
                let end = rest.len();
                assert(i + 2 <= end);
                let after = slice_chars(&rest, i + 2, end);
                proof {
                    assert(after@ =~= r0.skip(i + 2));
                }
                match find(&after, &marker) {
                    Some(j) => {
                        push_run(&mut out, PreambleRun::Term(string_of(&slice_chars(&after, 0, j))));
                        let next = slice_chars(&after, j + 2, after.len());
                        proof {
                            assert(after@.subrange(0, j as int) =~= after@.take(j as int));
                            assert(next@ =~= after@.skip(j + 2));
                            assert(runs_view(out@) + template_runs(next@) =~= o0 + template_runs(r0));
                        }
                        rest = next;
                    },
                    None => {
                        push_run(&mut out, plain(&rest));
                        proof {
                            assert(runs_view(out@) =~= o0 + template_runs(r0));
                        }
                        return out;
                    },
                }
            },
        }
    }
}

/// The pieces of a template between `\n` markers (see [`split_template`]).
fn split_lines(s: &[char]) -> (r: Vec<Vec<char>>)
    ensures
        crate::text::lines_view(r@) == split_template(s@),
{
    let mut out: Vec<Vec<char>> = Vec::new();
    let mut rest: Vec<char> = slice_chars(s, 0, s.len());
    let marker = chars_of("\\n");
    proof {
        reveal_strlit("\\n");
        assert(rest@ =~= s@);
        assert(crate::text::lines_view(out@) + split_template(rest@) =~= split_template(s@));
    }
    loop
        invariant
            marker@ == "\\n"@,
            marker@.len() == 2,
            crate::text::lines_view(out@) + split_template(rest@) == split_template(s@),
        decreases rest@.len(),
    {
        let ghost r0 = rest@;
        let ghost o0 = crate::text::lines_view(out@);
        match find(&rest, &marker) {
            None => {
                let last = rest;
                out.push(last);
                proof {
                    assert(crate::text::lines_view(out@) =~= o0 + split_template(r0));
                }
                return out;
            },
            Some(i) => {
                assert(occurs_at(rest@, marker@, i as int));
                let end = rest.len();
                assert(i + 2 <= end);
                let piece = slice_chars(&rest, 0, i);
                let next = slice_chars(&rest, i + 2, end);
                out.push(piece);
                proof {
                    assert(piece@ =~= r0.take(i as int));
                    assert(next@ =~= r0.skip(i + 2));
                    assert(crate::text::lines_view(out@) + split_template(next@) =~= o0 + split_template(r0));
                }
                rest = next;
            },
        }
    }
}

fn text_of(s: &String) -> (r: Vec<char>)
    ensures
        r@ == s@,
{
    chars_of(s.as_str())
}

fn party_name(p: &Party) -> (r: Vec<char>)
    ensures
        r@ == name_text(*p),
{
    match &p.name {
        Some(n) => text_of(n),
        None => Vec::new(),
    }
}

fn push_party_runs(out: &mut Vec<PreambleRun>, p: &Party)
    ensures
        runs_view(final(out)@) == runs_view(old(out)@) + party_runs(*p),
{
    let ghost o0 = runs_view(out@);
    push_run(out, plain(&party_name(p)));
    match &p.specifier {
        Some(s) => {
            let mut t = chars_of(" (");
            extend_str(&mut t, s.as_str());
            extend_str(&mut t, ")");
            push_run(out, plain(&t));
        },
        None => {},
    }
    push_run(out, plain(&chars_of(" (")));
    push_run(out, PreambleRun::Term(string_of(&text_of(&p.role))));
    push_run(out, plain(&chars_of(")")));
    assert(runs_view(out@) =~= o0 + party_runs(*p));
}

fn opening(meta: &DocumentMeta, middle: &[char]) -> (r: Vec<PreambleRun>)
    ensures
        runs_view(r@) == opening_runs(*meta, middle@),
{
    let mut out: Vec<PreambleRun> = Vec::new();
    let mut t = chars_of("This ");
    extend_str(&mut t, meta.title.as_str());
    extend_str(&mut t, " (");
    push_run(&mut out, plain(&t));
    let ty = match &meta.doc_type {
        Some(d) => text_of(d),
        None => chars_of("Agreement"),
    };
    push_run(&mut out, PreambleRun::Term(string_of(&ty)));
    push_run(&mut out, plain(middle));
    assert(runs_view(out@) =~= opening_runs(*meta, middle@));
    out
}

fn between(n: usize) -> (r: Vec<char>)
    ensures
        r@ == between_word(n as nat),
{
    if n == 1 {
        chars_of("by")
    } else {
        chars_of("between")
    }
}

fn custom_party(cfg: &PreambleConfig, p: &Party, last: bool) -> (r: Vec<char>)
    ensures
        r@ == custom_party_text(*cfg, *p, last),
{
    let spec_text = match &p.specifier {
        Some(s) => text_of(s),
        None => Vec::new(),
    };
    proof {
        reveal_strlit("{name}");
        reveal_strlit("{specifier}");
        reveal_strlit("{role}");
    }
    let a = replace_str(&text_of(&cfg.party_template), "{name}", string_of(&party_name(p)).as_str());
    let b = replace_str(&a, "{specifier}", string_of(&spec_text).as_str());
    let c = replace_str(&b, "{role}", p.role.as_str());
    let mut out = chars_of(clean_empty_parens(string_of(&c).as_str()).as_str());
    if !last {
        extend_str(&mut out, cfg.party_separator.as_str());
    }
    out
}

/// The paragraphs of the parties preamble of a document with metadata
/// `meta`, the date as it is shown being `date` (see [`preamble_spec`]).
pub fn preamble_lines(meta: &DocumentMeta, cfg: &PreambleConfig, date: &str) -> (r: Vec<Vec<PreambleRun>>)
    ensures
        paras_view(r@) == preamble_spec(*meta, *cfg, date@),
{
    let n = meta.parties.len();
    let mut out: Vec<Vec<PreambleRun>> = Vec::new();
    let ghost parties = meta.parties@;
    match cfg.style {
        PreambleStyle::Simple => {
            let mut middle = chars_of(") is dated ");
            extend_str(&mut middle, date);
            extend_str(&mut middle, " ");
            extend_chars(&mut middle, &between(n));
            push_para(&mut out, opening(meta, &middle));
            push_empty(&mut out);
            let ghost head = paras_view(out@);
            proof {
                assert(parties.take(0) =~= Seq::<Party>::empty());
                assert(paras_view(out@) =~= head + simple_parties(parties.take(0), n as nat));
            }
            let mut i: usize = 0;
            while i < n
                invariant
                    i <= n,
                    n == parties.len(),
                    parties == meta.parties@,
                    paras_view(out@) == head + simple_parties(parties.take(i as int), n as nat),
                decreases n - i,
            {
                proof {
                    crate::parser::clause::lemma_take_next(parties, i as int);
                }
                let mut p: Vec<PreambleRun> = Vec::new();
                proof {
                    assert(runs_view(p@) =~= Seq::<RunView>::empty());
                }
                push_party_runs(&mut p, &meta.parties[i]);
                if i + 1 < n {
                    push_run(&mut p, plain(&chars_of("; and")));
                }
                proof {
                    assert(runs_view(p@) =~= party_runs(parties[i as int]) + if i + 1 < n {
                        seq![RunView::Plain("; and"@)]
                    } else {
                        Seq::<RunView>::empty()
                    });
                }
                push_para(&mut out, p);
                proof {
                    assert(paras_view(out@) =~= head + simple_parties(parties.take(i + 1), n as nat));
                }
                i += 1;
            }
            push_empty(&mut out);
            proof {
                assert(parties.take(i as int) =~= parties);
                assert(paras_view(out@) =~= preamble_spec(*meta, *cfg, date@));
            }
        },
        PreambleStyle::Prose => {
            let mut middle = chars_of(") is entered into as of ");
            extend_str(&mut middle, date);
            extend_str(&mut middle, " ");
            extend_chars(&mut middle, &between(n));
            extend_str(&mut middle, " ");
            let mut p = opening(meta, &middle);
            let ghost head = runs_view(p@);
            proof {
                assert(parties.take(0) =~= Seq::<Party>::empty());
                assert(runs_view(p@) =~= head + prose_parties(parties.take(0), n as int));
            }
            let mut i: usize = 0;
            while i < n
                invariant
                    i <= n,
                    n == parties.len(),
                    parties == meta.parties@,
                    runs_view(p@) == head + prose_parties(parties.take(i as int), n as int),
                decreases n - i,
            {
                proof {
                    crate::parser::clause::lemma_take_next(parties, i as int);
                }
                let ghost p0 = runs_view(p@);
                push_party_runs(&mut p, &meta.parties[i]);
                if n > 2 && i + 1 < n {
                    if i + 2 < n {
                        push_run(&mut p, plain(&chars_of(", ")));
                    } else {
                        push_run(&mut p, plain(&chars_of(" and ")));
                    }
                } else if n == 2 && i == 0 {
                    push_run(&mut p, plain(&chars_of(" and ")));
                }
                proof {
                    assert(runs_view(p@) =~= head + prose_parties(parties.take(i + 1), n as int));
                }
                i += 1;
            }
            let ghost pv0 = runs_view(p@);
            push_run(&mut p, plain(&chars_of(".")));
            let ghost pv = runs_view(p@);
            proof {
                assert(paras_view(out@) =~= Seq::<Seq<RunView>>::empty());
            }
            push_para(&mut out, p);
            push_empty(&mut out);
            proof {
                assert(parties.take(i as int) =~= parties);
                assert(middle@ =~= ") is entered into as of "@ + date@ + " "@ + between_word(n as nat) + " "@);
                assert(head == opening_runs(*meta, ") is entered into as of "@ + date@ + " "@ + between_word(n as nat) + " "@));
                assert(pv =~= head + prose_parties(meta.parties@, n as int) + seq![RunView::Plain("."@)]);
                assert(paras_view(out@) =~= preamble_spec(*meta, *cfg, date@));
            }
        },
        PreambleStyle::Custom => {
            let ty = match &meta.doc_type {
                Some(d) => text_of(d),
                None => chars_of("Agreement"),
            };
            proof {
                reveal_strlit("{title}");
                reveal_strlit("{type}");
                reveal_strlit("{date}");
            }
            let a = replace_str(&text_of(&cfg.template), "{title}", meta.title.as_str());
            let b = replace_str(&a, "{type}", string_of(&ty).as_str());
            let c = replace_str(&b, "{date}", date);
            let lines = split_lines(&c);
            assert(ty@ == doc_type_text(*meta));
            assert(c@ == custom_opening(*cfg, *meta, date@));
            let ghost lv = crate::text::lines_view(lines@);
            let mut k: usize = 0;
            proof {
                assert(paras_view(out@) =~= lv.take(0).map_values(
                    |l: Seq<char>| template_runs(without_empty_parens(l)),
                ));
            }
            while k < lines.len()
                invariant
                    k <= lines@.len(),
                    lv == crate::text::lines_view(lines@),
                    paras_view(out@) == lv.take(k as int).map_values(
                        |l: Seq<char>| template_runs(without_empty_parens(l)),
                    ),
                decreases lines@.len() - k,
            {
                let cleaned = clean_empty_parens(string_of(&lines[k]).as_str());
                let ghost o0 = paras_view(out@);
                push_para(&mut out, template_paragraph(&chars_of(cleaned.as_str())));
                proof {
                    assert(lv[k as int] == lines@[k as int]@);
                    assert(paras_view(out@) =~= lv.take(k + 1).map_values(
                        |l: Seq<char>| template_runs(without_empty_parens(l)),
                    ));
                }
                k += 1;
            }
            push_empty(&mut out);
            let ghost head = paras_view(out@);
            proof {
                assert(lv.take(k as int) =~= lv);
                assert(parties.take(0) =~= Seq::<Party>::empty());
                assert(paras_view(out@) =~= head + custom_parties(*cfg, parties.take(0), n as nat));
            }
            let mut i: usize = 0;
            while i < n
                invariant
                    i <= n,
                    n == parties.len(),
                    parties == meta.parties@,
                    paras_view(out@) == head + custom_parties(*cfg, parties.take(i as int), n as nat),
                decreases n - i,
            {
                proof {
                    crate::parser::clause::lemma_take_next(parties, i as int);
                }
                let line = custom_party(cfg, &meta.parties[i], i + 1 >= n);
                push_para(&mut out, template_paragraph(&line));
                proof {
                    assert(paras_view(out@) =~= head + custom_parties(*cfg, parties.take(i + 1), n as nat));
                }
                i += 1;
            }
            push_empty(&mut out);
            proof {
                assert(parties.take(i as int) =~= parties);
                let pre = split_template(custom_opening(*cfg, *meta, date@)).map_values(
                    |l: Seq<char>| template_runs(without_empty_parens(l)),
                );
                assert(lv == split_template(custom_opening(*cfg, *meta, date@)));
                assert(pre =~= lv.map_values(|l: Seq<char>| template_runs(without_empty_parens(l))));
                assert(head == pre + seq![Seq::<RunView>::empty()]);
                assert(meta.parties@.len() == n);
                assert(paras_view(out@) == head + custom_parties(*cfg, parties, n as nat) + seq![Seq::<RunView>::empty()]);
                assert(cfg.style == PreambleStyle::Custom);
                assert(preamble_spec(*meta, *cfg, date@) == pre + seq![Seq::<RunView>::empty()] + custom_parties(
                    *cfg,
                    meta.parties@,
                    meta.parties@.len(),
                ) + seq![Seq::<RunView>::empty()]);
                assert(paras_view(out@) =~= preamble_spec(*meta, *cfg, date@));
            }
        },
    }
    out
}

} // verus!
