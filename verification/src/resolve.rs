//! Resolution: clause numbering, anchors and cross-references, defined
//! terms and schedule items.
use vstd::prelude::*;

use crate::error::{DiagLevel, Diagnostic, SourcePos};
use crate::lint::{diag_view, diags_view, placed_view, DiagView};
use crate::model::{
    full_reference_spec, inlines_view, level_depth, lower_letter_ok, number_formattable, upper_letter_ok, Addendum,
    AddendumContent, BodyElement, Clause, ClauseBody, ClauseContent, ClauseLevel, ClauseNumber,
    Document, InlineContent, InlineView,
};
use crate::parser::clause::{extends, lemma_extends_trans};
use crate::terms::{
    all_defined_terms, document_defs, document_text, item_terms, item_view, patterns_view,
    reports_unused_from, schedule_entries, schedule_pattern_spec,
    addenda_formattable, collect_and_validate_terms, entries_sorted, items_in_range,
    reports_unreferenced_at, sort_entries, ScheduleContext, SortEntry, entry_lt, text_lt, lemma_multiset_map,
    warns, lemma_warns_refl, lemma_warns_trans, str_opt_view,
};
use crate::pattern::regex_escaped;
use crate::text::{chars_of, decimal, extend_chars, extend_str, str_eq, string_of};
use crate::style::NumberingConvention;

verus! {

// ---------------------------------------------------------------------------
// Clause numbering
// ---------------------------------------------------------------------------

/// `n` as a number component, saturating at `u32::MAX`.
pub open spec fn sat_index(n: int) -> u32 {
    if n < u32::MAX {
        n as u32
    } else {
        u32::MAX
    }
}

/// The number of a child clause at `level` that is the `idx`-th child of a
/// clause numbered `parent`, under the top-level clause `top`. The parent's
/// components are carried down; where the parent is not at the level above,
/// missing components are 0 for the clause and 1 below it.
pub open spec fn child_number(
    level: ClauseLevel,
    top: u32,
    parent: Option<ClauseNumber>,
    idx: u32,
) -> ClauseNumber {
    match level {
        ClauseLevel::TopLevel => ClauseNumber::TopLevel(idx),
        ClauseLevel::Clause => ClauseNumber::Clause(top, idx),
        ClauseLevel::SubClause => {
            let c = match parent {
                Some(ClauseNumber::Clause(_, c)) => c,
                _ => 0,
            };
            ClauseNumber::SubClause(top, c, idx)
        },
        ClauseLevel::SubSubClause => {
            let (c, s) = match parent {
                Some(ClauseNumber::SubClause(_, c, s)) => (c, s),
                _ => (0, 1),
            };
            ClauseNumber::SubSubClause(top, c, s, idx)
        },
        ClauseLevel::Paragraph => {
            let (c, s, ss) = match parent {
                Some(ClauseNumber::SubSubClause(_, c, s, ss)) => (c, s, ss),
                _ => (0, 1, 1),
            };
            ClauseNumber::Paragraph(top, c, s, ss, idx)
        },
        ClauseLevel::SubParagraph => {
            let (c, s, ss, p) = match parent {
                Some(ClauseNumber::Paragraph(_, c, s, ss, p)) => (c, s, ss, p),
                _ => (0, 1, 1, 1),
            };
            ClauseNumber::SubParagraph(top, c, s, ss, p, idx)
        },
    }
}

/// The level a clause number belongs to.
pub open spec fn number_level(n: ClauseNumber) -> ClauseLevel {
    match n {
        ClauseNumber::TopLevel(_) => ClauseLevel::TopLevel,
        ClauseNumber::Clause(..) => ClauseLevel::Clause,
        ClauseNumber::SubClause(..) => ClauseLevel::SubClause,
        ClauseNumber::SubSubClause(..) => ClauseLevel::SubSubClause,
        ClauseNumber::Paragraph(..) => ClauseLevel::Paragraph,
        ClauseNumber::SubParagraph(..) => ClauseLevel::SubParagraph,
    }
}

/// The first component of a clause number: its top-level clause.
pub open spec fn number_top(n: ClauseNumber) -> u32 {
    match n {
        ClauseNumber::TopLevel(a) => a,
        ClauseNumber::Clause(a, _) => a,
        ClauseNumber::SubClause(a, _, _) => a,
        ClauseNumber::SubSubClause(a, _, _, _) => a,
        ClauseNumber::Paragraph(a, _, _, _, _) => a,
        ClauseNumber::SubParagraph(a, _, _, _, _, _) => a,
    }
}

/// The last component of a clause number: the clause's position among its
/// siblings.
pub open spec fn number_index(n: ClauseNumber) -> u32 {
    match n {
        ClauseNumber::TopLevel(a) => a,
        ClauseNumber::Clause(_, b) => b,
        ClauseNumber::SubClause(_, _, c) => c,
        ClauseNumber::SubSubClause(_, _, _, d) => d,
        ClauseNumber::Paragraph(_, _, _, _, e) => e,
        ClauseNumber::SubParagraph(_, _, _, _, _, f) => f,
    }
}

/// The number a clause number extends: all its components but the last.
pub open spec fn enclosing_number(n: ClauseNumber) -> Option<ClauseNumber> {
    match n {
        ClauseNumber::TopLevel(_) => None,
        ClauseNumber::Clause(a, _) => Some(ClauseNumber::TopLevel(a)),
        ClauseNumber::SubClause(a, b, _) => Some(ClauseNumber::Clause(a, b)),
        ClauseNumber::SubSubClause(a, b, c, _) => Some(ClauseNumber::SubClause(a, b, c)),
        ClauseNumber::Paragraph(a, b, c, d, _) => Some(ClauseNumber::SubSubClause(a, b, c, d)),
        ClauseNumber::SubParagraph(a, b, c, d, e, _) => Some(ClauseNumber::Paragraph(a, b, c, d, e)),
    }
}

/// A child's number is at the child's level and ends with its position;
/// under a top-level clause `top` it starts with `top`.
pub proof fn lemma_child_number_shape(level: ClauseLevel, top: u32, parent: Option<ClauseNumber>, idx: u32)
    ensures
        number_level(child_number(level, top, parent, idx)) == level,
        number_index(child_number(level, top, parent, idx)) == idx,
        level != ClauseLevel::TopLevel ==> number_top(child_number(level, top, parent, idx)) == top,
{
}

/// A numbered child's number extends its parent's: for a child one level
/// below a parent under the same top-level clause, dropping the child's
/// last component gives back the parent's number, and that last component
/// is the child's position among the parent's children.
pub proof fn lemma_child_number_extends_parent(level: ClauseLevel, top: u32, parent: ClauseNumber, idx: u32)
    requires
        level_depth(level) == level_depth(number_level(parent)) + 1,
        number_top(parent) == top,
    ensures
        enclosing_number(child_number(level, top, Some(parent), idx)) == Some(parent),
        number_index(child_number(level, top, Some(parent), idx)) == idx,
{
}

fn compute_child_number(
    level: ClauseLevel,
    top: u32,
    parent: Option<ClauseNumber>,
    idx: u32,
) -> (r: ClauseNumber)
    ensures
        r == child_number(level, top, parent, idx),
{
    match level {
        ClauseLevel::TopLevel => ClauseNumber::TopLevel(idx),
        ClauseLevel::Clause => ClauseNumber::Clause(top, idx),
        ClauseLevel::SubClause => {
            let c = match parent {
                Some(ClauseNumber::Clause(_, c)) => c,
                _ => 0,
            };
            ClauseNumber::SubClause(top, c, idx)
        },
        ClauseLevel::SubSubClause => {
            let (c, s) = match parent {
                Some(ClauseNumber::SubClause(_, c, s)) => (c, s),
                _ => (0, 1),
            };
            ClauseNumber::SubSubClause(top, c, s, idx)
        },
        ClauseLevel::Paragraph => {
            let (c, s, ss) = match parent {
                Some(ClauseNumber::SubSubClause(_, c, s, ss)) => (c, s, ss),
                _ => (0, 1, 1),
            };
            ClauseNumber::Paragraph(top, c, s, ss, idx)
        },
        ClauseLevel::SubParagraph => {
            let (c, s, ss, p) = match parent {
                Some(ClauseNumber::Paragraph(_, c, s, ss, p)) => (c, s, ss, p),
                _ => (0, 1, 1, 1),
            };
            ClauseNumber::SubParagraph(top, c, s, ss, p, idx)
        },
    }
}

/// Number of child clauses in the runs of a clause body.
pub open spec fn child_total(body: Seq<ClauseBody>) -> int
    decreases body.len(),
{
    if body.len() == 0 {
        0
    } else {
        child_total(body.drop_last()) + match body.last() {
            ClauseBody::Children(kids) => kids@.len() as int,
            _ => 0,
        }
    }
}

/// Every clause below `c` is numbered: the children of each clause, counted
/// across all its runs of children, get consecutive indices from 1, turned
/// into numbers by [`child_number`] under the top-level clause `top`.
pub open spec fn clause_numbered(c: Clause, top: u32) -> bool
    decreases c, 1int,
{
    children_numbered(c.body@, top, c.number)
}

/// The children in the runs of `body` are numbered as [`clause_numbered`] says.
pub open spec fn children_numbered(body: Seq<ClauseBody>, top: u32, parent: Option<ClauseNumber>) -> bool
    decreases body, 0int,
{
    if body.len() == 0 {
        true
    } else {
        &&& children_numbered(body.drop_last(), top, parent)
        &&& match body.last() {
            ClauseBody::Children(kids) => forall|j: int|
                #![trigger kids@[j]]
                0 <= j < kids@.len() ==> {
                    &&& kids@[j].number == Some(
                        child_number(
                            kids@[j].level,
                            top,
                            parent,
                            sat_index(child_total(body.drop_last()) + j + 1),
                        ),
                    )
                    &&& clause_numbered(kids@[j], top)
                },
            _ => true,
        }
    }
}

/// Two clause trees agree in everything but their numbers.
pub open spec fn clause_same_shape(a: Clause, b: Clause) -> bool
    decreases a, 1int,
{
    &&& a.level == b.level
    &&& a.heading == b.heading
    &&& a.anchor == b.anchor
    &&& a.source_pos == b.source_pos
    &&& body_same_shape(a.body@, b.body@)
}

/// Two clause bodies agree in everything but the numbers of their clauses.
pub open spec fn body_same_shape(a: Seq<ClauseBody>, b: Seq<ClauseBody>) -> bool
    decreases a, 0int,
{
    &&& a.len() == b.len()
    &&& forall|k: int|
        #![trigger a[k]]
        0 <= k < a.len() ==> match a[k] {
            ClauseBody::Content(x) => b[k] == ClauseBody::Content(x),
            ClauseBody::Children(xs) => match b[k] {
                ClauseBody::Children(ys) => xs@.len() == ys@.len() && forall|j: int|
                    #![trigger xs@[j]]
                    0 <= j < xs@.len() ==> clause_same_shape(xs@[j], ys@[j]),
                _ => false,
            },
        }
}

proof fn lemma_sat_index(t: int, j: int)
    requires
        t >= 0,
        j >= 0,
    ensures
        sat_index(sat_index(t) + j) == sat_index(t + j),
{
}

proof fn lemma_child_total_push(body: Seq<ClauseBody>, e: ClauseBody)
    ensures
        body.push(e).drop_last() == body,
        child_total(body.push(e)) == child_total(body) + match e {
            ClauseBody::Children(kids) => kids@.len() as int,
            _ => 0,
        },
{
    assert(body.push(e).drop_last() =~= body);
}

#[verifier::loop_isolation(false)]
/// Number the clauses of a run of children: the `j`-th gets index
/// `start + j + 1` (saturating). Returns the numbered clauses and the index
/// of the last one.
fn number_kids(kids: Vec<Clause>, top: u32, parent: Option<ClauseNumber>, start: u32) -> (r: (
    Vec<Clause>,
    u32,
))
    ensures
        r.0@.len() == kids@.len(),
        forall|j: int|
            #![trigger r.0@[j]]
            0 <= j < kids@.len() ==> {
                &&& r.0@[j].number == Some(
                    child_number(kids@[j].level, top, parent, sat_index(start + j + 1)),
                )
                &&& clause_numbered(r.0@[j], top)
                &&& clause_same_shape(kids@[j], r.0@[j])
            },
        r.1 == sat_index(start + kids@.len()),
    decreases kids, 0int,
{
    let ghost kv0 = kids;
    let ghost k0 = kids@;
    let mut rest = kids;
    let mut out: Vec<Clause> = Vec::new();
    let mut i: u32 = start;
    while rest.len() > 0
        invariant
            out@.len() + rest@.len() == k0.len(),
            rest@ == k0.skip(out@.len() as int),
            i == sat_index(start + out@.len()),
            forall|j: int|
                #![trigger out@[j]]
                0 <= j < out@.len() ==> {
                    &&& out@[j].number == Some(
                        child_number(k0[j].level, top, parent, sat_index(start + j + 1)),
                    )
                    &&& clause_numbered(out@[j], top)
                    &&& clause_same_shape(k0[j], out@[j])
                },
        decreases rest@.len(),
    {
        let ghost j = out@.len() as int;
        let kid = rest.remove(0);
        proof {
            assert(kid == k0[j]);
            assert(rest@ =~= k0.skip(j + 1));
        }
        let idx = if i < u32::MAX {
            i + 1
        } else {
            u32::MAX
        };
        proof {
            lemma_sat_index(start + j, 1);
        }
        let n = compute_child_number(kid.level, top, parent, idx);
        proof {
            assert(decreases_to!(kv0 => kv0@));
            assert(decreases_to!(kv0@ => kv0@[j]));
        }
        let numbered = number_clause(kid, n, top);
        let ghost before = out@;
        out.push(numbered);
        i = idx;
        proof {
            assert forall|q: int|
                #![trigger out@[q]]
                0 <= q < out@.len() implies {
                &&& out@[q].number == Some(
                    child_number(k0[q].level, top, parent, sat_index(start + q + 1)),
                )
                &&& clause_numbered(out@[q], top)
                &&& clause_same_shape(k0[q], out@[q])
            } by {
                if q < before.len() {
                    assert(out@[q] == before[q]);
                }
            }
        }
    }
    (out, i)
}

/// Give a clause the number `number` and number all the clauses below it.
#[verifier::loop_isolation(false)]
fn number_clause(c: Clause, number: ClauseNumber, top: u32) -> (r: Clause)
    ensures
        r.number == Some(number),
        clause_numbered(r, top),
        clause_same_shape(c, r),
    decreases c, 1int,
{
    let ghost c0 = c;
    let Clause { level, heading, anchor, number: _, source_pos, body } = c;
    let parent = Some(number);
    let ghost orig = body@;
    let mut rest = body;
    let mut out: Vec<ClauseBody> = Vec::new();
    let mut i: u32 = 0;
    proof {
        assert(orig.take(0) =~= Seq::<ClauseBody>::empty());
    }
    while rest.len() > 0
        invariant
            orig == c0.body@,
            out@.len() + rest@.len() == orig.len(),
            rest@ == orig.skip(out@.len() as int),
            i == sat_index(child_total(out@)),
            child_total(out@) >= 0,
            children_numbered(out@, top, parent),
            body_same_shape(orig.take(out@.len() as int), out@),
        decreases rest@.len(),
    {
        let ghost k = out@.len() as int;
        let ghost before = out@;
        let el = rest.remove(0);
        proof {
            assert(el == orig[k]);
            assert(rest@ =~= orig.skip(k + 1));
            assert(orig.take(k + 1) =~= orig.take(k).push(el));
        }
        match el {
            ClauseBody::Content(x) => {
                out.push(ClauseBody::Content(x));
                proof {
                    lemma_child_total_push(before, ClauseBody::Content(x));
                }
            },
            ClauseBody::Children(kids) => {
                let ghost kv = kids@;
                proof {
                    let e = c0.body@[k];
                    assert(e == ClauseBody::Children(kids));
                    assert(decreases_to!(c0 => c0.body));
                    assert(decreases_to!(c0.body => c0.body@));
                    assert(decreases_to!(c0.body@ => e));
                    assert(decreases_to!(e => e->Children_0));
                    assert(decreases_to!(c0 => e->Children_0));
                    assert(e->Children_0 == kids);
                }
                let (nk, ni) = number_kids(kids, top, parent, i);
                let ghost nkv = nk@;
                out.push(ClauseBody::Children(nk));
                i = ni;
                proof {
                    lemma_child_total_push(before, ClauseBody::Children(nk));
                    lemma_sat_index(child_total(before), kv.len() as int);
                    assert forall|j: int|
                        #![trigger nkv[j]]
                        0 <= j < nkv.len() implies nkv[j].number == Some(
                            child_number(
                                nkv[j].level,
                                top,
                                parent,
                                sat_index(child_total(out@.drop_last()) + j + 1),
                            ),
                        ) by {
                        lemma_sat_index(child_total(before), j + 1);
                        assert(nkv[j].level == kv[j].level);
                    }
                }
            },
        }
        proof {
            let a = orig.take(k + 1);
            assert forall|q: int| #![trigger a[q]] 0 <= q < a.len() implies match a[q] {
                ClauseBody::Content(x) => out@[q] == ClauseBody::Content(x),
                ClauseBody::Children(xs) => match out@[q] {
                    ClauseBody::Children(ys) => xs@.len() == ys@.len() && forall|j: int|
                        #![trigger xs@[j]]
                        0 <= j < xs@.len() ==> clause_same_shape(xs@[j], ys@[j]),
                    _ => false,
                },
            } by {
                if q < k {
                    assert(a[q] == orig.take(k)[q]);
                    assert(out@[q] == before[q]);
                }
            }
        }
    }
    proof {
        assert(orig.take(orig.len() as int) =~= orig);
    }
    Clause { level, heading, anchor, number: Some(number), source_pos, body: out }
}

/// Number of clauses among the first `k` elements of a body.
pub open spec fn clauses_before(body: Seq<BodyElement>, k: int) -> int
    decreases k,
{
    if k <= 0 {
        0
    } else {
        clauses_before(body, k - 1) + if body[k - 1] is Clause {
            1int
        } else {
            0int
        }
    }
}

/// A body is numbered: its `k`-th clause (from 1) is top-level clause `k`
/// (saturating), and the clauses below it are numbered under it.
pub open spec fn body_numbered(body: Seq<BodyElement>) -> bool {
    forall|k: int|
        #![trigger body[k]]
        0 <= k < body.len() ==> (body[k] matches BodyElement::Clause(c) ==> {
            let top = sat_index(clauses_before(body, k) + 1);
            &&& c.number == Some(ClauseNumber::TopLevel(top))
            &&& clause_numbered(c, top)
        })
}

/// Two bodies agree in everything but the numbers of their clauses.
pub open spec fn elements_same_shape(a: Seq<BodyElement>, b: Seq<BodyElement>) -> bool {
    &&& a.len() == b.len()
    &&& forall|k: int|
        #![trigger a[k]]
        0 <= k < a.len() ==> match a[k] {
            BodyElement::Clause(x) => b[k] matches BodyElement::Clause(y) && clause_same_shape(x, y),
            _ => b[k] == a[k],
        }
}

proof fn lemma_clauses_before_step(body: Seq<BodyElement>, k: int)
    requires
        0 <= k,
    ensures
        clauses_before(body, k + 1) == clauses_before(body, k) + if body[k] is Clause {
            1int
        } else {
            0int
        },
        clauses_before(body, k) >= 0,
    decreases k,
{
    if k > 0 {
        lemma_clauses_before_step(body, k - 1);
    }
}

proof fn lemma_clauses_before_prefix(a: Seq<BodyElement>, b: Seq<BodyElement>, k: int)
    requires
        0 <= k <= a.len(),
        k <= b.len(),
        forall|q: int| 0 <= q < k ==> (#[trigger] a[q] is Clause) == (b[q] is Clause),
    ensures
        clauses_before(a, k) == clauses_before(b, k),
    decreases k,
{
    if k > 0 {
        lemma_clauses_before_prefix(a, b, k - 1);
        assert(a[k - 1] is Clause == b[k - 1] is Clause);
    }
}

/// Number the clauses of a body: each top-level clause in order from 1, and
/// below each, its children in order across their runs.
#[verifier::loop_isolation(false)]
pub fn assign_clause_numbers(body: &mut Vec<BodyElement>)
    ensures
        body_numbered(final(body)@),
        elements_same_shape(old(body)@, final(body)@),
{
    let ghost orig = body@;
    let mut rest: Vec<BodyElement> = Vec::new();
    std::mem::swap(body, &mut rest);
    let mut out: Vec<BodyElement> = Vec::new();
    let mut top: u32 = 0;
    while rest.len() > 0
        invariant
            out@.len() + rest@.len() == orig.len(),
            rest@ == orig.skip(out@.len() as int),
            top == sat_index(clauses_before(out@, out@.len() as int)),
            body_numbered(out@),
            forall|q: int|
                #![trigger out@[q]]
                0 <= q < out@.len() ==> match orig[q] {
                    BodyElement::Clause(x) => out@[q] matches BodyElement::Clause(y)
                        && clause_same_shape(x, y),
                    _ => out@[q] == orig[q],
                },
        decreases rest@.len(),
    {
        let ghost k = out@.len() as int;
        let ghost before = out@;
        let el = rest.remove(0);
        proof {
            assert(el == orig[k]);
            assert(rest@ =~= orig.skip(k + 1));
            lemma_clauses_before_step(before, k);
        }
        match el {
            BodyElement::Clause(c) => {
                let next = if top < u32::MAX {
                    top + 1
                } else {
                    u32::MAX
                };
                proof {
                    lemma_sat_index(clauses_before(before, k), 1);
                }
                let numbered = number_clause(c, ClauseNumber::TopLevel(next), next);
                out.push(BodyElement::Clause(numbered));
                top = next;
            },
            other => {
                out.push(other);
            },
        }
        proof {
            assert forall|q: int| 0 <= q < k + 1 implies (#[trigger] out@[q] is Clause) == (
            out@[q] is Clause) by {}
            assert forall|q: int| 0 <= q <= k implies clauses_before(out@, q) == clauses_before(
                before,
                q,
            ) by {
                if q <= k {
                    assert forall|p: int| 0 <= p < q implies (#[trigger] out@[p] is Clause) == (
                    before[p] is Clause) by {
                        assert(out@[p] == before[p]);
                    }
                    lemma_clauses_before_prefix(out@, before, q);
                }
            }
            lemma_clauses_before_step(out@, k);
            assert forall|q: int|
                #![trigger out@[q]]
                0 <= q < out@.len() implies (out@[q] matches BodyElement::Clause(c) ==> {
                let t = sat_index(clauses_before(out@, q) + 1);
                &&& c.number == Some(ClauseNumber::TopLevel(t))
                &&& clause_numbered(c, t)
            }) by {
                if q < k {
                    assert(out@[q] == before[q]);
                    assert(before[q] is Clause ==> {
                        let t = sat_index(clauses_before(before, q) + 1);
                        &&& before[q]->Clause_0.number == Some(ClauseNumber::TopLevel(t))
                        &&& clause_numbered(before[q]->Clause_0, t)
                    });
                }
            }
        }
    }
    *body = out;
}

/// Every clause number in the tree can be formatted under `convention`.
pub open spec fn tree_formattable(c: Clause, convention: NumberingConvention) -> bool
    decreases c, 1int,
{
    &&& c.number matches Some(n) ==> number_formattable(n, convention)
    &&& runs_formattable(c.body@, convention)
}

/// Every clause number below the runs of a clause body can be formatted.
pub open spec fn runs_formattable(body: Seq<ClauseBody>, convention: NumberingConvention) -> bool
    decreases body, 0int,
{
    if body.len() == 0 {
        true
    } else {
        &&& runs_formattable(body.drop_last(), convention)
        &&& match body.last() {
            ClauseBody::Children(kids) => forall|j: int|
                #![trigger kids@[j]]
                0 <= j < kids@.len() ==> tree_formattable(kids@[j], convention),
            _ => true,
        }
    }
}

/// Every clause number in a body can be formatted.
pub open spec fn elements_formattable(body: Seq<BodyElement>, convention: NumberingConvention) -> bool {
    forall|k: int|
        #![trigger body[k]]
        0 <= k < body.len() ==> (body[k] matches BodyElement::Clause(c) ==> tree_formattable(
            c,
            convention,
        ))
}

fn letter_ok(n: u32, upper: bool) -> (r: bool)
    ensures
        r == if upper {
            upper_letter_ok(n)
        } else {
            lower_letter_ok(n)
        },
{
    if n < 1 {
        false
    } else if upper {
        (n - 1) % 256 <= 190
    } else {
        (n - 1) % 256 <= 158
    }
}

/// Whether a clause number can be formatted under `convention`.
pub fn is_formattable(n: ClauseNumber, convention: NumberingConvention) -> (r: bool)
    ensures
        r == number_formattable(n, convention),
{
    match convention {
        NumberingConvention::Decimal => true,
        NumberingConvention::Commonwealth => match n {
            ClauseNumber::TopLevel(_) | ClauseNumber::Clause(_, _) => true,
            ClauseNumber::SubClause(_, _, c) | ClauseNumber::SubSubClause(_, _, c, _) => letter_ok(c, false),
            ClauseNumber::Paragraph(_, _, c, _, e) | ClauseNumber::SubParagraph(_, _, c, _, e, _) =>
                letter_ok(c, false) && letter_ok(e, true),
        },
        NumberingConvention::UsTraditional => match n {
            ClauseNumber::TopLevel(_) => true,
            ClauseNumber::Clause(_, b) | ClauseNumber::SubClause(_, b, _) => letter_ok(b, true),
            ClauseNumber::SubSubClause(_, b, _, d) | ClauseNumber::Paragraph(_, b, _, d, _) =>
                letter_ok(b, true) && letter_ok(d, false),
            ClauseNumber::SubParagraph(_, b, _, d, _, g) => letter_ok(b, true) && letter_ok(d, false)
                && letter_ok(g, false),
        },
    }
}

/// Whether every clause number in a tree can be formatted under `convention`.
#[verifier::loop_isolation(false)]
pub fn clause_formattable(c: &Clause, convention: NumberingConvention) -> (r: bool)
    ensures
        r == tree_formattable(*c, convention),
    decreases c,
{
    let own = match c.number {
        Some(n) => is_formattable(n, convention),
        None => true,
    };
    if !own {
        return false;
    }
    let mut k: usize = 0;
    while k < c.body.len()
        invariant
            k <= c.body@.len(),
            own,
            runs_formattable(c.body@.take(k as int), convention),
        decreases c.body@.len() - k,
    {
        proof {
            assert(c.body@.take(k + 1).drop_last() =~= c.body@.take(k as int));
        }
        match &c.body[k] {
            ClauseBody::Children(kids) => {
                let mut j: usize = 0;
                while j < kids.len()
                    invariant
                        j <= kids@.len(),
                        forall|q: int| 0 <= q < j ==> tree_formattable(#[trigger] kids@[q], convention),
                    decreases kids@.len() - j,
                {
                    proof {
                        assert(decreases_to!(*c => c.body));
                        assert(decreases_to!(c.body => c.body@));
                        assert(decreases_to!(c.body@ => c.body@[k as int]));
                        assert(decreases_to!(c.body@[k as int] => c.body@[k as int]->Children_0));
                        assert(decreases_to!(*kids => kids@));
                        assert(decreases_to!(kids@ => kids@[j as int]));
                    }
                    if !clause_formattable(&kids[j], convention) {
                        proof {
                            assert(c.body@.take(k + 1).last() == c.body@[k as int]);
                            assert(!runs_formattable(c.body@.take(k + 1), convention));
                            if runs_formattable(c.body@, convention) {
                                lemma_runs_prefix(c.body@, k + 1, convention);
                            }
                        }
                        return false;
                    }
                    j += 1;
                }
            },
            _ => {},
        }
        k += 1;
    }
    proof {
        assert(c.body@.take(c.body@.len() as int) =~= c.body@);
    }
    true
}

proof fn lemma_runs_prefix(body: Seq<ClauseBody>, n: int, convention: NumberingConvention)
    requires
        0 <= n <= body.len(),
        runs_formattable(body, convention),
    ensures
        runs_formattable(body.take(n), convention),
    decreases body.len(),
{
    if n < body.len() {
        assert(body.take(n) =~= body.drop_last().take(n));
        lemma_runs_prefix(body.drop_last(), n, convention);
    } else {
        assert(body.take(n) =~= body);
    }
}

/// Whether every clause number in a body can be formatted under `convention`.
pub fn body_formattable(body: &Vec<BodyElement>, convention: NumberingConvention) -> (r: bool)
    ensures
        r == elements_formattable(body@, convention),
{
    let mut k: usize = 0;
    while k < body.len()
        invariant
            k <= body@.len(),
            forall|q: int|
                #![trigger body@[q]]
                0 <= q < k ==> (body@[q] matches BodyElement::Clause(c) ==> tree_formattable(
                    c,
                    convention,
                )),
        decreases body@.len() - k,
    {
        match &body[k] {
            BodyElement::Clause(c) => {
                if !clause_formattable(c, convention) {
                    return false;
                }
            },
            _ => {},
        }
        k += 1;
    }
    true
}

// ---------------------------------------------------------------------------
// Anchors
// ---------------------------------------------------------------------------

/// A registered anchor: its id, the reference text it resolves to, where it
/// was declared, and whether any cross-reference points at it.
#[derive(Debug)]
pub struct AnchorInfo {
    pub id: String,
    pub reference: String,
    pub pos: Option<SourcePos>,
    pub used: bool,
}

/// The first entry of the anchor map with the id `id`.
pub open spec fn find_spec(map: Seq<AnchorInfo>, id: Seq<char>) -> Option<int>
    decreases map.len(),
{
    if map.len() == 0 {
        None
    } else {
        match find_spec(map.drop_last(), id) {
            Some(k) => Some(k),
            None => if map.last().id@ == id {
                Some(map.len() - 1)
            } else {
                None
            },
        }
    }
}

pub proof fn lemma_find_spec(map: Seq<AnchorInfo>, id: Seq<char>)
    ensures
        match find_spec(map, id) {
            Some(k) => 0 <= k < map.len() && map[k].id@ == id && forall|q: int|
                0 <= q < k ==> (#[trigger] map[q]).id@ != id,
            None => forall|q: int| 0 <= q < map.len() ==> (#[trigger] map[q]).id@ != id,
        },
    decreases map.len(),
{
    if map.len() > 0 {
        lemma_find_spec(map.drop_last(), id);
        match find_spec(map.drop_last(), id) {
            Some(k) => {
                assert forall|q: int| 0 <= q < k implies (#[trigger] map[q]).id@ != id by {
                    assert(map[q] == map.drop_last()[q]);
                }
            },
            None => {
                assert forall|q: int| 0 <= q < map.len() - 1 implies (#[trigger] map[q]).id@ != id by {
                    assert(map[q] == map.drop_last()[q]);
                }
            },
        }
    }
}

/// The first entry with a given id is unique: any entry with that id that
/// no earlier entry shares is the one `find_spec` names.
pub proof fn lemma_find_spec_unique(map: Seq<AnchorInfo>, id: Seq<char>, k: int)
    requires
        0 <= k < map.len(),
        map[k].id@ == id,
        forall|q: int| 0 <= q < k ==> (#[trigger] map[q]).id@ != id,
    ensures
        find_spec(map, id) == Some(k),
{
    lemma_find_spec(map, id);
    match find_spec(map, id) {
        Some(j) => {
            if j < k {
                assert(map[j].id@ != id);
            }
            if k < j {
                assert(map[k].id@ != id);
            }
        },
        None => {
            assert(map[k].id@ != id);
        },
    }
}

/// An anchor by its values: its id and the reference text it resolves to.
pub type AnchorEntry = (Seq<char>, Seq<char>);

/// The entries of an anchor map.
pub open spec fn map_entries(map: Seq<AnchorInfo>) -> Seq<AnchorEntry> {
    map.map_values(|a: AnchorInfo| (a.id@, a.reference@))
}

/// The first entry with the id `id`.
pub open spec fn find_entry(m: Seq<AnchorEntry>, id: Seq<char>) -> Option<int>
    decreases m.len(),
{
    if m.len() == 0 {
        None
    } else {
        match find_entry(m.drop_last(), id) {
            Some(k) => Some(k),
            None => if m.last().0 == id {
                Some(m.len() - 1)
            } else {
                None
            },
        }
    }
}

/// Registering an anchor: a new id is added at the end; an id that is
/// already there keeps its first declaration.
pub open spec fn register_entry(m: Seq<AnchorEntry>, e: AnchorEntry) -> Seq<AnchorEntry> {
    if find_entry(m, e.0) is Some {
        m
    } else {
        m.push(e)
    }
}

/// Registering anchors in order.
pub open spec fn register_entries(m: Seq<AnchorEntry>, es: Seq<AnchorEntry>) -> Seq<AnchorEntry>
    decreases es.len(),
{
    if es.len() == 0 {
        m
    } else {
        register_entry(register_entries(m, es.drop_last()), es.last())
    }
}

/// A `duplicate-anchor` report by its values: level, code, message and
/// location.
pub type AnchorReport = (DiagLevel, Seq<char>, Seq<char>, Option<Seq<char>>);

/// The values of a diagnostic as a report.
pub open spec fn report_of(d: Diagnostic) -> AnchorReport {
    (d.level, d.code@, d.message@, crate::frontmatter::opt_view(d.location))
}

/// The values of a list of diagnostics as reports.
pub open spec fn reports_of(s: Seq<Diagnostic>) -> Seq<AnchorReport> {
    s.map_values(|d: Diagnostic| report_of(d))
}

/// The message for an anchor declared again after its first declaration
/// at `first`.
pub open spec fn duplicate_anchor_message(id: Seq<char>, first: Seq<char>) -> Seq<char> {
    "Anchor '#"@ + id + "' is declared more than once (first declared at "@ + first
        + "); cross-references will resolve to the first declaration"@
}

/// The warnings registering `es` after `m` gives: one for each anchor whose
/// id is already registered, naming the first declaration, at the
/// duplicate's own reference.
pub open spec fn dup_reports(m: Seq<AnchorEntry>, es: Seq<AnchorEntry>) -> Seq<AnchorReport>
    decreases es.len(),
{
    if es.len() == 0 {
        Seq::empty()
    } else {
        let r = register_entries(m, es.drop_last());
        dup_reports(m, es.drop_last()) + match find_entry(r, es.last().0) {
            Some(k) => seq![
                (
                    DiagLevel::Warning,
                    "duplicate-anchor"@,
                    duplicate_anchor_message(es.last().0, r[k].1),
                    Some(es.last().1),
                ),
            ],
            None => Seq::empty(),
        }
    }
}

proof fn lemma_dup_concat(m: Seq<AnchorEntry>, a: Seq<AnchorEntry>, b: Seq<AnchorEntry>)
    ensures
        dup_reports(m, a + b) == dup_reports(m, a) + dup_reports(register_entries(m, a), b),
    decreases b.len(),
{
    if b.len() == 0 {
        assert(a + b =~= a);
        assert(dup_reports(m, a) + dup_reports(register_entries(m, a), b) =~= dup_reports(m, a));
    } else {
        assert((a + b).drop_last() =~= a + b.drop_last());
        assert((a + b).last() == b.last());
        lemma_dup_concat(m, a, b.drop_last());
        lemma_register_concat(m, a, b.drop_last());
        assert(dup_reports(m, a + b) =~= dup_reports(m, a) + dup_reports(register_entries(m, a), b));
    }
}

proof fn lemma_register_concat(m: Seq<AnchorEntry>, a: Seq<AnchorEntry>, b: Seq<AnchorEntry>)
    ensures
        register_entries(m, a + b) == register_entries(register_entries(m, a), b),
    decreases b.len(),
{
    if b.len() == 0 {
        assert(a + b =~= a);
    } else {
        assert((a + b).drop_last() =~= a + b.drop_last());
        assert((a + b).last() == b.last());
        lemma_register_concat(m, a, b.drop_last());
    }
}

/// The first declaration of an id wins: once anchors are registered in
/// order, an id that none of them declares is not found, and an id is found
/// at the entry of its first declaration.
pub proof fn lemma_first_declaration_wins(es: Seq<AnchorEntry>, id: Seq<char>)
    ensures
        (forall|j: int| 0 <= j < es.len() ==> (#[trigger] es[j]).0 != id) ==> find_entry(
            register_entries(Seq::empty(), es),
            id,
        ) is None,
        forall|k: int|
            0 <= k < es.len() && (#[trigger] es[k]).0 == id && (forall|j: int|
                0 <= j < k ==> (#[trigger] es[j]).0 != id) ==> {
                let r = register_entries(Seq::empty(), es);
                &&& find_entry(r, id) matches Some(q)
                &&& 0 <= q < r.len()
                &&& r[q] == es[k]
            },
    decreases es.len(),
{
    if es.len() > 0 {
        let init = es.drop_last();
        let e = es.last();
        lemma_first_declaration_wins(init, id);
        lemma_find_entry_bounds(register_entries(Seq::empty(), init), id);
        lemma_find_entry_bounds(register_entries(Seq::empty(), init), e.0);
        let r0 = register_entries(Seq::empty(), init);
        let r = register_entries(Seq::empty(), es);
        assert(r == register_entry(r0, e));
        if find_entry(r0, e.0) is None {
            assert(r.drop_last() =~= r0);
        }
        assert forall|k: int|
            0 <= k < es.len() && (#[trigger] es[k]).0 == id && (forall|j: int|
                0 <= j < k ==> (#[trigger] es[j]).0 != id) implies {
                &&& find_entry(r, id) matches Some(q)
                &&& 0 <= q < r.len()
                &&& r[q] == es[k]
            } by {
            if k < init.len() {
                assert(init[k] == es[k]);
                assert forall|j: int| 0 <= j < k implies (#[trigger] init[j]).0 != id by {
                    assert(init[j] == es[j]);
                }
            } else {
                assert forall|j: int| 0 <= j < init.len() implies (#[trigger] init[j]).0 != id by {
                    assert(init[j] == es[j]);
                }
            }
        }
        if forall|j: int| 0 <= j < es.len() ==> (#[trigger] es[j]).0 != id {
            assert forall|j: int| 0 <= j < init.len() implies (#[trigger] init[j]).0 != id by {
                assert(init[j] == es[j]);
            }
            assert(es[es.len() - 1] == e);
        }
    }
}

proof fn lemma_find_entry_bounds(m: Seq<AnchorEntry>, id: Seq<char>)
    ensures
        find_entry(m, id) matches Some(q) ==> 0 <= q < m.len() && m[q].0 == id,
    decreases m.len(),
{
    if m.len() > 0 {
        lemma_find_entry_bounds(m.drop_last(), id);
    }
}

proof fn lemma_find_entries(map: Seq<AnchorInfo>, id: Seq<char>)
    ensures
        find_spec(map, id) == find_entry(map_entries(map), id),
    decreases map.len(),
{
    if map.len() > 0 {
        lemma_find_entries(map.drop_last(), id);
        assert(map_entries(map).drop_last() =~= map_entries(map.drop_last()));
    }
}

/// The anchor a clause itself declares, with its reference text.
pub open spec fn own_entry(c: Clause, prefix: Seq<char>, convention: NumberingConvention) -> Seq<AnchorEntry> {
    match (c.anchor, c.number) {
        (Some(a), Some(n)) => seq![(a@, full_reference_spec(n, prefix, convention))],
        _ => Seq::empty(),
    }
}

/// The anchors of a clause tree in document order, each resolving to
/// `prefix` and the number of its clause.
pub open spec fn clause_entries(c: Clause, prefix: Seq<char>, convention: NumberingConvention) -> Seq<AnchorEntry>
    decreases c, 2int,
{
    own_entry(c, prefix, convention) + runs_entries(c.body@, prefix, convention)
}

/// The anchors of the child clauses in a clause body.
pub open spec fn runs_entries(b: Seq<ClauseBody>, prefix: Seq<char>, convention: NumberingConvention) -> Seq<AnchorEntry>
    decreases b, 1int,
{
    if b.len() == 0 {
        Seq::empty()
    } else {
        runs_entries(b.drop_last(), prefix, convention) + match b.last() {
            ClauseBody::Children(kids) => kids_entries(kids@, prefix, convention),
            _ => Seq::empty(),
        }
    }
}

/// The anchors of sibling clauses, in order.
pub open spec fn kids_entries(k: Seq<Clause>, prefix: Seq<char>, convention: NumberingConvention) -> Seq<AnchorEntry>
    decreases k, 0int,
{
    if k.len() == 0 {
        Seq::empty()
    } else {
        kids_entries(k.drop_last(), prefix, convention) + clause_entries(k.last(), prefix, convention)
    }
}

/// The anchors of the clauses among body elements, in order.
pub open spec fn elements_entries(es: Seq<BodyElement>, prefix: Seq<char>, convention: NumberingConvention) -> Seq<AnchorEntry>
    decreases es.len(),
{
    if es.len() == 0 {
        Seq::empty()
    } else {
        elements_entries(es.drop_last(), prefix, convention) + match es.last() {
            BodyElement::Clause(c) => clause_entries(c, prefix, convention),
            _ => Seq::empty(),
        }
    }
}

/// The anchors of addenda headings, each resolving to `Addendum N`.
pub open spec fn addenda_entries(adds: Seq<Addendum>) -> Seq<AnchorEntry>
    decreases adds.len(),
{
    if adds.len() == 0 {
        Seq::empty()
    } else {
        addenda_entries(adds.drop_last()) + match adds.last().anchor {
            Some(a) => seq![(a@, "Addendum "@ + decimal(adds.last().number as nat))],
            None => Seq::empty(),
        }
    }
}

/// The anchor table of a numbered document: the anchors of the recitals
/// (`Recital N`), of the body (`clause N`) and of the addenda, registered in
/// that order, the first declaration of an id winning.
pub open spec fn anchor_table(doc: Document, convention: NumberingConvention) -> Seq<AnchorEntry> {
    register_entries(Seq::empty(), anchor_list(doc, convention))
}

/// The anchors a numbered document declares, in the order they are
/// registered: recitals (`Recital N`), body (`clause N`), then addenda.
pub open spec fn anchor_list(doc: Document, convention: NumberingConvention) -> Seq<AnchorEntry> {
    (match doc.recitals {
        Some(r) => elements_entries(r.body@, "Recital"@, convention),
        None => Seq::empty(),
    }) + elements_entries(doc.body@, "clause"@, convention) + addenda_entries(doc.addenda@)
}

/// From `off` on, `dg` holds the `duplicate-anchor` warnings that
/// registering the anchors `es` gives, in order.
pub open spec fn anchors_reported_at(dg: Seq<Diagnostic>, off: int, es: Seq<AnchorEntry>) -> bool {
    let r = dup_reports(Seq::empty(), es);
    &&& 0 <= off
    &&& off + r.len() <= dg.len()
    &&& reports_of(dg.subrange(off, off + r.len())) == r
}

/// Index of the first entry with id `id`.
fn find_anchor(map: &Vec<AnchorInfo>, id: &str) -> (r: Option<usize>)
    ensures
        match r {
            Some(k) => find_spec(map@, id@) == Some(k as int),
            None => find_spec(map@, id@) is None,
        },
{
    let mut i: usize = 0;
    while i < map.len()
        invariant
            i <= map@.len(),
            forall|q: int| 0 <= q < i ==> (#[trigger] map@[q]).id@ != id@,
        decreases map@.len() - i,
    {
        if str_eq(map[i].id.as_str(), id) {
            proof {
                lemma_find_spec_unique(map@, id@, i as int);
            }
            return Some(i);
        }
        i += 1;
    }
    proof {
        lemma_find_spec(map@, id@);
        if find_spec(map@, id@) is Some {
            let k = find_spec(map@, id@)->0;
            assert(map@[k].id@ != id@);
        }
    }
    None
}

/// `new` is `old` with entries added at the end and, for old entries, at
/// most their `used` flags raised.
pub open spec fn map_grows(old: Seq<AnchorInfo>, new: Seq<AnchorInfo>) -> bool {
    &&& old.len() <= new.len()
    &&& forall|q: int|
        #![trigger new[q]]
        0 <= q < old.len() ==> {
            &&& new[q].id == old[q].id
            &&& new[q].reference == old[q].reference
            &&& new[q].pos == old[q].pos
            &&& old[q].used ==> new[q].used
        }
}

pub proof fn lemma_map_grows_trans(a: Seq<AnchorInfo>, b: Seq<AnchorInfo>, c: Seq<AnchorInfo>)
    requires
        map_grows(a, b),
        map_grows(b, c),
    ensures
        map_grows(a, c),
{
    assert forall|q: int| #![trigger c[q]] 0 <= q < a.len() implies {
        &&& c[q].id == a[q].id
        &&& c[q].reference == a[q].reference
        &&& c[q].pos == a[q].pos
        &&& a[q].used ==> c[q].used
    } by {
        assert(b[q].id == a[q].id);
    }
}

/// Register an anchor under `anchor_id` resolving to `reference`. When the
/// id is already taken the map is left as it is (the first declaration
/// stays in force) and a `duplicate-anchor` warning is pushed.
pub fn register_anchor(
    map: &mut Vec<AnchorInfo>,
    anchor_id: &str,
    reference: String,
    pos: Option<SourcePos>,
    diagnostics: &mut Vec<Diagnostic>,
)
    ensures
        find_spec(old(map)@, anchor_id@) is Some ==> {
            &&& final(map)@ == old(map)@
            &&& final(diagnostics)@.len() == old(diagnostics)@.len() + 1
            &&& final(diagnostics)@.drop_last() == old(diagnostics)@
            &&& final(diagnostics)@.last().code@ == "duplicate-anchor"@
        },
        map_entries(final(map)@) == register_entry(map_entries(old(map)@), (anchor_id@, reference@)),
        reports_of(final(diagnostics)@) == reports_of(old(diagnostics)@) + dup_reports(
            map_entries(old(map)@),
            seq![(anchor_id@, reference@)],
        ),
        find_spec(old(map)@, anchor_id@) is None ==> {
            &&& final(map)@.len() == old(map)@.len() + 1
            &&& final(map)@.drop_last() == old(map)@
            &&& final(map)@.last().id@ == anchor_id@
            &&& final(map)@.last().reference == reference
            &&& final(map)@.last().pos == pos
            &&& !final(map)@.last().used
            &&& final(diagnostics)@ == old(diagnostics)@
        },
{
    match find_anchor(map, anchor_id) {
        Some(k) => {
            proof {
                lemma_find_spec(map@, anchor_id@);
            }
            let mut msg: Vec<char> = Vec::new();
            extend_str(&mut msg, "Anchor '#");
            extend_str(&mut msg, anchor_id);
            extend_str(&mut msg, "' is declared more than once (first declared at ");
            extend_str(&mut msg, map[k].reference.as_str());
            extend_str(
                &mut msg,
                "); cross-references will resolve to the first declaration",
            );
            let ghost rv = reference@;
            diagnostics.push(
                Diagnostic::warning("duplicate-anchor", string_of(&msg)).at(reference).at_pos(pos),
            );
            proof {
                assert(diagnostics@.drop_last() =~= old(diagnostics)@);
                lemma_find_entries(old(map)@, anchor_id@);
                let e = seq![(anchor_id@, rv)];
                assert(e.drop_last() =~= Seq::<AnchorEntry>::empty());
                assert(register_entries(map_entries(old(map)@), e.drop_last()) == map_entries(old(map)@));
                assert(dup_reports(map_entries(old(map)@), e.drop_last()) =~= Seq::<AnchorReport>::empty());
                assert(map_entries(old(map)@)[k as int].1 == old(map)@[k as int].reference@);
                assert(msg@ =~= duplicate_anchor_message(anchor_id@, old(map)@[k as int].reference@));
                assert(reports_of(diagnostics@) =~= reports_of(old(diagnostics)@).push(
                    report_of(diagnostics@.last()),
                ));
            }
        },
        None => {
            let ghost r = reference@;
            map.push(
                AnchorInfo { id: string_of(&chars_of(anchor_id)), reference, pos, used: false },
            );
            proof {
                assert(map@.drop_last() =~= old(map)@);
                lemma_find_entries(old(map)@, anchor_id@);
                assert(map_entries(map@) =~= map_entries(old(map)@).push((anchor_id@, r)));
                let e = seq![(anchor_id@, r)];
                assert(e.drop_last() =~= Seq::<AnchorEntry>::empty());
                assert(register_entries(map_entries(old(map)@), e.drop_last()) == map_entries(old(map)@));
                assert(dup_reports(map_entries(old(map)@), e.drop_last()) =~= Seq::<AnchorReport>::empty());
                assert(reports_of(diagnostics@) + Seq::<AnchorReport>::empty() =~= reports_of(diagnostics@));
            }
        },
    }
}

pub proof fn lemma_runs_at(body: Seq<ClauseBody>, k: int, j: int, convention: NumberingConvention)
    requires
        runs_formattable(body, convention),
        0 <= k < body.len(),
        body[k] is Children,
        0 <= j < body[k]->Children_0@.len(),
    ensures
        tree_formattable(body[k]->Children_0@[j], convention),
    decreases body.len(),
{
    if k < body.len() - 1 {
        assert(body.drop_last()[k] == body[k]);
        lemma_runs_at(body.drop_last(), k, j, convention);
    }
}

proof fn lemma_extends_refl(a: Seq<Diagnostic>)
    ensures
        extends(a, a),
{
    assert(a.take(a.len() as int) =~= a);
}

/// Register the anchors of a clause tree, each resolving to
/// `prefix` and the clause's number (`clause 3.1(a)`).
fn collect_anchors(
    clause: &Clause,
    map: &mut Vec<AnchorInfo>,
    prefix: &str,
    convention: NumberingConvention,
    diagnostics: &mut Vec<Diagnostic>,
)
    requires
        tree_formattable(*clause, convention),
    ensures
        map_grows(old(map)@, final(map)@),
        none_used(old(map)@) ==> none_used(final(map)@),
        map_entries(final(map)@) == register_entries(
            map_entries(old(map)@),
            clause_entries(*clause, prefix@, convention),
        ),
        extends(old(diagnostics)@, final(diagnostics)@),
        reports_of(final(diagnostics)@) == reports_of(old(diagnostics)@) + dup_reports(
            map_entries(old(map)@),
            clause_entries(*clause, prefix@, convention),
        ),
    decreases clause,
{
    proof {
        lemma_extends_refl(diagnostics@);
    }
    let ghost e0 = map_entries(map@);
    let ghost own = own_entry(*clause, prefix@, convention);
    match (&clause.anchor, &clause.number) {
        (Some(anchor), Some(number)) => {
            let reference = number.full_reference(prefix, convention);
            let ghost r = reference@;
            register_anchor(map, anchor.as_str(), reference, clause.source_pos, diagnostics);
            proof {
                if none_used(old(map)@) {
                    assert forall|q: int| 0 <= q < map@.len() implies !(#[trigger] map@[q]).used by {
                        if map@.len() > old(map)@.len() && q < old(map)@.len() {
                            assert(map@[q] == map@.drop_last()[q]);
                        }
                    }
                }
                assert(diagnostics@.take(old(diagnostics)@.len() as int) =~= old(diagnostics)@);
                assert(own == seq![(anchor@, r)]);
                assert(own.drop_last() =~= Seq::<AnchorEntry>::empty());
                assert(register_entries(e0, Seq::<AnchorEntry>::empty()) == e0);
                assert(register_entries(e0, own.drop_last()) == e0);
                assert(own.last() == (anchor@, r));
                assert(register_entries(e0, own) == register_entry(e0, (anchor@, r)));
                assert(dup_reports(e0, own) == dup_reports(e0, seq![(anchor@, r)]));
            }
        },
        _ => {
            proof {
                assert(own =~= Seq::<AnchorEntry>::empty());
                assert(register_entries(e0, own) == e0);
                assert(reports_of(diagnostics@) =~= reports_of(old(diagnostics)@) + dup_reports(e0, own));
            }
        },
    }
    proof {
        assert(clause.body@.take(0) =~= Seq::<ClauseBody>::empty());
        assert(own + runs_entries(clause.body@.take(0), prefix@, convention) =~= own);
    }
    let mut k: usize = 0;
    while k < clause.body.len()
        invariant
            k <= clause.body@.len(),
            tree_formattable(*clause, convention),
            map_grows(old(map)@, map@),
            none_used(old(map)@) ==> none_used(map@),
            extends(old(diagnostics)@, diagnostics@),
            e0 == map_entries(old(map)@),
            own == own_entry(*clause, prefix@, convention),
            map_entries(map@) == register_entries(
                e0,
                own + runs_entries(clause.body@.take(k as int), prefix@, convention),
            ),
            reports_of(diagnostics@) == reports_of(old(diagnostics)@) + dup_reports(
                e0,
                own + runs_entries(clause.body@.take(k as int), prefix@, convention),
            ),
        decreases clause.body@.len() - k,
    {
        let ghost pre = own + runs_entries(clause.body@.take(k as int), prefix@, convention);
        proof {
            assert(clause.body@.take(k + 1).drop_last() =~= clause.body@.take(k as int));
            assert(clause.body@.take(k + 1).last() == clause.body@[k as int]);
        }
        match &clause.body[k] {
            ClauseBody::Children(kids) => {
                let mut j: usize = 0;
                proof {
                    assert(kids@.take(0) =~= Seq::<Clause>::empty());
                    assert(pre + kids_entries(kids@.take(0), prefix@, convention) =~= pre);
                }
                while j < kids.len()
                    invariant
                        k < clause.body@.len(),
                        j <= kids@.len(),
                        clause.body@[k as int] == ClauseBody::Children(*kids),
                        tree_formattable(*clause, convention),
                        map_grows(old(map)@, map@),
                        none_used(old(map)@) ==> none_used(map@),
                        extends(old(diagnostics)@, diagnostics@),
                        map_entries(map@) == register_entries(
                            e0,
                            pre + kids_entries(kids@.take(j as int), prefix@, convention),
                        ),
                        reports_of(diagnostics@) == reports_of(old(diagnostics)@) + dup_reports(
                            e0,
                            pre + kids_entries(kids@.take(j as int), prefix@, convention),
                        ),
                    decreases kids@.len() - j,
                {
                    proof {
                        lemma_runs_at(clause.body@, k as int, j as int, convention);
                        assert(decreases_to!(*clause => clause.body));
                        assert(decreases_to!(clause.body => clause.body@));
                        assert(decreases_to!(clause.body@ => clause.body@[k as int]));
                        assert(decreases_to!(clause.body@[k as int] => clause.body@[k as int]->Children_0));
                        assert(decreases_to!(*kids => kids@));
                        assert(decreases_to!(kids@ => kids@[j as int]));
                    }
                    let ghost m0 = map@;
                    let ghost d0 = diagnostics@;
                    let ghost before = pre + kids_entries(kids@.take(j as int), prefix@, convention);
                    collect_anchors(&kids[j], map, prefix, convention, diagnostics);
                    proof {
                        lemma_map_grows_trans(old(map)@, m0, map@);
                        lemma_extends_trans(old(diagnostics)@, d0, diagnostics@);
                        let ce = clause_entries(kids@[j as int], prefix@, convention);
                        lemma_register_concat(e0, before, ce);
                        lemma_dup_concat(e0, before, ce);
                        assert(reports_of(diagnostics@) =~= reports_of(old(diagnostics)@) + dup_reports(
                            e0,
                            before + ce,
                        ));
                        assert(kids@.take(j + 1).drop_last() =~= kids@.take(j as int));
                        assert(kids@.take(j + 1).last() == kids@[j as int]);
                        assert(before + ce =~= pre + kids_entries(kids@.take(j + 1), prefix@, convention));
                    }
                    j += 1;
                }
                proof {
                    assert(kids@.take(kids@.len() as int) =~= kids@);
                    assert(pre + kids_entries(kids@, prefix@, convention) =~= own + runs_entries(
                        clause.body@.take(k + 1),
                        prefix@,
                        convention,
                    ));
                }
            },
            _ => {
                proof {
                    assert(pre =~= own + runs_entries(clause.body@.take(k + 1), prefix@, convention));
                }
            },
        }
        k += 1;
    }
    proof {
        assert(clause.body@.take(clause.body@.len() as int) =~= clause.body@);
    }
}

/// Register the anchors of every clause of a body.
fn collect_body_anchors(
    body: &Vec<BodyElement>,
    map: &mut Vec<AnchorInfo>,
    prefix: &str,
    convention: NumberingConvention,
    diagnostics: &mut Vec<Diagnostic>,
)
    requires
        elements_formattable(body@, convention),
    ensures
        map_grows(old(map)@, final(map)@),
        none_used(old(map)@) ==> none_used(final(map)@),
        map_entries(final(map)@) == register_entries(
            map_entries(old(map)@),
            elements_entries(body@, prefix@, convention),
        ),
        extends(old(diagnostics)@, final(diagnostics)@),
        reports_of(final(diagnostics)@) == reports_of(old(diagnostics)@) + dup_reports(
            map_entries(old(map)@),
            elements_entries(body@, prefix@, convention),
        ),
{
    proof {
        lemma_extends_refl(diagnostics@);
        assert(body@.take(0) =~= Seq::<BodyElement>::empty());
    }
    let ghost e0 = map_entries(map@);
    let mut k: usize = 0;
    while k < body.len()
        invariant
            k <= body@.len(),
            elements_formattable(body@, convention),
            map_grows(old(map)@, map@),
            none_used(old(map)@) ==> none_used(map@),
            extends(old(diagnostics)@, diagnostics@),
            e0 == map_entries(old(map)@),
            map_entries(map@) == register_entries(e0, elements_entries(body@.take(k as int), prefix@, convention)),
            reports_of(diagnostics@) == reports_of(old(diagnostics)@) + dup_reports(
                e0,
                elements_entries(body@.take(k as int), prefix@, convention),
            ),
        decreases body@.len() - k,
    {
        let ghost pre = elements_entries(body@.take(k as int), prefix@, convention);
        proof {
            assert(body@.take(k + 1).drop_last() =~= body@.take(k as int));
            assert(body@.take(k + 1).last() == body@[k as int]);
        }
        match &body[k] {
            BodyElement::Clause(c) => {
                proof {
                    assert(body@[k as int] == BodyElement::Clause(*c));
                }
                let ghost m0 = map@;
                let ghost d0 = diagnostics@;
                collect_anchors(c, map, prefix, convention, diagnostics);
                proof {
                    lemma_map_grows_trans(old(map)@, m0, map@);
                    lemma_extends_trans(old(diagnostics)@, d0, diagnostics@);
                    lemma_register_concat(e0, pre, clause_entries(*c, prefix@, convention));
                    lemma_dup_concat(e0, pre, clause_entries(*c, prefix@, convention));
                    assert(reports_of(diagnostics@) =~= reports_of(old(diagnostics)@) + dup_reports(
                        e0,
                        pre + clause_entries(*c, prefix@, convention),
                    ));
                }
            },
            _ => {
                proof {
                    assert(pre + Seq::<AnchorEntry>::empty() =~= pre);
                    assert(dup_reports(e0, pre) + Seq::<AnchorReport>::empty() =~= dup_reports(e0, pre));
                }
            },
        }
        k += 1;
    }
    proof {
        assert(body@.take(body@.len() as int) =~= body@);
    }
}

// ---------------------------------------------------------------------------
// Cross-references
// ---------------------------------------------------------------------------

/// What an inline becomes once cross-references are resolved against the
/// anchor map: a cross-reference to a registered anchor takes that anchor's
/// reference text; anything else is left as it is.
pub open spec fn resolve_view(i: InlineView, map: Seq<AnchorInfo>) -> InlineView {
    match i {
        InlineView::CrossRef { display, anchor_id, resolved } => match find_spec(map, anchor_id) {
            Some(k) => InlineView::CrossRef {
                display,
                anchor_id,
                resolved: Some(map[k].reference@),
            },
            None => i,
        },
        _ => i,
    }
}

/// What an inline becomes once cross-references are resolved against the
/// anchor entries `m`: a cross-reference to a declared anchor takes the
/// reference text of its first declaration; anything else is left as it is.
pub open spec fn resolve_with(i: InlineView, m: Seq<AnchorEntry>) -> InlineView {
    match i {
        InlineView::CrossRef { display, anchor_id, resolved } => match find_entry(m, anchor_id) {
            Some(k) => InlineView::CrossRef { display, anchor_id, resolved: Some(m[k].1) },
            None => i,
        },
        _ => i,
    }
}

proof fn lemma_resolve_with(map: Seq<AnchorInfo>)
    ensures
        forall|i: InlineView| #[trigger] resolve_view(i, map) == resolve_with(i, map_entries(map)),
{
    assert forall|i: InlineView| #[trigger] resolve_view(i, map) == resolve_with(i, map_entries(map)) by {
        match i {
            InlineView::CrossRef { display, anchor_id, resolved } => {
                lemma_find_entries(map, anchor_id);
                lemma_find_spec(map, anchor_id);
            },
            _ => {},
        }
    }
}

proof fn lemma_keeps_entries(a: Seq<AnchorInfo>, b: Seq<AnchorInfo>)
    requires
        map_keeps(a, b),
    ensures
        map_entries(a) == map_entries(b),
{
    assert(map_entries(a) =~= map_entries(b)) by {
        assert forall|q: int| 0 <= q < a.len() implies map_entries(a)[q] == map_entries(b)[q] by {
            assert(b[q].id == a[q].id);
        }
    }
}

/// `b` is the run `a` with its cross-references resolved against `m`.
pub open spec fn run_resolved(a: Seq<InlineContent>, b: Seq<InlineContent>, m: Seq<AnchorEntry>) -> bool {
    inlines_view(b) == inlines_view(a).map_values(|i: InlineView| resolve_with(i, m))
}

/// Each run of `b` is the run of `a` at its place, resolved against `m`.
pub open spec fn runs_resolved(
    a: Seq<Vec<InlineContent>>,
    b: Seq<Vec<InlineContent>>,
    m: Seq<AnchorEntry>,
) -> bool {
    &&& a.len() == b.len()
    &&& forall|j: int| 0 <= j < a.len() ==> run_resolved(#[trigger] a[j]@, b[j]@, m)
}

/// A block of clause content with its cross-references resolved: its runs
/// are resolved; a table is left as it is.
pub open spec fn content_resolved(a: ClauseContent, b: ClauseContent, m: Seq<AnchorEntry>) -> bool {
    match (a, b) {
        (ClauseContent::Paragraph(x), ClauseContent::Paragraph(y)) => run_resolved(x@, y@, m),
        (ClauseContent::Blockquote(x), ClauseContent::Blockquote(y)) => run_resolved(x@, y@, m),
        (ClauseContent::BulletList(x), ClauseContent::BulletList(y)) => runs_resolved(x@, y@, m),
        (ClauseContent::Table(x), ClauseContent::Table(y)) => x == y,
        _ => false,
    }
}

/// `b` is the clause tree `a` with the cross-references of its heading,
/// its content and its children resolved against `m`; everything else is
/// kept.
pub open spec fn clause_resolved(a: Clause, b: Clause, m: Seq<AnchorEntry>) -> bool
    decreases a, 1int,
{
    &&& a.level == b.level
    &&& a.number == b.number
    &&& a.anchor == b.anchor
    &&& a.source_pos == b.source_pos
    &&& match (a.heading, b.heading) {
        (Some(h), Some(g)) => h.level == g.level && run_resolved(h.text@, g.text@, m),
        (None, None) => true,
        _ => false,
    }
    &&& pieces_resolved(a.body@, b.body@, m)
}

/// Clause bodies with their cross-references resolved, piece by piece.
pub open spec fn pieces_resolved(x: Seq<ClauseBody>, y: Seq<ClauseBody>, m: Seq<AnchorEntry>) -> bool
    decreases x, 0int,
{
    &&& x.len() == y.len()
    &&& x.len() > 0 ==> {
        &&& pieces_resolved(x.drop_last(), y.drop_last(), m)
        &&& match (x.last(), y.last()) {
            (ClauseBody::Content(p), ClauseBody::Content(q)) => content_resolved(p, q, m),
            (ClauseBody::Children(p), ClauseBody::Children(q)) => p@.len() == q@.len() && forall|
                j: int,
            |
                #![trigger p@[j]]
                0 <= j < p@.len() ==> clause_resolved(p@[j], q@[j], m),
            _ => false,
        }
    }
}

/// A body element with its cross-references resolved against `m`.
pub open spec fn element_resolved(a: BodyElement, b: BodyElement, m: Seq<AnchorEntry>) -> bool {
    match (a, b) {
        (BodyElement::Clause(x), BodyElement::Clause(y)) => clause_resolved(x, y, m),
        (BodyElement::Prose(x), BodyElement::Prose(y)) => run_resolved(x@, y@, m),
        (BodyElement::BulletList(x), BodyElement::BulletList(y)) => runs_resolved(x@, y@, m),
        _ => false,
    }
}

/// Body elements with their cross-references resolved against `m`.
pub open spec fn elements_resolved(a: Seq<BodyElement>, b: Seq<BodyElement>, m: Seq<AnchorEntry>) -> bool {
    &&& a.len() == b.len()
    &&& forall|k: int| 0 <= k < a.len() ==> element_resolved(#[trigger] a[k], b[k], m)
}

/// A block of addendum content with its cross-references resolved; a table
/// is left as it is.
pub open spec fn addendum_piece_resolved(a: AddendumContent, b: AddendumContent, m: Seq<AnchorEntry>) -> bool {
    match (a, b) {
        (AddendumContent::Paragraph(x), AddendumContent::Paragraph(y)) => run_resolved(x@, y@, m),
        (AddendumContent::Heading(l, x), AddendumContent::Heading(l2, y)) => l == l2 && run_resolved(x@, y@, m),
        (AddendumContent::ClauseList(x), AddendumContent::ClauseList(y)) => x@.len() == y@.len() && forall|
            j: int,
        | #![trigger x@[j]] 0 <= j < x@.len() ==> clause_resolved(x@[j], y@[j], m),
        (AddendumContent::NumberedList(x), AddendumContent::NumberedList(y)) => runs_resolved(x@, y@, m),
        (AddendumContent::BulletList(x), AddendumContent::BulletList(y)) => runs_resolved(x@, y@, m),
        (AddendumContent::Table(x), AddendumContent::Table(y)) => x == y,
        _ => false,
    }
}

/// `b` is the addendum `a` with the cross-references of its content
/// resolved against `m`; its number, title, anchor and position are kept.
pub open spec fn addendum_resolved(a: Addendum, b: Addendum, m: Seq<AnchorEntry>) -> bool {
    &&& a.number == b.number
    &&& a.title == b.title
    &&& a.anchor == b.anchor
    &&& a.source_pos == b.source_pos
    &&& a.content@.len() == b.content@.len()
    &&& forall|k: int|
        #![trigger a.content@[k]]
        0 <= k < a.content@.len() ==> addendum_piece_resolved(a.content@[k], b.content@[k], m)
}

/// Some inline of the run is a cross-reference to `id`.
pub open spec fn refers_to(s: Seq<InlineView>, id: Seq<char>) -> bool {
    exists|k: int|
        0 <= k < s.len() && (#[trigger] s[k] matches InlineView::CrossRef { anchor_id, .. }
            && anchor_id == id)
}

/// Some run of the list refers to `id`.
pub open spec fn runs_refer(items: Seq<Vec<InlineContent>>, id: Seq<char>) -> bool {
    exists|j: int| 0 <= j < items.len() && refers_to(inlines_view((#[trigger] items[j])@), id)
}

/// A block of clause content refers to `id`; a table never does.
pub open spec fn content_refers(c: ClauseContent, id: Seq<char>) -> bool {
    match c {
        ClauseContent::Paragraph(i) => refers_to(inlines_view(i@), id),
        ClauseContent::Blockquote(i) => refers_to(inlines_view(i@), id),
        ClauseContent::BulletList(items) => runs_refer(items@, id),
        ClauseContent::Table(_) => false,
    }
}

/// A clause tree refers to `id`: in its heading, its content or a child.
pub open spec fn clause_refers(c: Clause, id: Seq<char>) -> bool
    decreases c, 1int,
{
    ||| (c.heading matches Some(h) && refers_to(inlines_view(h.text@), id))
    ||| pieces_refer(c.body@, id)
}

/// Some piece of a clause body refers to `id`.
pub open spec fn pieces_refer(x: Seq<ClauseBody>, id: Seq<char>) -> bool
    decreases x, 0int,
{
    x.len() > 0 && (pieces_refer(x.drop_last(), id) || piece_refers(x.last(), id))
}

/// A piece of a clause body refers to `id`: its content, or a child.
pub open spec fn piece_refers(x: ClauseBody, id: Seq<char>) -> bool
    decreases x, 0int,
{
    match x {
        ClauseBody::Content(p) => content_refers(p, id),
        ClauseBody::Children(p) => exists|j: int| 0 <= j < p@.len() && clause_refers(#[trigger] p@[j], id),
    }
}

/// A body element refers to `id`.
pub open spec fn element_refers(e: BodyElement, id: Seq<char>) -> bool {
    match e {
        BodyElement::Clause(c) => clause_refers(c, id),
        BodyElement::Prose(i) => refers_to(inlines_view(i@), id),
        BodyElement::BulletList(items) => runs_refer(items@, id),
    }
}

/// Some body element refers to `id`.
pub open spec fn elements_refer(es: Seq<BodyElement>, id: Seq<char>) -> bool {
    exists|k: int| 0 <= k < es.len() && element_refers(#[trigger] es[k], id)
}

/// A block of addendum content refers to `id`; a table never does.
pub open spec fn addendum_piece_refers(c: AddendumContent, id: Seq<char>) -> bool {
    match c {
        AddendumContent::Paragraph(i) => refers_to(inlines_view(i@), id),
        AddendumContent::Heading(_, i) => refers_to(inlines_view(i@), id),
        AddendumContent::ClauseList(cl) => exists|j: int| 0 <= j < cl@.len() && clause_refers(#[trigger] cl@[j], id),
        AddendumContent::NumberedList(items) => runs_refer(items@, id),
        AddendumContent::BulletList(items) => runs_refer(items@, id),
        AddendumContent::Table(_) => false,
    }
}

/// Some block of an addendum refers to `id`.
pub open spec fn addendum_refers(a: Addendum, id: Seq<char>) -> bool {
    exists|k: int| 0 <= k < a.content@.len() && addendum_piece_refers(#[trigger] a.content@[k], id)
}

/// Some cross-reference of the document points at `id`: in the recitals,
/// the body or an addendum.
pub open spec fn document_refers(d: Document, id: Seq<char>) -> bool {
    ||| (d.recitals matches Some(r) && elements_refer(r.body@, id))
    ||| elements_refer(d.body@, id)
    ||| exists|k: int| 0 <= k < d.addenda@.len() && addendum_refers(#[trigger] d.addenda@[k], id)
}

/// The map after a run has been resolved: same entries, each marked used
/// when it was, or when the run refers to it.
pub open spec fn marks_used(old: Seq<AnchorInfo>, new: Seq<AnchorInfo>, s: Seq<InlineView>) -> bool {
    &&& old.len() == new.len()
    &&& forall|q: int|
        #![trigger new[q]]
        0 <= q < old.len() ==> {
            &&& new[q].id == old[q].id
            &&& new[q].reference == old[q].reference
            &&& new[q].pos == old[q].pos
            &&& (new[q].used <==> (old[q].used || (refers_to(s, old[q].id@) && find_spec(
                old,
                old[q].id@,
            ) == Some(q))))
        }
}

/// No anchor of the map is marked used.
pub open spec fn none_used(m: Seq<AnchorInfo>) -> bool {
    forall|q: int| 0 <= q < m.len() ==> !(#[trigger] m[q]).used
}

/// The map after resolving text whose cross-references point at the ids for
/// which `refd` holds: same entries, each marked used when it was, or when
/// it is the first entry of an id that is pointed at.
pub open spec fn marked(old: Seq<AnchorInfo>, new: Seq<AnchorInfo>, refd: spec_fn(Seq<char>) -> bool) -> bool {
    &&& old.len() == new.len()
    &&& forall|q: int|
        #![trigger new[q]]
        0 <= q < old.len() ==> {
            &&& new[q].id == old[q].id
            &&& new[q].reference == old[q].reference
            &&& new[q].pos == old[q].pos
            &&& (new[q].used <==> (old[q].used || (refd(old[q].id@) && find_spec(old, old[q].id@) == Some(q))))
        }
}

/// Maps with the same ids find the same first entry of an id.
pub proof fn lemma_find_spec_same_ids(a: Seq<AnchorInfo>, b: Seq<AnchorInfo>, id: Seq<char>)
    requires
        a.len() == b.len(),
        forall|q: int| 0 <= q < a.len() ==> (#[trigger] a[q]).id == b[q].id,
    ensures
        find_spec(a, id) == find_spec(b, id),
    decreases a.len(),
{
    if a.len() > 0 {
        assert forall|q: int| 0 <= q < a.drop_last().len() implies (#[trigger] a.drop_last()[q]).id
            == b.drop_last()[q].id by {
            assert(a.drop_last()[q] == a[q]);
            assert(b.drop_last()[q] == b[q]);
        }
        lemma_find_spec_same_ids(a.drop_last(), b.drop_last(), id);
        assert(a.last().id == b.last().id);
    }
}

pub proof fn lemma_marked_refl(m: Seq<AnchorInfo>, refd: spec_fn(Seq<char>) -> bool)
    requires
        forall|id: Seq<char>| !#[trigger] refd(id),
    ensures
        marked(m, m, refd),
{
}

/// Marking is the same for two descriptions of the same ids.
pub proof fn lemma_marked_eq(
    a: Seq<AnchorInfo>,
    b: Seq<AnchorInfo>,
    p: spec_fn(Seq<char>) -> bool,
    q: spec_fn(Seq<char>) -> bool,
)
    requires
        marked(a, b, p),
        forall|id: Seq<char>| #[trigger] q(id) <==> p(id),
    ensures
        marked(a, b, q),
{
    assert forall|k: int| #![trigger b[k]] 0 <= k < a.len() implies (b[k].used <==> (a[k].used || (q(
        a[k].id@,
    ) && find_spec(a, a[k].id@) == Some(k)))) by {
        assert(q(a[k].id@) <==> p(a[k].id@));
    }
}

/// Resolving two pieces of text marks what either points at.
pub proof fn lemma_marked_trans(
    a: Seq<AnchorInfo>,
    b: Seq<AnchorInfo>,
    c: Seq<AnchorInfo>,
    p: spec_fn(Seq<char>) -> bool,
    q: spec_fn(Seq<char>) -> bool,
    r: spec_fn(Seq<char>) -> bool,
)
    requires
        marked(a, b, p),
        marked(b, c, q),
        forall|id: Seq<char>| #[trigger] r(id) <==> (p(id) || q(id)),
    ensures
        marked(a, c, r),
{
    assert forall|k: int| 0 <= k < a.len() implies (#[trigger] a[k]).id == b[k].id by {
        assert(b[k].id == a[k].id);
    }
    assert forall|k: int| #![trigger c[k]] 0 <= k < a.len() implies {
        &&& c[k].id == a[k].id
        &&& c[k].reference == a[k].reference
        &&& c[k].pos == a[k].pos
        &&& (c[k].used <==> (a[k].used || (r(a[k].id@) && find_spec(a, a[k].id@) == Some(k))))
    } by {
        assert(b[k].id == a[k].id);
        assert(c[k].id == b[k].id);
        lemma_find_spec_same_ids(a, b, a[k].id@);
        assert(r(a[k].id@) <==> (p(a[k].id@) || q(a[k].id@)));
    }
}

/// The first entry of every id pointed at by some cross-reference is used;
/// the others are not.
pub open spec fn used_exactly(m: Seq<AnchorInfo>, refd: spec_fn(Seq<char>) -> bool) -> bool {
    forall|q: int|
        #![trigger m[q]]
        0 <= q < m.len() ==> (m[q].used <==> (refd(m[q].id@) && find_spec(m, m[q].id@) == Some(q)))
}

/// The message for a cross-reference to an anchor nobody declared.
pub open spec fn broken_message(display: Seq<char>, id: Seq<char>) -> Seq<char> {
    "Cross-reference '"@ + display + "' (#"@ + id + ") points to non-existent anchor"@
}

/// The `broken-cross-ref` warnings of a run at `loc` and `pos`: one for each
/// cross-reference whose anchor is not among the entries `e`, in order.
pub open spec fn broken_views(s: Seq<InlineView>, e: Seq<AnchorEntry>, loc: Option<Seq<char>>, pos: Option<SourcePos>) -> Seq<
    DiagView,
>
    decreases s.len(),
{
    if s.len() == 0 {
        Seq::empty()
    } else {
        broken_views(s.drop_last(), e, loc, pos) + match s.last() {
            InlineView::CrossRef { display, anchor_id, .. } => if find_entry(e, anchor_id) is None {
                seq![placed_view(DiagLevel::Warning, "broken-cross-ref"@, broken_message(display, anchor_id), loc, pos)]
            } else {
                Seq::empty()
            },
            _ => Seq::empty(),
        }
    }
}

/// The `broken-cross-ref` warnings of a list of runs, run by run.
pub open spec fn broken_runs(items: Seq<Vec<InlineContent>>, e: Seq<AnchorEntry>, loc: Option<Seq<char>>, pos: Option<SourcePos>) -> Seq<
    DiagView,
>
    decreases items.len(),
{
    if items.len() == 0 {
        Seq::empty()
    } else {
        broken_runs(items.drop_last(), e, loc, pos) + broken_views(inlines_view(items.last()@), e, loc, pos)
    }
}

/// The `broken-cross-ref` warnings of a clause tree: its heading and
/// content at the clause's reference and position, its children at theirs.
pub open spec fn broken_clause(c: Clause, e: Seq<AnchorEntry>, conv: NumberingConvention) -> Seq<DiagView>
    decreases c, 2int,
{
    broken_heading(c, e, conv) + broken_pieces(c.body@, e, crate::terms::clause_location(c, conv), c.source_pos, conv)
}

/// The `broken-cross-ref` warnings of a clause's heading.
pub open spec fn broken_heading(c: Clause, e: Seq<AnchorEntry>, conv: NumberingConvention) -> Seq<DiagView> {
    match c.heading {
        Some(h) => broken_views(inlines_view(h.text@), e, crate::terms::clause_location(c, conv), c.source_pos),
        None => Seq::empty(),
    }
}

/// The `broken-cross-ref` warnings of the pieces of a clause body.
pub open spec fn broken_pieces(
    b: Seq<ClauseBody>,
    e: Seq<AnchorEntry>,
    loc: Option<Seq<char>>,
    pos: Option<SourcePos>,
    conv: NumberingConvention,
) -> Seq<DiagView>
    decreases b, 1int,
{
    if b.len() == 0 {
        Seq::empty()
    } else {
        broken_pieces(b.drop_last(), e, loc, pos, conv) + broken_piece(b.last(), e, loc, pos, conv)
    }
}

/// The `broken-cross-ref` warnings of one piece of a clause body.
pub open spec fn broken_piece(
    x: ClauseBody,
    e: Seq<AnchorEntry>,
    loc: Option<Seq<char>>,
    pos: Option<SourcePos>,
    conv: NumberingConvention,
) -> Seq<DiagView>
    decreases x, 1int,
{
    match x {
        ClauseBody::Content(ClauseContent::Paragraph(i)) => broken_views(inlines_view(i@), e, loc, pos),
        ClauseBody::Content(ClauseContent::Blockquote(i)) => broken_views(inlines_view(i@), e, loc, pos),
        ClauseBody::Content(ClauseContent::BulletList(items)) => broken_runs(items@, e, loc, pos),
        ClauseBody::Content(ClauseContent::Table(_)) => Seq::empty(),
        ClauseBody::Children(kids) => broken_kids(kids@, e, conv),
    }
}

/// The `broken-cross-ref` warnings of sibling clauses.
pub open spec fn broken_kids(k: Seq<Clause>, e: Seq<AnchorEntry>, conv: NumberingConvention) -> Seq<DiagView>
    decreases k, 0int,
{
    if k.len() == 0 {
        Seq::empty()
    } else {
        broken_kids(k.drop_last(), e, conv) + broken_clause(k.last(), e, conv)
    }
}

/// The `broken-cross-ref` warnings of a body element; prose and bullet
/// lists carry no location.
pub open spec fn broken_element(x: BodyElement, e: Seq<AnchorEntry>, conv: NumberingConvention) -> Seq<DiagView> {
    match x {
        BodyElement::Clause(c) => broken_clause(c, e, conv),
        BodyElement::Prose(i) => broken_views(inlines_view(i@), e, None, None),
        BodyElement::BulletList(items) => broken_runs(items@, e, None, None),
    }
}

/// The `broken-cross-ref` warnings of body elements, in order.
pub open spec fn broken_elements(es: Seq<BodyElement>, e: Seq<AnchorEntry>, conv: NumberingConvention) -> Seq<DiagView>
    decreases es.len(),
{
    if es.len() == 0 {
        Seq::empty()
    } else {
        broken_elements(es.drop_last(), e, conv) + broken_element(es.last(), e, conv)
    }
}

/// The `broken-cross-ref` warnings of a block of addendum content at `loc`
/// and `pos`; its clause lists' clauses at their own references.
pub open spec fn broken_addendum_piece(
    x: AddendumContent,
    e: Seq<AnchorEntry>,
    conv: NumberingConvention,
    loc: Option<Seq<char>>,
    pos: Option<SourcePos>,
) -> Seq<DiagView> {
    match x {
        AddendumContent::Paragraph(i) => broken_views(inlines_view(i@), e, loc, pos),
        AddendumContent::Heading(_, i) => broken_views(inlines_view(i@), e, loc, pos),
        AddendumContent::ClauseList(cl) => broken_kids(cl@, e, conv),
        AddendumContent::NumberedList(items) => broken_runs(items@, e, loc, pos),
        AddendumContent::BulletList(items) => broken_runs(items@, e, loc, pos),
        AddendumContent::Table(_) => Seq::empty(),
    }
}

/// The `broken-cross-ref` warnings of an addendum's content, in order.
pub open spec fn broken_addendum(
    cs: Seq<AddendumContent>,
    e: Seq<AnchorEntry>,
    conv: NumberingConvention,
    loc: Option<Seq<char>>,
    pos: Option<SourcePos>,
) -> Seq<DiagView>
    decreases cs.len(),
{
    if cs.len() == 0 {
        Seq::empty()
    } else {
        broken_addendum(cs.drop_last(), e, conv, loc, pos) + broken_addendum_piece(cs.last(), e, conv, loc, pos)
    }
}

/// The `broken-cross-ref` warnings of the addenda, each at its heading.
pub open spec fn broken_addenda(adds: Seq<Addendum>, e: Seq<AnchorEntry>, conv: NumberingConvention) -> Seq<DiagView>
    decreases adds.len(),
{
    if adds.len() == 0 {
        Seq::empty()
    } else {
        broken_addenda(adds.drop_last(), e, conv) + broken_addendum(
            adds.last().content@,
            e,
            conv,
            Some(crate::model::addendum_heading(adds.last().number, adds.last().title@)),
            adds.last().source_pos,
        )
    }
}

/// The recitals' `broken-cross-ref` warnings.
pub open spec fn broken_recitals(r: Option<crate::model::Recitals>, e: Seq<AnchorEntry>, conv: NumberingConvention) -> Seq<DiagView> {
    match r {
        Some(r) => broken_elements(r.body@, e, conv),
        None => Seq::empty(),
    }
}

/// The `broken-cross-ref` warnings of a document resolved against its own
/// anchors: recitals, body, then addenda.
pub open spec fn broken_document(d: Document, conv: NumberingConvention) -> Seq<DiagView> {
    let e = anchor_table(d, conv);
    broken_recitals(d.recitals, e, conv) + broken_elements(d.body@, e, conv) + broken_addenda(d.addenda@, e, conv)
}

/// Resolve the cross-references of an inline run against the anchor map:
/// each one to a registered anchor takes the anchor's reference text and
/// marks the anchor used; each one to an unknown anchor is reported as a
/// `broken-cross-ref` warning at `location` and `pos`.
pub fn resolve_inlines_cross_refs(
    inlines: &mut Vec<InlineContent>,
    map: &mut Vec<AnchorInfo>,
    diagnostics: &mut Vec<Diagnostic>,
    location: Option<&str>,
    pos: Option<SourcePos>,
)
    ensures
        inlines_view(final(inlines)@) == inlines_view(old(inlines)@).map_values(
            |i: InlineView| resolve_view(i, old(map)@),
        ),
        run_resolved(old(inlines)@, final(inlines)@, map_entries(old(map)@)),
        marks_used(old(map)@, final(map)@, inlines_view(old(inlines)@)),
        marked(old(map)@, final(map)@, |id: Seq<char>| refers_to(inlines_view(old(inlines)@), id)),
        extends(old(diagnostics)@, final(diagnostics)@),
        forall|k: int|
            old(diagnostics)@.len() <= k < final(diagnostics)@.len()
                ==> (#[trigger] final(diagnostics)@[k]).code@ == "broken-cross-ref"@,
        warns(old(diagnostics)@, final(diagnostics)@, broken_views(inlines_view(old(inlines)@), map_entries(old(map)@), str_opt_view(location), pos)),
{
    let ghost v0 = inlines_view(inlines@);
    let ghost m0 = map@;
    let ghost lv = str_opt_view(location);
    proof {
        lemma_extends_refl(diagnostics@);
        lemma_warns_refl(diagnostics@);
        assert(v0.take(0) =~= Seq::<InlineView>::empty());
    }
    let mut i: usize = 0;
    while i < inlines.len()
        invariant
            i <= inlines@.len(),
            inlines@.len() == v0.len(),
            forall|q: int|
                #![trigger inlines@[q]]
                0 <= q < inlines@.len() ==> inlines@[q]@ == if q < i {
                    resolve_view(v0[q], m0)
                } else {
                    v0[q]
                },
            marks_used(m0, map@, v0.take(i as int)),
            lv == str_opt_view(location),
            warns(old(diagnostics)@, diagnostics@, broken_views(v0.take(i as int), map_entries(m0), lv, pos)),
            extends(old(diagnostics)@, diagnostics@),
            forall|k: int|
                old(diagnostics)@.len() <= k < diagnostics@.len()
                    ==> (#[trigger] diagnostics@[k]).code@ == "broken-cross-ref"@,
        decreases inlines@.len() - i,
    {
        let ghost before_map = map@;
        let ghost d0 = diagnostics@;
        let ghost s1 = v0.take(i + 1);
        let ghost e0 = map_entries(m0);
        proof {
            assert(s1.drop_last() =~= v0.take(i as int));
            assert(s1.last() == v0[i as int]);
        }
        let target = match &inlines[i] {
            InlineContent::CrossRef { display, anchor_id, .. } => Some(
                (display.clone(), anchor_id.clone()),
            ),
            _ => None,
        };
        match target {
            Some((display, anchor_id)) => {
                proof {
                    assert(inlines@[i as int]@ == v0[i as int]);
                }
                match find_anchor(map, anchor_id.as_str()) {
                    Some(k) => {
                        proof {
                            lemma_find_spec(map@, anchor_id@);
                        }
                        let reference = map[k].reference.clone();
                        let entry = AnchorInfo {
                            id: map[k].id.clone(),
                            reference: map[k].reference.clone(),
                            pos: map[k].pos,
                            used: true,
                        };
                        map.set(k, entry);
                        let resolved = InlineContent::CrossRef {
                            display,
                            anchor_id,
                            resolved: Some(reference),
                        };
                        inlines.set(i, resolved);
                        proof {
                            assert(find_spec(m0, v0[i as int]->CrossRef_anchor_id) == Some(k as int)) by {
                                lemma_find_spec(m0, v0[i as int]->CrossRef_anchor_id);
                                lemma_find_spec(before_map, v0[i as int]->CrossRef_anchor_id);
                                let id = v0[i as int]->CrossRef_anchor_id;
                                assert(before_map[k as int].id == m0[k as int].id);
                                assert forall|q: int| 0 <= q < k implies (#[trigger] m0[q]).id@ != id by {
                                    assert(before_map[q].id == m0[q].id);
                                }
                                lemma_find_spec_unique(m0, id, k as int);
                            }
                            lemma_find_entries(m0, v0[i as int]->CrossRef_anchor_id);
                            assert(broken_views(s1, e0, lv, pos) =~= broken_views(v0.take(i as int), e0, lv, pos));
                        }
                    },
                    None => {
                        proof {
                            lemma_find_spec(map@, anchor_id@);
                            lemma_find_spec(m0, anchor_id@);
                            if find_spec(m0, anchor_id@) is Some {
                                let q = find_spec(m0, anchor_id@)->0;
                                assert(map@[q].id == m0[q].id);
                            }
                        }
                        let mut msg: Vec<char> = Vec::new();
                        extend_str(&mut msg, "Cross-reference '");
                        extend_str(&mut msg, display.as_str());
                        extend_str(&mut msg, "' (#");
                        extend_str(&mut msg, anchor_id.as_str());
                        extend_str(&mut msg, ") points to non-existent anchor");
                        let loc = match location {
                            Some(l) => Some(string_of(&chars_of(l))),
                            None => None,
                        };
                        diagnostics.push(
                            Diagnostic::warning("broken-cross-ref", string_of(&msg)).at_opt(
                                loc,
                            ).at_pos(pos),
                        );
                        proof {
                            assert(diagnostics@.take(d0.len() as int) =~= d0);
                            lemma_extends_trans(old(diagnostics)@, d0, diagnostics@);
                            lemma_find_entries(m0, anchor_id@);
                            assert(msg@ =~= broken_message(display@, anchor_id@));
                            assert(diagnostics@.drop_last() =~= d0);
                            let x = placed_view(DiagLevel::Warning, "broken-cross-ref"@, broken_message(display@, anchor_id@), lv, pos);
                            assert(diag_view(diagnostics@.last()) == x);
                            assert(diags_view(diagnostics@) =~= diags_view(d0).push(x));
                            assert(broken_views(s1, e0, lv, pos) =~= broken_views(v0.take(i as int), e0, lv, pos).push(x));
                            assert(diags_view(diagnostics@) =~= diags_view(old(diagnostics)@) + broken_views(s1, e0, lv, pos));
                        }
                    },
                }
            },
            None => {
                proof {
                    assert(broken_views(s1, e0, lv, pos) =~= broken_views(v0.take(i as int), e0, lv, pos));
                }
            },
        }
        proof {
            let s = v0.take(i + 1);
            assert(s.drop_last() =~= v0.take(i as int));
            assert forall|q: int| #![trigger map@[q]] 0 <= q < m0.len() implies {
                &&& map@[q].id == m0[q].id
                &&& map@[q].reference == m0[q].reference
                &&& map@[q].pos == m0[q].pos
                &&& (map@[q].used <==> (m0[q].used || (refers_to(s, m0[q].id@) && find_spec(
                    m0,
                    m0[q].id@,
                ) == Some(q))))
            } by {
                assert(before_map[q].id == m0[q].id);
                if refers_to(s, m0[q].id@) && !refers_to(v0.take(i as int), m0[q].id@) {
                    let w = choose|w: int|
                        0 <= w < s.len() && (#[trigger] s[w] matches InlineView::CrossRef {
                            anchor_id,
                            ..
                        } && anchor_id == m0[q].id@);
                    if w < i {
                        assert(v0.take(i as int)[w] == s[w]);
                    }
                }
                if refers_to(v0.take(i as int), m0[q].id@) {
                    let w = choose|w: int|
                        0 <= w < i && (#[trigger] v0.take(i as int)[w] matches InlineView::CrossRef {
                            anchor_id,
                            ..
                        } && anchor_id == m0[q].id@);
                    assert(s[w] == v0.take(i as int)[w]);
                }
                assert(s[i as int] == v0[i as int]);
            }
        }
        i += 1;
    }
    proof {
        assert(v0.take(v0.len() as int) =~= v0);
        assert(inlines_view(inlines@) =~= v0.map_values(|i: InlineView| resolve_view(i, m0)));
        lemma_resolve_with(m0);
        assert(v0.map_values(|i: InlineView| resolve_view(i, m0)) =~= v0.map_values(
            |i: InlineView| resolve_with(i, map_entries(m0)),
        ));
    }
}

/// Two clause trees have the same outline: the same levels, numbers,
/// anchors and positions, and children in the same places; their content
/// may differ.
pub open spec fn clause_outline_eq(a: Clause, b: Clause) -> bool
    decreases a, 1int,
{
    &&& a.level == b.level
    &&& a.number == b.number
    &&& a.anchor == b.anchor
    &&& a.source_pos == b.source_pos
    &&& runs_outline_eq(a.body@, b.body@)
}

/// Two clause bodies have the same outline.
pub open spec fn runs_outline_eq(x: Seq<ClauseBody>, y: Seq<ClauseBody>) -> bool
    decreases x, 0int,
{
    &&& x.len() == y.len()
    &&& x.len() > 0 ==> {
        &&& runs_outline_eq(x.drop_last(), y.drop_last())
        &&& match (x.last(), y.last()) {
            (ClauseBody::Children(p), ClauseBody::Children(q)) => p@.len() == q@.len() && forall|
                j: int,
            |
                #![trigger p@[j]]
                0 <= j < p@.len() ==> clause_outline_eq(p@[j], q@[j]),
            (ClauseBody::Content(_), ClauseBody::Content(_)) => true,
            _ => false,
        }
    }
}

/// Two bodies have the same outline.
pub open spec fn elements_outline_eq(a: Seq<BodyElement>, b: Seq<BodyElement>) -> bool {
    &&& a.len() == b.len()
    &&& forall|k: int|
        #![trigger a[k]]
        0 <= k < a.len() ==> match a[k] {
            BodyElement::Clause(x) => b[k] matches BodyElement::Clause(y) && clause_outline_eq(x, y),
            _ => !(b[k] is Clause),
        }
}

proof fn lemma_outline_tree(a: Clause, b: Clause, top: u32, convention: NumberingConvention)
    requires
        clause_outline_eq(a, b),
    ensures
        clause_numbered(a, top) ==> clause_numbered(b, top),
        tree_formattable(a, convention) ==> tree_formattable(b, convention),
    decreases a, 1int,
{
    lemma_outline_runs(a.body@, b.body@, top, a.number, convention);
}

proof fn lemma_outline_runs(
    x: Seq<ClauseBody>,
    y: Seq<ClauseBody>,
    top: u32,
    parent: Option<ClauseNumber>,
    convention: NumberingConvention,
)
    requires
        runs_outline_eq(x, y),
    ensures
        child_total(x) == child_total(y),
        children_numbered(x, top, parent) ==> children_numbered(y, top, parent),
        runs_formattable(x, convention) ==> runs_formattable(y, convention),
    decreases x, 0int,
{
    if x.len() > 0 {
        lemma_outline_runs(x.drop_last(), y.drop_last(), top, parent, convention);
        match (x.last(), y.last()) {
            (ClauseBody::Children(p), ClauseBody::Children(q)) => {
                assert forall|j: int| #![trigger q@[j]] 0 <= j < q@.len() implies {
                    &&& (clause_numbered(p@[j], top) ==> clause_numbered(q@[j], top))
                    &&& (tree_formattable(p@[j], convention) ==> tree_formattable(q@[j], convention))
                    &&& q@[j].number == p@[j].number
                    &&& q@[j].level == p@[j].level
                } by {
                    assert(clause_outline_eq(p@[j], q@[j]));
                    lemma_outline_tree(p@[j], q@[j], top, convention);
                }
            },
            _ => {},
        }
    }
}

proof fn lemma_outline_body(a: Seq<BodyElement>, b: Seq<BodyElement>, convention: NumberingConvention)
    requires
        elements_outline_eq(a, b),
    ensures
        body_numbered(a) ==> body_numbered(b),
        elements_formattable(a, convention) ==> elements_formattable(b, convention),
{
    assert forall|k: int| 0 <= k <= a.len() implies clauses_before(a, k) == clauses_before(b, k) by {
        assert forall|q: int| 0 <= q < k implies (#[trigger] a[q] is Clause) == (b[q] is Clause) by {
            assert(a[q] == a[q]);
        }
        lemma_clauses_before_prefix(a, b, k);
    }
    assert forall|k: int| #![trigger b[k]] 0 <= k < b.len() implies {
        &&& (body_numbered(a) ==> (b[k] matches BodyElement::Clause(c) ==> {
            let top = sat_index(clauses_before(b, k) + 1);
            &&& c.number == Some(ClauseNumber::TopLevel(top))
            &&& clause_numbered(c, top)
        }))
        &&& (elements_formattable(a, convention) ==> (b[k] matches BodyElement::Clause(c)
            ==> tree_formattable(c, convention)))
    } by {
        if b[k] is Clause {
            assert(a[k] is Clause);
            let top = sat_index(clauses_before(a, k) + 1);
            lemma_outline_tree(a[k]->Clause_0, b[k]->Clause_0, top, convention);
        }
    }
}

proof fn lemma_outline_refl_tree(a: Clause)
    ensures
        clause_outline_eq(a, a),
    decreases a, 1int,
{
    lemma_outline_refl_runs(a.body@);
}

proof fn lemma_outline_refl_runs(x: Seq<ClauseBody>)
    ensures
        runs_outline_eq(x, x),
    decreases x, 0int,
{
    if x.len() > 0 {
        lemma_outline_refl_runs(x.drop_last());
        match x.last() {
            ClauseBody::Children(p) => {
                assert forall|j: int| #![trigger p@[j]] 0 <= j < p@.len() implies clause_outline_eq(
                    p@[j],
                    p@[j],
                ) by {
                    lemma_outline_refl_tree(p@[j]);
                }
            },
            _ => {},
        }
    }
}

/// `new` keeps the entries of `old`, with at most their `used` flags raised.
pub open spec fn map_keeps(old: Seq<AnchorInfo>, new: Seq<AnchorInfo>) -> bool {
    &&& map_grows(old, new)
    &&& new.len() == old.len()
}

/// Resolve the cross-references of each of a list of inline runs.
fn resolve_runs(
    items: &mut Vec<Vec<InlineContent>>,
    map: &mut Vec<AnchorInfo>,
    diagnostics: &mut Vec<Diagnostic>,
    location: Option<&str>,
    pos: Option<SourcePos>,
)
    ensures
        final(items)@.len() == old(items)@.len(),
        runs_resolved(old(items)@, final(items)@, map_entries(old(map)@)),
        map_keeps(old(map)@, final(map)@),
        marked(old(map)@, final(map)@, |id: Seq<char>| runs_refer(old(items)@, id)),
        extends(old(diagnostics)@, final(diagnostics)@),
        warns(old(diagnostics)@, final(diagnostics)@, broken_runs(old(items)@, map_entries(old(map)@), str_opt_view(location), pos)),
{
    let ghost lv = str_opt_view(location);
    let ghost it_all = old(items)@;
    proof {
        lemma_extends_refl(diagnostics@);
        assert(it_all.take(0) =~= Seq::<Vec<InlineContent>>::empty());
        lemma_marked_refl(map@, |id: Seq<char>| runs_refer(it_all.take(0), id));
        lemma_warns_refl(diagnostics@);
    }
    let ghost e = map_entries(map@);
    let mut k: usize = 0;
    while k < items.len()
        invariant
            k <= items@.len(),
            items@.len() == old(items)@.len(),
            e == map_entries(old(map)@),
            forall|j: int| 0 <= j < k ==> run_resolved(#[trigger] old(items)@[j]@, items@[j]@, e),
            forall|j: int| k <= j < items@.len() ==> #[trigger] items@[j] == old(items)@[j],
            map_keeps(old(map)@, map@),
            it_all == old(items)@,
            lv == str_opt_view(location),
            warns(old(diagnostics)@, diagnostics@, broken_runs(it_all.take(k as int), e, lv, pos)),
            marked(old(map)@, map@, |id: Seq<char>| runs_refer(it_all.take(k as int), id)),
            extends(old(diagnostics)@, diagnostics@),
        decreases items@.len() - k,
    {
        let mut item: Vec<InlineContent> = Vec::new();
        items.set_and_swap(k, &mut item);
        let ghost m0 = map@;
        let ghost d0 = diagnostics@;
        let ghost it0 = item@;
        proof {
            assert(it0 == old(items)@[k as int]@);
            lemma_keeps_entries(old(map)@, m0);
        }
        resolve_inlines_cross_refs(&mut item, map, diagnostics, location, pos);
        items.set_and_swap(k, &mut item);
        proof {
            lemma_map_grows_trans(old(map)@, m0, map@);
            lemma_extends_trans(old(diagnostics)@, d0, diagnostics@);
            assert(run_resolved(old(items)@[k as int]@, items@[k as int]@, e));
            let p = |id: Seq<char>| runs_refer(it_all.take(k as int), id);
            let q = |id: Seq<char>| refers_to(inlines_view(it0), id);
            let r = |id: Seq<char>| runs_refer(it_all.take(k + 1), id);
            assert forall|id: Seq<char>| #[trigger] r(id) <==> (p(id) || q(id)) by {
                if runs_refer(it_all.take(k + 1), id) {
                    let w = choose|w: int| 0 <= w < k + 1 && refers_to(inlines_view((#[trigger] it_all.take(k + 1)[w])@), id);
                    if w < k {
                        assert(it_all.take(k as int)[w] == it_all.take(k + 1)[w]);
                    }
                }
                if runs_refer(it_all.take(k as int), id) {
                    let w = choose|w: int| 0 <= w < k && refers_to(inlines_view((#[trigger] it_all.take(k as int)[w])@), id);
                    assert(it_all.take(k as int)[w] == it_all.take(k + 1)[w]);
                }
                if q(id) {
                    assert(it_all.take(k + 1)[k as int] == it_all[k as int]);
                }
            }
            lemma_marked_trans(old(map)@, m0, map@, p, q, r);
            assert(it_all.take(k + 1).drop_last() =~= it_all.take(k as int));
            assert(it_all.take(k + 1).last() == it_all[k as int]);
            lemma_warns_trans(old(diagnostics)@, d0, diagnostics@, broken_runs(it_all.take(k as int), e, lv, pos),
                broken_views(inlines_view(it0), e, lv, pos));
        }
        k += 1;
    }
    assert(it_all.take(k as int) =~= it_all);
}

/// Resolve the cross-references of a clause tree: its heading and content
/// are resolved with the clause's reference (`clause 3.1(a)`) as location.
#[verifier::loop_isolation(false)]
fn resolve_clause_cross_refs(
    c: Clause,
    map: &mut Vec<AnchorInfo>,
    diagnostics: &mut Vec<Diagnostic>,
    convention: NumberingConvention,
) -> (r: Clause)
    requires
        tree_formattable(c, convention),
    ensures
        clause_outline_eq(c, r),
        clause_resolved(c, r, map_entries(old(map)@)),
        map_keeps(old(map)@, final(map)@),
        marked(old(map)@, final(map)@, |id: Seq<char>| clause_refers(c, id)),
        extends(old(diagnostics)@, final(diagnostics)@),
        warns(old(diagnostics)@, final(diagnostics)@, broken_clause(c, map_entries(old(map)@), convention)),
    decreases c, 1int,
{
    let ghost cl = crate::terms::clause_location(c, convention);
    let ghost hw = broken_heading(c, map_entries(old(map)@), convention);
    let ghost hp = |id: Seq<char>| c.heading matches Some(h) && refers_to(inlines_view(h.text@), id);
    proof {
        lemma_extends_refl(diagnostics@);
    }
    let ghost c0 = c;
    let ghost e = map_entries(map@);
    let Clause { level, heading, anchor, number, source_pos, body } = c;
    let clause_loc: Option<String> = match number {
        Some(n) => Some(n.full_reference("clause", convention)),
        None => None,
    };
    let heading = match heading {
        Some(h) => {
            let mut h = h;
            let loc = match &clause_loc {
                Some(l) => Some(l.as_str()),
                None => None,
            };
            let ghost hv = h.text@;
            proof {
                assert(str_opt_view(loc) == cl);
            }
            resolve_inlines_cross_refs(&mut h.text, map, diagnostics, loc, source_pos);
            proof {
                lemma_map_grows_trans(old(map)@, old(map)@, map@);
                lemma_marked_eq(old(map)@, map@, |id: Seq<char>| refers_to(inlines_view(hv), id), hp);
            }
            Some(h)
        },
        None => {
            proof {
                lemma_marked_refl(map@, hp);
                lemma_warns_refl(diagnostics@);
            }
            None
        },
    };
    proof {
        assert(warns(old(diagnostics)@, diagnostics@, hw));
        assert(hw + broken_pieces(c0.body@.take(0), e, cl, c0.source_pos, convention) =~= hw);
    }
    proof {
        assert(c0.body@.take(0) =~= Seq::<ClauseBody>::empty());
        lemma_marked_eq(old(map)@, map@, hp, |id: Seq<char>| hp(id) || pieces_refer(c0.body@.take(0), id));
    }
    let ghost m1 = map@;
    let ghost d1 = diagnostics@;
    let ghost orig = body@;
    let mut rest = body;
    let mut out: Vec<ClauseBody> = Vec::new();
    while rest.len() > 0
        invariant
            orig == c0.body@,
            runs_formattable(orig, convention),
            out@.len() + rest@.len() == orig.len(),
            rest@ == orig.skip(out@.len() as int),
            runs_outline_eq(orig.take(out@.len() as int), out@),
            pieces_resolved(orig.take(out@.len() as int), out@, e),
            e == map_entries(old(map)@),
            map_keeps(old(map)@, map@),
            marked(old(map)@, map@, |id: Seq<char>| hp(id) || pieces_refer(orig.take(out@.len() as int), id)),
            cl == crate::terms::clause_location(c0, convention),
            source_pos == c0.source_pos,
            warns(old(diagnostics)@, diagnostics@, hw + broken_pieces(orig.take(out@.len() as int), e, cl, c0.source_pos, convention)),
            extends(old(diagnostics)@, diagnostics@),
        decreases rest@.len(),
    {
        let ghost k = out@.len() as int;
        let ghost before = out@;
        let ghost m0 = map@;
        let ghost d0 = diagnostics@;
        let el = rest.remove(0);
        let ghost elg = el;
        proof {
            assert(el == orig[k]);
            assert(rest@ =~= orig.skip(k + 1));
            assert(orig.take(k + 1).drop_last() =~= orig.take(k));
            lemma_keeps_entries(old(map)@, m0);
        }
        let loc = match &clause_loc {
            Some(l) => Some(l.as_str()),
            None => None,
        };
        proof {
            assert(str_opt_view(loc) == cl);
        }
        let next = match el {
            ClauseBody::Content(content) => {
                let ghost c_old = content;
                let content = match content {
                    ClauseContent::Paragraph(inlines) => {
                        let mut inlines = inlines;
                        let ghost iv = inlines@;
                        resolve_inlines_cross_refs(&mut inlines, map, diagnostics, loc, source_pos);
                        proof {
                            lemma_marked_eq(m0, map@, |id: Seq<char>| refers_to(inlines_view(iv), id), |id: Seq<char>| piece_refers(elg, id));
                        }
                        ClauseContent::Paragraph(inlines)
                    },
                    ClauseContent::Blockquote(inlines) => {
                        let mut inlines = inlines;
                        let ghost iv = inlines@;
                        resolve_inlines_cross_refs(&mut inlines, map, diagnostics, loc, source_pos);
                        proof {
                            lemma_marked_eq(m0, map@, |id: Seq<char>| refers_to(inlines_view(iv), id), |id: Seq<char>| piece_refers(elg, id));
                        }
                        ClauseContent::Blockquote(inlines)
                    },
                    ClauseContent::BulletList(items) => {
                        let mut items = items;
                        let ghost itv = items@;
                        resolve_runs(&mut items, map, diagnostics, loc, source_pos);
                        proof {
                            lemma_marked_eq(m0, map@, |id: Seq<char>| runs_refer(itv, id), |id: Seq<char>| piece_refers(elg, id));
                        }
                        ClauseContent::BulletList(items)
                    },
                    other => {
                        proof {
                            lemma_extends_refl(diagnostics@);
                            lemma_marked_refl(map@, |id: Seq<char>| piece_refers(elg, id));
                            lemma_warns_refl(diagnostics@);
                        }
                        other
                    },
                };
                proof {
                    assert(content_resolved(c_old, content, e));
                }
                ClauseBody::Content(content)
            },
            ClauseBody::Children(kids) => {
                proof {
                    let e2 = c0.body@[k];
                    assert(decreases_to!(c0 => c0.body));
                    assert(decreases_to!(c0.body => c0.body@));
                    assert(decreases_to!(c0.body@ => e2));
                    assert(decreases_to!(c0 => e2->Children_0));
                    assert(e2->Children_0 == kids);
                    assert forall|j: int| 0 <= j < kids@.len() implies tree_formattable(
                        #[trigger] kids@[j],
                        convention,
                    ) by {
                        lemma_runs_at(orig, k, j, convention);
                    }
                }
                let ghost kv = kids@;
                let kids = resolve_kids(kids, map, diagnostics, convention);
                proof {
                    lemma_marked_eq(m0, map@, |id: Seq<char>| exists|j: int| 0 <= j < kv.len() && clause_refers(#[trigger] kv[j], id), |id: Seq<char>| piece_refers(elg, id));
                    assert(kv.len() == kids@.len());
                    assert(forall|j: int| #![trigger kv[j]] 0 <= j < kv.len() ==> clause_resolved(kv[j], kids@[j], e));
                }
                ClauseBody::Children(kids)
            },
        };
        let ghost nv = next;
        out.push(next);
        proof {
            lemma_map_grows_trans(old(map)@, m0, map@);
            lemma_extends_trans(old(diagnostics)@, d0, diagnostics@);
            assert(out@.drop_last() =~= before);
            assert(orig.take(k + 1).last() == orig[k]);
            assert(out@.last() == nv);
            let pp = |id: Seq<char>| hp(id) || pieces_refer(orig.take(k), id);
            let qq = |id: Seq<char>| piece_refers(elg, id);
            let rr = |id: Seq<char>| hp(id) || pieces_refer(orig.take(k + 1), id);
            assert(orig.take(k + 1).last() == elg);
            assert forall|id: Seq<char>| #[trigger] rr(id) <==> (pp(id) || qq(id)) by {
                assert(pieces_refer(orig.take(k + 1), id) == (pieces_refer(orig.take(k + 1).drop_last(), id) || piece_refers(orig.take(k + 1).last(), id)));
            }
            lemma_marked_trans(old(map)@, m0, map@, pp, qq, rr);
            assert(warns(d0, diagnostics@, broken_piece(elg, e, cl, c0.source_pos, convention)));
            lemma_warns_trans(old(diagnostics)@, d0, diagnostics@, hw + broken_pieces(orig.take(k), e, cl, c0.source_pos, convention),
                broken_piece(elg, e, cl, c0.source_pos, convention));
            assert(hw + broken_pieces(orig.take(k), e, cl, c0.source_pos, convention) + broken_piece(elg, e, cl, c0.source_pos, convention)
                =~= hw + broken_pieces(orig.take(k + 1), e, cl, c0.source_pos, convention));
        }
    }
    proof {
        assert(orig.take(orig.len() as int) =~= orig);
        lemma_marked_eq(old(map)@, map@, |id: Seq<char>| hp(id) || pieces_refer(orig.take(out@.len() as int), id), |id: Seq<char>| clause_refers(c0, id));
        assert(hw + broken_pieces(orig, e, cl, c0.source_pos, convention) == broken_clause(c0, e, convention));
    }
    Clause { level, heading, anchor, number, source_pos, body: out }
}

/// Resolve the cross-references of a run of child clauses.
#[verifier::loop_isolation(false)]
fn resolve_kids(
    kids: Vec<Clause>,
    map: &mut Vec<AnchorInfo>,
    diagnostics: &mut Vec<Diagnostic>,
    convention: NumberingConvention,
) -> (r: Vec<Clause>)
    requires
        forall|j: int| 0 <= j < kids@.len() ==> tree_formattable(#[trigger] kids@[j], convention),
    ensures
        r@.len() == kids@.len(),
        forall|j: int| #![trigger r@[j]] 0 <= j < kids@.len() ==> clause_outline_eq(kids@[j], r@[j]),
        forall|j: int|
            #![trigger kids@[j]]
            0 <= j < kids@.len() ==> clause_resolved(kids@[j], r@[j], map_entries(old(map)@)),
        map_keeps(old(map)@, final(map)@),
        marked(old(map)@, final(map)@, |id: Seq<char>| exists|j: int| 0 <= j < kids@.len() && clause_refers(#[trigger] kids@[j], id)),
        extends(old(diagnostics)@, final(diagnostics)@),
        warns(old(diagnostics)@, final(diagnostics)@, broken_kids(kids@, map_entries(old(map)@), convention)),
    decreases kids, 0int,
{
    let ghost ek = map_entries(map@);
    let ghost kv0 = kids;
    let ghost k0 = kids@;
    proof {
        lemma_extends_refl(diagnostics@);
        lemma_marked_refl(map@, |id: Seq<char>| exists|j: int| 0 <= j < 0int && clause_refers(#[trigger] k0[j], id));
        lemma_warns_refl(diagnostics@);
        assert(k0.take(0) =~= Seq::<Clause>::empty());
    }
    let mut rest = kids;
    let mut out: Vec<Clause> = Vec::new();
    while rest.len() > 0
        invariant
            k0 == kv0@,
            forall|j: int| 0 <= j < k0.len() ==> tree_formattable(#[trigger] k0[j], convention),
            out@.len() + rest@.len() == k0.len(),
            rest@ == k0.skip(out@.len() as int),
            forall|j: int| #![trigger out@[j]] 0 <= j < out@.len() ==> clause_outline_eq(k0[j], out@[j]),
            forall|j: int|
                #![trigger k0[j]]
                0 <= j < out@.len() ==> clause_resolved(k0[j], out@[j], map_entries(old(map)@)),
            map_keeps(old(map)@, map@),
            marked(old(map)@, map@, |id: Seq<char>| exists|j: int| 0 <= j < out@.len() && clause_refers(#[trigger] k0[j], id)),
            ek == map_entries(old(map)@),
            warns(old(diagnostics)@, diagnostics@, broken_kids(k0.take(out@.len() as int), ek, convention)),
            extends(old(diagnostics)@, diagnostics@),
        decreases rest@.len(),
    {
        let ghost j = out@.len() as int;
        let ghost before = out@;
        let ghost m0 = map@;
        let ghost d0 = diagnostics@;
        let kid = rest.remove(0);
        proof {
            assert(kid == k0[j]);
            assert(rest@ =~= k0.skip(j + 1));
            assert(decreases_to!(kv0 => kv0@));
            assert(decreases_to!(kv0@ => kv0@[j]));
            lemma_keeps_entries(old(map)@, m0);
        }
        let done = resolve_clause_cross_refs(kid, map, diagnostics, convention);
        out.push(done);
        proof {
            lemma_map_grows_trans(old(map)@, m0, map@);
            lemma_extends_trans(old(diagnostics)@, d0, diagnostics@);
            let pp = |id: Seq<char>| exists|w: int| 0 <= w < j && clause_refers(#[trigger] k0[w], id);
            let qq = |id: Seq<char>| clause_refers(k0[j], id);
            let rr = |id: Seq<char>| exists|w: int| 0 <= w < j + 1 && clause_refers(#[trigger] k0[w], id);
            assert forall|id: Seq<char>| #[trigger] rr(id) <==> (pp(id) || qq(id)) by {
                if rr(id) {
                    let w = choose|w: int| 0 <= w < j + 1 && clause_refers(#[trigger] k0[w], id);
                    if w < j {
                        assert(pp(id));
                    }
                }
            }
            lemma_marked_trans(old(map)@, m0, map@, pp, qq, rr);
            assert(k0.take(j + 1).drop_last() =~= k0.take(j));
            assert(k0.take(j + 1).last() == k0[j]);
            lemma_warns_trans(old(diagnostics)@, d0, diagnostics@, broken_kids(k0.take(j), ek, convention),
                broken_clause(k0[j], ek, convention));
            assert forall|q: int| #![trigger out@[q]] 0 <= q < out@.len() implies clause_outline_eq(
                k0[q],
                out@[q],
            ) by {
                if q < j {
                    assert(out@[q] == before[q]);
                }
            }
            assert forall|q: int| #![trigger k0[q]] 0 <= q < out@.len() implies clause_resolved(
                k0[q],
                out@[q],
                map_entries(old(map)@),
            ) by {
                if q < j {
                    assert(out@[q] == before[q]);
                }
            }
        }
    }
    proof {
        assert(k0.take(out@.len() as int) =~= k0);
    }
    out
}

/// Resolve the cross-references of a body: clauses with their own
/// references as locations, prose and bullet lists with none.
fn resolve_cross_refs(
    body: &mut Vec<BodyElement>,
    map: &mut Vec<AnchorInfo>,
    diagnostics: &mut Vec<Diagnostic>,
    convention: NumberingConvention,
)
    requires
        elements_formattable(old(body)@, convention),
    ensures
        elements_outline_eq(old(body)@, final(body)@),
        elements_resolved(old(body)@, final(body)@, map_entries(old(map)@)),
        map_keeps(old(map)@, final(map)@),
        marked(old(map)@, final(map)@, |id: Seq<char>| elements_refer(old(body)@, id)),
        extends(old(diagnostics)@, final(diagnostics)@),
        warns(old(diagnostics)@, final(diagnostics)@, broken_elements(old(body)@, map_entries(old(map)@), convention)),
{
    let ghost orig = body@;
    proof {
        lemma_extends_refl(diagnostics@);
        lemma_marked_refl(map@, |id: Seq<char>| elements_refer(orig.take(0), id));
        lemma_warns_refl(diagnostics@);
        assert(orig.take(0) =~= Seq::<BodyElement>::empty());
    }
    let ghost e = map_entries(map@);
    let mut rest: Vec<BodyElement> = Vec::new();
    std::mem::swap(body, &mut rest);
    let mut out: Vec<BodyElement> = Vec::new();
    while rest.len() > 0
        invariant
            elements_formattable(orig, convention),
            out@.len() + rest@.len() == orig.len(),
            rest@ == orig.skip(out@.len() as int),
            e == map_entries(old(map)@),
            forall|q: int| 0 <= q < out@.len() ==> element_resolved(#[trigger] orig[q], out@[q], e),
            forall|q: int|
                #![trigger out@[q]]
                0 <= q < out@.len() ==> match orig[q] {
                    BodyElement::Clause(x) => out@[q] matches BodyElement::Clause(y)
                        && clause_outline_eq(x, y),
                    _ => !(out@[q] is Clause),
                },
            map_keeps(old(map)@, map@),
            marked(old(map)@, map@, |id: Seq<char>| elements_refer(orig.take(out@.len() as int), id)),
            warns(old(diagnostics)@, diagnostics@, broken_elements(orig.take(out@.len() as int), e, convention)),
            extends(old(diagnostics)@, diagnostics@),
        decreases rest@.len(),
    {
        let ghost k = out@.len() as int;
        let ghost before = out@;
        let ghost m0 = map@;
        let ghost d0 = diagnostics@;
        let el = rest.remove(0);
        proof {
            assert(el == orig[k]);
            assert(rest@ =~= orig.skip(k + 1));
            lemma_keeps_entries(old(map)@, m0);
        }
        let ghost elg = el;
        let next = match el {
            BodyElement::Clause(c) => {
                let ghost cg = c;
                let r = resolve_clause_cross_refs(c, map, diagnostics, convention);
                proof {
                    lemma_marked_eq(m0, map@, |id: Seq<char>| clause_refers(cg, id), |id: Seq<char>| element_refers(elg, id));
                }
                BodyElement::Clause(r)
            },
            BodyElement::Prose(inlines) => {
                let mut inlines = inlines;
                let ghost iv = inlines@;
                resolve_inlines_cross_refs(&mut inlines, map, diagnostics, None, None);
                proof {
                    lemma_marked_eq(m0, map@, |id: Seq<char>| refers_to(inlines_view(iv), id), |id: Seq<char>| element_refers(elg, id));
                }
                BodyElement::Prose(inlines)
            },
            BodyElement::BulletList(items) => {
                let mut items = items;
                let ghost itv = items@;
                resolve_runs(&mut items, map, diagnostics, None, None);
                proof {
                    lemma_marked_eq(m0, map@, |id: Seq<char>| runs_refer(itv, id), |id: Seq<char>| element_refers(elg, id));
                }
                BodyElement::BulletList(items)
            },
        };
        out.push(next);
        proof {
            lemma_map_grows_trans(old(map)@, m0, map@);
            lemma_extends_trans(old(diagnostics)@, d0, diagnostics@);
            let pp = |id: Seq<char>| elements_refer(orig.take(k), id);
            let qq = |id: Seq<char>| element_refers(elg, id);
            let rr = |id: Seq<char>| elements_refer(orig.take(k + 1), id);
            assert forall|id: Seq<char>| #[trigger] rr(id) <==> (pp(id) || qq(id)) by {
                if rr(id) {
                    let w = choose|w: int| 0 <= w < k + 1 && element_refers(#[trigger] orig.take(k + 1)[w], id);
                    if w < k {
                        assert(orig.take(k)[w] == orig.take(k + 1)[w]);
                    }
                }
                if pp(id) {
                    let w = choose|w: int| 0 <= w < k && element_refers(#[trigger] orig.take(k)[w], id);
                    assert(orig.take(k)[w] == orig.take(k + 1)[w]);
                }
                if qq(id) {
                    assert(orig.take(k + 1)[k] == elg);
                }
            }
            lemma_marked_trans(old(map)@, m0, map@, pp, qq, rr);
            assert(orig.take(k + 1).drop_last() =~= orig.take(k));
            assert(orig.take(k + 1).last() == elg);
            assert(warns(d0, diagnostics@, broken_element(elg, e, convention)));
            lemma_warns_trans(old(diagnostics)@, d0, diagnostics@, broken_elements(orig.take(k), e, convention),
                broken_element(elg, e, convention));
            assert forall|q: int| #![trigger out@[q]] 0 <= q < out@.len() implies match orig[q] {
                BodyElement::Clause(x) => out@[q] matches BodyElement::Clause(y) && clause_outline_eq(
                    x,
                    y,
                ),
                _ => !(out@[q] is Clause),
            } by {
                if q < k {
                    assert(out@[q] == before[q]);
                }
            }
            assert forall|q: int| 0 <= q < out@.len() implies element_resolved(
                #[trigger] orig[q],
                out@[q],
                e,
            ) by {
                if q < k {
                    assert(out@[q] == before[q]);
                }
            }
        }
    }
    proof {
        assert(orig.take(out@.len() as int) =~= orig);
    }
    *body = out;
}

/// Every clause number in an addendum's clause lists can be formatted.
pub open spec fn addendum_formattable(a: Addendum, convention: NumberingConvention) -> bool {
    forall|k: int, j: int|
        #![trigger a.content@[k], a.content@[k]->ClauseList_0@[j]]
        0 <= k < a.content@.len() && a.content@[k] is ClauseList && 0 <= j
            < a.content@[k]->ClauseList_0@.len() ==> tree_formattable(
            a.content@[k]->ClauseList_0@[j],
            convention,
        )
}

/// Resolve the cross-references of an addendum, with the addendum's heading
/// as location for its own content.
fn resolve_addendum_cross_refs(
    addendum: &mut Addendum,
    map: &mut Vec<AnchorInfo>,
    diagnostics: &mut Vec<Diagnostic>,
    convention: NumberingConvention,
)
    requires
        addendum_formattable(*old(addendum), convention),
    ensures
        final(addendum).number == old(addendum).number,
        final(addendum).anchor == old(addendum).anchor,
        final(addendum).source_pos == old(addendum).source_pos,
        final(addendum).title == old(addendum).title,
        addendum_formattable(*final(addendum), convention),
        addendum_resolved(*old(addendum), *final(addendum), map_entries(old(map)@)),
        map_keeps(old(map)@, final(map)@),
        marked(old(map)@, final(map)@, |id: Seq<char>| addendum_refers(*old(addendum), id)),
        extends(old(diagnostics)@, final(diagnostics)@),
        warns(
            old(diagnostics)@,
            final(diagnostics)@,
            broken_addendum(
                old(addendum).content@,
                map_entries(old(map)@),
                convention,
                Some(crate::model::addendum_heading(old(addendum).number, old(addendum).title@)),
                old(addendum).source_pos,
            ),
        ),
{
    let ghost hl = Some(crate::model::addendum_heading(addendum.number, addendum.title@));
    let ghost ac = addendum.content@;
    proof {
        lemma_extends_refl(diagnostics@);
        lemma_marked_refl(map@, |id: Seq<char>| exists|w: int| 0 <= w < 0int && addendum_piece_refers(#[trigger] ac[w], id));
        lemma_warns_refl(diagnostics@);
        assert(ac.take(0) =~= Seq::<AddendumContent>::empty());
    }
    let ghost e = map_entries(map@);
    let heading = addendum.heading();
    let pos = addendum.source_pos;
    let ghost orig = addendum.content@;
    let mut rest: Vec<AddendumContent> = Vec::new();
    std::mem::swap(&mut addendum.content, &mut rest);
    let mut out: Vec<AddendumContent> = Vec::new();
    while rest.len() > 0
        invariant
            addendum_formattable(*old(addendum), convention),
            orig == old(addendum).content@,
            out@.len() + rest@.len() == orig.len(),
            rest@ == orig.skip(out@.len() as int),
            forall|q: int, j: int|
                #![trigger out@[q], out@[q]->ClauseList_0@[j]]
                0 <= q < out@.len() && out@[q] is ClauseList && 0 <= j
                    < out@[q]->ClauseList_0@.len() ==> tree_formattable(
                    out@[q]->ClauseList_0@[j],
                    convention,
                ),
            e == map_entries(old(map)@),
            forall|q: int|
                0 <= q < out@.len() ==> addendum_piece_resolved(#[trigger] orig[q], out@[q], e),
            map_keeps(old(map)@, map@),
            ac == orig,
            hl == Some(heading@),
            pos == old(addendum).source_pos,
            hl == Some(crate::model::addendum_heading(old(addendum).number, old(addendum).title@)),
            warns(old(diagnostics)@, diagnostics@, broken_addendum(ac.take(out@.len() as int), e, convention, hl, pos)),
            marked(old(map)@, map@, |id: Seq<char>| exists|w: int| 0 <= w < out@.len() && addendum_piece_refers(#[trigger] ac[w], id)),
            extends(old(diagnostics)@, diagnostics@),
        decreases rest@.len(),
    {
        let ghost k = out@.len() as int;
        let ghost m0 = map@;
        let ghost d0 = diagnostics@;
        let el = rest.remove(0);
        proof {
            assert(el == orig[k]);
            assert(rest@ =~= orig.skip(k + 1));
            lemma_keeps_entries(old(map)@, m0);
        }
        let loc = Some(heading.as_str());
        let ghost elg = el;
        let next = match el {
            AddendumContent::Paragraph(inlines) => {
                let mut inlines = inlines;
                let ghost iv = inlines@;
                resolve_inlines_cross_refs(&mut inlines, map, diagnostics, loc, pos);
                proof {
                    lemma_marked_eq(m0, map@, |id: Seq<char>| refers_to(inlines_view(iv), id), |id: Seq<char>| addendum_piece_refers(elg, id));
                }
                AddendumContent::Paragraph(inlines)
            },
            AddendumContent::Heading(level, inlines) => {
                let mut inlines = inlines;
                let ghost iv = inlines@;
                resolve_inlines_cross_refs(&mut inlines, map, diagnostics, loc, pos);
                proof {
                    lemma_marked_eq(m0, map@, |id: Seq<char>| refers_to(inlines_view(iv), id), |id: Seq<char>| addendum_piece_refers(elg, id));
                }
                AddendumContent::Heading(level, inlines)
            },
            AddendumContent::ClauseList(clauses) => {
                proof {
                    assert forall|j: int| 0 <= j < clauses@.len() implies tree_formattable(
                        #[trigger] clauses@[j],
                        convention,
                    ) by {
                        assert(old(addendum).content@[k]->ClauseList_0@[j] == clauses@[j]);
                    }
                }
                let ghost cv = clauses@;
                let resolved = resolve_kids(clauses, map, diagnostics, convention);
                proof {
                    lemma_marked_eq(m0, map@, |id: Seq<char>| exists|j: int| 0 <= j < cv.len() && clause_refers(#[trigger] cv[j], id), |id: Seq<char>| addendum_piece_refers(elg, id));
                    assert forall|j: int| 0 <= j < resolved@.len() implies tree_formattable(
                        #[trigger] resolved@[j],
                        convention,
                    ) by {
                        lemma_outline_tree(cv[j], resolved@[j], 0, convention);
                    }
                }
                AddendumContent::ClauseList(resolved)
            },
            AddendumContent::NumberedList(items) => {
                let mut items = items;
                let ghost itv = items@;
                resolve_runs(&mut items, map, diagnostics, loc, pos);
                proof {
                    lemma_marked_eq(m0, map@, |id: Seq<char>| runs_refer(itv, id), |id: Seq<char>| addendum_piece_refers(elg, id));
                }
                AddendumContent::NumberedList(items)
            },
            AddendumContent::BulletList(items) => {
                let mut items = items;
                let ghost itv = items@;
                resolve_runs(&mut items, map, diagnostics, loc, pos);
                proof {
                    lemma_marked_eq(m0, map@, |id: Seq<char>| runs_refer(itv, id), |id: Seq<char>| addendum_piece_refers(elg, id));
                }
                AddendumContent::BulletList(items)
            },
            other => {
                proof {
                    lemma_extends_refl(diagnostics@);
                    lemma_marked_refl(map@, |id: Seq<char>| addendum_piece_refers(elg, id));
                    lemma_warns_refl(diagnostics@);
                }
                other
            },
        };
        let ghost before = out@;
        out.push(next);
        proof {
            lemma_map_grows_trans(old(map)@, m0, map@);
            lemma_extends_trans(old(diagnostics)@, d0, diagnostics@);
            let pp = |id: Seq<char>| exists|w: int| 0 <= w < k && addendum_piece_refers(#[trigger] ac[w], id);
            let qq = |id: Seq<char>| addendum_piece_refers(elg, id);
            let rr = |id: Seq<char>| exists|w: int| 0 <= w < k + 1 && addendum_piece_refers(#[trigger] ac[w], id);
            assert forall|id: Seq<char>| #[trigger] rr(id) <==> (pp(id) || qq(id)) by {
                if rr(id) {
                    let w = choose|w: int| 0 <= w < k + 1 && addendum_piece_refers(#[trigger] ac[w], id);
                    if w < k {
                        assert(pp(id));
                    }
                }
            }
            lemma_marked_trans(old(map)@, m0, map@, pp, qq, rr);
            assert(ac.take(k + 1).drop_last() =~= ac.take(k));
            assert(ac.take(k + 1).last() == elg);
            assert(warns(d0, diagnostics@, broken_addendum_piece(elg, e, convention, hl, pos)));
            lemma_warns_trans(old(diagnostics)@, d0, diagnostics@, broken_addendum(ac.take(k), e, convention, hl, pos),
                broken_addendum_piece(elg, e, convention, hl, pos));
            assert forall|q: int, j: int|
                #![trigger out@[q], out@[q]->ClauseList_0@[j]]
                0 <= q < out@.len() && out@[q] is ClauseList && 0 <= j
                    < out@[q]->ClauseList_0@.len() implies tree_formattable(
                    out@[q]->ClauseList_0@[j],
                    convention,
                ) by {
                if q < k {
                    assert(out@[q] == before[q]);
                }
            }
            assert forall|q: int| 0 <= q < out@.len() implies addendum_piece_resolved(
                #[trigger] orig[q],
                out@[q],
                e,
            ) by {
                if q < k {
                    assert(out@[q] == before[q]);
                }
            }
        }
    }
    addendum.content = out;
    proof {
        assert(ac.take(ac.len() as int) =~= ac);
        lemma_marked_eq(old(map)@, map@, |id: Seq<char>| exists|w: int| 0 <= w < ac.len() && addendum_piece_refers(#[trigger] ac[w], id), |id: Seq<char>| addendum_refers(*old(addendum), id));
    }
}

// ---------------------------------------------------------------------------
// Resolving a document
// ---------------------------------------------------------------------------

/// The positions of the anchors no cross-reference points at, in map order.
pub open spec fn unused_indices(map: Seq<AnchorInfo>) -> Seq<int>
    decreases map.len(),
{
    if map.len() == 0 {
        Seq::empty()
    } else {
        unused_indices(map.drop_last()) + if !map.last().used {
            seq![map.len() - 1]
        } else {
            Seq::empty()
        }
    }
}

/// The source line an anchor sorts by: its line, or 0 when it has none.
pub open spec fn anchor_line(a: AnchorInfo) -> usize {
    match a.pos {
        Some(p) => p.line,
        None => 0,
    }
}

/// `a` is reported before `b`: an earlier line, or the same line and an
/// earlier id.
pub open spec fn anchor_before(a: AnchorInfo, b: AnchorInfo) -> bool {
    anchor_line(a) < anchor_line(b) || (anchor_line(a) == anchor_line(b) && text_lt(a.id@, b.id@))
}

/// The info diagnostic for an unused anchor, by its values.
pub open spec fn unused_anchor_view(a: AnchorInfo) -> DiagView {
    placed_view(
        DiagLevel::Info,
        "unused-anchor"@,
        "Anchor '#"@ + a.id@ + "' is never referenced by a cross-reference"@,
        Some(a.reference@),
        a.pos,
    )
}

/// A sort entry stands for the anchor at its index: its line and id.
pub open spec fn entry_of(e: SortEntry, map: Seq<AnchorInfo>) -> bool {
    &&& e.index < map.len()
    &&& e.line == anchor_line(map[e.index as int])
    &&& e.text@ == map[e.index as int].id@
}


/// Info diagnostics for the anchors no cross-reference points at, sorted by
/// source line and then id.
fn unused_anchor_reports(map: &Vec<AnchorInfo>) -> (r: Vec<Diagnostic>)
    ensures
        forall|k: int| 0 <= k < r@.len() ==> (#[trigger] r@[k]).code@ == "unused-anchor"@,
        exists|order: Seq<int>|
            #![trigger order.to_multiset()]
            {
                &&& order.to_multiset() == unused_indices(map@).to_multiset()
                &&& forall|a: int, b: int|
                    0 <= a < b < order.len() ==> !anchor_before(
                        map@[#[trigger] order[b]],
                        map@[#[trigger] order[a]],
                    )
                &&& diags_view(r@) == order.map_values(|i: int| unused_anchor_view(map@[i]))
            },
{
    let mut entries: Vec<SortEntry> = Vec::new();
    let mut i: usize = 0;
    proof {
        assert(map@.take(0) =~= Seq::<AnchorInfo>::empty());
        assert(entries@.map_values(|e: SortEntry| e.index as int) =~= Seq::<int>::empty());
    }
    while i < map.len()
        invariant
            i <= map@.len(),
            forall|k: int| 0 <= k < entries@.len() ==> entry_of(#[trigger] entries@[k], map@),
            entries@.map_values(|e: SortEntry| e.index as int) == unused_indices(map@.take(i as int)),
        decreases map@.len() - i,
    {
        let ghost e0 = entries@;
        proof {
            crate::parser::clause::lemma_take_next(map@, i as int);
        }
        if !map[i].used {
            let line = match map[i].pos {
                Some(p) => p.line,
                None => 0,
            };
            entries.push(SortEntry { line, text: chars_of(map[i].id.as_str()), index: i });
        }
        proof {
            assert(entries@.map_values(|e: SortEntry| e.index as int) =~= unused_indices(
                map@.take(i + 1),
            ));
        }
        i += 1;
    }
    proof {
        assert(map@.take(i as int) =~= map@);
    }
    let ghost es = entries@;
    let sorted = sort_entries(entries);
    proof {
        broadcast use vstd::seq_lib::group_to_multiset_ensures;

        assert forall|k: int| 0 <= k < sorted@.len() implies entry_of(#[trigger] sorted@[k], map@) by {
            assert(sorted@.to_multiset().count(sorted@[k]) > 0);
            assert(es.contains(sorted@[k]));
        }
    }
    let ghost sv = sorted@;
    let mut out: Vec<Diagnostic> = Vec::new();
    let mut k: usize = 0;
    while k < sorted.len()
        invariant
            k <= sorted@.len(),
            sv == sorted@,
            forall|q: int| 0 <= q < sorted@.len() ==> entry_of(#[trigger] sorted@[q], map@),
            forall|q: int| 0 <= q < out@.len() ==> (#[trigger] out@[q]).code@ == "unused-anchor"@,
            diags_view(out@) == sv.take(k as int).map_values(
                |e: SortEntry| unused_anchor_view(map@[e.index as int]),
            ),
        decreases sorted@.len() - k,
    {
        let ghost o0 = out@;
        assert(entry_of(sorted@[k as int], map@));
        let info = &map[sorted[k].index];
        let mut msg: Vec<char> = Vec::new();
        extend_str(&mut msg, "Anchor '#");
        extend_str(&mut msg, info.id.as_str());
        extend_str(&mut msg, "' is never referenced by a cross-reference");
        let d = Diagnostic::info("unused-anchor", string_of(&msg)).at(info.reference.clone()).at_pos(
            info.pos,
        );
        proof {
            assert(msg@ =~= "Anchor '#"@ + info.id@ + "' is never referenced by a cross-reference"@);
            assert(diag_view(d) == unused_anchor_view(*info));
        }
        out.push(d);
        proof {
            crate::parser::clause::lemma_take_next(sv, k as int);
            assert(diags_view(out@) =~= diags_view(o0).push(diag_view(d)));
            assert(*info == map@[sv[k as int].index as int]);
            assert(sv.take(k + 1).map_values(|e: SortEntry| unused_anchor_view(map@[e.index as int]))
                =~= sv.take(k as int).map_values(
                |e: SortEntry| unused_anchor_view(map@[e.index as int]),
            ).push(unused_anchor_view(map@[sv[k as int].index as int])));
            assert(diags_view(out@) =~= sv.take(k + 1).map_values(
                |e: SortEntry| unused_anchor_view(map@[e.index as int]),
            ));
        }
        k += 1;
    }
    proof {
        let order = sv.map_values(|e: SortEntry| e.index as int);
        assert(sv.take(k as int) =~= sv);
        assert(diags_view(out@) =~= order.map_values(|i: int| unused_anchor_view(map@[i])));
        lemma_multiset_map(sv, es, |e: SortEntry| e.index as int);
        assert forall|a: int, b: int| 0 <= a < b < order.len() implies !anchor_before(
            map@[#[trigger] order[b]],
            map@[#[trigger] order[a]],
        ) by {
            assert(entry_of(sv[a], map@));
            assert(entry_of(sv[b], map@));
            assert(!entry_lt(sv[b], sv[a]));
        }
    }
    out
}

/// The numbered body `b` of a body `a` is the one [`assign_clause_numbers`]
/// makes of it.
pub open spec fn numbering_of(a: Seq<BodyElement>, b: Seq<BodyElement>) -> bool {
    body_numbered(b) && elements_same_shape(a, b)
}

/// A document can be resolved: once numbered, every clause number of its
/// recitals and body can be formatted under `convention`, and so can every
/// number in its addenda's clause lists.
pub open spec fn resolvable(doc: Document, convention: NumberingConvention) -> bool {
    &&& forall|b: Seq<BodyElement>|
        #[trigger] numbering_of(doc.body@, b) ==> elements_formattable(b, convention)
    &&& doc.recitals matches Some(r) ==> forall|b: Seq<BodyElement>|
        #[trigger] numbering_of(r.body@, b) ==> elements_formattable(b, convention)
    &&& addenda_formattable(doc.addenda@, convention)
}

/// What resolution guarantees of a document `d` resolved from `old`: the
/// recitals and body are numbered as [`body_numbered`] says, the metadata and
/// addenda headings are kept, diagnostics are only appended, every schedule
/// item names a declared schedule, and each declared schedule no item
/// names is reported.
pub open spec fn resolved_from(d: Document, old: Document) -> bool {
    &&& d.meta == old.meta
    &&& d.body_heading == old.body_heading
    &&& body_numbered(d.body@)
    &&& d.body@.len() == old.body@.len()
    &&& (d.recitals is Some <==> old.recitals is Some)
    &&& d.recitals matches Some(r) ==> body_numbered(r.body@)
    &&& d.addenda@.len() == old.addenda@.len()
    &&& forall|k: int|
        #![trigger d.addenda@[k]]
        0 <= k < d.addenda@.len() ==> d.addenda@[k].number == old.addenda@[k].number
            && d.addenda@[k].title == old.addenda@[k].title
    &&& extends(old.diagnostics@, d.diagnostics@)
    &&& items_in_range(d.schedule_items@, d.meta.schedule@.len() as int)
    &&& exists|off: int| reports_unreferenced_at(d.diagnostics@, d.meta.schedule@, d.schedule_items@, off)
    &&& terms_checked(d)
}

/// The patterns that find references to the declared schedules.
pub open spec fn declared_patterns(s: Seq<crate::model::ScheduleDecl>) -> Seq<Seq<char>> {
    s.map_values(|d: crate::model::ScheduleDecl| schedule_pattern_spec(regex_escaped(d.title@)))
}

/// A document's defined terms are checked: its schedule items are the
/// schedule definitions of its text, and its diagnostics end with exactly
/// the unused-term warnings its terms and text call for.
pub open spec fn terms_checked(d: Document) -> bool {
    let pats = declared_patterns(d.meta.schedule@);
    &&& item_view(d.schedule_items@) == schedule_entries(document_defs(d, pats))
    &&& exists|off: int|
        reports_unused_from(
            d.diagnostics@,
            all_defined_terms(d, pats),
            item_terms(d.schedule_items@),
            document_text(d),
            off,
        )
}

/// The cross-references of `new` are those of `old` resolved against the
/// anchor entries `t`: in the recitals, the body and every addendum.
pub open spec fn refs_resolved(old: Document, new: Document, t: Seq<AnchorEntry>) -> bool {
    &&& elements_resolved(old.body@, new.body@, t)
    &&& old.recitals matches Some(r) ==> (new.recitals matches Some(q) && elements_resolved(
        r.body@,
        q.body@,
        t,
    ))
    &&& old.addenda@.len() == new.addenda@.len()
    &&& forall|k: int|
        0 <= k < old.addenda@.len() ==> addendum_resolved(#[trigger] old.addenda@[k], new.addenda@[k], t)
}

/// `n` is `old` with its recitals and body numbered and nothing else
/// changed.
pub open spec fn numbered_from(old: Document, n: Document) -> bool {
    &&& n.meta == old.meta
    &&& n.body_heading == old.body_heading
    &&& numbering_of(old.body@, n.body@)
    &&& (n.recitals is Some <==> old.recitals is Some)
    &&& old.recitals matches Some(r) ==> numbering_of(r.body@, n.recitals->Some_0.body@)
    &&& n.addenda == old.addenda
}

/// From offset `off`, the diagnostics `dg` hold one `unused-anchor` info
/// for each anchor of the map `m` that no cross-reference of `d` points at,
/// in order of the line `m` records for it and then id; `m` holds the ids
/// and reference texts of the anchors of `d` (first declaration of each
/// id), and an anchor counts as used exactly when some cross-reference of
/// `d` points at its id.
pub open spec fn unused_reported_at(dg: Seq<Diagnostic>, off: int, m: Seq<AnchorInfo>, d: Document, convention: NumberingConvention) -> bool {
    &&& map_entries(m) == anchor_table(d, convention)
    &&& used_exactly(m, |id: Seq<char>| document_refers(d, id))
    &&& exists|order: Seq<int>|
        #![trigger order.to_multiset()]
        {
            &&& order.to_multiset() == unused_indices(m).to_multiset()
            &&& forall|a: int, b: int|
                0 <= a < b < order.len() ==> !anchor_before(m[#[trigger] order[b]], m[#[trigger] order[a]])
            &&& 0 <= off && off + order.len() <= dg.len()
            &&& diags_view(dg.subrange(off, off + order.len())) == order.map_values(|i: int| unused_anchor_view(m[i]))
        }
}

/// From `off` on, `dg` holds the `broken-cross-ref` warnings of `d`, then
/// the `unused-anchor` infos of its anchors (see [`unused_reported_at`]).
pub open spec fn resolution_reported_at(dg: Seq<Diagnostic>, off: int, d: Document, convention: NumberingConvention) -> bool {
    let b = broken_document(d, convention);
    &&& 0 <= off
    &&& off + b.len() <= dg.len()
    &&& diags_view(dg.subrange(off, off + b.len())) == b
    &&& exists|m: Seq<AnchorInfo>| #[trigger] unused_reported_at(dg, off + b.len(), m, d, convention)
}

/// The cross-references of `d` are those of `old` once numbered, each one
/// to a declared anchor carrying the reference text of the first
/// declaration of its id in that numbered document (recitals first, then
/// body, then addenda), each other one left unresolved; and right after
/// the diagnostics `old` had come the `duplicate-anchor` warnings for the
/// anchors declared again, then a `broken-cross-ref` warning for each
/// cross-reference to an undeclared anchor, then the `unused-anchor` infos
/// of the anchors no cross-reference points at.
pub open spec fn cross_refs_resolved(d: Document, old: Document, convention: NumberingConvention) -> bool {
    exists|n: Document|
        #[trigger] numbered_from(old, n) && refs_resolved(n, d, anchor_table(n, convention))
            && anchors_reported_at(d.diagnostics@, old.diagnostics@.len() as int, anchor_list(n, convention))
            && resolution_reported_at(
            d.diagnostics@,
            (old.diagnostics@.len() + dup_reports(Seq::empty(), anchor_list(n, convention)).len()) as int,
            n,
            convention,
        )
}

/// Resolve a numbered document: register anchors, resolve cross-references,
/// report unused anchors, then collect and check defined terms.
#[verifier::rlimit(40)]
#[verifier::spinoff_prover]
fn resolve_numbered(doc: &mut Document, convention: NumberingConvention)
    requires
        elements_formattable(old(doc).body@, convention),
        old(doc).recitals matches Some(r) ==> elements_formattable(r.body@, convention),
        addenda_formattable(old(doc).addenda@, convention),
    ensures
        final(doc).meta == old(doc).meta,
        final(doc).body_heading == old(doc).body_heading,
        elements_outline_eq(old(doc).body@, final(doc).body@),
        (final(doc).recitals is Some <==> old(doc).recitals is Some),
        old(doc).recitals matches Some(r0) ==> elements_outline_eq(
            r0.body@,
            final(doc).recitals->Some_0.body@,
        ),
        final(doc).addenda@.len() == old(doc).addenda@.len(),
        forall|k: int|
            #![trigger final(doc).addenda@[k]]
            0 <= k < final(doc).addenda@.len() ==> final(doc).addenda@[k].number
                == old(doc).addenda@[k].number && final(doc).addenda@[k].title
                == old(doc).addenda@[k].title,
        extends(old(doc).diagnostics@, final(doc).diagnostics@),
        items_in_range(final(doc).schedule_items@, final(doc).meta.schedule@.len() as int),
        exists|off: int|
            reports_unreferenced_at(
                final(doc).diagnostics@,
                final(doc).meta.schedule@,
                final(doc).schedule_items@,
                off,
            ),
        terms_checked(*final(doc)),
        refs_resolved(*old(doc), *final(doc), anchor_table(*old(doc), convention)),
        anchors_reported_at(
            final(doc).diagnostics@,
            old(doc).diagnostics@.len() as int,
            anchor_list(*old(doc), convention),
        ),
        resolution_reported_at(
            final(doc).diagnostics@,
            (old(doc).diagnostics@.len() + dup_reports(Seq::empty(), anchor_list(*old(doc), convention)).len()) as int,
            *old(doc),
            convention,
        ),
{
    let ghost doc0 = *doc;
    let mut map: Vec<AnchorInfo> = Vec::new();
    let mut diagnostics: Vec<Diagnostic> = Vec::new();
    std::mem::swap(&mut diagnostics, &mut doc.diagnostics);
    let ghost d0 = diagnostics@;
    let ghost rec_entries = match doc0.recitals {
        Some(r) => elements_entries(r.body@, "Recital"@, convention),
        None => Seq::<AnchorEntry>::empty(),
    };
    let ghost body_entries = elements_entries(doc0.body@, "clause"@, convention);
    proof {
        lemma_extends_refl(d0);
        assert(map_entries(map@) =~= Seq::<AnchorEntry>::empty());
        assert(none_used(map@));
    }
    match &doc.recitals {
        Some(rec) => collect_body_anchors(&rec.body, &mut map, "Recital", convention, &mut diagnostics),
        None => {},
    }
    let ghost d1 = diagnostics@;
    proof {
        assert(map_entries(map@) == register_entries(Seq::empty(), rec_entries));
        if doc.recitals is None {
            assert(reports_of(d1) =~= reports_of(d0) + dup_reports(Seq::empty(), rec_entries));
        }
        assert(reports_of(d1) == reports_of(d0) + dup_reports(Seq::empty(), rec_entries));
    }
    collect_body_anchors(&doc.body, &mut map, "clause", convention, &mut diagnostics);
    proof {
        if doc.recitals is Some {
            lemma_extends_trans(d0, d1, diagnostics@);
        }
        lemma_register_concat(Seq::empty(), rec_entries, body_entries);
        lemma_dup_concat(Seq::empty(), rec_entries, body_entries);
        assert(reports_of(diagnostics@) =~= reports_of(d0) + dup_reports(Seq::empty(), rec_entries + body_entries));
        assert(doc.addenda@.take(0) =~= Seq::<Addendum>::empty());
        assert(rec_entries + body_entries + addenda_entries(doc.addenda@.take(0)) =~= rec_entries
            + body_entries);
    }
    let mut a: usize = 0;
    while a < doc.addenda.len()
        invariant
            *doc == (Document { diagnostics: doc.diagnostics, ..doc0 }),
            a <= doc.addenda@.len(),
            extends(d0, diagnostics@),
            map_entries(map@) == register_entries(
                Seq::empty(),
                rec_entries + body_entries + addenda_entries(doc.addenda@.take(a as int)),
            ),
            reports_of(diagnostics@) == reports_of(d0) + dup_reports(
                Seq::empty(),
                rec_entries + body_entries + addenda_entries(doc.addenda@.take(a as int)),
            ),
            none_used(map@),
        decreases doc.addenda@.len() - a,
    {
        let ghost d2 = diagnostics@;
        let ghost before = rec_entries + body_entries + addenda_entries(doc.addenda@.take(a as int));
        let ghost m2 = map_entries(map@);
        let ghost m_prev = map@;
        let ghost piece = match doc.addenda@[a as int].anchor {
            Some(x) => seq![(x@, "Addendum "@ + decimal(doc.addenda@[a as int].number as nat))],
            None => Seq::<AnchorEntry>::empty(),
        };
        proof {
            assert(doc.addenda@.take(a + 1).drop_last() =~= doc.addenda@.take(a as int));
            assert(doc.addenda@.take(a + 1).last() == doc.addenda@[a as int]);
            assert(rec_entries + body_entries + addenda_entries(doc.addenda@.take(a + 1)) =~= before
                + piece);
            lemma_register_concat(Seq::empty(), before, piece);
            lemma_dup_concat(Seq::empty(), before, piece);
        }
        match &doc.addenda[a].anchor {
            Some(anchor_id) => {
                let mut reference: Vec<char> = Vec::new();
                extend_str(&mut reference, "Addendum ");
                extend_chars(&mut reference, &crate::text::decimal_chars(doc.addenda[a].number as usize));
                register_anchor(
                    &mut map,
                    anchor_id.as_str(),
                    string_of(&reference),
                    doc.addenda[a].source_pos,
                    &mut diagnostics,
                );
                proof {
                    assert forall|q: int| 0 <= q < map@.len() implies !(#[trigger] map@[q]).used by {
                        if map@.len() > m_prev.len() && q < m_prev.len() {
                            assert(map@[q] == map@.drop_last()[q]);
                        }
                    }
                    assert(diagnostics@.take(d2.len() as int) =~= d2);
                    lemma_extends_trans(d0, d2, diagnostics@);
                    assert(reference@ == "Addendum "@ + decimal(doc.addenda@[a as int].number as nat));
                    assert(piece == seq![(anchor_id@, reference@)]);
                    assert(piece.drop_last() =~= Seq::<AnchorEntry>::empty());
                    assert(register_entries(m2, piece.drop_last()) == m2);
                    assert(register_entries(m2, piece) == register_entry(m2, piece.last()));
                    assert(reports_of(diagnostics@) =~= reports_of(d0) + dup_reports(Seq::empty(), before + piece));
                }
            },
            None => {
                proof {
                    assert(register_entries(m2, piece) == m2);
                    assert(dup_reports(m2, piece) =~= Seq::<AnchorReport>::empty());
                    assert(reports_of(diagnostics@) =~= reports_of(d0) + dup_reports(Seq::empty(), before + piece));
                }
            },
        }
        a += 1;
    }
    let ghost table = map_entries(map@);
    let ghost m_reg = map@;
    proof {
        assert(doc.addenda@.take(a as int) =~= doc.addenda@);
        assert(table == anchor_table(doc0, convention));
    }
    let ghost d3 = diagnostics@;
    proof {
        assert(reports_of(d3) == reports_of(d0) + dup_reports(Seq::empty(), anchor_list(doc0, convention)));
    }
    let ghost body0 = doc.body@;
    let ghost add_all = doc.addenda@;
    let ghost rec0 = doc.recitals;
    let mut recitals = None;
    std::mem::swap(&mut recitals, &mut doc.recitals);
    let ghost rp = |id: Seq<char>| rec0 matches Some(r) && elements_refer(r.body@, id);
    let ghost rw = broken_recitals(rec0, table, convention);
    let recitals = match recitals {
        Some(rec) => {
            let mut rec = rec;
            let ghost m3 = map@;
            let ghost rb = rec.body@;
            resolve_cross_refs(&mut rec.body, &mut map, &mut diagnostics, convention);
            proof {
                lemma_keeps_entries(m3, map@);
                lemma_marked_eq(m3, map@, |id: Seq<char>| elements_refer(rb, id), rp);
            }
            Some(rec)
        },
        None => {
            proof {
                lemma_marked_refl(map@, rp);
                lemma_warns_refl(diagnostics@);
            }
            None
        },
    };
    assert(warns(d3, diagnostics@, rw));
    doc.recitals = recitals;
    let ghost d4 = diagnostics@;
    proof {
        if rec0 is None {
            assert(d4 =~= d3);
            lemma_extends_refl(d3);
        }
    }
    let ghost m4 = map@;
    resolve_cross_refs(&mut doc.body, &mut map, &mut diagnostics, convention);
    let ghost mb = map@;
    let ghost bp = |id: Seq<char>| rp(id) || elements_refer(body0, id);
    proof {
        lemma_marked_trans(m_reg, m4, map@, rp, |id: Seq<char>| elements_refer(body0, id), bp);
        lemma_marked_refl(map@, |id: Seq<char>| exists|k: int| 0 <= k < 0int && addendum_refers(#[trigger] add_all[k], id));
        lemma_extends_trans(d0, d3, d4);
        lemma_extends_trans(d0, d4, diagnostics@);
        lemma_extends_trans(d3, d4, diagnostics@);
        lemma_keeps_entries(m4, map@);
        lemma_warns_trans(d3, d4, diagnostics@, rw, broken_elements(body0, table, convention));
        assert(add_all.take(0) =~= Seq::<Addendum>::empty());
        assert(rw + broken_elements(body0, table, convention) + broken_addenda(add_all.take(0), table, convention)
            =~= rw + broken_elements(body0, table, convention));
    }
    let ghost add0 = doc.addenda@;
    assert(add0 == add_all);
    let mut addenda: Vec<crate::model::Addendum> = Vec::new();
    std::mem::swap(&mut addenda, &mut doc.addenda);
    let mut done: Vec<crate::model::Addendum> = Vec::new();
    while addenda.len() > 0
        invariant
            addenda_formattable(add0, convention),
            done@.len() + addenda@.len() == add0.len(),
            addenda@ == add0.skip(done@.len() as int),
            forall|k: int|
                #![trigger done@[k]]
                0 <= k < done@.len() ==> done@[k].number == add0[k].number && done@[k].title
                    == add0[k].title && addendum_formattable(done@[k], convention)
                    && addendum_resolved(add0[k], done@[k], table),
            map_entries(map@) == table,
            add0 == add_all,
            marked(mb, map@, |id: Seq<char>| exists|k: int| 0 <= k < done@.len() && addendum_refers(#[trigger] add_all[k], id)),
            extends(d0, diagnostics@),
            extends(d3, diagnostics@),
            warns(d3, diagnostics@, rw + broken_elements(body0, table, convention) + broken_addenda(add_all.take(done@.len() as int), table, convention)),
        decreases addenda@.len(),
    {
        let ghost j = done@.len() as int;
        let ghost before = done@;
        let ghost d5 = diagnostics@;
        let ghost m5 = map@;
        let mut add = addenda.remove(0);
        proof {
            assert(add == add0[j]);
            assert(addendum_formattable(add, convention));
            assert(addenda@ =~= add0.skip(j + 1));
        }
        resolve_addendum_cross_refs(&mut add, &mut map, &mut diagnostics, convention);
        done.push(add);
        proof {
            lemma_extends_trans(d0, d5, diagnostics@);
            lemma_extends_trans(d3, d5, diagnostics@);
            lemma_keeps_entries(m5, map@);
            let pp = |id: Seq<char>| exists|k: int| 0 <= k < j && addendum_refers(#[trigger] add_all[k], id);
            let qq = |id: Seq<char>| addendum_refers(add_all[j], id);
            let rr = |id: Seq<char>| exists|k: int| 0 <= k < j + 1 && addendum_refers(#[trigger] add_all[k], id);
            assert forall|id: Seq<char>| #[trigger] rr(id) <==> (pp(id) || qq(id)) by {
                if rr(id) {
                    let w = choose|w: int| 0 <= w < j + 1 && addendum_refers(#[trigger] add_all[w], id);
                    if w < j {
                        assert(pp(id));
                    }
                }
            }
            lemma_marked_trans(mb, m5, map@, pp, qq, rr);
            let aw = broken_addendum(add_all[j].content@, table, convention, Some(crate::model::addendum_heading(add_all[j].number, add_all[j].title@)), add_all[j].source_pos);
            let prew = rw + broken_elements(body0, table, convention) + broken_addenda(add_all.take(j), table, convention);
            lemma_warns_trans(d3, d5, diagnostics@, prew, aw);
            assert(add_all.take(j + 1).drop_last() =~= add_all.take(j));
            assert(add_all.take(j + 1).last() == add_all[j]);
            assert(prew + aw =~= rw + broken_elements(body0, table, convention) + broken_addenda(add_all.take(j + 1), table, convention));
            assert forall|k: int| #![trigger done@[k]] 0 <= k < done@.len() implies done@[k].number
                == add0[k].number && done@[k].title == add0[k].title && addendum_formattable(
                done@[k],
                convention,
            ) && addendum_resolved(add0[k], done@[k], table) by {
                if k < j {
                    assert(done@[k] == before[k]);
                }
            }
        }
    }
    doc.addenda = done;
    let ghost d6 = diagnostics@;
    let ghost m_f = map@;
    proof {
        assert(add_all.take(done@.len() as int) =~= add_all);
        assert(rw + broken_elements(body0, table, convention) + broken_addenda(add_all, table, convention) == broken_document(doc0, convention));
        assert(warns(d3, d6, broken_document(doc0, convention)));
        let dp = |id: Seq<char>| document_refers(doc0, id);
        lemma_marked_trans(m_reg, mb, map@, bp, |id: Seq<char>| exists|k: int| 0 <= k < add_all.len() && addendum_refers(#[trigger] add_all[k], id), dp);
        assert forall|q: int| 0 <= q < m_reg.len() implies (#[trigger] m_reg[q]).id == m_f[q].id by {
            assert(m_f[q].id == m_reg[q].id);
        }
        assert forall|q: int| #![trigger m_f[q]] 0 <= q < m_f.len() implies (m_f[q].used <==> (dp(m_f[q].id@) && find_spec(m_f, m_f[q].id@) == Some(q))) by {
            assert(m_f[q].id == m_reg[q].id);
            assert(!m_reg[q].used);
            lemma_find_spec_same_ids(m_reg, m_f, m_reg[q].id@);
        }
        assert(used_exactly(m_f, dp));
    }
    let mut unused = unused_anchor_reports(&map);
    let ghost uv = unused@;
    diagnostics.append(&mut unused);
    proof {
        assert(diagnostics@.take(d6.len() as int) =~= d6);
        lemma_extends_trans(d0, d6, diagnostics@);
        lemma_extends_trans(d3, d6, diagnostics@);
    }
    std::mem::swap(&mut diagnostics, &mut doc.diagnostics);
    proof {
        lemma_outline_body(body0, doc.body@, convention);
        if rec0 is Some {
            lemma_outline_body(rec0->Some_0.body@, doc.recitals->Some_0.body@, convention);
        }
        assert(addenda_formattable(doc.addenda@, convention)) by {
            assert forall|k: int| 0 <= k < doc.addenda@.len() implies addendum_formattable(
                #[trigger] doc.addenda@[k],
                convention,
            ) by {
                assert(doc.addenda@[k] == done@[k]);
            }
        }
    }
    let ctx = ScheduleContext::new(&doc.meta.schedule);
    let ghost d7 = doc.diagnostics@;
    proof {
        assert(patterns_view(ctx.patterns@) =~= declared_patterns(doc.meta.schedule@));
    }
    let ghost before = *doc;
    collect_and_validate_terms(doc, &ctx, convention);
    proof {
        lemma_extends_trans(d0, d7, doc.diagnostics@);
        lemma_extends_trans(d3, d7, doc.diagnostics@);
        let dg = doc.diagnostics@;
        let r = dup_reports(Seq::empty(), anchor_list(doc0, convention));
        assert(reports_of(d3).len() == d3.len());
        assert(dg.take(d3.len() as int) == d3);
        assert(reports_of(dg.subrange(d0.len() as int, (d0.len() + r.len()) as int)) =~= r) by {
            assert forall|q: int| 0 <= q < r.len() implies #[trigger] reports_of(
                dg.subrange(d0.len() as int, (d0.len() + r.len()) as int),
            )[q] == r[q] by {
                assert(dg[d0.len() + q] == d3[d0.len() + q]);
                assert(reports_of(d3)[d0.len() + q] == r[q]);
            }
        }
        let pats = declared_patterns(doc.meta.schedule@);
        assert(document_defs(before, pats) == document_defs(*doc, pats));
        assert(document_text(before) == document_text(*doc));
        assert(all_defined_terms(before, pats) == all_defined_terms(*doc, pats));
        let off = d6.len() as int;
        let order = choose|order: Seq<int>| #![trigger order.to_multiset()] {
            &&& order.to_multiset() == unused_indices(m_f).to_multiset()
            &&& forall|a: int, b: int| 0 <= a < b < order.len() ==> !anchor_before(m_f[#[trigger] order[b]], m_f[#[trigger] order[a]])
            &&& diags_view(uv) == order.map_values(|i: int| unused_anchor_view(m_f[i]))
        };
        assert(diags_view(uv).len() == uv.len());
        assert(order.map_values(|i: int| unused_anchor_view(m_f[i])).len() == order.len());
        assert(dg.take(d7.len() as int) == d7);
        assert(d7.take((off + uv.len()) as int) =~= d6 + uv);
        assert(order.len() == uv.len());
        assert forall|q: int| 0 <= q < uv.len() implies #[trigger] dg.subrange(off, off + order.len())[q] == uv[q] by {
            assert(dg[off + q] == dg.take(d7.len() as int)[off + q]);
            assert(d7[off + q] == d7.take((off + uv.len()) as int)[off + q]);
            assert((d6 + uv)[off + q] == uv[q]);
        }
        assert(dg.subrange(off, off + order.len()) =~= uv);
        assert(map_entries(m_f) == anchor_table(doc0, convention));
        assert(unused_reported_at(dg, off, m_f, doc0, convention));
        let b = broken_document(doc0, convention);
        let ob = d3.len() as int;
        assert(reports_of(d0).len() == d0.len());
        assert(ob == d0.len() + dup_reports(Seq::empty(), anchor_list(doc0, convention)).len());
        assert(diags_view(d6).len() == d6.len());
        assert(diags_view(d3).len() == d3.len());
        assert(d6.len() == ob + b.len());
        assert forall|q: int| 0 <= q < b.len() implies #[trigger] diags_view(dg.subrange(ob, ob + b.len()))[q] == b[q] by {
            assert(dg[ob + q] == dg.take(d7.len() as int)[ob + q]);
            assert(d7[ob + q] == d7.take((off + uv.len()) as int)[ob + q]);
            assert((d6 + uv)[ob + q] == d6[ob + q]);
            assert(diags_view(d6)[ob + q] == (diags_view(d3) + b)[ob + q]);
        }
        assert(diags_view(dg.subrange(ob, ob + b.len())) =~= b);
        assert(resolution_reported_at(dg, ob, doc0, convention));
    }
}

/// Resolve a document: number its recitals and body, register anchors,
/// resolve cross-references, report unused anchors, and collect and check
/// its defined terms.
pub fn resolve(doc: &mut Document, convention: NumberingConvention)
    requires
        resolvable(*old(doc), convention),
    ensures
        resolved_from(*final(doc), *old(doc)),
        cross_refs_resolved(*final(doc), *old(doc), convention),
{
    let ghost d0 = *doc;
    let mut rec = None;
    std::mem::swap(&mut rec, &mut doc.recitals);
    let rec = match rec {
        Some(r) => {
            let mut r = r;
            assign_clause_numbers(&mut r.body);
            Some(r)
        },
        None => None,
    };
    doc.recitals = rec;
    assign_clause_numbers(&mut doc.body);
    let ghost d1 = *doc;
    proof {
        assert(numbering_of(d0.body@, d1.body@));
        if d0.recitals is Some {
            assert(numbering_of(d0.recitals->Some_0.body@, d1.recitals->Some_0.body@));
        }
    }
    resolve_numbered(doc, convention);
    proof {
        lemma_outline_body(d1.body@, doc.body@, convention);
        if d0.recitals is Some {
            lemma_outline_body(d1.recitals->Some_0.body@, doc.recitals->Some_0.body@, convention);
        }
        assert(numbered_from(d0, d1));
    }
}

/// Whether every clause number in the addenda's clause lists can be
/// formatted under `convention`.
#[verifier::loop_isolation(false)]
pub fn addenda_numbers_formattable(addenda: &Vec<Addendum>, convention: NumberingConvention) -> (r: bool)
    ensures
        r == addenda_formattable(addenda@, convention),
{
    let mut a: usize = 0;
    while a < addenda.len()
        invariant
            a <= addenda@.len(),
            forall|q: int| 0 <= q < a ==> addendum_formattable(#[trigger] addenda@[q], convention),
        decreases addenda@.len() - a,
    {
        let add = &addenda[a];
        let mut k: usize = 0;
        while k < add.content.len()
            invariant
                a < addenda@.len(),
                *add == addenda@[a as int],
                k <= add.content@.len(),
                forall|p: int, j: int|
                    #![trigger add.content@[p], add.content@[p]->ClauseList_0@[j]]
                    0 <= p < k && add.content@[p] is ClauseList && 0 <= j
                        < add.content@[p]->ClauseList_0@.len() ==> tree_formattable(
                        add.content@[p]->ClauseList_0@[j],
                        convention,
                    ),
            decreases add.content@.len() - k,
        {
            match &add.content[k] {
                AddendumContent::ClauseList(clauses) => {
                    let mut j: usize = 0;
                    while j < clauses.len()
                        invariant
                            k < add.content@.len(),
                            add.content@[k as int] == AddendumContent::ClauseList(*clauses),
                            forall|q: int| 0 <= q < j ==> tree_formattable(#[trigger] clauses@[q], convention),
                        decreases clauses@.len() - j,
                    {
                        if !clause_formattable(&clauses[j], convention) {
                            proof {
                                assert(add.content@[k as int]->ClauseList_0@[j as int] == clauses@[j as int]);
                                assert(!addendum_formattable(addenda@[a as int], convention));
                            }
                            return false;
                        }
                        j += 1;
                    }
                },
                _ => {},
            }
            k += 1;
        }
        a += 1;
    }
    true
}

/// Resolve a document when it can be resolved: number it, and when all its
/// numbers can be formatted under `convention`, finish resolving it and
/// return `true`; otherwise return `false`, with the recitals and body
/// numbered and nothing else done. Every resolvable document succeeds.
pub fn try_resolve(doc: &mut Document, convention: NumberingConvention) -> (ok: bool)
    ensures
        resolvable(*old(doc), convention) ==> ok,
        ok ==> resolved_from(*final(doc), *old(doc)),
        ok ==> cross_refs_resolved(*final(doc), *old(doc), convention),
        final(doc).meta == old(doc).meta,
        extends(old(doc).diagnostics@, final(doc).diagnostics@),
{
    let ghost d0 = *doc;
    let mut rec = None;
    std::mem::swap(&mut rec, &mut doc.recitals);
    let rec = match rec {
        Some(r) => {
            let mut r = r;
            assign_clause_numbers(&mut r.body);
            Some(r)
        },
        None => None,
    };
    doc.recitals = rec;
    assign_clause_numbers(&mut doc.body);
    let ghost d1 = *doc;
    proof {
        assert(numbering_of(d0.body@, d1.body@));
        if d0.recitals is Some {
            assert(numbering_of(d0.recitals->Some_0.body@, d1.recitals->Some_0.body@));
        }
    }
    let rec_ok = match &doc.recitals {
        Some(r) => body_formattable(&r.body, convention),
        None => true,
    };
    if !rec_ok || !body_formattable(&doc.body, convention) || !addenda_numbers_formattable(
        &doc.addenda,
        convention,
    ) {
        proof {
            lemma_extends_refl(doc.diagnostics@);
        }
        return false;
    }
    resolve_numbered(doc, convention);
    proof {
        lemma_outline_body(d1.body@, doc.body@, convention);
        if d0.recitals is Some {
            lemma_outline_body(d1.recitals->Some_0.body@, doc.recitals->Some_0.body@, convention);
        }
        assert(numbered_from(d0, d1));
    }
    true
}

} // verus!
