//! Defined terms: how bold terms are classified, the word forms a term is
//! recognised by, and the schedule phrases that tie a term to a schedule.
use vstd::prelude::*;

use crate::error::{DiagLevel, Diagnostic, SourcePos};
use crate::lint::{diag_view, diags_view, placed_view, DiagView};
use crate::model::{
    inlines_view, Document, Addendum, AddendumContent, BodyElement, Clause, ClauseBody, ClauseContent,
    InlineContent, InlineView, ScheduleDecl, ScheduleItem,
};
use crate::frontmatter::opt_view;
use crate::resolve::{addendum_formattable, elements_formattable, lemma_runs_at, tree_formattable};
use crate::style::NumberingConvention;
use crate::parser::clause::{extends, lemma_extends_trans};
use crate::pattern::{
    lowercase, regex_captures, regex_captures_all, regex_escape, regex_escaped, regex_is_match,
    regex_matches, to_lowercase,
};
use crate::text::{
    chars_of, decimal, ends_with, extend_chars, extend_str, slice_chars, starts_with, string_of, trim,
    trim_end, trim_end_seq, trim_seq,
};

verus! {

// ---------------------------------------------------------------------------
// Byte lengths
// ---------------------------------------------------------------------------

/// Number of bytes a character takes in UTF-8.
pub open spec fn utf8_width(c: char) -> nat {
    if (c as u32) < 0x80 {
        1
    } else if (c as u32) < 0x800 {
        2
    } else if (c as u32) < 0x10000 {
        3
    } else {
        4
    }
}

/// Number of bytes a string takes in UTF-8 (`str::len`).
pub open spec fn utf8_len(s: Seq<char>) -> nat
    decreases s.len(),
{
    if s.len() == 0 {
        0
    } else {
        utf8_len(s.drop_last()) + utf8_width(s.last())
    }
}

proof fn lemma_utf8_len_mono(s: Seq<char>, i: int)
    requires
        0 <= i <= s.len(),
    ensures
        utf8_len(s.take(i)) <= utf8_len(s),
    decreases s.len() - i,
{
    if i < s.len() {
        lemma_utf8_len_mono(s, i + 1);
        assert(s.take(i + 1).drop_last() =~= s.take(i));
    } else {
        assert(s.take(i) =~= s);
    }
}

/// Whether `s` takes more than `n` bytes in UTF-8.
fn utf8_longer_than(s: &[char], n: usize) -> (r: bool)
    ensures
        r == (utf8_len(s@) > n),
{
    let mut total: usize = 0;
    let mut i: usize = 0;
    while i < s.len()
        invariant
            i <= s@.len(),
            total == utf8_len(s@.take(i as int)),
            total <= n,
        decreases s@.len() - i,
    {
        let c = s[i];
        let w: usize = if (c as u32) < 0x80 {
            1
        } else if (c as u32) < 0x800 {
            2
        } else if (c as u32) < 0x10000 {
            3
        } else {
            4
        };
        proof {
            assert(s@.take(i + 1).drop_last() =~= s@.take(i as int));
        }
        if w > n - total {
            proof {
                lemma_utf8_len_mono(s@, i + 1);
            }
            return true;
        }
        total = total + w;
        i += 1;
    }
    proof {
        assert(s@.take(s@.len() as int) =~= s@);
    }
    false
}

// ---------------------------------------------------------------------------
// Word forms of a term
// ---------------------------------------------------------------------------

/// The term without a possessive `'s` or `s'`.
pub open spec fn strip_possessive(s: Seq<char>) -> Seq<char> {
    if "'s"@.is_suffix_of(s) || "s'"@.is_suffix_of(s) {
        s.take(s.len() - 2)
    } else {
        s
    }
}

/// The form of `base` with `suffix` replaced by `repl`, when `base` ends
/// with the suffix, is more than two bytes longer than it, and the form
/// differs from `base`.
pub open spec fn suffix_form(base: Seq<char>, suffix: Seq<char>, repl: Seq<char>) -> Seq<Seq<char>> {
    if suffix.is_suffix_of(base) && utf8_len(base) > suffix.len() + 2 {
        let v = base.take(base.len() - suffix.len()) + repl;
        if v != base {
            seq![v]
        } else {
            Seq::empty()
        }
    } else {
        Seq::empty()
    }
}

/// Index just past the last space of `s` (0 when there is none).
pub open spec fn last_word_start(s: Seq<char>) -> int
    decreases s.len(),
{
    if s.len() == 0 {
        0
    } else if s.last() == ' ' {
        s.len() as int
    } else {
        last_word_start(s.drop_last())
    }
}

/// The last word of `s`: what follows its last space.
pub open spec fn last_word(s: Seq<char>) -> Seq<char> {
    s.skip(last_word_start(s))
}

/// The plural of a term, formed on its last word: a consonant and `y`
/// become `ies`, a sibilant ending takes `es`, anything else `s`.
pub open spec fn plural_of(base: Seq<char>) -> Seq<char> {
    let w = last_word(base);
    if "y"@.is_suffix_of(w) && !"ay"@.is_suffix_of(w) && !"ey"@.is_suffix_of(w)
        && !"oy"@.is_suffix_of(w) && !"uy"@.is_suffix_of(w) {
        base.take(base.len() - 1) + "ies"@
    } else if "s"@.is_suffix_of(w) || "x"@.is_suffix_of(w) || "z"@.is_suffix_of(w)
        || "sh"@.is_suffix_of(w) || "ch"@.is_suffix_of(w) {
        base + "es"@
    } else {
        base + "s"@
    }
}

/// The plural form, when the last word is more than two bytes long and the
/// plural differs from the term.
pub open spec fn plural_form(base: Seq<char>) -> Seq<Seq<char>> {
    if utf8_len(last_word(base)) > 2 && plural_of(base) != base {
        seq![plural_of(base)]
    } else {
        Seq::empty()
    }
}

/// The forms a defined term is recognised by: the term (possessive
/// stripped), its stems under the suffix rules, and its plural. Case is
/// kept.
pub open spec fn term_variants_spec(term: Seq<char>) -> Seq<Seq<char>> {
    let base = strip_possessive(term);
    seq![base] + suffix_form(base, "ies"@, "y"@) + suffix_form(base, "ing"@, ""@) + suffix_form(
        base,
        "ed"@,
        ""@,
    ) + suffix_form(base, "es"@, "e"@) + suffix_form(base, "es"@, ""@) + suffix_form(
        base,
        "s"@,
        ""@,
    ) + plural_form(base)
}

/// The last word of `w` ends in a sibilant: s, x, z, sh or ch.
pub open spec fn ends_sibilant(w: Seq<char>) -> bool {
    "s"@.is_suffix_of(w) || "x"@.is_suffix_of(w) || "z"@.is_suffix_of(w) || "sh"@.is_suffix_of(w)
        || "ch"@.is_suffix_of(w)
}

/// `w` ends in a `y` after a consonant (not after a, e, o or u).
pub open spec fn ends_consonant_y(w: Seq<char>) -> bool {
    "y"@.is_suffix_of(w) && !"ay"@.is_suffix_of(w) && !"ey"@.is_suffix_of(w) && !"oy"@.is_suffix_of(w)
        && !"uy"@.is_suffix_of(w)
}

/// A term is recognised by itself and, when its last word is more than two
/// bytes long, by its English plural: `es` after a sibilant ("Breach" by
/// "Breaches"), `ies` in place of a `y` after a consonant ("Authority" by
/// "Authorities"), `s` otherwise ("Member" by "Members").
pub proof fn lemma_plural_recognised(term: Seq<char>)
    requires
        !"'s"@.is_suffix_of(term),
        !"s'"@.is_suffix_of(term),
    ensures
        term_variants_spec(term).contains(term),
        utf8_len(last_word(term)) > 2 && ends_sibilant(last_word(term)) ==> term_variants_spec(term).contains(
            term + "es"@,
        ),
        utf8_len(last_word(term)) > 2 && ends_consonant_y(last_word(term)) ==> term_variants_spec(term).contains(
            term.take(term.len() - 1) + "ies"@,
        ),
        utf8_len(last_word(term)) > 2 && !ends_sibilant(last_word(term)) && !ends_consonant_y(last_word(term))
            ==> term_variants_spec(term).contains(term + "s"@),
{
    reveal_strlit("s");
    reveal_strlit("x");
    reveal_strlit("z");
    reveal_strlit("sh");
    reveal_strlit("ch");
    reveal_strlit("y");
    reveal_strlit("ay");
    reveal_strlit("ey");
    reveal_strlit("oy");
    reveal_strlit("uy");
    reveal_strlit("es");
    reveal_strlit("ies");
    let v = term_variants_spec(term);
    assert(strip_possessive(term) == term);
    assert(v[0] == term);
    if utf8_len(last_word(term)) > 2 {
        let p = plural_of(term);
        assert(p.len() != term.len());
        assert(plural_form(term) == seq![p]);
        assert(v[v.len() - 1] == p);
        let w = last_word(term);
        if ends_sibilant(w) && "y"@.is_suffix_of(w) {
            let n = w.len() as int;
            assert(w.subrange(n - 1, n)[0] == 'y');
            if "s"@.is_suffix_of(w) {
                assert(w.subrange(n - 1, n)[0] == 's');
            } else if "x"@.is_suffix_of(w) {
                assert(w.subrange(n - 1, n)[0] == 'x');
            } else if "z"@.is_suffix_of(w) {
                assert(w.subrange(n - 1, n)[0] == 'z');
            } else if "sh"@.is_suffix_of(w) {
                assert(w.subrange(n - 2, n)[1] == 'h');
                assert(w.subrange(n - 2, n)[1] == w.subrange(n - 1, n)[0]);
            } else {
                assert(w.subrange(n - 2, n)[1] == 'h');
                assert(w.subrange(n - 2, n)[1] == w.subrange(n - 1, n)[0]);
            }
        }
    }
}

proof fn lemma_in_concat(a: Seq<Seq<char>>, b: Seq<Seq<char>>, x: Seq<char>)
    ensures
        a.contains(x) ==> (a + b).contains(x),
        b.contains(x) ==> (a + b).contains(x),
{
    if a.contains(x) {
        let i = choose|i: int| 0 <= i < a.len() && a[i] == x;
        assert((a + b)[i] == x);
    }
    if b.contains(x) {
        let i = choose|i: int| 0 <= i < b.len() && b[i] == x;
        assert((a + b)[a.len() + i] == x);
    }
}

/// A term is recognised by the stems its ending suggests, when the term is
/// more than two bytes longer than the ending: `ies` by `y`
/// ("Authorities" by "Authority"), `ing` and `ed` by the bare stem
/// ("Processing", "Processed" by "Process"), `es` by `e` and by the bare
/// stem ("Affiliates" by "Affiliate", "Breaches" by "Breach"), `s` by the
/// bare stem ("Members" by "Member").
pub proof fn lemma_stems_recognised(term: Seq<char>)
    requires
        !"'s"@.is_suffix_of(term),
        !"s'"@.is_suffix_of(term),
    ensures
        "ies"@.is_suffix_of(term) && utf8_len(term) > 5 ==> term_variants_spec(term).contains(
            term.take(term.len() - 3) + "y"@,
        ),
        "ing"@.is_suffix_of(term) && utf8_len(term) > 5 ==> term_variants_spec(term).contains(
            term.take(term.len() - 3),
        ),
        "ed"@.is_suffix_of(term) && utf8_len(term) > 4 ==> term_variants_spec(term).contains(
            term.take(term.len() - 2),
        ),
        "es"@.is_suffix_of(term) && utf8_len(term) > 4 ==> term_variants_spec(term).contains(
            term.take(term.len() - 2) + "e"@,
        ),
        "es"@.is_suffix_of(term) && utf8_len(term) > 4 ==> term_variants_spec(term).contains(
            term.take(term.len() - 2),
        ),
        "s"@.is_suffix_of(term) && utf8_len(term) > 3 ==> term_variants_spec(term).contains(
            term.take(term.len() - 1),
        ),
{
    reveal_strlit("ies");
    reveal_strlit("y");
    reveal_strlit("ing");
    reveal_strlit("");
    reveal_strlit("ed");
    reveal_strlit("es");
    reveal_strlit("e");
    reveal_strlit("s");
    assert(strip_possessive(term) == term);
    let a0 = seq![term];
    let a1 = suffix_form(term, "ies"@, "y"@);
    let a2 = suffix_form(term, "ing"@, ""@);
    let a3 = suffix_form(term, "ed"@, ""@);
    let a4 = suffix_form(term, "es"@, "e"@);
    let a5 = suffix_form(term, "es"@, ""@);
    let a6 = suffix_form(term, "s"@, ""@);
    let a7 = plural_form(term);
    assert(term_variants_spec(term) == a0 + a1 + a2 + a3 + a4 + a5 + a6 + a7);
    let x1 = term.take(term.len() - 3) + "y"@;
    let x2 = term.take(term.len() - 3) + ""@;
    let x3 = term.take(term.len() - 2) + ""@;
    let x4 = term.take(term.len() - 2) + "e"@;
    let x6 = term.take(term.len() - 1) + ""@;
    assert(x2 =~= term.take(term.len() - 3));
    assert(x3 =~= term.take(term.len() - 2));
    assert(x6 =~= term.take(term.len() - 1));
    if "ies"@.is_suffix_of(term) && utf8_len(term) > 5 {
        assert(x1.len() != term.len());
        assert(a1 == seq![x1]);
        assert(a1[0] == x1);
        lemma_in_concat(a0, a1, x1);
        lemma_in_concat(a0 + a1, a2, x1);
        lemma_in_concat(a0 + a1 + a2, a3, x1);
        lemma_in_concat(a0 + a1 + a2 + a3, a4, x1);
        lemma_in_concat(a0 + a1 + a2 + a3 + a4, a5, x1);
        lemma_in_concat(a0 + a1 + a2 + a3 + a4 + a5, a6, x1);
        lemma_in_concat(a0 + a1 + a2 + a3 + a4 + a5 + a6, a7, x1);
    }
    if "ing"@.is_suffix_of(term) && utf8_len(term) > 5 {
        assert(x2.len() != term.len());
        assert(a2 == seq![x2]);
        assert(a2[0] == x2);
        lemma_in_concat(a0 + a1, a2, x2);
        lemma_in_concat(a0 + a1 + a2, a3, x2);
        lemma_in_concat(a0 + a1 + a2 + a3, a4, x2);
        lemma_in_concat(a0 + a1 + a2 + a3 + a4, a5, x2);
        lemma_in_concat(a0 + a1 + a2 + a3 + a4 + a5, a6, x2);
        lemma_in_concat(a0 + a1 + a2 + a3 + a4 + a5 + a6, a7, x2);
    }
    if "ed"@.is_suffix_of(term) && utf8_len(term) > 4 {
        assert(x3.len() != term.len());
        assert(a3 == seq![x3]);
        assert(a3[0] == x3);
        lemma_in_concat(a0 + a1 + a2, a3, x3);
        lemma_in_concat(a0 + a1 + a2 + a3, a4, x3);
        lemma_in_concat(a0 + a1 + a2 + a3 + a4, a5, x3);
        lemma_in_concat(a0 + a1 + a2 + a3 + a4 + a5, a6, x3);
        lemma_in_concat(a0 + a1 + a2 + a3 + a4 + a5 + a6, a7, x3);
    }
    if "es"@.is_suffix_of(term) && utf8_len(term) > 4 {
        assert(x4.len() != term.len());
        assert(a4 == seq![x4]);
        assert(a4[0] == x4);
        lemma_in_concat(a0 + a1 + a2 + a3, a4, x4);
        lemma_in_concat(a0 + a1 + a2 + a3 + a4, a5, x4);
        lemma_in_concat(a0 + a1 + a2 + a3 + a4 + a5, a6, x4);
        lemma_in_concat(a0 + a1 + a2 + a3 + a4 + a5 + a6, a7, x4);
        assert(x3.len() != term.len());
        assert(a5 == seq![x3]);
        assert(a5[0] == x3);
        lemma_in_concat(a0 + a1 + a2 + a3 + a4, a5, x3);
        lemma_in_concat(a0 + a1 + a2 + a3 + a4 + a5, a6, x3);
        lemma_in_concat(a0 + a1 + a2 + a3 + a4 + a5 + a6, a7, x3);
    }
    if "s"@.is_suffix_of(term) && utf8_len(term) > 3 {
        assert(x6.len() != term.len());
        assert(a6 == seq![x6]);
        assert(a6[0] == x6);
        lemma_in_concat(a0 + a1 + a2 + a3 + a4 + a5, a6, x6);
        lemma_in_concat(a0 + a1 + a2 + a3 + a4 + a5 + a6, a7, x6);
    }
}

fn push_suffix_form(out: &mut Vec<Vec<char>>, base: &Vec<char>, suffix: &str, repl: &str)
    requires
        suffix@.len() <= 3,
    ensures
        final(out)@.map_values(|v: Vec<char>| v@) == old(out)@.map_values(|v: Vec<char>| v@)
            + suffix_form(base@, suffix@, repl@),
{
    let suf = chars_of(suffix);
    if ends_with(base, &suf) && utf8_longer_than(base, suf.len() + 2) {
        let mut v = slice_chars(base, 0, base.len() - suf.len());
        extend_str(&mut v, repl);
        proof {
            assert(v@ =~= base@.take(base@.len() - suffix@.len()) + repl@);
        }
        if !crate::text::chars_eq(&v, base) {
            out.push(v);
            proof {
                assert(out@.map_values(|v: Vec<char>| v@) =~= old(out)@.map_values(
                    |v: Vec<char>| v@,
                ) + suffix_form(base@, suffix@, repl@));
            }
            return;
        }
    }
    proof {
        assert(out@.map_values(|v: Vec<char>| v@) =~= old(out)@.map_values(|v: Vec<char>| v@)
            + suffix_form(base@, suffix@, repl@));
    }
}

fn word_start(s: &Vec<char>) -> (r: usize)
    ensures
        r == last_word_start(s@),
        r <= s@.len(),
{
    let mut i = s.len();
    proof {
        assert(s@.take(s@.len() as int) =~= s@);
    }
    while i > 0
        invariant
            i <= s@.len(),
            last_word_start(s@) == last_word_start(s@.take(i as int)),
        decreases i,
    {
        proof {
            assert(s@.take(i as int).drop_last() =~= s@.take(i - 1));
        }
        if s[i - 1] == ' ' {
            proof {
                assert(s@.take(i as int).last() == ' ');
            }
            return i;
        }
        i -= 1;
    }
    i
}

fn ends_str(s: &[char], p: &str) -> (r: bool)
    ensures
        r == p@.is_suffix_of(s@),
{
    let pv = chars_of(p);
    ends_with(s, &pv)
}

/// The word forms a defined term is recognised by (see
/// [`term_variants_spec`]).
#[verifier::spinoff_prover]
#[verifier::rlimit(40)]
pub fn term_variants(term: &str) -> (r: Vec<String>)
    ensures
        r@.map_values(|s: String| s@) == term_variants_spec(term@),
{
    let mut s = chars_of(term);
    proof {
        reveal_strlit("'s");
        reveal_strlit("s'");
        reveal_strlit("ies");
        reveal_strlit("ing");
        reveal_strlit("ed");
        reveal_strlit("es");
        reveal_strlit("s");
    }
    if ends_str(&s, "'s") || ends_str(&s, "s'") {
        s = slice_chars(&s, 0, s.len() - 2);
    }
    let base = s;
    proof {
        assert(base@ =~= strip_possessive(term@));
    }
    let mut forms: Vec<Vec<char>> = Vec::new();
    forms.push(slice_chars(&base, 0, base.len()));
    proof {
        assert(base@.subrange(0, base@.len() as int) =~= base@);
        assert(forms@.map_values(|v: Vec<char>| v@) =~= seq![base@]);
    }
    push_suffix_form(&mut forms, &base, "ies", "y");
    push_suffix_form(&mut forms, &base, "ing", "");
    push_suffix_form(&mut forms, &base, "ed", "");
    push_suffix_form(&mut forms, &base, "es", "e");
    push_suffix_form(&mut forms, &base, "es", "");
    push_suffix_form(&mut forms, &base, "s", "");
    let ghost before = forms@.map_values(|v: Vec<char>| v@);
    let start = word_start(&base);
    let word = slice_chars(&base, start, base.len());
    proof {
        assert(word@ =~= last_word(base@));
    }
    if utf8_longer_than(&word, 2) {
        let plural: Vec<char> = if ends_str(&word, "y") && !ends_str(&word, "ay") && !ends_str(
            &word,
            "ey",
        ) && !ends_str(&word, "oy") && !ends_str(&word, "uy") {
            proof {
                assert(base@.len() >= 1) by {
                    assert(word@.len() >= 1);
                }
            }
            let mut p = slice_chars(&base, 0, base.len() - 1);
            extend_str(&mut p, "ies");
            p
        } else if ends_str(&word, "s") || ends_str(&word, "x") || ends_str(&word, "z") || ends_str(
            &word,
            "sh",
        ) || ends_str(&word, "ch") {
            let mut p = slice_chars(&base, 0, base.len());
            extend_str(&mut p, "es");
            proof {
                assert(base@.subrange(0, base@.len() as int) =~= base@);
            }
            p
        } else {
            let mut p = slice_chars(&base, 0, base.len());
            extend_str(&mut p, "s");
            proof {
                assert(base@.subrange(0, base@.len() as int) =~= base@);
            }
            p
        };
        proof {
            assert(plural@ =~= plural_of(base@));
        }
        if !crate::text::chars_eq(&plural, &base) {
            forms.push(plural);
        }
    }
    proof {
        assert(forms@.map_values(|v: Vec<char>| v@) =~= before + plural_form(base@));
        assert(forms@.map_values(|v: Vec<char>| v@) =~= term_variants_spec(term@));
    }
    let mut out: Vec<String> = Vec::new();
    let mut i: usize = 0;
    while i < forms.len()
        invariant
            i <= forms@.len(),
            out@.map_values(|s: String| s@) == forms@.map_values(|v: Vec<char>| v@).take(i as int),
        decreases forms@.len() - i,
    {
        let ghost prev = out@;
        let next = string_of(&forms[i]);
        out.push(next);
        proof {
            assert(forms@.map_values(|v: Vec<char>| v@)[i as int] == forms@[i as int]@);
            assert(out@.map_values(|s: String| s@) =~= prev.map_values(|s: String| s@).push(next@));
            assert(out@.map_values(|s: String| s@) =~= forms@.map_values(|v: Vec<char>| v@).take(
                i + 1,
            ));
        }
        i += 1;
    }
    proof {
        assert(forms@.map_values(|v: Vec<char>| v@).take(forms@.len() as int) =~= forms@.map_values(
            |v: Vec<char>| v@,
        ));
    }
    out
}

// ---------------------------------------------------------------------------
// Phrases
// ---------------------------------------------------------------------------

/// Text after a bold term that makes it a formal definition: `means`.
pub const FORMAL_DEF_PATTERN: &'static str = r"(?i)^\s*means[\s:,]";

/// Text after a bold term that makes it a definition by reference.
pub const FORMAL_DEF_ALT_PATTERN: &'static str =
    r"(?i)^\s*(has the meaning|shall have the same meaning|have the same meaning)";

/// A phrase that makes a quoted group of terms definitions.
pub const GROUPED_DEF_PATTERN: &'static str =
    r"(?i)(shall have the same meaning|have the meaning given|shall be construed)";

/// A schedule-referencing phrase with a Title-Case schedule-like title
/// (group 1), used to find references to schedules that were not declared.
pub const GENERIC_SCHEDULE_PATTERN: &'static str = r"(?:given by|set out in|specified in|described in|defined in|provided in|contained in|stated in|referred to in|as per|in accordance with|pursuant to|detailed in) the ((?:[A-Z][A-Za-z]*\s+)*(?:Schedules?|Annexures?|Appendix(?:es)?|Appendices)\b(?:\s+(?:[A-Z][A-Za-z]*|[0-9]+)\b)*)";

/// What follows a schedule mention that makes it a schedule of another
/// instrument ("the Schedule to the Corporations Act").
pub const STATUTE_FOLLOW_PATTERN: &'static str = r"^\s*(?:to|of)\s+the\s+[A-Z0-9]";

/// A schedule-like title that names a statute ("GST Act Schedule 2").
pub const STATUTE_TITLE_PATTERN: &'static str =
    r"\b(?:Act|Acts|Regulation|Regulations|Code|Statute|Ordinance|Directive)\b";

/// The case-insensitive pattern that finds a reference to the schedule
/// whose escaped title is `e`: any of the schedule phrases followed by it.
pub open spec fn schedule_pattern_spec(e: Seq<char>) -> Seq<char> {
    "(?i)(given by the "@ + e + "|set out in the "@ + e + "|specified in the "@ + e
        + "|described in the "@ + e + "|defined in the "@ + e + "|provided in the "@ + e
        + "|contained in the "@ + e + "|stated in the "@ + e + "|referred to in the "@ + e
        + "|as per the "@ + e + "|in accordance with the "@ + e + "|pursuant to the "@ + e
        + "|detailed in the "@ + e + ")"@
}

/// The pattern that finds references to the schedule titled `title`.
pub fn schedule_pattern(title: &str) -> (r: String)
    ensures
        r@ == schedule_pattern_spec(regex_escaped(title@)),
{
    let e = regex_escape(title);
    let e = e.as_str();
    let mut p: Vec<char> = Vec::new();
    extend_str(&mut p, "(?i)(given by the ");
    extend_str(&mut p, e);
    extend_str(&mut p, "|set out in the ");
    extend_str(&mut p, e);
    extend_str(&mut p, "|specified in the ");
    extend_str(&mut p, e);
    extend_str(&mut p, "|described in the ");
    extend_str(&mut p, e);
    extend_str(&mut p, "|defined in the ");
    extend_str(&mut p, e);
    extend_str(&mut p, "|provided in the ");
    extend_str(&mut p, e);
    extend_str(&mut p, "|contained in the ");
    extend_str(&mut p, e);
    extend_str(&mut p, "|stated in the ");
    extend_str(&mut p, e);
    extend_str(&mut p, "|referred to in the ");
    extend_str(&mut p, e);
    extend_str(&mut p, "|as per the ");
    extend_str(&mut p, e);
    extend_str(&mut p, "|in accordance with the ");
    extend_str(&mut p, e);
    extend_str(&mut p, "|pursuant to the ");
    extend_str(&mut p, e);
    extend_str(&mut p, "|detailed in the ");
    extend_str(&mut p, e);
    extend_str(&mut p, ")");
    string_of(&p)
}

/// Schedule matching context built from the front-matter declarations.
pub struct ScheduleContext {
    /// One pattern per declared schedule, in declaration order.
    pub patterns: Vec<String>,
    /// Declared titles, lower-cased, for undeclared-reference detection.
    pub declared_lower: Vec<String>,
}

impl ScheduleContext {
    /// The patterns and lower-cased titles of the declared schedules.
    pub fn new(schedules: &Vec<ScheduleDecl>) -> (r: Self)
        ensures
            r.patterns@.len() == schedules@.len(),
            r.declared_lower@.len() == schedules@.len(),
            forall|i: int|
                #![trigger r.patterns@[i]]
                0 <= i < schedules@.len() ==> r.patterns@[i]@ == schedule_pattern_spec(
                    regex_escaped(schedules@[i].title@),
                ),
            forall|i: int|
                #![trigger r.declared_lower@[i]]
                0 <= i < schedules@.len() ==> r.declared_lower@[i]@ == lowercase(
                    schedules@[i].title@,
                ),
    {
        let mut patterns: Vec<String> = Vec::new();
        let mut declared_lower: Vec<String> = Vec::new();
        let mut i: usize = 0;
        while i < schedules.len()
            invariant
                i <= schedules@.len(),
                patterns@.len() == i,
                declared_lower@.len() == i,
                forall|q: int|
                    #![trigger patterns@[q]]
                    0 <= q < i ==> patterns@[q]@ == schedule_pattern_spec(
                        regex_escaped(schedules@[q].title@),
                    ),
                forall|q: int|
                    #![trigger declared_lower@[q]]
                    0 <= q < i ==> declared_lower@[q]@ == lowercase(schedules@[q].title@),
            decreases schedules@.len() - i,
        {
            patterns.push(schedule_pattern(schedules[i].title.as_str()));
            declared_lower.push(to_lowercase(schedules[i].title.as_str()));
            i += 1;
        }
        ScheduleContext { patterns, declared_lower }
    }

    /// Whether a captured schedule-like title names a declared schedule:
    /// trimmed and lower-cased, it is a declared title or begins with one
    /// followed by a space.
    pub fn is_declared(&self, captured: &str) -> (r: bool)
        ensures
            r == exists|i: int|
                0 <= i < self.declared_lower@.len() && declared_match(
                    lowercase(trim_seq(captured@)),
                    #[trigger] self.declared_lower@[i]@,
                ),
    {
        let t = trim(&chars_of(captured));
        let cap = chars_of(to_lowercase(string_of(&t).as_str()).as_str());
        let mut i: usize = 0;
        while i < self.declared_lower.len()
            invariant
                i <= self.declared_lower@.len(),
                cap@ == lowercase(trim_seq(captured@)),
                forall|q: int|
                    0 <= q < i ==> !declared_match(cap@, #[trigger] self.declared_lower@[q]@),
            decreases self.declared_lower@.len() - i,
        {
            let d = chars_of(self.declared_lower[i].as_str());
            let mut ds = slice_chars(&d, 0, d.len());
            ds.push(' ');
            proof {
                assert(ds@ =~= d@ + " "@) by {
                    reveal_strlit(" ");
                }
            }
            if crate::text::chars_eq(&cap, &d) || starts_with(&cap, &ds) {
                return true;
            }
            i += 1;
        }
        false
    }
}

/// A captured title `cap` names the declared title `d`: it is `d`, or `d`
/// followed by a space and more words.
pub open spec fn declared_match(cap: Seq<char>, d: Seq<char>) -> bool {
    cap == d || (d + " "@).is_prefix_of(cap)
}

/// The text of a run of inlines that can carry a definition's wording:
/// text, bold and italic runs, concatenated.
pub open spec fn wording(s: Seq<InlineView>) -> Seq<char>
    decreases s.len(),
{
    if s.len() == 0 {
        Seq::empty()
    } else {
        wording(s.drop_last()) + match s.last() {
            InlineView::Text(t) => t,
            InlineView::Bold(t) => t,
            InlineView::Italic(t) => t,
            _ => Seq::empty(),
        }
    }
}

/// The wording after the inline at `i`.
pub open spec fn after_bold(s: Seq<InlineView>, i: int) -> Seq<char> {
    wording(s.skip(i + 1))
}

/// Concatenate the text, bold and italic runs after the inline at `bold_index`.
pub fn text_after_bold(inlines: &[InlineContent], bold_index: usize) -> (r: Vec<char>)
    requires
        bold_index < inlines@.len(),
    ensures
        r@ == after_bold(inlines_view(inlines@), bold_index as int),
{
    let ghost v = inlines_view(inlines@);
    let mut out: Vec<char> = Vec::new();
    let n = inlines.len();
    let mut i = bold_index + 1;
    proof {
        assert(v.skip(bold_index + 1).take(0) =~= Seq::<InlineView>::empty());
    }
    while i < inlines.len()
        invariant
            bold_index < i <= inlines@.len(),
            v == inlines_view(inlines@),
            out@ == wording(v.skip(bold_index + 1).take(i - bold_index - 1)),
        decreases inlines@.len() - i,
    {
        proof {
            let t = v.skip(bold_index + 1);
            assert(t.take(i - bold_index).drop_last() =~= t.take(i - bold_index - 1));
            assert(t.take(i - bold_index).last() == inlines@[i as int]@);
        }
        match &inlines[i] {
            InlineContent::Text(t) | InlineContent::Bold(t) | InlineContent::Italic(t) => {
                extend_str(&mut out, t.as_str());
            },
            _ => {},
        }
        i += 1;
    }
    proof {
        assert(v.skip(bold_index + 1).take(i - bold_index - 1) =~= v.skip(bold_index + 1));
    }
    out
}

/// A match (its group spans) of a schedule pattern in `after` counts unless
/// what follows it names another instrument.
pub open spec fn match_counts(after: Seq<char>, m: Seq<Option<(usize, usize)>>) -> bool {
    m.len() > 0 && m[0] is Some && !regex_matches(STATUTE_FOLLOW_PATTERN@, after.skip((m[0]->0).1 as int))
}

/// Some match of `pattern` in `after` counts.
pub open spec fn pattern_hits(pattern: Seq<char>, after: Seq<char>) -> bool {
    exists|k: int|
        0 <= k < regex_captures(pattern, after).len() && match_counts(
            after,
            #[trigger] regex_captures(pattern, after)[k],
        )
}

/// The first schedule whose pattern hits `after`, from index `from` on.
pub open spec fn first_hit(after: Seq<char>, patterns: Seq<Seq<char>>, from: int) -> Option<int>
    decreases patterns.len() - from,
{
    if from < 0 || from >= patterns.len() {
        None
    } else if pattern_hits(patterns[from], after) {
        Some(from)
    } else {
        first_hit(after, patterns, from + 1)
    }
}

/// The schedules' patterns as character sequences.
pub open spec fn patterns_view(p: Seq<String>) -> Seq<Seq<char>> {
    p.map_values(|s: String| s@)
}

/// Whether a match of `pattern` in `after` counts (see [`match_counts`]).
fn pattern_hits_exec(pattern: &str, after: &Vec<char>) -> (r: bool)
    ensures
        r == pattern_hits(pattern@, after@),
{
    let text = string_of(after);
    let caps = regex_captures_all(pattern, text.as_str());
    let mut k: usize = 0;
    while k < caps.len()
        invariant
            k <= caps@.len(),
            caps@.map_values(|m: Vec<Option<(usize, usize)>>| m@) == regex_captures(pattern@, after@),
            forall|i: int, g: int|
                0 <= i < caps@.len() && 0 <= g < caps@[i]@.len() ==> (#[trigger] caps@[i]@[g] matches Some(
                    sp,
                ) ==> sp.0 <= sp.1 <= after@.len()),
            forall|q: int| 0 <= q < k ==> !match_counts(after@, #[trigger] regex_captures(pattern@, after@)[q]),
        decreases caps@.len() - k,
    {
        proof {
            assert(caps@.map_values(|m: Vec<Option<(usize, usize)>>| m@)[k as int] == caps@[k as int]@);
        }
        if caps[k].len() > 0 {
            match caps[k][0] {
                Some(span) => {
                    proof {
                        assert(caps@[k as int]@[0] == Some(span));
                    }
                    let tail = slice_chars(after, span.1, after.len());
                    if !regex_is_match(STATUTE_FOLLOW_PATTERN, string_of(&tail).as_str()) {
                        proof {
                            assert(tail@ =~= after@.skip(span.1 as int));
                            assert(match_counts(after@, regex_captures(pattern@, after@)[k as int]));
                        }
                        return true;
                    }
                    proof {
                        assert(tail@ =~= after@.skip(span.1 as int));
                    }
                },
                None => {},
            }
        }
        k += 1;
    }
    false
}

/// The first declared schedule whose phrase follows the bold term at
/// `bold_index` (and is not a schedule of another instrument).
pub fn check_schedule_phrase(
    inlines: &[InlineContent],
    bold_index: usize,
    patterns: &Vec<String>,
) -> (r: Option<usize>)
    requires
        bold_index < inlines@.len(),
    ensures
        match r {
            Some(i) => first_hit(after_bold(inlines_view(inlines@), bold_index as int), patterns_view(patterns@), 0) == Some(i as int),
            None => first_hit(after_bold(inlines_view(inlines@), bold_index as int), patterns_view(patterns@), 0) is None,
        },
{
    if patterns.len() == 0 {
        return None;
    }
    let after = text_after_bold(inlines, bold_index);
    let ghost pv = patterns_view(patterns@);
    let mut i: usize = 0;
    while i < patterns.len()
        invariant
            i <= patterns@.len(),
            pv == patterns_view(patterns@),
            after@ == after_bold(inlines_view(inlines@), bold_index as int),
            first_hit(after@, pv, 0) == first_hit(after@, pv, i as int),
        decreases patterns@.len() - i,
    {
        proof {
            assert(pv[i as int] == patterns@[i as int]@);
        }
        if pattern_hits_exec(patterns[i].as_str(), &after) {
            return Some(i);
        }
        i += 1;
    }
    None
}

// ---------------------------------------------------------------------------
// Classifying bold terms
// ---------------------------------------------------------------------------

/// What a bold run marks.
#[derive(Debug, Clone, Copy, PartialEq, Eq, Structural)]
pub enum TermKind {
    /// `**Term** means ...`
    FormalDefinition,
    /// `("**Term**")`
    InlineDefinition,
    /// `**Term** has the meaning given by the Schedule` (the schedule's index)
    ScheduleDefinition(usize),
    /// `**Label**:` — a structural label, not a term
    FieldLabel,
}

/// Some text run of `s` has a grouped-definition phrase ("shall have the
/// same meaning", ...).
pub open spec fn has_meaning_phrase(s: Seq<InlineView>) -> bool {
    exists|k: int|
        0 <= k < s.len() && (#[trigger] s[k] matches InlineView::Text(t) && regex_matches(
            GROUPED_DEF_PATTERN@,
            t,
        ))
}

/// Whether any text run of the inlines has a grouped-definition phrase.
pub fn inlines_contain_meaning_phrase(inlines: &[InlineContent]) -> (r: bool)
    ensures
        r == has_meaning_phrase(inlines_view(inlines@)),
{
    let ghost v = inlines_view(inlines@);
    let mut i: usize = 0;
    while i < inlines.len()
        invariant
            i <= inlines@.len(),
            v == inlines_view(inlines@),
            forall|k: int|
                0 <= k < i ==> !(#[trigger] v[k] matches InlineView::Text(t) && regex_matches(
                    GROUPED_DEF_PATTERN@,
                    t,
                )),
        decreases inlines@.len() - i,
    {
        proof {
            assert(v[i as int] == inlines@[i as int]@);
        }
        match &inlines[i] {
            InlineContent::Text(t) => {
                if regex_is_match(GROUPED_DEF_PATTERN, t.as_str()) {
                    return true;
                }
            },
            _ => {},
        }
        i += 1;
    }
    false
}

/// Text before a bold term that makes it an inline definition: `("` or
/// `(the "`.
pub open spec fn opens_inline_definition(before: Seq<char>) -> bool {
    "(\""@.is_suffix_of(before) || "(the \""@.is_suffix_of(before)
}

/// Text before a bold term that quotes it: `"` or `", "`.
pub open spec fn quotes_term(before: Seq<char>) -> bool {
    "\""@.is_suffix_of(before) || "\", \""@.is_suffix_of(before)
}

/// A schedule definition for the first schedule hit, else a formal one.
pub open spec fn schedule_or_formal(hit: Option<int>) -> TermKind {
    match hit {
        Some(i) => TermKind::ScheduleDefinition(i as usize),
        None => TermKind::FormalDefinition,
    }
}

/// How a bold term `term` at `index` of the run `s` is classified:
/// - a label when it ends (before trailing space) with a colon;
/// - an inline definition when the text before it opens one;
/// - a formal definition when the text before quotes it and the run has a
///   grouped-definition phrase;
/// - when the text after it says `means` or `has the meaning`, a schedule
///   definition for the first schedule whose phrase follows, else formal;
/// - a label when the text after it starts with a colon;
/// - otherwise a schedule definition when a schedule phrase follows, else
///   a formal definition.
pub open spec fn classify_spec(
    term: Seq<char>,
    s: Seq<InlineView>,
    index: int,
    patterns: Seq<Seq<char>>,
) -> TermKind {
    let hit = first_hit(after_bold(s, index), patterns, 0);
    let before_is_text = index > 0 && s[index - 1] is Text;
    let before = trim_end_seq(s[index - 1]->Text_0);
    let after_is_text = index + 1 < s.len() && s[index + 1] is Text;
    let after = s[index + 1]->Text_0;
    if ":"@.is_suffix_of(trim_end_seq(term)) {
        TermKind::FieldLabel
    } else if before_is_text && opens_inline_definition(before) {
        TermKind::InlineDefinition
    } else if before_is_text && quotes_term(before) && has_meaning_phrase(s) {
        TermKind::FormalDefinition
    } else if after_is_text && (regex_matches(FORMAL_DEF_PATTERN@, after) || regex_matches(
        FORMAL_DEF_ALT_PATTERN@,
        after,
    )) {
        schedule_or_formal(hit)
    } else if after_is_text && ":"@.is_prefix_of(after) {
        TermKind::FieldLabel
    } else {
        schedule_or_formal(hit)
    }
}

fn ends_str_v(s: &Vec<char>, p: &str) -> (r: bool)
    ensures
        r == p@.is_suffix_of(s@),
{
    let pv = chars_of(p);
    ends_with(s, &pv)
}

/// Classify a bold term by what precedes and follows it (see
/// [`classify_spec`]).
pub fn classify_term(
    term: &str,
    inlines: &[InlineContent],
    index: usize,
    schedule_patterns: &Vec<String>,
) -> (r: TermKind)
    requires
        index < inlines@.len(),
    ensures
        r == classify_spec(term@, inlines_view(inlines@), index as int, patterns_view(schedule_patterns@)),
{
    let ghost v = inlines_view(inlines@);
    let tt = trim_end(&chars_of(term));
    if ends_str_v(&tt, ":") {
        return TermKind::FieldLabel;
    }
    if index > 0 {
        proof {
            assert(v[index - 1] == inlines@[index - 1]@);
        }
        match &inlines[index - 1] {
            InlineContent::Text(before) => {
                let trimmed = trim_end(&chars_of(before.as_str()));
                if ends_str_v(&trimmed, "(\"") || ends_str_v(&trimmed, "(the \"") {
                    return TermKind::InlineDefinition;
                }
                if ends_str_v(&trimmed, "\"") || ends_str_v(&trimmed, "\", \"") {
                    if inlines_contain_meaning_phrase(inlines) {
                        return TermKind::FormalDefinition;
                    }
                }
            },
            _ => {},
        }
    }
    let n = inlines.len();
    if index + 1 < n {
        proof {
            assert(v[index + 1] == inlines@[index + 1]@);
        }
        match &inlines[index + 1] {
            InlineContent::Text(after) => {
                if regex_is_match(FORMAL_DEF_PATTERN, after.as_str()) || regex_is_match(
                    FORMAL_DEF_ALT_PATTERN,
                    after.as_str(),
                ) {
                    return match check_schedule_phrase(inlines, index, schedule_patterns) {
                        Some(i) => TermKind::ScheduleDefinition(i),
                        None => TermKind::FormalDefinition,
                    };
                }
                let av = chars_of(after.as_str());
                let colon = chars_of(":");
                if starts_with(&av, &colon) {
                    return TermKind::FieldLabel;
                }
            },
            _ => {},
        }
    }
    match check_schedule_phrase(inlines, index, schedule_patterns) {
        Some(i) => TermKind::ScheduleDefinition(i),
        None => TermKind::FormalDefinition,
    }
}

// ---------------------------------------------------------------------------
// Collecting definitions
// ---------------------------------------------------------------------------

/// A definition site of a term.
#[derive(Debug)]
pub struct TermDefinition {
    pub term: String,
    pub location: Option<String>,
    pub pos: Option<SourcePos>,
    /// Defined implicitly by the front-matter (a party role, the short
    /// title) rather than by bold text in the document.
    pub from_front_matter: bool,
    /// Defined inside an addendum: a redefinition there is scoped drafting,
    /// not a duplicate of the main-body definition.
    pub in_addendum: bool,
}

/// The bold terms among the first `k` inlines of `s` that are definitions
/// (labels excluded), each with the schedule it belongs to, if any.
pub open spec fn definitions_upto(s: Seq<InlineView>, patterns: Seq<Seq<char>>, k: int) -> Seq<
    (Seq<char>, Option<usize>),
>
    decreases k,
{
    if k <= 0 {
        Seq::empty()
    } else {
        definitions_upto(s, patterns, k - 1) + match s[k - 1] {
            InlineView::Bold(t) => match classify_spec(t, s, k - 1, patterns) {
                TermKind::FieldLabel => Seq::empty(),
                TermKind::ScheduleDefinition(i) => seq![(t, Some(i))],
                _ => seq![(t, None)],
            },
            _ => Seq::empty(),
        }
    }
}

/// The characters of an optional string slice.
pub open spec fn str_opt_view(o: Option<&str>) -> Option<Seq<char>> {
    match o {
        Some(l) => Some(l@),
        None => None,
    }
}

/// The terms of a list of definition sites.
pub open spec fn def_terms(d: Seq<TermDefinition>) -> Seq<Seq<char>> {
    d.map_values(|x: TermDefinition| x.term@)
}

/// The terms and schedules of a list of schedule items.
pub open spec fn item_view(d: Seq<ScheduleItem>) -> Seq<(Seq<char>, usize)> {
    d.map_values(|x: ScheduleItem| (x.term@, x.schedule_index))
}

/// The definitions of a run: term and schedule.
pub open spec fn def_entries(s: Seq<(Seq<char>, Option<usize>)>) -> Seq<Seq<char>> {
    s.map_values(|e: (Seq<char>, Option<usize>)| e.0)
}

/// The schedule items among the definitions of a run.
pub open spec fn schedule_entries(s: Seq<(Seq<char>, Option<usize>)>) -> Seq<(Seq<char>, usize)>
    decreases s.len(),
{
    if s.len() == 0 {
        Seq::empty()
    } else {
        schedule_entries(s.drop_last()) + match s.last().1 {
            Some(i) => seq![(s.last().0, i)],
            None => Seq::empty(),
        }
    }
}

/// Every schedule item names one of the `n` declared schedules.
pub open spec fn items_in_range(items: Seq<ScheduleItem>, n: int) -> bool {
    forall|k: int| 0 <= k < items.len() ==> (#[trigger] items[k]).schedule_index < n
}

proof fn lemma_first_hit_range(after: Seq<char>, patterns: Seq<Seq<char>>, from: int)
    ensures
        first_hit(after, patterns, from) matches Some(i) ==> 0 <= i < patterns.len(),
    decreases patterns.len() - from,
{
    if 0 <= from < patterns.len() && !pattern_hits(patterns[from], after) {
        lemma_first_hit_range(after, patterns, from + 1);
    }
}

/// The title a schedule-like match in `after` refers to, when it counts as
/// a reference to an undeclared schedule: the trimmed title is not empty,
/// names no statute, is not followed by "to the" or "of the" another
/// instrument, and matches no declared title.
pub open spec fn undeclared_title(
    after: Seq<char>,
    m: Seq<Option<(usize, usize)>>,
    declared: Seq<String>,
) -> Option<Seq<char>> {
    if m.len() > 1 && m[1] is Some {
        let sp = m[1]->0;
        let title = trim_seq(after.subrange(sp.0 as int, sp.1 as int));
        let skip = title.len() == 0 || regex_matches(STATUTE_TITLE_PATTERN@, title) || regex_matches(
            STATUTE_FOLLOW_PATTERN@,
            after.subrange(sp.1 as int, after.len() as int),
        );
        let known = exists|i: int|
            0 <= i < declared.len() && declared_match(
                lowercase(trim_seq(title)),
                #[trigger] declared[i]@,
            );
        if !skip && !known {
            Some(title)
        } else {
            None
        }
    } else {
        None
    }
}

/// The first undeclared schedule title among the matches `caps`.
pub open spec fn first_undeclared(
    after: Seq<char>,
    caps: Seq<Seq<Option<(usize, usize)>>>,
    declared: Seq<String>,
) -> Option<Seq<char>>
    decreases caps.len(),
{
    if caps.len() == 0 {
        None
    } else {
        match first_undeclared(after, caps.drop_last(), declared) {
            Some(t) => Some(t),
            None => undeclared_title(after, caps.last(), declared),
        }
    }
}

proof fn lemma_first_undeclared_prefix(
    after: Seq<char>,
    caps: Seq<Seq<Option<(usize, usize)>>>,
    declared: Seq<String>,
    n: int,
)
    requires
        0 <= n <= caps.len(),
        first_undeclared(after, caps.take(n), declared) is Some,
    ensures
        first_undeclared(after, caps, declared) == first_undeclared(after, caps.take(n), declared),
    decreases caps.len() - n,
{
    if n < caps.len() {
        crate::parser::clause::lemma_take_next(caps, n);
        lemma_first_undeclared_prefix(after, caps, declared, n + 1);
    } else {
        assert(caps.take(n) =~= caps);
    }
}

/// Every diagnostic `g1` adds to `g0` is an `undeclared-schedule` warning.
pub open spec fn warns_undeclared(g0: Seq<Diagnostic>, g1: Seq<Diagnostic>) -> bool {
    forall|k: int|
        g0.len() <= k < g1.len() ==> (#[trigger] g1[k]).code@ == "undeclared-schedule"@ && g1[k].level
            == DiagLevel::Warning
}

proof fn lemma_warns_undeclared_trans(g0: Seq<Diagnostic>, g1: Seq<Diagnostic>, g2: Seq<Diagnostic>)
    requires
        extends(g1, g2),
        warns_undeclared(g0, g1),
        warns_undeclared(g1, g2),
    ensures
        warns_undeclared(g0, g2),
{
    assert forall|k: int| g0.len() <= k < g2.len() implies (#[trigger] g2[k]).code@ == "undeclared-schedule"@
        && g2[k].level == DiagLevel::Warning by {
        if k < g1.len() {
            assert(g2.take(g1.len() as int)[k] == g1[k]);
        }
    }
}

/// The message of an `undeclared-schedule` warning.
pub open spec fn undeclared_message(term: Seq<char>, title: Seq<char>) -> Seq<char> {
    "'"@ + term + "' appears to reference schedule '"@ + title
        + "', which is not declared in front-matter"@
}

/// Warn, once per definition, when the wording after it refers to a
/// schedule-like title that is not declared (statutory references skipped).
fn check_undeclared_schedule(
    term: &str,
    after: &Vec<char>,
    ctx: &ScheduleContext,
    location: Option<&str>,
    pos: Option<SourcePos>,
    diagnostics: &mut Vec<Diagnostic>,
)
    ensures
        final(diagnostics)@ == old(diagnostics)@ || (final(diagnostics)@.len() == old(diagnostics)@.len() + 1
            && final(diagnostics)@.drop_last() == old(diagnostics)@
            && final(diagnostics)@.last().code@ == "undeclared-schedule"@),
        warns_undeclared(old(diagnostics)@, final(diagnostics)@),
        match first_undeclared(
            after@,
            regex_captures(GENERIC_SCHEDULE_PATTERN@, after@),
            ctx.declared_lower@,
        ) {
            Some(t) => {
                &&& final(diagnostics)@.len() == old(diagnostics)@.len() + 1
                &&& final(diagnostics)@.drop_last() == old(diagnostics)@
                &&& diag_view(final(diagnostics)@.last()) == placed_view(
                    DiagLevel::Warning,
                    "undeclared-schedule"@,
                    undeclared_message(term@, t),
                    str_opt_view(location),
                    pos,
                )
            },
            None => final(diagnostics)@ == old(diagnostics)@,
        },
{
    let text = string_of(after);
    let caps = regex_captures_all(GENERIC_SCHEDULE_PATTERN, text.as_str());
    let ghost rc = regex_captures(GENERIC_SCHEDULE_PATTERN@, after@);
    let mut k: usize = 0;
    while k < caps.len()
        invariant
            k <= caps@.len(),
            caps@.map_values(|m: Vec<Option<(usize, usize)>>| m@) == rc,
            rc == regex_captures(GENERIC_SCHEDULE_PATTERN@, after@),
            first_undeclared(after@, rc.take(k as int), ctx.declared_lower@) is None,
            diagnostics@ == old(diagnostics)@,
            forall|i: int, g: int|
                0 <= i < caps@.len() && 0 <= g < caps@[i]@.len() ==> (#[trigger] caps@[i]@[g] matches Some(
                    sp,
                ) ==> sp.0 <= sp.1 <= text@.len()),
            text@ == after@,
        decreases caps@.len() - k,
    {
        proof {
            crate::parser::clause::lemma_take_next(rc, k as int);
            assert(rc[k as int] == caps@[k as int]@);
        }
        if caps[k].len() > 1 {
            match caps[k][1] {
                Some(span) => {
                    proof {
                        assert(caps@[k as int]@[1] == Some(span));
                    }
                    let title = trim(&slice_chars(after, span.0, span.1));
                    let title_s = string_of(&title);
                    let tail = slice_chars(after, span.1, after.len());
                    let skip = title.len() == 0 || regex_is_match(
                        STATUTE_TITLE_PATTERN,
                        title_s.as_str(),
                    ) || regex_is_match(STATUTE_FOLLOW_PATTERN, string_of(&tail).as_str());
                    if !skip && !ctx.is_declared(title_s.as_str()) {
                        let mut msg: Vec<char> = Vec::new();
                        extend_str(&mut msg, "'");
                        extend_str(&mut msg, term);
                        extend_str(&mut msg, "' appears to reference schedule '");
                        extend_chars(&mut msg, &title);
                        extend_str(&mut msg, "', which is not declared in front-matter");
                        let loc = match location {
                            Some(l) => Some(string_of(&chars_of(l))),
                            None => None,
                        };
                        proof {
                            assert(tail@ =~= after@.subrange(span.1 as int, after@.len() as int));
                            assert(undeclared_title(after@, rc[k as int], ctx.declared_lower@) == Some(
                                title@,
                            ));
                            lemma_first_undeclared_prefix(after@, rc, ctx.declared_lower@, k + 1);
                            assert(msg@ =~= undeclared_message(term@, title@));
                        }
                        diagnostics.push(
                            Diagnostic::warning("undeclared-schedule", string_of(&msg)).at_opt(
                                loc,
                            ).at_pos(pos),
                        );
                        proof {
                            assert(diagnostics@.drop_last() =~= old(diagnostics)@);
                            assert(diag_view(diagnostics@.last()).0 == DiagLevel::Warning);
                        }
                        return;
                    }
                    proof {
                        assert(tail@ =~= after@.subrange(span.1 as int, after@.len() as int));
                        assert(undeclared_title(after@, rc[k as int], ctx.declared_lower@) is None);
                    }
                },
                None => {},
            }
        }
        k += 1;
    }
    proof {
        assert(rc.take(k as int) =~= rc);
    }
}

/// Collect the definitions in a run of inlines: each bold term that is not
/// a label is a definition site at `location` and `pos`; one that belongs
/// to a schedule is also a schedule item. A definition whose wording
/// refers to an undeclared schedule-like title gets an
/// `undeclared-schedule` warning.
pub fn collect_inline_terms(
    inlines: &[InlineContent],
    defs: &mut Vec<TermDefinition>,
    schedule_items: &mut Vec<ScheduleItem>,
    ctx: &ScheduleContext,
    location: Option<&str>,
    pos: Option<SourcePos>,
    in_addendum: bool,
    diagnostics: &mut Vec<Diagnostic>,
)
    ensures
        def_terms(final(defs)@) == def_terms(old(defs)@) + def_entries(
            definitions_upto(inlines_view(inlines@), patterns_view(ctx.patterns@), inlines@.len() as int),
        ),
        forall|k: int|
            old(defs)@.len() <= k < final(defs)@.len() ==> {
                &&& (#[trigger] final(defs)@[k]).pos == pos
                &&& final(defs)@[k].in_addendum == in_addendum
                &&& !final(defs)@[k].from_front_matter
                &&& opt_view(final(defs)@[k].location) == str_opt_view(location)
            },
        old(defs)@.len() <= final(defs)@.len(),
        forall|k: int|
            0 <= k < old(defs)@.len() ==> #[trigger] final(defs)@[k] == old(defs)@[k],
        item_view(final(schedule_items)@) == item_view(old(schedule_items)@) + schedule_entries(
            definitions_upto(inlines_view(inlines@), patterns_view(ctx.patterns@), inlines@.len() as int),
        ),
        items_in_range(old(schedule_items)@, ctx.patterns@.len() as int) ==> items_in_range(
            final(schedule_items)@,
            ctx.patterns@.len() as int,
        ),
        old(schedule_items)@.len() <= final(schedule_items)@.len(),
        forall|k: int|
            0 <= k < old(schedule_items)@.len() ==> #[trigger] final(schedule_items)@[k]
                == old(schedule_items)@[k],
        extends(old(diagnostics)@, final(diagnostics)@),
        warns_undeclared(old(diagnostics)@, final(diagnostics)@),
        warns(
            old(diagnostics)@,
            final(diagnostics)@,
            und_run(inlines@, patterns_view(ctx.patterns@), ctx.declared_lower@, str_opt_view(location), pos),
        ),
{
    let ghost v = inlines_view(inlines@);
    let ghost pv = patterns_view(ctx.patterns@);
    proof {
        assert(diagnostics@.take(diagnostics@.len() as int) =~= diagnostics@);
        assert(def_terms(defs@) =~= def_terms(old(defs)@) + def_entries(definitions_upto(v, pv, 0)));
        assert(item_view(schedule_items@) =~= item_view(old(schedule_items)@) + schedule_entries(
            definitions_upto(v, pv, 0),
        ));
    }
    let mut i: usize = 0;
    while i < inlines.len()
        invariant
            i <= inlines@.len(),
            v == inlines_view(inlines@),
            pv == patterns_view(ctx.patterns@),
            def_terms(defs@) == def_terms(old(defs)@) + def_entries(definitions_upto(v, pv, i as int)),
            old(defs)@.len() <= defs@.len(),
            forall|k: int| 0 <= k < old(defs)@.len() ==> #[trigger] defs@[k] == old(defs)@[k],
            forall|k: int|
                old(defs)@.len() <= k < defs@.len() ==> {
                    &&& (#[trigger] defs@[k]).pos == pos
                    &&& defs@[k].in_addendum == in_addendum
                    &&& !defs@[k].from_front_matter
                    &&& opt_view(defs@[k].location) == str_opt_view(location)
                },
            item_view(schedule_items@) == item_view(old(schedule_items)@) + schedule_entries(
                definitions_upto(v, pv, i as int),
            ),
            items_in_range(old(schedule_items)@, ctx.patterns@.len() as int) ==> items_in_range(
                schedule_items@,
                ctx.patterns@.len() as int,
            ),
            old(schedule_items)@.len() <= schedule_items@.len(),
            forall|k: int|
                0 <= k < old(schedule_items)@.len() ==> #[trigger] schedule_items@[k]
                    == old(schedule_items)@[k],
            extends(old(diagnostics)@, diagnostics@),
            warns_undeclared(old(diagnostics)@, diagnostics@),
            warns(
                old(diagnostics)@,
                diagnostics@,
                undeclared_views(
                    undeclared_upto(v, pv, ctx.declared_lower@, i as int),
                    str_opt_view(location),
                    pos,
                ),
            ),
        decreases inlines@.len() - i,
    {
        proof {
            assert(v[i as int] == inlines@[i as int]@);
        }
        let ghost d_before = defs@;
        let ghost s_before = schedule_items@;
        let ghost g_before = diagnostics@;
        let ghost dd = ctx.declared_lower@;
        let ghost lv = str_opt_view(location);
        let ghost x0 = undeclared_upto(v, pv, dd, i as int);
        match &inlines[i] {
            InlineContent::Bold(term) => {
                let kind = classify_term(term.as_str(), inlines, i, &ctx.patterns);
                let loc = match location {
                    Some(l) => Some(string_of(&chars_of(l))),
                    None => None,
                };
                match kind {
                    TermKind::FieldLabel => {},
                    TermKind::ScheduleDefinition(idx) => {
                        defs.push(
                            TermDefinition {
                                term: term.clone(),
                                location: loc,
                                pos,
                                from_front_matter: false,
                                in_addendum,
                            },
                        );
                        schedule_items.push(ScheduleItem { term: term.clone(), schedule_index: idx });
                        proof {
                            assert(def_terms(defs@) =~= def_terms(d_before).push(term@));
                            lemma_first_hit_range(after_bold(v, i as int), pv, 0);
                            assert(item_view(schedule_items@) =~= item_view(s_before).push(
                                (term@, idx),
                            ));
                        }
                    },
                    _ => {
                        defs.push(
                            TermDefinition {
                                term: term.clone(),
                                location: loc,
                                pos,
                                from_front_matter: false,
                                in_addendum,
                            },
                        );
                        proof {
                            assert(def_terms(defs@) =~= def_terms(d_before).push(term@));
                        }
                        let after = text_after_bold(inlines, i);
                        check_undeclared_schedule(
                            term.as_str(),
                            &after,
                            ctx,
                            location,
                            pos,
                            diagnostics,
                        );
                        proof {
                            assert(diagnostics@.take(g_before.len() as int) =~= g_before);
                            lemma_warns_undeclared_trans(old(diagnostics)@, g_before, diagnostics@);
                            let x1 = undeclared_upto(v, pv, dd, i + 1);
                            match first_undeclared(
                                after@,
                                regex_captures(GENERIC_SCHEDULE_PATTERN@, after@),
                                dd,
                            ) {
                                Some(t) => {
                                    assert(x1 == x0.push((term@, t)));
                                    assert(diags_view(diagnostics@) =~= diags_view(g_before).push(
                                        diag_view(diagnostics@.last()),
                                    ));
                                    assert(undeclared_views(x1, lv, pos) =~= undeclared_views(x0, lv, pos).push(
                                        placed_view(
                                            DiagLevel::Warning,
                                            "undeclared-schedule"@,
                                            undeclared_message(term@, t),
                                            lv,
                                            pos,
                                        ),
                                    ));
                                },
                                None => {
                                    assert(x1 =~= x0);
                                },
                            }
                        }
                    },
                }
                proof {
                    let e = definitions_upto(v, pv, i as int + 1);
                    assert(e == definitions_upto(v, pv, i as int) + match kind {
                        TermKind::FieldLabel => Seq::<(Seq<char>, Option<usize>)>::empty(),
                        TermKind::ScheduleDefinition(x) => seq![(term@, Some(x))],
                        _ => seq![(term@, None)],
                    });
                    let e0 = definitions_upto(v, pv, i as int);
                    if kind is FieldLabel {
                        assert(e =~= e0);
                    } else {
                        assert(def_entries(e) =~= def_entries(e0).push(term@));
                    }
                    assert(def_terms(defs@) =~= def_terms(old(defs)@) + def_entries(e));
                    assert(schedule_entries(e) =~= schedule_entries(definitions_upto(v, pv, i as int))
                        + match kind {
                        TermKind::ScheduleDefinition(x) => seq![(term@, x)],
                        _ => Seq::<(Seq<char>, usize)>::empty(),
                    }) by {
                        let e0 = definitions_upto(v, pv, i as int);
                        if kind is FieldLabel {
                            assert(e =~= e0);
                        } else {
                            assert(e.drop_last() =~= e0);
                        }
                    }
                    if !(kind is ScheduleDefinition) {
                        assert(item_view(schedule_items@) =~= item_view(s_before));
                    }
                    assert(item_view(schedule_items@) =~= item_view(old(schedule_items)@)
                        + schedule_entries(e));
                    assert(diagnostics@.take(g_before.len() as int) =~= g_before);
                    lemma_extends_trans(old(diagnostics)@, g_before, diagnostics@);
                    if kind is FieldLabel || kind is ScheduleDefinition {
                        assert(undeclared_upto(v, pv, dd, i + 1) =~= x0);
                    }
                }
            },
            _ => {
                proof {
                    assert(definitions_upto(v, pv, i + 1) =~= definitions_upto(v, pv, i as int));
                    assert(undeclared_upto(v, pv, dd, i + 1) =~= x0);
                }
            },
        }
        i += 1;
    }
}

/// `a` is a prefix of `b`.
pub open spec fn grows<T>(a: Seq<T>, b: Seq<T>) -> bool {
    a.len() <= b.len() && b.take(a.len() as int) == a
}

pub proof fn lemma_grows_trans<T>(a: Seq<T>, b: Seq<T>, c: Seq<T>)
    requires
        grows(a, b),
        grows(b, c),
    ensures
        grows(a, c),
{
    assert(c.take(a.len() as int) =~= b.take(a.len() as int));
}

pub proof fn lemma_grows_refl<T>(a: Seq<T>)
    ensures
        grows(a, a),
{
    assert(a.take(a.len() as int) =~= a);
}

/// The state every collecting step keeps: definitions, schedule items and
/// diagnostics only grow, and every schedule item names a declared schedule.
pub open spec fn collect_grows(
    d0: Seq<TermDefinition>,
    d1: Seq<TermDefinition>,
    s0: Seq<ScheduleItem>,
    s1: Seq<ScheduleItem>,
    g0: Seq<Diagnostic>,
    g1: Seq<Diagnostic>,
    n: int,
) -> bool {
    &&& grows(d0, d1)
    &&& grows(s0, s1)
    &&& extends(g0, g1)
    &&& warns_undeclared(g0, g1)
    &&& items_in_range(s0, n) ==> items_in_range(s1, n)
}

proof fn lemma_collect_trans(
    d0: Seq<TermDefinition>,
    d1: Seq<TermDefinition>,
    d2: Seq<TermDefinition>,
    s0: Seq<ScheduleItem>,
    s1: Seq<ScheduleItem>,
    s2: Seq<ScheduleItem>,
    g0: Seq<Diagnostic>,
    g1: Seq<Diagnostic>,
    g2: Seq<Diagnostic>,
    n: int,
)
    requires
        collect_grows(d0, d1, s0, s1, g0, g1, n),
        collect_grows(d1, d2, s1, s2, g1, g2, n),
    ensures
        collect_grows(d0, d2, s0, s2, g0, g2, n),
{
    lemma_grows_trans(d0, d1, d2);
    lemma_grows_trans(s0, s1, s2);
    lemma_extends_trans(g0, g1, g2);
    lemma_warns_undeclared_trans(g0, g1, g2);
}

proof fn lemma_collect_refl(d0: Seq<TermDefinition>, s0: Seq<ScheduleItem>, g0: Seq<Diagnostic>, n: int)
    ensures
        collect_grows(d0, d0, s0, s0, g0, g0, n),
{
    lemma_grows_refl(d0);
    lemma_grows_refl(s0);
    assert(g0.take(g0.len() as int) =~= g0);
}

// ---------------------------------------------------------------------------
// The definition sites of a document, in the order they are collected
// ---------------------------------------------------------------------------

/// A term and the schedule it belongs to, if any.
pub type DefEntry = (Seq<char>, Option<usize>);

/// The definitions of a run of inlines.
pub open spec fn run_defs(i: Seq<InlineContent>, p: Seq<Seq<char>>) -> Seq<DefEntry> {
    definitions_upto(inlines_view(i), p, i.len() as int)
}

/// The definitions of list items, in order.
pub open spec fn runs_defs(items: Seq<Vec<InlineContent>>, p: Seq<Seq<char>>) -> Seq<DefEntry>
    decreases items.len(),
{
    if items.len() == 0 {
        Seq::empty()
    } else {
        runs_defs(items.drop_last(), p) + run_defs(items.last()@, p)
    }
}

/// The definitions of a clause tree: its paragraphs, blockquotes and bullet
/// lists, and its children, in order (headings and tables define nothing).
pub open spec fn clause_defs(c: Clause, p: Seq<Seq<char>>) -> Seq<DefEntry>
    decreases c, 2int,
{
    body_defs(c.body@, p)
}

/// The definitions of the pieces of a clause body.
pub open spec fn body_defs(b: Seq<ClauseBody>, p: Seq<Seq<char>>) -> Seq<DefEntry>
    decreases b, 1int,
{
    if b.len() == 0 {
        Seq::empty()
    } else {
        body_defs(b.drop_last(), p) + match b.last() {
            ClauseBody::Content(ClauseContent::Paragraph(i)) => run_defs(i@, p),
            ClauseBody::Content(ClauseContent::Blockquote(i)) => run_defs(i@, p),
            ClauseBody::Content(ClauseContent::BulletList(items)) => runs_defs(items@, p),
            ClauseBody::Content(ClauseContent::Table(_)) => Seq::empty(),
            ClauseBody::Children(kids) => kids_defs(kids@, p),
        }
    }
}

/// The definitions of sibling clauses, in order.
pub open spec fn kids_defs(k: Seq<Clause>, p: Seq<Seq<char>>) -> Seq<DefEntry>
    decreases k, 0int,
{
    if k.len() == 0 {
        Seq::empty()
    } else {
        kids_defs(k.drop_last(), p) + clause_defs(k.last(), p)
    }
}

/// The definitions of a body element.
pub open spec fn element_defs(e: BodyElement, p: Seq<Seq<char>>) -> Seq<DefEntry> {
    match e {
        BodyElement::Clause(c) => clause_defs(c, p),
        BodyElement::Prose(i) => run_defs(i@, p),
        BodyElement::BulletList(items) => runs_defs(items@, p),
    }
}

/// The definitions of body elements, in order.
pub open spec fn elements_defs(es: Seq<BodyElement>, p: Seq<Seq<char>>) -> Seq<DefEntry>
    decreases es.len(),
{
    if es.len() == 0 {
        Seq::empty()
    } else {
        elements_defs(es.drop_last(), p) + element_defs(es.last(), p)
    }
}

/// The definitions of a block of addendum content.
pub open spec fn addendum_item_defs(c: AddendumContent, p: Seq<Seq<char>>) -> Seq<DefEntry> {
    match c {
        AddendumContent::Paragraph(i) => run_defs(i@, p),
        AddendumContent::Heading(_, i) => run_defs(i@, p),
        AddendumContent::ClauseList(cl) => kids_defs(cl@, p),
        AddendumContent::NumberedList(items) => runs_defs(items@, p),
        AddendumContent::BulletList(items) => runs_defs(items@, p),
        AddendumContent::Table(_) => Seq::empty(),
    }
}

/// The definitions of an addendum's content, in order.
pub open spec fn addendum_defs(cs: Seq<AddendumContent>, p: Seq<Seq<char>>) -> Seq<DefEntry>
    decreases cs.len(),
{
    if cs.len() == 0 {
        Seq::empty()
    } else {
        addendum_defs(cs.drop_last(), p) + addendum_item_defs(cs.last(), p)
    }
}

/// The definitions of the addenda, in order.
pub open spec fn addenda_defs(adds: Seq<Addendum>, p: Seq<Seq<char>>) -> Seq<DefEntry>
    decreases adds.len(),
{
    if adds.len() == 0 {
        Seq::empty()
    } else {
        addenda_defs(adds.drop_last(), p) + addendum_defs(adds.last().content@, p)
    }
}

/// The definitions of the recitals, if any.
pub open spec fn recitals_defs(r: Option<crate::model::Recitals>, p: Seq<Seq<char>>) -> Seq<DefEntry> {
    match r {
        Some(r) => elements_defs(r.body@, p),
        None => Seq::empty(),
    }
}

/// The definition sites in a document's text: recitals, body, addenda.
pub open spec fn document_defs(doc: Document, p: Seq<Seq<char>>) -> Seq<DefEntry> {
    recitals_defs(doc.recitals, p) + elements_defs(doc.body@, p) + addenda_defs(doc.addenda@, p)
}

/// A definition site by its values: term, location, position, whether the
/// front-matter defines it, and whether it stands in an addendum.
pub type SiteView = (Seq<char>, Option<Seq<char>>, Option<SourcePos>, bool, bool);

/// The values of a definition site.
pub open spec fn site_view(d: TermDefinition) -> SiteView {
    (d.term@, opt_view(d.location), d.pos, d.from_front_matter, d.in_addendum)
}

/// The values of a list of definition sites.
pub open spec fn def_sites(d: Seq<TermDefinition>) -> Seq<SiteView> {
    d.map_values(|x: TermDefinition| site_view(x))
}

/// The sites of definitions found in text at `loc` and `pos`.
pub open spec fn at_sites(x: Seq<DefEntry>, loc: Option<Seq<char>>, pos: Option<SourcePos>, add: bool) -> Seq<
    SiteView,
> {
    x.map_values(|e: DefEntry| (e.0, loc, pos, false, add))
}

/// A clause's definitions are located at its reference (`clause 3.1(a)`).
pub open spec fn clause_location(c: Clause, convention: NumberingConvention) -> Option<Seq<char>> {
    match c.number {
        Some(n) => Some(crate::model::full_reference_spec(n, "clause"@, convention)),
        None => None,
    }
}

/// The definition sites of a clause tree: its content at the clause's
/// reference and position, its children at their own.
pub open spec fn clause_sites(c: Clause, p: Seq<Seq<char>>, conv: NumberingConvention, add: bool) -> Seq<
    SiteView,
>
    decreases c, 2int,
{
    body_sites(c.body@, p, clause_location(c, conv), c.source_pos, conv, add)
}

/// The definition sites of the pieces of a clause body.
pub open spec fn body_sites(
    b: Seq<ClauseBody>,
    p: Seq<Seq<char>>,
    loc: Option<Seq<char>>,
    pos: Option<SourcePos>,
    conv: NumberingConvention,
    add: bool,
) -> Seq<SiteView>
    decreases b, 1int,
{
    if b.len() == 0 {
        Seq::empty()
    } else {
        body_sites(b.drop_last(), p, loc, pos, conv, add) + match b.last() {
            ClauseBody::Content(ClauseContent::Paragraph(i)) => at_sites(run_defs(i@, p), loc, pos, add),
            ClauseBody::Content(ClauseContent::Blockquote(i)) => at_sites(run_defs(i@, p), loc, pos, add),
            ClauseBody::Content(ClauseContent::BulletList(items)) => at_sites(runs_defs(items@, p), loc, pos, add),
            ClauseBody::Content(ClauseContent::Table(_)) => Seq::empty(),
            ClauseBody::Children(kids) => kids_sites(kids@, p, conv, add),
        }
    }
}

/// The definition sites of sibling clauses, in order.
pub open spec fn kids_sites(k: Seq<Clause>, p: Seq<Seq<char>>, conv: NumberingConvention, add: bool) -> Seq<
    SiteView,
>
    decreases k, 0int,
{
    if k.len() == 0 {
        Seq::empty()
    } else {
        kids_sites(k.drop_last(), p, conv, add) + clause_sites(k.last(), p, conv, add)
    }
}

/// The definition sites of a body element; prose and lists at `loc`.
pub open spec fn element_sites(e: BodyElement, p: Seq<Seq<char>>, conv: NumberingConvention, loc: Option<Seq<char>>) -> Seq<
    SiteView,
> {
    match e {
        BodyElement::Clause(c) => clause_sites(c, p, conv, false),
        BodyElement::Prose(i) => at_sites(run_defs(i@, p), loc, None, false),
        BodyElement::BulletList(items) => at_sites(runs_defs(items@, p), loc, None, false),
    }
}

/// The definition sites of body elements, in order.
pub open spec fn elements_sites(es: Seq<BodyElement>, p: Seq<Seq<char>>, conv: NumberingConvention, loc: Option<Seq<char>>) -> Seq<
    SiteView,
>
    decreases es.len(),
{
    if es.len() == 0 {
        Seq::empty()
    } else {
        elements_sites(es.drop_last(), p, conv, loc) + element_sites(es.last(), p, conv, loc)
    }
}

/// The definition sites of a block of addendum content, at the addendum's
/// heading and position.
pub open spec fn addendum_item_sites(
    c: AddendumContent,
    p: Seq<Seq<char>>,
    conv: NumberingConvention,
    loc: Option<Seq<char>>,
    pos: Option<SourcePos>,
) -> Seq<SiteView> {
    match c {
        AddendumContent::Paragraph(i) => at_sites(run_defs(i@, p), loc, pos, true),
        AddendumContent::Heading(_, i) => at_sites(run_defs(i@, p), loc, pos, true),
        AddendumContent::ClauseList(cl) => kids_sites(cl@, p, conv, true),
        AddendumContent::NumberedList(items) => at_sites(runs_defs(items@, p), loc, pos, true),
        AddendumContent::BulletList(items) => at_sites(runs_defs(items@, p), loc, pos, true),
        AddendumContent::Table(_) => Seq::empty(),
    }
}

/// The definition sites of an addendum's content, in order.
pub open spec fn addendum_sites(
    cs: Seq<AddendumContent>,
    p: Seq<Seq<char>>,
    conv: NumberingConvention,
    loc: Option<Seq<char>>,
    pos: Option<SourcePos>,
) -> Seq<SiteView>
    decreases cs.len(),
{
    if cs.len() == 0 {
        Seq::empty()
    } else {
        addendum_sites(cs.drop_last(), p, conv, loc, pos) + addendum_item_sites(cs.last(), p, conv, loc, pos)
    }
}

/// The definition sites of the addenda, in order.
pub open spec fn addenda_sites(adds: Seq<Addendum>, p: Seq<Seq<char>>, conv: NumberingConvention) -> Seq<
    SiteView,
>
    decreases adds.len(),
{
    if adds.len() == 0 {
        Seq::empty()
    } else {
        addenda_sites(adds.drop_last(), p, conv) + addendum_sites(
            adds.last().content@,
            p,
            conv,
            Some(crate::model::addendum_heading(adds.last().number, adds.last().title@)),
            adds.last().source_pos,
        )
    }
}

/// The definition sites in a document's text: the recitals (prose at
/// `recitals`), the body, the addenda.
pub open spec fn document_sites(doc: Document, p: Seq<Seq<char>>, conv: NumberingConvention) -> Seq<SiteView> {
    recitals_sites(doc.recitals, p, conv) + elements_sites(doc.body@, p, conv, None) + addenda_sites(
        doc.addenda@,
        p,
        conv,
    )
}

/// The definition sites of the recitals, if any; prose at `recitals`.
pub open spec fn recitals_sites(r: Option<crate::model::Recitals>, p: Seq<Seq<char>>, conv: NumberingConvention) -> Seq<
    SiteView,
> {
    match r {
        Some(r) => elements_sites(r.body@, p, conv, Some("recitals"@)),
        None => Seq::empty(),
    }
}

/// The sites the front-matter defines: each party role, then the document
/// type, all at `front-matter`.
pub open spec fn front_sites(meta: crate::model::DocumentMeta) -> Seq<SiteView> {
    front_matter_terms(meta).map_values(|t: Seq<char>| (t, Some("front-matter"@), None, true, false))
}

/// A site the front-matter defines: at `front-matter`, with no position,
/// outside the addenda.
pub open spec fn front_site(d: TermDefinition) -> bool {
    &&& opt_view(d.location) == Some("front-matter"@)
    &&& d.pos is None
    &&& d.from_front_matter
    &&& !d.in_addendum
}

/// Every definition site of a document: the front-matter's, then those in
/// its text.
pub open spec fn all_sites(doc: Document, p: Seq<Seq<char>>, conv: NumberingConvention) -> Seq<SiteView> {
    front_sites(doc.meta) + document_sites(doc, p, conv)
}

/// Collecting appended the sites `y` to the definitions.
pub open spec fn sites_grow(d0: Seq<TermDefinition>, d1: Seq<TermDefinition>, y: Seq<SiteView>) -> bool {
    def_sites(d1) == def_sites(d0) + y
}

proof fn lemma_sites_refl(d0: Seq<TermDefinition>)
    ensures
        sites_grow(d0, d0, Seq::empty()),
{
    assert(def_sites(d0) + Seq::<SiteView>::empty() =~= def_sites(d0));
}

proof fn lemma_sites_trans(
    d0: Seq<TermDefinition>,
    d1: Seq<TermDefinition>,
    d2: Seq<TermDefinition>,
    x: Seq<SiteView>,
    y: Seq<SiteView>,
)
    requires
        sites_grow(d0, d1, x),
        sites_grow(d1, d2, y),
    ensures
        sites_grow(d0, d2, x + y),
{
    assert(def_sites(d2) =~= def_sites(d0) + (x + y));
}

proof fn lemma_at_sites_concat(x: Seq<DefEntry>, y: Seq<DefEntry>, loc: Option<Seq<char>>, pos: Option<SourcePos>, add: bool)
    ensures
        at_sites(x + y, loc, pos, add) == at_sites(x, loc, pos, add) + at_sites(y, loc, pos, add),
{
    assert(at_sites(x + y, loc, pos, add) =~= at_sites(x, loc, pos, add) + at_sites(y, loc, pos, add));
}

/// What checking a document's terms reports after the diagnostics it had
/// (`start`), given its definition sites `defs`, schedule items `items` and
/// the lowercased declared schedule titles `d`: first the
/// `undeclared-schedule` warnings of the document's text, in text order (up
/// to `u`), then one warning per
/// unreferenced declared schedule, then one `duplicate-definition` warning
/// per scope of a term defined more than once, then the unused-term
/// report.
pub open spec fn term_reports(
    dg: Seq<Diagnostic>,
    start: int,
    u: int,
    doc: Document,
    defs: Seq<TermDefinition>,
    items: Seq<ScheduleItem>,
    p: Seq<Seq<char>>,
    d: Seq<String>,
    conv: NumberingConvention,
) -> bool {
    let refs = unreferenced_upto(items, doc.meta.schedule@.len() as int);
    let dups = duplicate_openers(defs, defs.len() as int);
    let r_end = u + refs.len();
    let d_end = r_end + dups.len();
    &&& def_sites(defs) == all_sites(doc, p, conv)
    &&& 0 <= start <= u <= d_end <= dg.len()
    &&& diags_view(dg.subrange(start, u)) == und_document(doc, p, d, conv)
    &&& diags_view(dg.subrange(u, r_end)) == refs.map_values(|i: int| unreferenced_view(doc.meta.schedule@[i]))
    &&& forall|q: int| 0 <= q < dups.len() ==> duplicate_warning(#[trigger] dg[r_end + q], defs, dups[q])
    &&& exists|order: Seq<int>|
        #![trigger order.to_multiset()]
        unused_reports_are(dg.skip(d_end), order, defs, items, document_text(doc))
}

/// The undeclared-schedule findings among the first `k` inlines of `s`: for
/// each bold term that is a definition but not a schedule definition, the
/// term and the first undeclared schedule title its following text refers
/// to, when there is one.
pub open spec fn undeclared_upto(s: Seq<InlineView>, p: Seq<Seq<char>>, declared: Seq<String>, k: int) -> Seq<
    (Seq<char>, Seq<char>),
>
    decreases k,
{
    if k <= 0 {
        Seq::empty()
    } else {
        undeclared_upto(s, p, declared, k - 1) + match s[k - 1] {
            InlineView::Bold(t) => match classify_spec(t, s, k - 1, p) {
                TermKind::FieldLabel => Seq::empty(),
                TermKind::ScheduleDefinition(_) => Seq::empty(),
                _ => match first_undeclared(
                    after_bold(s, k - 1),
                    regex_captures(GENERIC_SCHEDULE_PATTERN@, after_bold(s, k - 1)),
                    declared,
                ) {
                    Some(title) => seq![(t, title)],
                    None => Seq::empty(),
                },
            },
            _ => Seq::empty(),
        }
    }
}

/// The warnings for undeclared-schedule findings at `loc` and `pos`.
pub open spec fn undeclared_views(x: Seq<(Seq<char>, Seq<char>)>, loc: Option<Seq<char>>, pos: Option<SourcePos>) -> Seq<
    DiagView,
> {
    x.map_values(
        |e: (Seq<char>, Seq<char>)|
            placed_view(DiagLevel::Warning, "undeclared-schedule"@, undeclared_message(e.0, e.1), loc, pos),
    )
}

/// The undeclared-schedule warnings of a run of inlines at `loc` and `pos`.
pub open spec fn und_run(i: Seq<InlineContent>, p: Seq<Seq<char>>, d: Seq<String>, loc: Option<Seq<char>>, pos: Option<SourcePos>) -> Seq<
    DiagView,
> {
    undeclared_views(undeclared_upto(inlines_view(i), p, d, i.len() as int), loc, pos)
}

/// The undeclared-schedule warnings of a list of runs.
pub open spec fn und_runs(
    items: Seq<Vec<InlineContent>>,
    p: Seq<Seq<char>>,
    d: Seq<String>,
    loc: Option<Seq<char>>,
    pos: Option<SourcePos>,
) -> Seq<DiagView>
    decreases items.len(),
{
    if items.len() == 0 {
        Seq::empty()
    } else {
        und_runs(items.drop_last(), p, d, loc, pos) + und_run(items.last()@, p, d, loc, pos)
    }
}

/// The undeclared-schedule warnings of a clause tree.
pub open spec fn und_clause(c: Clause, p: Seq<Seq<char>>, d: Seq<String>, conv: NumberingConvention) -> Seq<DiagView>
    decreases c, 2int,
{
    und_body(c.body@, p, d, clause_location(c, conv), c.source_pos, conv)
}

/// The undeclared-schedule warnings of the pieces of a clause body.
pub open spec fn und_body(
    b: Seq<ClauseBody>,
    p: Seq<Seq<char>>,
    d: Seq<String>,
    loc: Option<Seq<char>>,
    pos: Option<SourcePos>,
    conv: NumberingConvention,
) -> Seq<DiagView>
    decreases b, 1int,
{
    if b.len() == 0 {
        Seq::empty()
    } else {
        und_body(b.drop_last(), p, d, loc, pos, conv) + match b.last() {
            ClauseBody::Content(ClauseContent::Paragraph(i)) => und_run(i@, p, d, loc, pos),
            ClauseBody::Content(ClauseContent::Blockquote(i)) => und_run(i@, p, d, loc, pos),
            ClauseBody::Content(ClauseContent::BulletList(items)) => und_runs(items@, p, d, loc, pos),
            ClauseBody::Content(ClauseContent::Table(_)) => Seq::empty(),
            ClauseBody::Children(kids) => und_kids(kids@, p, d, conv),
        }
    }
}

/// The undeclared-schedule warnings of sibling clauses.
pub open spec fn und_kids(k: Seq<Clause>, p: Seq<Seq<char>>, d: Seq<String>, conv: NumberingConvention) -> Seq<DiagView>
    decreases k, 0int,
{
    if k.len() == 0 {
        Seq::empty()
    } else {
        und_kids(k.drop_last(), p, d, conv) + und_clause(k.last(), p, d, conv)
    }
}

/// The undeclared-schedule warnings of a body element.
pub open spec fn und_element(e: BodyElement, p: Seq<Seq<char>>, d: Seq<String>, conv: NumberingConvention, loc: Option<Seq<char>>) -> Seq<
    DiagView,
> {
    match e {
        BodyElement::Clause(c) => und_clause(c, p, d, conv),
        BodyElement::Prose(i) => und_run(i@, p, d, loc, None),
        BodyElement::BulletList(items) => und_runs(items@, p, d, loc, None),
    }
}

/// The undeclared-schedule warnings of body elements.
pub open spec fn und_elements(es: Seq<BodyElement>, p: Seq<Seq<char>>, d: Seq<String>, conv: NumberingConvention, loc: Option<Seq<char>>) -> Seq<
    DiagView,
>
    decreases es.len(),
{
    if es.len() == 0 {
        Seq::empty()
    } else {
        und_elements(es.drop_last(), p, d, conv, loc) + und_element(es.last(), p, d, conv, loc)
    }
}

/// The undeclared-schedule warnings of a block of addendum content.
pub open spec fn und_addendum_item(
    c: AddendumContent,
    p: Seq<Seq<char>>,
    d: Seq<String>,
    conv: NumberingConvention,
    loc: Option<Seq<char>>,
    pos: Option<SourcePos>,
) -> Seq<DiagView> {
    match c {
        AddendumContent::Paragraph(i) => und_run(i@, p, d, loc, pos),
        AddendumContent::Heading(_, i) => und_run(i@, p, d, loc, pos),
        AddendumContent::ClauseList(cl) => und_kids(cl@, p, d, conv),
        AddendumContent::NumberedList(items) => und_runs(items@, p, d, loc, pos),
        AddendumContent::BulletList(items) => und_runs(items@, p, d, loc, pos),
        AddendumContent::Table(_) => Seq::empty(),
    }
}

/// The undeclared-schedule warnings of an addendum's content.
pub open spec fn und_addendum(
    cs: Seq<AddendumContent>,
    p: Seq<Seq<char>>,
    d: Seq<String>,
    conv: NumberingConvention,
    loc: Option<Seq<char>>,
    pos: Option<SourcePos>,
) -> Seq<DiagView>
    decreases cs.len(),
{
    if cs.len() == 0 {
        Seq::empty()
    } else {
        und_addendum(cs.drop_last(), p, d, conv, loc, pos) + und_addendum_item(cs.last(), p, d, conv, loc, pos)
    }
}

/// The undeclared-schedule warnings of the addenda.
pub open spec fn und_addenda(adds: Seq<Addendum>, p: Seq<Seq<char>>, d: Seq<String>, conv: NumberingConvention) -> Seq<
    DiagView,
>
    decreases adds.len(),
{
    if adds.len() == 0 {
        Seq::empty()
    } else {
        und_addenda(adds.drop_last(), p, d, conv) + und_addendum(
            adds.last().content@,
            p,
            d,
            conv,
            Some(crate::model::addendum_heading(adds.last().number, adds.last().title@)),
            adds.last().source_pos,
        )
    }
}

/// The undeclared-schedule warnings of the recitals, located at "recitals".
pub open spec fn und_recitals(r: Option<crate::model::Recitals>, p: Seq<Seq<char>>, d: Seq<String>, conv: NumberingConvention) -> Seq<DiagView> {
    match r {
        Some(r) => und_elements(r.body@, p, d, conv, Some("recitals"@)),
        None => Seq::empty(),
    }
}

/// The undeclared-schedule warnings of a document's text, in the order its
/// definitions come: recitals, body, addenda.
pub open spec fn und_document(doc: Document, p: Seq<Seq<char>>, d: Seq<String>, conv: NumberingConvention) -> Seq<DiagView> {
    und_recitals(doc.recitals, p, d, conv) + und_elements(doc.body@, p, d, conv, None) + und_addenda(doc.addenda@, p, d, conv)
}

/// Collecting appended exactly the warnings `y`.
pub open spec fn warns(g0: Seq<Diagnostic>, g1: Seq<Diagnostic>, y: Seq<DiagView>) -> bool {
    diags_view(g1) == diags_view(g0) + y
}

pub proof fn lemma_warns_refl(g0: Seq<Diagnostic>)
    ensures
        warns(g0, g0, Seq::empty()),
{
    assert(diags_view(g0) + Seq::<DiagView>::empty() =~= diags_view(g0));
}

pub proof fn lemma_warns_trans(g0: Seq<Diagnostic>, g1: Seq<Diagnostic>, g2: Seq<Diagnostic>, x: Seq<DiagView>, y: Seq<DiagView>)
    requires
        warns(g0, g1, x),
        warns(g1, g2, y),
    ensures
        warns(g0, g2, x + y),
{
    assert(diags_view(g2) =~= diags_view(g0) + (x + y));
}

/// Collecting turned definition lists `d0`/`s0` into `d1`/`s1` by appending
/// the definitions `x`: their terms, and the schedule items among them.
pub open spec fn collects(
    d0: Seq<TermDefinition>,
    d1: Seq<TermDefinition>,
    s0: Seq<ScheduleItem>,
    s1: Seq<ScheduleItem>,
    x: Seq<DefEntry>,
) -> bool {
    &&& def_terms(d1) == def_terms(d0) + def_entries(x)
    &&& item_view(s1) == item_view(s0) + schedule_entries(x)
}

proof fn lemma_schedule_entries_concat(x: Seq<DefEntry>, y: Seq<DefEntry>)
    ensures
        schedule_entries(x + y) == schedule_entries(x) + schedule_entries(y),
    decreases y.len(),
{
    if y.len() == 0 {
        assert(x + y =~= x);
        assert(schedule_entries(x) + schedule_entries(y) =~= schedule_entries(x));
    } else {
        lemma_schedule_entries_concat(x, y.drop_last());
        assert((x + y).drop_last() =~= x + y.drop_last());
        assert((x + y).last() == y.last());
        assert(schedule_entries(x + y) =~= schedule_entries(x) + schedule_entries(y));
    }
}

proof fn lemma_collects_trans(
    d0: Seq<TermDefinition>,
    d1: Seq<TermDefinition>,
    d2: Seq<TermDefinition>,
    s0: Seq<ScheduleItem>,
    s1: Seq<ScheduleItem>,
    s2: Seq<ScheduleItem>,
    x: Seq<DefEntry>,
    y: Seq<DefEntry>,
)
    requires
        collects(d0, d1, s0, s1, x),
        collects(d1, d2, s1, s2, y),
    ensures
        collects(d0, d2, s0, s2, x + y),
{
    lemma_schedule_entries_concat(x, y);
    assert(def_entries(x + y) =~= def_entries(x) + def_entries(y));
    assert(def_terms(d2) =~= def_terms(d0) + def_entries(x + y));
    assert(item_view(s2) =~= item_view(s0) + schedule_entries(x + y));
}

proof fn lemma_collects_refl(d0: Seq<TermDefinition>, s0: Seq<ScheduleItem>)
    ensures
        collects(d0, d0, s0, s0, Seq::empty()),
{
    assert(def_terms(d0) + def_entries(Seq::<DefEntry>::empty()) =~= def_terms(d0));
    assert(item_view(s0) + schedule_entries(Seq::<DefEntry>::empty()) =~= item_view(s0));
}

/// [`collect_inline_terms`], stated as growth.
fn collect_run_terms(
    inlines: &[InlineContent],
    defs: &mut Vec<TermDefinition>,
    schedule_items: &mut Vec<ScheduleItem>,
    ctx: &ScheduleContext,
    location: Option<&str>,
    pos: Option<SourcePos>,
    in_addendum: bool,
    diagnostics: &mut Vec<Diagnostic>,
)
    ensures
        collect_grows(
            old(defs)@,
            final(defs)@,
            old(schedule_items)@,
            final(schedule_items)@,
            old(diagnostics)@,
            final(diagnostics)@,
            ctx.patterns@.len() as int,
        ),
        collects(old(defs)@, final(defs)@, old(schedule_items)@, final(schedule_items)@, run_defs(inlines@, patterns_view(ctx.patterns@))),
        sites_grow(
            old(defs)@,
            final(defs)@,
            at_sites(run_defs(inlines@, patterns_view(ctx.patterns@)), str_opt_view(location), pos, in_addendum),
        ),
        warns(
            old(diagnostics)@,
            final(diagnostics)@,
            und_run(inlines@, patterns_view(ctx.patterns@), ctx.declared_lower@, str_opt_view(location), pos),
        ),
{
    collect_inline_terms(inlines, defs, schedule_items, ctx, location, pos, in_addendum, diagnostics);
    proof {
        assert(defs@.take(old(defs)@.len() as int) =~= old(defs)@);
        assert(schedule_items@.take(old(schedule_items)@.len() as int) =~= old(schedule_items)@);
        let x = run_defs(inlines@, patterns_view(ctx.patterns@));
        let n0 = old(defs)@.len() as int;
        let ys = at_sites(x, str_opt_view(location), pos, in_addendum);
        assert(def_terms(defs@).len() == defs@.len());
        assert forall|k: int| 0 <= k < defs@.len() implies #[trigger] def_sites(defs@)[k] == (def_sites(
            old(defs)@,
        ) + ys)[k] by {
            if k < n0 {
                assert(defs@[k] == old(defs)@[k]);
            } else {
                assert(def_terms(defs@)[k] == (def_terms(old(defs)@) + def_entries(x))[k]);
                assert(defs@[k].term@ == x[k - n0].0);
            }
        }
        assert(def_sites(defs@) =~= def_sites(old(defs)@) + ys);
    }
}

/// [`collect_inline_terms`] on each of a list of runs.
fn collect_runs_terms(
    items: &Vec<Vec<InlineContent>>,
    defs: &mut Vec<TermDefinition>,
    schedule_items: &mut Vec<ScheduleItem>,
    ctx: &ScheduleContext,
    location: Option<&str>,
    pos: Option<SourcePos>,
    in_addendum: bool,
    diagnostics: &mut Vec<Diagnostic>,
)
    ensures
        collect_grows(
            old(defs)@,
            final(defs)@,
            old(schedule_items)@,
            final(schedule_items)@,
            old(diagnostics)@,
            final(diagnostics)@,
            ctx.patterns@.len() as int,
        ),
        collects(old(defs)@, final(defs)@, old(schedule_items)@, final(schedule_items)@, runs_defs(items@, patterns_view(ctx.patterns@))),
        sites_grow(
            old(defs)@,
            final(defs)@,
            at_sites(runs_defs(items@, patterns_view(ctx.patterns@)), str_opt_view(location), pos, in_addendum),
        ),
        warns(
            old(diagnostics)@,
            final(diagnostics)@,
            und_runs(items@, patterns_view(ctx.patterns@), ctx.declared_lower@, str_opt_view(location), pos),
        ),
{
    let ghost n = ctx.patterns@.len() as int;
    let ghost loc = str_opt_view(location);
    proof {
        lemma_collect_refl(defs@, schedule_items@, diagnostics@, n);
        lemma_collects_refl(defs@, schedule_items@);
        lemma_sites_refl(defs@);
        lemma_warns_refl(diagnostics@);
        assert(items@.take(0) =~= Seq::<Vec<InlineContent>>::empty());
        assert(at_sites(runs_defs(items@.take(0), patterns_view(ctx.patterns@)), loc, pos, in_addendum)
            =~= Seq::<SiteView>::empty());
    }
    let mut k: usize = 0;
    while k < items.len()
        invariant
            k <= items@.len(),
            n == ctx.patterns@.len(),
            collect_grows(
                old(defs)@,
                defs@,
                old(schedule_items)@,
                schedule_items@,
                old(diagnostics)@,
                diagnostics@,
                n,
            ),
            collects(old(defs)@, defs@, old(schedule_items)@, schedule_items@, runs_defs(items@.take(k as int), patterns_view(ctx.patterns@))),
            loc == str_opt_view(location),
            sites_grow(
                old(defs)@,
                defs@,
                at_sites(runs_defs(items@.take(k as int), patterns_view(ctx.patterns@)), loc, pos, in_addendum),
            ),
            warns(
                old(diagnostics)@,
                diagnostics@,
                und_runs(items@.take(k as int), patterns_view(ctx.patterns@), ctx.declared_lower@, loc, pos),
            ),
        decreases items@.len() - k,
    {
        let ghost (d0, s0, g0) = (defs@, schedule_items@, diagnostics@);
        collect_run_terms(
            items[k].as_slice(),
            defs,
            schedule_items,
            ctx,
            location,
            pos,
            in_addendum,
            diagnostics,
        );
        proof {
            assert(items@.take(k + 1).drop_last() =~= items@.take(k as int));
            lemma_collects_trans(old(defs)@, d0, defs@, old(schedule_items)@, s0, schedule_items@,
                runs_defs(items@.take(k as int), patterns_view(ctx.patterns@)),
                run_defs(items@[k as int]@, patterns_view(ctx.patterns@)));
            lemma_at_sites_concat(
                runs_defs(items@.take(k as int), patterns_view(ctx.patterns@)),
                run_defs(items@[k as int]@, patterns_view(ctx.patterns@)),
                loc,
                pos,
                in_addendum,
            );
            lemma_warns_trans(
                old(diagnostics)@,
                g0,
                diagnostics@,
                und_runs(items@.take(k as int), patterns_view(ctx.patterns@), ctx.declared_lower@, loc, pos),
                und_run(items@[k as int]@, patterns_view(ctx.patterns@), ctx.declared_lower@, loc, pos),
            );
            lemma_sites_trans(
                old(defs)@,
                d0,
                defs@,
                at_sites(runs_defs(items@.take(k as int), patterns_view(ctx.patterns@)), loc, pos, in_addendum),
                at_sites(run_defs(items@[k as int]@, patterns_view(ctx.patterns@)), loc, pos, in_addendum),
            );
            lemma_collect_trans(
                old(defs)@,
                d0,
                defs@,
                old(schedule_items)@,
                s0,
                schedule_items@,
                old(diagnostics)@,
                g0,
                diagnostics@,
                n,
            );
        }
        k += 1;
    }
    assert(items@.take(items@.len() as int) =~= items@);
}

/// Collect the definitions in a clause tree's content, each located at
/// its clause's reference (`clause 3.1(a)`).
fn collect_clause_terms(
    clause: &Clause,
    defs: &mut Vec<TermDefinition>,
    schedule_items: &mut Vec<ScheduleItem>,
    ctx: &ScheduleContext,
    convention: NumberingConvention,
    in_addendum: bool,
    diagnostics: &mut Vec<Diagnostic>,
)
    requires
        tree_formattable(*clause, convention),
    ensures
        collect_grows(
            old(defs)@,
            final(defs)@,
            old(schedule_items)@,
            final(schedule_items)@,
            old(diagnostics)@,
            final(diagnostics)@,
            ctx.patterns@.len() as int,
        ),
        collects(
            old(defs)@,
            final(defs)@,
            old(schedule_items)@,
            final(schedule_items)@,
            clause_defs(*clause, patterns_view(ctx.patterns@)),
        ),
        sites_grow(old(defs)@, final(defs)@, clause_sites(*clause, patterns_view(ctx.patterns@), convention, in_addendum)),
        warns(old(diagnostics)@, final(diagnostics)@, und_clause(*clause, patterns_view(ctx.patterns@), ctx.declared_lower@, convention)),
    decreases clause,
{
    let ghost n = ctx.patterns@.len() as int;
    let ghost pv = patterns_view(ctx.patterns@);
    proof {
        lemma_collect_refl(defs@, schedule_items@, diagnostics@, n);
        lemma_collects_refl(defs@, schedule_items@);
        lemma_sites_refl(defs@);
        lemma_warns_refl(diagnostics@);
        assert(clause.body@.take(0) =~= Seq::<ClauseBody>::empty());
    }
    let clause_loc: Option<String> = match clause.number {
        Some(num) => Some(num.full_reference("clause", convention)),
        None => None,
    };
    let ghost cl = clause_location(*clause, convention);
    assert(opt_view(clause_loc) == cl);
    let mut k: usize = 0;
    while k < clause.body.len()
        invariant
            k <= clause.body@.len(),
            n == ctx.patterns@.len(),
            pv == patterns_view(ctx.patterns@),
            tree_formattable(*clause, convention),
            collect_grows(
                old(defs)@,
                defs@,
                old(schedule_items)@,
                schedule_items@,
                old(diagnostics)@,
                diagnostics@,
                n,
            ),
            collects(old(defs)@, defs@, old(schedule_items)@, schedule_items@, body_defs(clause.body@.take(k as int), pv)),
            cl == clause_location(*clause, convention),
            opt_view(clause_loc) == cl,
            sites_grow(
                old(defs)@,
                defs@,
                body_sites(clause.body@.take(k as int), pv, cl, clause.source_pos, convention, in_addendum),
            ),
            warns(
                old(diagnostics)@,
                diagnostics@,
                und_body(clause.body@.take(k as int), pv, ctx.declared_lower@, cl, clause.source_pos, convention),
            ),
        decreases clause.body@.len() - k,
    {
        let loc = match &clause_loc {
            Some(l) => Some(l.as_str()),
            None => None,
        };
        let ghost (d0, s0, g0) = (defs@, schedule_items@, diagnostics@);
        let ghost before = body_defs(clause.body@.take(k as int), pv);
        let ghost before_s = body_sites(clause.body@.take(k as int), pv, cl, clause.source_pos, convention, in_addendum);
        let ghost before_w = und_body(clause.body@.take(k as int), pv, ctx.declared_lower@, cl, clause.source_pos, convention);
        assert(str_opt_view(loc) == cl);
        proof {
            assert(clause.body@.take(k + 1).drop_last() =~= clause.body@.take(k as int));
            assert(clause.body@.take(k + 1).last() == clause.body@[k as int]);
        }
        match &clause.body[k] {
            ClauseBody::Content(ClauseContent::Paragraph(inlines))
            | ClauseBody::Content(ClauseContent::Blockquote(inlines)) => {
                collect_run_terms(
                    inlines.as_slice(),
                    defs,
                    schedule_items,
                    ctx,
                    loc,
                    clause.source_pos,
                    in_addendum,
                    diagnostics,
                );
                proof {
                    lemma_collects_trans(old(defs)@, d0, defs@, old(schedule_items)@, s0, schedule_items@,
                        before, run_defs(inlines@, pv));
                    lemma_sites_trans(old(defs)@, d0, defs@, before_s, at_sites(run_defs(inlines@, pv), cl,
                        clause.source_pos, in_addendum));
                    lemma_warns_trans(old(diagnostics)@, g0, diagnostics@, before_w, und_run(inlines@, pv,
                        ctx.declared_lower@, cl, clause.source_pos));
                }
            },
            ClauseBody::Content(ClauseContent::BulletList(items)) => {
                collect_runs_terms(
                    items,
                    defs,
                    schedule_items,
                    ctx,
                    loc,
                    clause.source_pos,
                    in_addendum,
                    diagnostics,
                );
                proof {
                    lemma_collects_trans(old(defs)@, d0, defs@, old(schedule_items)@, s0, schedule_items@,
                        before, runs_defs(items@, pv));
                    lemma_sites_trans(old(defs)@, d0, defs@, before_s, at_sites(runs_defs(items@, pv), cl,
                        clause.source_pos, in_addendum));
                    lemma_warns_trans(old(diagnostics)@, g0, diagnostics@, before_w, und_runs(items@, pv,
                        ctx.declared_lower@, cl, clause.source_pos));
                }
            },
            ClauseBody::Content(ClauseContent::Table(_)) => {
                proof {
                    lemma_collect_refl(defs@, schedule_items@, diagnostics@, n);
                    assert(before + Seq::<DefEntry>::empty() =~= before);
                    assert(before_s + Seq::<SiteView>::empty() =~= before_s);
                    assert(before_w + Seq::<DiagView>::empty() =~= before_w);
                }
            },
            ClauseBody::Children(kids) => {
                proof {
                    lemma_collect_refl(defs@, schedule_items@, diagnostics@, n);
                    lemma_collects_refl(defs@, schedule_items@);
                    lemma_sites_refl(defs@);
                    lemma_warns_refl(diagnostics@);
                    assert(kids@.take(0) =~= Seq::<Clause>::empty());
                }
                let mut j: usize = 0;
                while j < kids.len()
                    invariant
                        j <= kids@.len(),
                        n == ctx.patterns@.len(),
                        pv == patterns_view(ctx.patterns@),
                        k < clause.body@.len(),
                        clause.body@[k as int] == ClauseBody::Children(*kids),
                        tree_formattable(*clause, convention),
                        collect_grows(d0, defs@, s0, schedule_items@, g0, diagnostics@, n),
                        collects(d0, defs@, s0, schedule_items@, kids_defs(kids@.take(j as int), pv)),
                        sites_grow(d0, defs@, kids_sites(kids@.take(j as int), pv, convention, in_addendum)),
                        warns(g0, diagnostics@, und_kids(kids@.take(j as int), pv, ctx.declared_lower@, convention)),
                    decreases kids@.len() - j,
                {
                    proof {
                        lemma_runs_at(clause.body@, k as int, j as int, convention);
                        assert(decreases_to!(*clause => clause.body));
                        assert(decreases_to!(clause.body => clause.body@));
                        assert(decreases_to!(clause.body@ => clause.body@[k as int]));
                        assert(decreases_to!(clause.body@[k as int] => clause.body@[k as int]->Children_0));
                        assert(decreases_to!(*kids => kids@));
                        assert(decreases_to!(kids@ => kids@[j as int]));
                    }
                    let ghost (d1, s1, g1) = (defs@, schedule_items@, diagnostics@);
                    collect_clause_terms(
                        &kids[j],
                        defs,
                        schedule_items,
                        ctx,
                        convention,
                        in_addendum,
                        diagnostics,
                    );
                    proof {
                        lemma_collect_trans(d0, d1, defs@, s0, s1, schedule_items@, g0, g1, diagnostics@, n);
                        assert(kids@.take(j + 1).drop_last() =~= kids@.take(j as int));
                        assert(kids@.take(j + 1).last() == kids@[j as int]);
                        lemma_collects_trans(d0, d1, defs@, s0, s1, schedule_items@,
                            kids_defs(kids@.take(j as int), pv), clause_defs(kids@[j as int], pv));
                        lemma_sites_trans(d0, d1, defs@, kids_sites(kids@.take(j as int), pv, convention, in_addendum),
                            clause_sites(kids@[j as int], pv, convention, in_addendum));
                        lemma_warns_trans(g0, g1, diagnostics@, und_kids(kids@.take(j as int), pv,
                            ctx.declared_lower@, convention), und_clause(kids@[j as int], pv, ctx.declared_lower@,
                            convention));
                    }
                    j += 1;
                }
                proof {
                    assert(kids@.take(kids@.len() as int) =~= kids@);
                    lemma_collects_trans(old(defs)@, d0, defs@, old(schedule_items)@, s0, schedule_items@,
                        before, kids_defs(kids@, pv));
                    lemma_sites_trans(old(defs)@, d0, defs@, before_s, kids_sites(kids@, pv, convention, in_addendum));
                    lemma_warns_trans(old(diagnostics)@, g0, diagnostics@, before_w, und_kids(kids@, pv,
                        ctx.declared_lower@, convention));
                }
            },
        }
        proof {
            lemma_collect_trans(
                old(defs)@,
                d0,
                defs@,
                old(schedule_items)@,
                s0,
                schedule_items@,
                old(diagnostics)@,
                g0,
                diagnostics@,
                n,
            );
        }
        k += 1;
    }
    assert(clause.body@.take(clause.body@.len() as int) =~= clause.body@);
}

/// Collect the definitions in a body: clauses at their references, prose
/// and bullet lists at `location`.
fn collect_body_terms(
    body: &Vec<BodyElement>,
    defs: &mut Vec<TermDefinition>,
    schedule_items: &mut Vec<ScheduleItem>,
    ctx: &ScheduleContext,
    convention: NumberingConvention,
    location: Option<&str>,
    diagnostics: &mut Vec<Diagnostic>,
)
    requires
        elements_formattable(body@, convention),
    ensures
        collect_grows(
            old(defs)@,
            final(defs)@,
            old(schedule_items)@,
            final(schedule_items)@,
            old(diagnostics)@,
            final(diagnostics)@,
            ctx.patterns@.len() as int,
        ),
        collects(
            old(defs)@,
            final(defs)@,
            old(schedule_items)@,
            final(schedule_items)@,
            elements_defs(body@, patterns_view(ctx.patterns@)),
        ),
        sites_grow(
            old(defs)@,
            final(defs)@,
            elements_sites(body@, patterns_view(ctx.patterns@), convention, str_opt_view(location)),
        ),
        warns(
            old(diagnostics)@,
            final(diagnostics)@,
            und_elements(body@, patterns_view(ctx.patterns@), ctx.declared_lower@, convention, str_opt_view(location)),
        ),
{
    let ghost n = ctx.patterns@.len() as int;
    let ghost pv = patterns_view(ctx.patterns@);
    let ghost dl = ctx.declared_lower@;
    proof {
        lemma_collect_refl(defs@, schedule_items@, diagnostics@, n);
        lemma_collects_refl(defs@, schedule_items@);
        lemma_sites_refl(defs@);
        lemma_warns_refl(diagnostics@);
        assert(body@.take(0) =~= Seq::<BodyElement>::empty());
    }
    let mut k: usize = 0;
    while k < body.len()
        invariant
            k <= body@.len(),
            pv == patterns_view(ctx.patterns@),
            dl == ctx.declared_lower@,
            warns(old(diagnostics)@, diagnostics@, und_elements(body@.take(k as int), pv, dl, convention, str_opt_view(location))),
            collects(old(defs)@, defs@, old(schedule_items)@, schedule_items@, elements_defs(body@.take(k as int), pv)),
            sites_grow(old(defs)@, defs@, elements_sites(body@.take(k as int), pv, convention, str_opt_view(location))),
            n == ctx.patterns@.len(),
            elements_formattable(body@, convention),
            collect_grows(
                old(defs)@,
                defs@,
                old(schedule_items)@,
                schedule_items@,
                old(diagnostics)@,
                diagnostics@,
                n,
            ),
        decreases body@.len() - k,
    {
        let ghost (d0, s0, g0) = (defs@, schedule_items@, diagnostics@);
        proof {
            assert(body@.take(k + 1).drop_last() =~= body@.take(k as int));
            assert(body@.take(k + 1).last() == body@[k as int]);
        }
        match &body[k] {
            BodyElement::Clause(c) => {
                proof {
                    assert(body@[k as int] == BodyElement::Clause(*c));
                }
                collect_clause_terms(c, defs, schedule_items, ctx, convention, false, diagnostics);
            },
            BodyElement::Prose(inlines) => {
                collect_run_terms(
                    inlines.as_slice(),
                    defs,
                    schedule_items,
                    ctx,
                    location,
                    None,
                    false,
                    diagnostics,
                );
            },
            BodyElement::BulletList(items) => {
                collect_runs_terms(items, defs, schedule_items, ctx, location, None, false, diagnostics);
            },
        }
        proof {
            lemma_warns_trans(old(diagnostics)@, g0, diagnostics@, und_elements(body@.take(k as int), pv, dl,
                convention, str_opt_view(location)), und_element(body@[k as int], pv, dl, convention,
                str_opt_view(location)));
            lemma_collects_trans(old(defs)@, d0, defs@, old(schedule_items)@, s0, schedule_items@,
                elements_defs(body@.take(k as int), pv), element_defs(body@[k as int], pv));
            lemma_sites_trans(old(defs)@, d0, defs@, elements_sites(body@.take(k as int), pv, convention,
                str_opt_view(location)), element_sites(body@[k as int], pv, convention, str_opt_view(location)));
            lemma_collect_trans(
                old(defs)@,
                d0,
                defs@,
                old(schedule_items)@,
                s0,
                schedule_items@,
                old(diagnostics)@,
                g0,
                diagnostics@,
                n,
            );
        }
        k += 1;
    }
    assert(body@.take(body@.len() as int) =~= body@);
}

/// Collect the definitions in an addendum, located at its heading; they are
/// scoped to the addendum.
fn collect_addendum_terms(
    addendum: &Addendum,
    defs: &mut Vec<TermDefinition>,
    schedule_items: &mut Vec<ScheduleItem>,
    ctx: &ScheduleContext,
    convention: NumberingConvention,
    diagnostics: &mut Vec<Diagnostic>,
)
    requires
        addendum_formattable(*addendum, convention),
    ensures
        collect_grows(
            old(defs)@,
            final(defs)@,
            old(schedule_items)@,
            final(schedule_items)@,
            old(diagnostics)@,
            final(diagnostics)@,
            ctx.patterns@.len() as int,
        ),
        collects(
            old(defs)@,
            final(defs)@,
            old(schedule_items)@,
            final(schedule_items)@,
            addendum_defs(addendum.content@, patterns_view(ctx.patterns@)),
        ),
        sites_grow(
            old(defs)@,
            final(defs)@,
            addendum_sites(
                addendum.content@,
                patterns_view(ctx.patterns@),
                convention,
                Some(crate::model::addendum_heading(addendum.number, addendum.title@)),
                addendum.source_pos,
            ),
        ),
        warns(
            old(diagnostics)@,
            final(diagnostics)@,
            und_addendum(
                addendum.content@,
                patterns_view(ctx.patterns@),
                ctx.declared_lower@,
                convention,
                Some(crate::model::addendum_heading(addendum.number, addendum.title@)),
                addendum.source_pos,
            ),
        ),
{
    let ghost n = ctx.patterns@.len() as int;
    let ghost pv = patterns_view(ctx.patterns@);
    proof {
        lemma_collect_refl(defs@, schedule_items@, diagnostics@, n);
        lemma_collects_refl(defs@, schedule_items@);
        lemma_sites_refl(defs@);
        lemma_warns_refl(diagnostics@);
        assert(addendum.content@.take(0) =~= Seq::<AddendumContent>::empty());
    }
    let ghost dl = ctx.declared_lower@;
    let heading = addendum.heading();
    let pos = addendum.source_pos;
    let ghost hl = Some(crate::model::addendum_heading(addendum.number, addendum.title@));
    let mut k: usize = 0;
    while k < addendum.content.len()
        invariant
            k <= addendum.content@.len(),
            pv == patterns_view(ctx.patterns@),
            collects(old(defs)@, defs@, old(schedule_items)@, schedule_items@, addendum_defs(addendum.content@.take(k as int), pv)),
            hl == Some(heading@),
            pos == addendum.source_pos,
            dl == ctx.declared_lower@,
            warns(old(diagnostics)@, diagnostics@, und_addendum(addendum.content@.take(k as int), pv, dl, convention, hl, pos)),
            sites_grow(old(defs)@, defs@, addendum_sites(addendum.content@.take(k as int), pv, convention, hl, pos)),
            n == ctx.patterns@.len(),
            addendum_formattable(*addendum, convention),
            collect_grows(
                old(defs)@,
                defs@,
                old(schedule_items)@,
                schedule_items@,
                old(diagnostics)@,
                diagnostics@,
                n,
            ),
        decreases addendum.content@.len() - k,
    {
        let loc = Some(heading.as_str());
        let ghost (d0, s0, g0) = (defs@, schedule_items@, diagnostics@);
        let ghost before = addendum_defs(addendum.content@.take(k as int), pv);
        let ghost before_s = addendum_sites(addendum.content@.take(k as int), pv, convention, hl, pos);
        let ghost before_w = und_addendum(addendum.content@.take(k as int), pv, dl, convention, hl, pos);
        proof {
            assert(addendum.content@.take(k + 1).drop_last() =~= addendum.content@.take(k as int));
            assert(addendum.content@.take(k + 1).last() == addendum.content@[k as int]);
        }
        match &addendum.content[k] {
            AddendumContent::Paragraph(inlines) | AddendumContent::Heading(_, inlines) => {
                collect_run_terms(inlines.as_slice(), defs, schedule_items, ctx, loc, pos, true, diagnostics);
                proof {
                    lemma_collects_trans(old(defs)@, d0, defs@, old(schedule_items)@, s0, schedule_items@,
                        before, run_defs(inlines@, pv));
                    lemma_sites_trans(old(defs)@, d0, defs@, before_s, at_sites(run_defs(inlines@, pv), hl,
                        pos, true));
                    lemma_warns_trans(old(diagnostics)@, g0, diagnostics@, before_w, und_run(inlines@, pv, dl, hl, pos));
                }
            },
            AddendumContent::ClauseList(clauses) => {
                proof {
                    lemma_collect_refl(defs@, schedule_items@, diagnostics@, n);
                    lemma_collects_refl(defs@, schedule_items@);
                    lemma_sites_refl(defs@);
                    lemma_warns_refl(diagnostics@);
                    assert(clauses@.take(0) =~= Seq::<Clause>::empty());
                }
                let mut j: usize = 0;
                while j < clauses.len()
                    invariant
                        n == ctx.patterns@.len(),
                        k < addendum.content@.len(),
                        addendum.content@[k as int] == AddendumContent::ClauseList(*clauses),
                        addendum_formattable(*addendum, convention),
                        collect_grows(d0, defs@, s0, schedule_items@, g0, diagnostics@, n),
                        j <= clauses@.len(),
                        pv == patterns_view(ctx.patterns@),
                        collects(d0, defs@, s0, schedule_items@, kids_defs(clauses@.take(j as int), pv)),
                        sites_grow(d0, defs@, kids_sites(clauses@.take(j as int), pv, convention, true)),
                        dl == ctx.declared_lower@,
                        warns(g0, diagnostics@, und_kids(clauses@.take(j as int), pv, dl, convention)),
                    decreases clauses@.len() - j,
                {
                    proof {
                        assert(addendum.content@[k as int]->ClauseList_0@[j as int] == clauses@[j as int]);
                    }
                    let ghost (d1, s1, g1) = (defs@, schedule_items@, diagnostics@);
                    collect_clause_terms(&clauses[j], defs, schedule_items, ctx, convention, true, diagnostics);
                    proof {
                        lemma_collect_trans(d0, d1, defs@, s0, s1, schedule_items@, g0, g1, diagnostics@, n);
                        assert(clauses@.take(j + 1).drop_last() =~= clauses@.take(j as int));
                        assert(clauses@.take(j + 1).last() == clauses@[j as int]);
                        lemma_collects_trans(d0, d1, defs@, s0, s1, schedule_items@,
                            kids_defs(clauses@.take(j as int), pv), clause_defs(clauses@[j as int], pv));
                        lemma_sites_trans(d0, d1, defs@, kids_sites(clauses@.take(j as int), pv, convention, true),
                            clause_sites(clauses@[j as int], pv, convention, true));
                        lemma_warns_trans(g0, g1, diagnostics@, und_kids(clauses@.take(j as int), pv, dl, convention),
                            und_clause(clauses@[j as int], pv, dl, convention));
                    }
                    j += 1;
                }
                proof {
                    assert(clauses@.take(clauses@.len() as int) =~= clauses@);
                    lemma_collects_trans(old(defs)@, d0, defs@, old(schedule_items)@, s0, schedule_items@,
                        before, kids_defs(clauses@, pv));
                    lemma_sites_trans(old(defs)@, d0, defs@, before_s, kids_sites(clauses@, pv, convention, true));
                    lemma_warns_trans(old(diagnostics)@, g0, diagnostics@, before_w, und_kids(clauses@, pv, dl, convention));
                }
            },
            AddendumContent::NumberedList(items) | AddendumContent::BulletList(items) => {
                collect_runs_terms(items, defs, schedule_items, ctx, loc, pos, true, diagnostics);
                proof {
                    lemma_collects_trans(old(defs)@, d0, defs@, old(schedule_items)@, s0, schedule_items@,
                        before, runs_defs(items@, pv));
                    lemma_sites_trans(old(defs)@, d0, defs@, before_s, at_sites(runs_defs(items@, pv), hl,
                        pos, true));
                    lemma_warns_trans(old(diagnostics)@, g0, diagnostics@, before_w, und_runs(items@, pv, dl, hl, pos));
                }
            },
            _ => {
                proof {
                    lemma_collect_refl(defs@, schedule_items@, diagnostics@, n);
                    assert(before + Seq::<DefEntry>::empty() =~= before);
                    assert(before_s + Seq::<SiteView>::empty() =~= before_s);
                    assert(before_w + Seq::<DiagView>::empty() =~= before_w);
                    lemma_warns_refl(diagnostics@);
                }
            },
        }
        proof {
            lemma_collect_trans(
                old(defs)@,
                d0,
                defs@,
                old(schedule_items)@,
                s0,
                schedule_items@,
                old(diagnostics)@,
                g0,
                diagnostics@,
                n,
            );
        }
        k += 1;
    }
    assert(addendum.content@.take(addendum.content@.len() as int) =~= addendum.content@);
}

// ---------------------------------------------------------------------------
// The text terms are looked for in
// ---------------------------------------------------------------------------

/// The text of a run that can use a term, each piece followed by a space:
/// text, italic, cross-references (resolved text, else display text) and
/// link text. Bold runs are definition sites and are left out.
pub open spec fn usage_text(s: Seq<InlineView>) -> Seq<char>
    decreases s.len(),
{
    if s.len() == 0 {
        Seq::empty()
    } else {
        usage_text(s.drop_last()) + match s.last() {
            InlineView::Text(t) => t + " "@,
            InlineView::Italic(t) => t + " "@,
            InlineView::CrossRef { display, resolved, .. } => match resolved {
                Some(r) => r + " "@,
                None => display + " "@,
            },
            InlineView::Link { text, .. } => text + " "@,
            _ => Seq::empty(),
        }
    }
}

/// Append the usage text of a run (see [`usage_text`]).
pub fn collect_inlines_text(inlines: &[InlineContent], out: &mut Vec<char>)
    ensures
        final(out)@ == old(out)@ + usage_text(inlines_view(inlines@)),
{
    let ghost v = inlines_view(inlines@);
    let mut i: usize = 0;
    proof {
        reveal_strlit(" ");
        assert(v.take(0) =~= Seq::<InlineView>::empty());
        assert(out@ =~= old(out)@ + usage_text(v.take(0)));
    }
    while i < inlines.len()
        invariant
            i <= inlines@.len(),
            v == inlines_view(inlines@),
            out@ == old(out)@ + usage_text(v.take(i as int)),
        decreases inlines@.len() - i,
    {
        proof {
            reveal_strlit(" ");
            assert(v.take(i + 1).drop_last() =~= v.take(i as int));
            assert(v.take(i + 1).last() == inlines@[i as int]@);
        }
        let ghost before = out@;
        match &inlines[i] {
            InlineContent::Text(t) | InlineContent::Italic(t) => {
                extend_str(out, t.as_str());
                out.push(' ');
            },
            InlineContent::CrossRef { display, resolved, .. } => {
                match resolved {
                    Some(r) => extend_str(out, r.as_str()),
                    None => extend_str(out, display.as_str()),
                }
                out.push(' ');
            },
            InlineContent::Link { text, .. } => {
                extend_str(out, text.as_str());
                out.push(' ');
            },
            _ => {},
        }
        proof {
            assert(out@ =~= old(out)@ + usage_text(v.take(i + 1)));
        }
        i += 1;
    }
    proof {
        assert(v.take(inlines@.len() as int) =~= v);
    }
}

/// The usage text of list items, in order.
pub open spec fn runs_text(items: Seq<Vec<InlineContent>>) -> Seq<char>
    decreases items.len(),
{
    if items.len() == 0 {
        Seq::empty()
    } else {
        runs_text(items.drop_last()) + usage_text(inlines_view(items.last()@))
    }
}

/// The usage text of a clause tree: heading, then body in order.
pub open spec fn clause_text(c: Clause) -> Seq<char>
    decreases c, 2int,
{
    (match c.heading {
        Some(h) => usage_text(inlines_view(h.text@)),
        None => Seq::empty(),
    }) + body_text(c.body@)
}

/// The usage text of the pieces of a clause body (tables have none).
pub open spec fn body_text(b: Seq<ClauseBody>) -> Seq<char>
    decreases b, 1int,
{
    if b.len() == 0 {
        Seq::empty()
    } else {
        body_text(b.drop_last()) + match b.last() {
            ClauseBody::Content(ClauseContent::Paragraph(i)) => usage_text(inlines_view(i@)),
            ClauseBody::Content(ClauseContent::Blockquote(i)) => usage_text(inlines_view(i@)),
            ClauseBody::Content(ClauseContent::BulletList(items)) => runs_text(items@),
            ClauseBody::Content(ClauseContent::Table(_)) => Seq::empty(),
            ClauseBody::Children(kids) => kids_text(kids@),
        }
    }
}

/// The usage text of sibling clauses, in order.
pub open spec fn kids_text(k: Seq<Clause>) -> Seq<char>
    decreases k, 0int,
{
    if k.len() == 0 {
        Seq::empty()
    } else {
        kids_text(k.drop_last()) + clause_text(k.last())
    }
}

/// The usage text of a body element.
pub open spec fn element_text(e: BodyElement) -> Seq<char> {
    match e {
        BodyElement::Clause(c) => clause_text(c),
        BodyElement::Prose(i) => usage_text(inlines_view(i@)),
        BodyElement::BulletList(items) => runs_text(items@),
    }
}

/// The usage text of body elements, in order.
pub open spec fn elements_text(es: Seq<BodyElement>) -> Seq<char>
    decreases es.len(),
{
    if es.len() == 0 {
        Seq::empty()
    } else {
        elements_text(es.drop_last()) + element_text(es.last())
    }
}

/// The usage text of a block of addendum content (tables have none).
pub open spec fn addendum_item_text(c: AddendumContent) -> Seq<char> {
    match c {
        AddendumContent::Paragraph(i) => usage_text(inlines_view(i@)),
        AddendumContent::Heading(_, i) => usage_text(inlines_view(i@)),
        AddendumContent::ClauseList(cl) => kids_text(cl@),
        AddendumContent::NumberedList(items) => runs_text(items@),
        AddendumContent::BulletList(items) => runs_text(items@),
        AddendumContent::Table(_) => Seq::empty(),
    }
}

/// The usage text of an addendum's content, in order.
pub open spec fn addendum_text(cs: Seq<AddendumContent>) -> Seq<char>
    decreases cs.len(),
{
    if cs.len() == 0 {
        Seq::empty()
    } else {
        addendum_text(cs.drop_last()) + addendum_item_text(cs.last())
    }
}

/// The usage text of the addenda, in order.
pub open spec fn addenda_text(adds: Seq<Addendum>) -> Seq<char>
    decreases adds.len(),
{
    if adds.len() == 0 {
        Seq::empty()
    } else {
        addenda_text(adds.drop_last()) + addendum_text(adds.last().content@)
    }
}

/// The text a document's terms are looked for in: recitals, body, addenda.
pub open spec fn document_text(doc: Document) -> Seq<char> {
    (match doc.recitals {
        Some(r) => elements_text(r.body@),
        None => Seq::empty(),
    }) + elements_text(doc.body@) + addenda_text(doc.addenda@)
}

fn collect_runs_text(items: &Vec<Vec<InlineContent>>, out: &mut Vec<char>)
    ensures
        final(out)@ == old(out)@ + runs_text(items@),
{
    let mut k: usize = 0;
    assert(old(out)@ + runs_text(items@.take(0)) =~= old(out)@);
    while k < items.len()
        invariant
            k <= items@.len(),
            out@ == old(out)@ + runs_text(items@.take(k as int)),
        decreases items@.len() - k,
    {
        collect_inlines_text(items[k].as_slice(), out);
        assert(items@.take(k + 1).drop_last() =~= items@.take(k as int));
        assert(out@ =~= old(out)@ + runs_text(items@.take(k + 1)));
        k += 1;
    }
    assert(items@.take(items@.len() as int) =~= items@);
}

/// Append the usage text of a clause tree: heading, content, children.
#[verifier::loop_isolation(false)]
fn collect_clause_text(clause: &Clause, out: &mut Vec<char>)
    ensures
        final(out)@ == old(out)@ + clause_text(*clause),
    decreases clause, 1int,
{
    match &clause.heading {
        Some(h) => collect_inlines_text(h.text.as_slice(), out),
        None => {},
    }
    let ghost mid = out@;
    assert(mid + body_text(clause.body@.take(0)) =~= mid);
    let mut k: usize = 0;
    while k < clause.body.len()
        invariant
            k <= clause.body@.len(),
            out@ == mid + body_text(clause.body@.take(k as int)),
        decreases clause.body@.len() - k,
    {
        let ghost before = out@;
        match &clause.body[k] {
            ClauseBody::Content(ClauseContent::Paragraph(inlines))
            | ClauseBody::Content(ClauseContent::Blockquote(inlines)) => {
                collect_inlines_text(inlines.as_slice(), out);
            },
            ClauseBody::Content(ClauseContent::BulletList(items)) => {
                collect_runs_text(items, out);
            },
            ClauseBody::Content(ClauseContent::Table(_)) => {},
            ClauseBody::Children(kids) => {
                proof {
                    let e = clause.body@[k as int];
                    assert(decreases_to!(*clause => clause.body));
                    assert(decreases_to!(clause.body => clause.body@));
                    assert(decreases_to!(clause.body@ => e));
                    assert(decreases_to!(e => e->Children_0));
                    assert(e->Children_0 == *kids);
                }
                collect_kids_text(kids, out);
            },
        }
        proof {
            let t = clause.body@.take(k + 1);
            assert(t.drop_last() =~= clause.body@.take(k as int));
            assert(t.last() == clause.body@[k as int]);
            assert(out@ =~= mid + body_text(t));
        }
        k += 1;
    }
    assert(clause.body@.take(clause.body@.len() as int) =~= clause.body@);
    assert(out@ =~= old(out)@ + clause_text(*clause));
}

fn collect_kids_text(kids: &Vec<Clause>, out: &mut Vec<char>)
    ensures
        final(out)@ == old(out)@ + kids_text(kids@),
    decreases kids, 0int,
{
    let mut j: usize = 0;
    assert(old(out)@ + kids_text(kids@.take(0)) =~= old(out)@);
    while j < kids.len()
        invariant
            j <= kids@.len(),
            out@ == old(out)@ + kids_text(kids@.take(j as int)),
        decreases kids@.len() - j,
    {
        proof {
            assert(decreases_to!(*kids => kids@));
            assert(decreases_to!(kids@ => kids@[j as int]));
        }
        collect_clause_text(&kids[j], out);
        proof {
            let t = kids@.take(j + 1);
            assert(t.drop_last() =~= kids@.take(j as int));
            assert(t.last() == kids@[j as int]);
            assert(out@ =~= old(out)@ + kids_text(t));
        }
        j += 1;
    }
    assert(kids@.take(kids@.len() as int) =~= kids@);
}

/// Append the usage text of a body element.
fn collect_element_text(element: &BodyElement, out: &mut Vec<char>)
    ensures
        final(out)@ == old(out)@ + element_text(*element),
{
    match element {
        BodyElement::Clause(c) => collect_clause_text(c, out),
        BodyElement::Prose(inlines) => collect_inlines_text(inlines.as_slice(), out),
        BodyElement::BulletList(items) => collect_runs_text(items, out),
    }
}

/// Append the usage text of an addendum's content.
fn collect_addendum_text(addendum: &Addendum, out: &mut Vec<char>)
    ensures
        final(out)@ == old(out)@ + addendum_text(addendum.content@),
{
    let cs = &addendum.content;
    let mut k: usize = 0;
    assert(old(out)@ + addendum_text(cs@.take(0)) =~= old(out)@);
    while k < cs.len()
        invariant
            k <= cs@.len(),
            cs@ == addendum.content@,
            out@ == old(out)@ + addendum_text(cs@.take(k as int)),
        decreases cs@.len() - k,
    {
        match &cs[k] {
            AddendumContent::Paragraph(inlines) | AddendumContent::Heading(_, inlines) => {
                collect_inlines_text(inlines.as_slice(), out);
            },
            AddendumContent::ClauseList(clauses) => collect_kids_text(clauses, out),
            AddendumContent::NumberedList(items) | AddendumContent::BulletList(items) => {
                collect_runs_text(items, out);
            },
            AddendumContent::Table(_) => {},
        }
        proof {
            let t = cs@.take(k + 1);
            assert(t.drop_last() =~= cs@.take(k as int));
            assert(t.last() == cs@[k as int]);
            assert(out@ =~= old(out)@ + addendum_text(t));
        }
        k += 1;
    }
    assert(cs@.take(cs@.len() as int) =~= cs@);
}

// ---------------------------------------------------------------------------
// Term usage
// ---------------------------------------------------------------------------

/// The pattern that finds a word form `v` as a whole word.
pub open spec fn word_pattern(v: Seq<char>) -> Seq<char> {
    "\\b"@ + regex_escaped(v) + "\\b"@
}

/// A term is used in `text` when one of its non-empty word forms occurs
/// there as a whole word, case-sensitively.
pub open spec fn term_used(term: Seq<char>, text: Seq<char>) -> bool {
    let vs = term_variants_spec(term);
    exists|k: int|
        0 <= k < vs.len() && vs[k].len() > 0 && regex_matches(word_pattern(#[trigger] vs[k]), text)
}

/// Whether a term is used in `text` (see [`term_used`]).
pub fn term_is_used(term: &str, text: &str) -> (r: bool)
    ensures
        r == term_used(term@, text@),
{
    let variants = term_variants(term);
    let ghost vs = term_variants_spec(term@);
    let mut k: usize = 0;
    while k < variants.len()
        invariant
            k <= variants@.len(),
            vs == term_variants_spec(term@),
            variants@.map_values(|s: String| s@) == vs,
            forall|q: int|
                0 <= q < k ==> !(vs[q].len() > 0 && regex_matches(word_pattern(#[trigger] vs[q]), text@)),
        decreases variants@.len() - k,
    {
        proof {
            assert(vs[k as int] == variants@[k as int]@);
        }
        let v = chars_of(variants[k].as_str());
        if v.len() > 0 {
            let mut p: Vec<char> = Vec::new();
            extend_str(&mut p, "\\b");
            extend_str(&mut p, regex_escape(variants[k].as_str()).as_str());
            extend_str(&mut p, "\\b");
            proof {
                assert(p@ =~= word_pattern(vs[k as int]));
            }
            if regex_is_match(string_of(&p).as_str(), text) {
                proof {
                    assert(vs[k as int].len() > 0 && regex_matches(word_pattern(vs[k as int]), text@));
                    assert(0 <= k < vs.len());
                    assert(term_used(term@, text@));
                }
                return true;
            }
        }
        k += 1;
    }
    false
}

// ---------------------------------------------------------------------------
// Sorting reports by position
// ---------------------------------------------------------------------------

/// Lexicographic order of character sequences, by code point (the order of
/// `str` comparison).
pub open spec fn text_lt(a: Seq<char>, b: Seq<char>) -> bool
    decreases a.len(),
{
    if b.len() == 0 {
        false
    } else if a.len() == 0 {
        true
    } else if a[0] != b[0] {
        a[0] < b[0]
    } else {
        text_lt(a.drop_first(), b.drop_first())
    }
}

pub proof fn lemma_text_lt_trans(a: Seq<char>, b: Seq<char>, c: Seq<char>)
    requires
        text_lt(a, b),
        text_lt(b, c),
    ensures
        text_lt(a, c),
    decreases a.len(),
{
    if a.len() > 0 && a[0] == b[0] && b[0] == c[0] {
        lemma_text_lt_trans(a.drop_first(), b.drop_first(), c.drop_first());
    }
}

pub proof fn lemma_text_lt_total(a: Seq<char>, b: Seq<char>)
    ensures
        text_lt(a, b) || text_lt(b, a) || a == b,
    decreases a.len(),
{
    if a.len() > 0 && b.len() > 0 && a[0] == b[0] {
        lemma_text_lt_total(a.drop_first(), b.drop_first());
        if a.drop_first() == b.drop_first() {
            assert(a =~= seq![a[0]] + a.drop_first());
            assert(b =~= seq![b[0]] + b.drop_first());
        }
    } else if a.len() == 0 && b.len() == 0 {
        assert(a =~= b);
    }
}

pub proof fn lemma_text_lt_irrefl(a: Seq<char>)
    ensures
        !text_lt(a, a),
    decreases a.len(),
{
    if a.len() > 0 {
        lemma_text_lt_irrefl(a.drop_first());
    }
}

/// An entry of a report to be sorted by source line, then text.
pub struct SortEntry {
    pub line: usize,
    pub text: Vec<char>,
    pub index: usize,
}

/// `a` sorts strictly before `b`.
pub open spec fn entry_lt(a: SortEntry, b: SortEntry) -> bool {
    a.line < b.line || (a.line == b.line && text_lt(a.text@, b.text@))
}

/// No entry sorts strictly before an earlier one.
pub open spec fn entries_sorted(s: Seq<SortEntry>) -> bool {
    forall|i: int, j: int| 0 <= i < j < s.len() ==> !entry_lt(#[trigger] s[j], #[trigger] s[i])
}

/// Whether `a` sorts strictly before `b`.
fn entry_less(a: &SortEntry, b: &SortEntry) -> (r: bool)
    ensures
        r == entry_lt(*a, *b),
{
    if a.line != b.line {
        return a.line < b.line;
    }
    let n = a.text.len();
    let m = b.text.len();
    let mut i: usize = 0;
    proof {
        assert(a.text@.skip(0) =~= a.text@);
        assert(b.text@.skip(0) =~= b.text@);
    }
    while i < n && i < m && a.text[i] == b.text[i]
        invariant
            i <= n == a.text@.len(),
            i <= m == b.text@.len(),
            text_lt(a.text@, b.text@) == text_lt(a.text@.skip(i as int), b.text@.skip(i as int)),
        decreases n - i,
    {
        proof {
            assert(a.text@.skip(i as int).drop_first() =~= a.text@.skip(i + 1));
            assert(b.text@.skip(i as int).drop_first() =~= b.text@.skip(i + 1));
        }
        i += 1;
    }
    if i == m {
        false
    } else if i == n {
        true
    } else {
        a.text[i] < b.text[i]
    }
}

/// Sort entries by line, then text; entries that compare equal keep their
/// order.
pub fn sort_entries(v: Vec<SortEntry>) -> (r: Vec<SortEntry>)
    ensures
        r@.to_multiset() == v@.to_multiset(),
        entries_sorted(r@),
{
    broadcast use vstd::seq_lib::group_to_multiset_ensures;

    let mut rest = v;
    let mut out: Vec<SortEntry> = Vec::new();
    while rest.len() > 0
        invariant
            out@.to_multiset().add(rest@.to_multiset()) == v@.to_multiset(),
            entries_sorted(out@),
        decreases rest@.len(),
    {
        let ghost r0 = rest@;
        let x = rest.remove(0);
        proof {
            assert(r0 =~= seq![x] + rest@);
            vstd::seq_lib::lemma_multiset_commutative(seq![x], rest@);
            assert(r0.to_multiset() =~= rest@.to_multiset().insert(x)) by {
                assert(r0 =~= rest@.insert(0, x));
                vstd::seq_lib::to_multiset_insert(rest@, 0, x);
            }
        }
        let mut p: usize = 0;
        while p < out.len() && !entry_less(&x, &out[p])
            invariant
                p <= out@.len(),
                forall|q: int| 0 <= q < p ==> !entry_lt(x, #[trigger] out@[q]),
            decreases out@.len() - p,
        {
            p += 1;
        }
        let ghost o0 = out@;
        out.insert(p, x);
        proof {
            vstd::seq_lib::to_multiset_insert(o0, p as int, x);
            assert forall|i: int, j: int| 0 <= i < j < out@.len() implies !entry_lt(
                #[trigger] out@[j],
                #[trigger] out@[i],
            ) by {
                if j < p {
                    assert(out@[i] == o0[i] && out@[j] == o0[j]);
                } else if j == p {
                    assert(out@[i] == o0[i]);
                    assert(!entry_lt(x, o0[i]));
                } else if i == p {
                    assert(out@[j] == o0[j - 1]);
                    assert(entry_lt(x, o0[p as int]));
                    if j - 1 > p {
                        assert(!entry_lt(o0[j - 1], o0[p as int]));
                    }
                    if entry_lt(o0[j - 1], x) {
                        if o0[j - 1].line == x.line && x.line == o0[p as int].line {
                            lemma_text_lt_trans(o0[j - 1].text@, x.text@, o0[p as int].text@);
                        }
                        if j - 1 == p {
                            lemma_text_lt_irrefl(x.text@);
                            if o0[p as int].line == x.line {
                                lemma_text_lt_trans(x.text@, o0[p as int].text@, x.text@);
                            }
                        }
                    }
                } else if i < p {
                    assert(out@[i] == o0[i] && out@[j] == o0[j - 1]);
                } else {
                    assert(out@[i] == o0[i - 1] && out@[j] == o0[j - 1]);
                }
            }
        }
    }
    proof {
        assert(rest@ =~= Seq::<SortEntry>::empty());
        assert(out@.to_multiset().add(rest@.to_multiset()) =~= out@.to_multiset());
    }
    out
}

// ---------------------------------------------------------------------------
// Reports on definitions
// ---------------------------------------------------------------------------

/// Some schedule item refers to the schedule at `idx`.
pub open spec fn referenced(items: Seq<ScheduleItem>, idx: int) -> bool {
    exists|k: int| 0 <= k < items.len() && (#[trigger] items[k]).schedule_index == idx
}

/// The indices below `i` of schedules no item refers to, in order.
pub open spec fn unreferenced_upto(items: Seq<ScheduleItem>, i: int) -> Seq<int>
    decreases i,
{
    if i <= 0 {
        Seq::empty()
    } else {
        unreferenced_upto(items, i - 1) + if referenced(items, i - 1) {
            Seq::empty()
        } else {
            seq![i - 1]
        }
    }
}

/// The warning for a declared schedule no term refers to, by its values.
pub open spec fn unreferenced_view(s: ScheduleDecl) -> DiagView {
    (DiagLevel::Warning, "unreferenced-schedule"@, unreferenced_message(s.title@), Some("front-matter"@), None, None)
}

/// The message for a declared schedule no term refers to.
pub open spec fn unreferenced_message(title: Seq<char>) -> Seq<char> {
    "Schedule '"@ + title + "' is declared but no terms reference it"@
}

/// A warning at the front-matter for each declared schedule that no
/// schedule item refers to, in declaration order.
pub fn unreferenced_schedule_warnings(schedules: &Vec<ScheduleDecl>, items: &Vec<ScheduleItem>) -> (r: Vec<Diagnostic>)
    ensures
        r@.len() == unreferenced_upto(items@, schedules@.len() as int).len(),
        forall|k: int|
            #![trigger r@[k]]
            0 <= k < r@.len() ==> {
                let idx = unreferenced_upto(items@, schedules@.len() as int)[k];
                &&& 0 <= idx < schedules@.len()
                &&& r@[k].code@ == "unreferenced-schedule"@
                &&& r@[k].level == crate::error::DiagLevel::Warning
                &&& r@[k].message@ == unreferenced_message(schedules@[idx].title@)
            },
        diags_view(r@) == unreferenced_upto(items@, schedules@.len() as int).map_values(
            |i: int| unreferenced_view(schedules@[i]),
        ),
{
    let mut out: Vec<Diagnostic> = Vec::new();
    let mut i: usize = 0;
    while i < schedules.len()
        invariant
            i <= schedules@.len(),
            out@.len() == unreferenced_upto(items@, i as int).len(),
            forall|q: int| 0 <= q < unreferenced_upto(items@, i as int).len() ==> 0 <= #[trigger] unreferenced_upto(items@, i as int)[q] < i,
            forall|k: int|
                #![trigger out@[k]]
                0 <= k < out@.len() ==> {
                    let idx = unreferenced_upto(items@, i as int)[k];
                    &&& out@[k].code@ == "unreferenced-schedule"@
                    &&& out@[k].level == crate::error::DiagLevel::Warning
                    &&& out@[k].message@ == unreferenced_message(schedules@[idx].title@)
                },
            diags_view(out@) == unreferenced_upto(items@, i as int).map_values(
                |q: int| unreferenced_view(schedules@[q]),
            ),
        decreases schedules@.len() - i,
    {
        let mut found = false;
        let mut k: usize = 0;
        while k < items.len()
            invariant
                k <= items@.len(),
                found == exists|q: int| 0 <= q < k && (#[trigger] items@[q]).schedule_index == i,
            decreases items@.len() - k,
        {
            if items[k].schedule_index == i {
                found = true;
            }
            k += 1;
        }
        let ghost u0 = unreferenced_upto(items@, i as int);
        if !found {
            let mut msg: Vec<char> = Vec::new();
            extend_str(&mut msg, "Schedule '");
            extend_str(&mut msg, schedules[i].title.as_str());
            extend_str(&mut msg, "' is declared but no terms reference it");
            let ghost before = out@;
            out.push(
                Diagnostic::warning("unreferenced-schedule", string_of(&msg)).at(
                    string_of(&chars_of("front-matter")),
                ),
            );
            proof {
                assert(unreferenced_upto(items@, i + 1) == u0.push(i as int));
                assert(out@.last().message@ == unreferenced_message(schedules@[i as int].title@));
                assert(diags_view(out@) =~= diags_view(before).push(diag_view(out@.last())));
                assert(unreferenced_upto(items@, i + 1).map_values(|q: int| unreferenced_view(schedules@[q]))
                    =~= u0.map_values(|q: int| unreferenced_view(schedules@[q])).push(
                    unreferenced_view(schedules@[i as int]),
                ));
                assert forall|k: int| #![trigger out@[k]] 0 <= k < out@.len() implies {
                    let idx = unreferenced_upto(items@, i + 1)[k];
                    &&& out@[k].code@ == "unreferenced-schedule"@
                    &&& out@[k].level == crate::error::DiagLevel::Warning
                    &&& out@[k].message@ == unreferenced_message(schedules@[idx].title@)
                } by {
                    if k < before.len() {
                        assert(out@[k] == before[k]);
                        assert(unreferenced_upto(items@, i + 1)[k] == u0[k]);
                    }
                }
            }
        } else {
            proof {
                assert(unreferenced_upto(items@, i + 1) =~= u0);
            }
        }
        i += 1;
    }
    out
}

/// Sites `d` and `e` are bold definitions (not front-matter ones) of the
/// same term in the same scope: both in the main body or both in addenda.
pub open spec fn same_scope(d: TermDefinition, e: TermDefinition) -> bool {
    &&& !d.from_front_matter
    &&& !e.from_front_matter
    &&& d.in_addendum == e.in_addendum
    &&& d.term@ == e.term@
}

/// Number of sites among the first `n` in the scope of site `i`.
pub open spec fn scope_count(defs: Seq<TermDefinition>, i: int, n: int) -> nat
    decreases n,
{
    if n <= 0 {
        0
    } else {
        scope_count(defs, i, n - 1) + if same_scope(defs[i], defs[n - 1]) {
            1nat
        } else {
            0nat
        }
    }
}

/// The first site from `from` on in the scope of site `i`.
pub open spec fn next_in_scope(defs: Seq<TermDefinition>, i: int, from: int) -> Option<int>
    decreases defs.len() - from,
{
    if from < 0 || from >= defs.len() {
        None
    } else if same_scope(defs[i], defs[from]) {
        Some(from)
    } else {
        next_in_scope(defs, i, from + 1)
    }
}

/// Site `i` is the first of its scope, and the scope has a second site.
pub open spec fn opens_duplicate(defs: Seq<TermDefinition>, i: int) -> bool {
    &&& 0 <= i < defs.len()
    &&& !defs[i].from_front_matter
    &&& forall|j: int| 0 <= j < i ==> !#[trigger] same_scope(defs[i], defs[j])
    &&& next_in_scope(defs, i, i + 1) is Some
}

/// The sites among the first `n` that open a duplicated scope, in order.
pub open spec fn duplicate_openers(defs: Seq<TermDefinition>, n: int) -> Seq<int>
    decreases n,
{
    if n <= 0 {
        seq![]
    } else if opens_duplicate(defs, n - 1) {
        duplicate_openers(defs, n - 1).push(n - 1)
    } else {
        duplicate_openers(defs, n - 1)
    }
}

/// The message for a term bold-defined `count` times, first at `first`.
pub open spec fn duplicate_message(term: Seq<char>, count: nat, first: Option<Seq<char>>) -> Seq<char> {
    "'"@ + term + "' is bold-defined "@ + decimal(count) + " times (first at "@ + match first {
        Some(l) => l,
        None => "unknown location"@,
    }
        + "). If a later occurrence is a reference rather than a new definition, use plain text \u{2014} bold marks definition sites"@
}

/// `w` is the warning for the scope opened at site `i`: it counts the
/// scope's sites, names the first one's location, and stands at the second.
pub open spec fn duplicate_warning(w: Diagnostic, defs: Seq<TermDefinition>, i: int) -> bool {
    let s = next_in_scope(defs, i, i + 1).unwrap();
    &&& w.code@ == "duplicate-definition"@
    &&& w.level == crate::error::DiagLevel::Warning
    &&& w.message@ == duplicate_message(defs[i].term@, scope_count(defs, i, defs.len() as int), opt_view(defs[i].location))
    &&& opt_view(w.location) == opt_view(defs[s].location)
    &&& match defs[s].pos {
        Some(p) => w.line == Some(p.line) && w.column == Some(p.column),
        None => w.line is None && w.column is None,
    }
}

proof fn lemma_scope_count_empty(defs: Seq<TermDefinition>, i: int, n: int)
    requires
        n <= i,
        forall|j: int| 0 <= j < i ==> !#[trigger] same_scope(defs[i], defs[j]),
    ensures
        scope_count(defs, i, n) == 0,
    decreases n,
{
    if n > 0 {
        assert(!same_scope(defs[i], defs[n - 1]));
        lemma_scope_count_empty(defs, i, n - 1);
    }
}

/// A warning for every term bold-defined more than once within the same
/// scope (main body or addenda), front-matter definitions aside, at its
/// second definition site, in the order the terms were first defined.
#[verifier::spinoff_prover]
pub fn duplicate_definition_warnings(defs: &Vec<TermDefinition>) -> (r: Vec<Diagnostic>)
    ensures
        r@.len() == duplicate_openers(defs@, defs@.len() as int).len(),
        forall|k: int|
            0 <= k < r@.len() ==> duplicate_warning(
                #[trigger] r@[k],
                defs@,
                duplicate_openers(defs@, defs@.len() as int)[k],
            ),
{
    let mut out: Vec<Diagnostic> = Vec::new();
    let mut i: usize = 0;
    while i < defs.len()
        invariant
            i <= defs@.len(),
            out@.len() == duplicate_openers(defs@, i as int).len(),
            forall|k: int|
                0 <= k < out@.len() ==> duplicate_warning(
                    #[trigger] out@[k],
                    defs@,
                    duplicate_openers(defs@, i as int)[k],
                ),
        decreases defs@.len() - i,
    {
        let d = &defs[i];
        let ghost di = i as int;
        let ghost opened = opens_duplicate(defs@, di);
        if !d.from_front_matter {
            let mut first = true;
            let mut j: usize = 0;
            while j < i
                invariant
                    j <= i < defs@.len(),
                    *d == defs@[di],
                    !d.from_front_matter,
                    first <==> forall|q: int| 0 <= q < j ==> !#[trigger] same_scope(defs@[di], defs@[q]),
                decreases i - j,
            {
                let e = &defs[j];
                if !e.from_front_matter && e.in_addendum == d.in_addendum && crate::text::str_eq(
                    e.term.as_str(),
                    d.term.as_str(),
                ) {
                    first = false;
                    assert(same_scope(defs@[di], defs@[j as int]));
                }
                j += 1;
            }
            if first {
                proof {
                    lemma_scope_count_empty(defs@, di, di);
                    assert(same_scope(defs@[di], defs@[di]));
                    assert(scope_count(defs@, di, di + 1) == 1);
                }
                let mut count: usize = 1;
                let mut second: Option<usize> = None;
                let mut j = i + 1;
                while j < defs.len()
                    invariant
                        i < j <= defs@.len(),
                        *d == defs@[di],
                        !d.from_front_matter,
                        1 <= count <= j - i,
                        count == scope_count(defs@, di, j as int),
                        second matches Some(x) ==> next_in_scope(defs@, di, di + 1) == Some(x as int),
                        second is None ==> next_in_scope(defs@, di, di + 1) == next_in_scope(
                            defs@,
                            di,
                            j as int,
                        ),
                        second matches Some(x) ==> x < defs@.len(),
                    decreases defs@.len() - j,
                {
                    let e = &defs[j];
                    if !e.from_front_matter && e.in_addendum == d.in_addendum && crate::text::str_eq(
                        e.term.as_str(),
                        d.term.as_str(),
                    ) {
                        assert(same_scope(defs@[di], defs@[j as int]));
                        count += 1;
                        if second.is_none() {
                            second = Some(j);
                        }
                    } else {
                        assert(!same_scope(defs@[di], defs@[j as int]));
                    }
                    j += 1;
                }
                match second {
                    Some(s) => {
                        let mut msg: Vec<char> = Vec::new();
                        extend_str(&mut msg, "'");
                        extend_str(&mut msg, d.term.as_str());
                        extend_str(&mut msg, "' is bold-defined ");
                        extend_chars(&mut msg, &crate::text::decimal_chars(count));
                        extend_str(&mut msg, " times (first at ");
                        match &d.location {
                            Some(l) => extend_str(&mut msg, l.as_str()),
                            None => extend_str(&mut msg, "unknown location"),
                        }
                        extend_str(
                            &mut msg,
                            "). If a later occurrence is a reference rather than a new definition, use plain text \u{2014} bold marks definition sites",
                        );
                        let loc = match &defs[s].location {
                            Some(l) => Some(l.clone()),
                            None => None,
                        };
                        let w = Diagnostic::warning("duplicate-definition", string_of(&msg)).at_opt(
                            loc,
                        ).at_pos(defs[s].pos);
                        proof {
                            assert(opened);
                            assert(duplicate_openers(defs@, di + 1) == duplicate_openers(defs@, di).push(di));
                            assert(msg@ =~= duplicate_message(
                                defs@[di].term@,
                                scope_count(defs@, di, defs@.len() as int),
                                opt_view(defs@[di].location),
                            ));
                            assert(duplicate_warning(w, defs@, di));
                        }
                        out.push(w);
                    },
                    None => {
                        proof {
                            assert(!opened);
                        }
                    },
                }
            } else {
                proof {
                    assert(!opened);
                }
            }
        }
        proof {
            if !opened {
                assert(duplicate_openers(defs@, di + 1) == duplicate_openers(defs@, di));
            }
        }
        i += 1;
    }
    out
}

/// Number of definition sites of `t`.
pub open spec fn def_count(d: Seq<TermDefinition>, t: Seq<char>) -> nat
    decreases d.len(),
{
    if d.len() == 0 {
        0
    } else {
        def_count(d.drop_last(), t) + if d.last().term@ == t {
            1nat
        } else {
            0nat
        }
    }
}

/// Some schedule item is for the term `t`.
pub open spec fn is_schedule_term(items: Seq<ScheduleItem>, t: Seq<char>) -> bool {
    exists|k: int| 0 <= k < items.len() && (#[trigger] items[k]).term@ == t
}

/// The definition site at `i` is the first for its term.
pub open spec fn first_site(d: Seq<TermDefinition>, i: int) -> bool {
    forall|j: int| 0 <= j < i ==> (#[trigger] d[j]).term@ != d[i].term@
}

/// The term first defined at `i` is reported as unused: it is not a
/// schedule item, has fewer than two definition sites, and none of its word
/// forms occurs in the document text.
pub open spec fn reported_unused(
    d: Seq<TermDefinition>,
    items: Seq<ScheduleItem>,
    text: Seq<char>,
    i: int,
) -> bool {
    &&& 0 <= i < d.len()
    &&& first_site(d, i)
    &&& !is_schedule_term(items, d[i].term@)
    &&& def_count(d, d[i].term@) < 2
    &&& !term_used(d[i].term@, text)
}

/// The positions of the sites, among the first `n`, whose term is reported
/// unused, in order.
pub open spec fn reported_upto(d: Seq<TermDefinition>, items: Seq<ScheduleItem>, text: Seq<char>, n: int) -> Seq<int>
    decreases n,
{
    if n <= 0 {
        Seq::empty()
    } else {
        reported_upto(d, items, text, n - 1) + if reported_unused(d, items, text, n - 1) {
            seq![n - 1]
        } else {
            Seq::empty()
        }
    }
}

/// The line a definition site sorts by: its line, or 0 when it has none.
pub open spec fn site_line(d: TermDefinition) -> usize {
    match d.pos {
        Some(p) => p.line,
        None => 0,
    }
}

/// `a` is reported before `b`: an earlier line, or the same line and an
/// earlier term.
pub open spec fn term_before(a: TermDefinition, b: TermDefinition) -> bool {
    site_line(a) < site_line(b) || (site_line(a) == site_line(b) && text_lt(a.term@, b.term@))
}

/// The warning for an unused term first defined at `d`, by its values: at
/// the site's location (empty when it has none) and position.
pub open spec fn unused_term_view(d: TermDefinition) -> DiagView {
    placed_view(
        DiagLevel::Warning,
        "unused-term"@,
        unused_message(d.term@),
        Some(
            match d.location {
                Some(l) => l@,
                None => Seq::empty(),
            },
        ),
        d.pos,
    )
}

/// A sort entry stands for the definition site at its index: its line and
/// term.
pub open spec fn term_entry_of(e: SortEntry, d: Seq<TermDefinition>) -> bool {
    &&& e.index < d.len()
    &&& e.line == site_line(d[e.index as int])
    &&& e.text@ == d[e.index as int].term@
}

/// `r` is the unused-term report: one warning per site whose term is
/// reported unused, ordered by `order`, which sorts the sites by line and
/// then term.
pub open spec fn unused_reports_are(
    r: Seq<Diagnostic>,
    order: Seq<int>,
    d: Seq<TermDefinition>,
    items: Seq<ScheduleItem>,
    text: Seq<char>,
) -> bool {
    &&& order.to_multiset() == reported_upto(d, items, text, d.len() as int).to_multiset()
    &&& forall|a: int, b: int|
        0 <= a < b < order.len() ==> !term_before(d[#[trigger] order[b]], d[#[trigger] order[a]])
    &&& diags_view(r) == order.map_values(|i: int| unused_term_view(d[i]))
}

proof fn lemma_reported_upto(d: Seq<TermDefinition>, items: Seq<ScheduleItem>, text: Seq<char>, n: int, i: int)
    ensures
        reported_upto(d, items, text, n).contains(i) <==> (0 <= i < n && reported_unused(d, items, text, i)),
    decreases n,
{
    if n > 0 {
        lemma_reported_upto(d, items, text, n - 1, i);
        let prev = reported_upto(d, items, text, n - 1);
        if reported_unused(d, items, text, n - 1) {
            assert(reported_upto(d, items, text, n) =~= prev.push(n - 1));
            let pp = prev.push(n - 1);
            if pp.contains(i) && i != n - 1 {
                let k = choose|k: int| 0 <= k < pp.len() && #[trigger] pp[k] == i;
                assert(prev[k] == i);
            }
            if prev.contains(i) {
                let k = choose|k: int| 0 <= k < prev.len() && prev[k] == i;
                assert(prev.push(n - 1)[k] == i);
            }
            if i == n - 1 {
                assert(prev.push(n - 1)[prev.len() as int] == i);
            }
        } else {
            assert(reported_upto(d, items, text, n) =~= prev);
        }
    }
}

/// The exact report gives back each reported term's message and no other.
proof fn lemma_unused_reports_old(
    r: Seq<Diagnostic>,
    order: Seq<int>,
    d: Seq<TermDefinition>,
    items: Seq<ScheduleItem>,
    text: Seq<char>,
)
    requires
        unused_reports_are(r, order, d, items, text),
    ensures
        forall|k: int|
            #![trigger r[k]]
            0 <= k < r.len() ==> {
                &&& r[k].code@ == "unused-term"@
                &&& exists|i: int|
                    reported_unused(d, items, text, i) && r[k].message@ == unused_message(#[trigger] d[i].term@)
            },
        forall|i: int|
            reported_unused(d, items, text, i) ==> exists|k: int|
                0 <= k < r.len() && (#[trigger] r[k]).message@ == unused_message(d[i].term@),
{
    broadcast use vstd::seq_lib::group_to_multiset_ensures;

    let all = reported_upto(d, items, text, d.len() as int);
    assert(r.len() == order.len()) by {
        assert(diags_view(r).len() == r.len());
    }
    assert forall|k: int| #![trigger r[k]] 0 <= k < r.len() implies {
        &&& r[k].code@ == "unused-term"@
        &&& exists|i: int|
            reported_unused(d, items, text, i) && r[k].message@ == unused_message(#[trigger] d[i].term@)
    } by {
        let i = order[k];
        assert(diags_view(r)[k] == diag_view(r[k]));
        assert(order.to_multiset().count(i) > 0);
        assert(all.contains(i));
        lemma_reported_upto(d, items, text, d.len() as int, i);
    }
    assert forall|i: int| reported_unused(d, items, text, i) implies exists|k: int|
        0 <= k < r.len() && (#[trigger] r[k]).message@ == unused_message(d[i].term@) by {
        lemma_reported_upto(d, items, text, d.len() as int, i);
        assert(all.to_multiset().count(i) > 0);
        assert(order.contains(i));
        let k = choose|k: int| 0 <= k < order.len() && order[k] == i;
        assert(diags_view(r)[k] == diag_view(r[k]));
    }
}

/// Sequences with the same elements keep the same elements under a map.
pub proof fn lemma_multiset_map<A, B>(a: Seq<A>, b: Seq<A>, f: spec_fn(A) -> B)
    requires
        a.to_multiset() == b.to_multiset(),
    ensures
        a.map_values(f).to_multiset() == b.map_values(f).to_multiset(),
    decreases a.len(),
{
    broadcast use vstd::seq_lib::group_to_multiset_ensures;

    if a.len() == 0 {
        assert(a.to_multiset().len() == 0);
        assert(b.to_multiset().len() == 0);
        assert(b.len() == 0);
        assert(a.map_values(f) =~= b.map_values(f));
    } else {
        let x = a.last();
        let a2 = a.drop_last();
        assert(a =~= a2.push(x));
        assert(a.to_multiset() == a2.to_multiset().insert(x));
        assert(b.to_multiset().count(x) > 0);
        assert(b.contains(x));
        let j = choose|j: int| 0 <= j < b.len() && b[j] == x;
        let b2 = b.remove(j);
        vstd::seq_lib::to_multiset_remove(b, j);
        assert(a2.to_multiset() =~= a.to_multiset().remove(x));
        lemma_multiset_map(a2, b2, f);
        assert(a.map_values(f) =~= a2.map_values(f).push(f(x)));
        assert(b.map_values(f) =~= b2.map_values(f).insert(j, f(x)));
        vstd::seq_lib::to_multiset_insert(b2.map_values(f), j, f(x));
    }
}

/// The message for an unused term.
pub open spec fn unused_message(t: Seq<char>) -> Seq<char> {
    "'"@ + t + "' is defined but never used in the document"@
}

fn count_sites(defs: &Vec<TermDefinition>, t: &str) -> (r: usize)
    ensures
        r == def_count(defs@, t@),
{
    let mut c: usize = 0;
    let mut i: usize = 0;
    while i < defs.len()
        invariant
            i <= defs@.len(),
            c == def_count(defs@.take(i as int), t@),
            c <= i,
        decreases defs@.len() - i,
    {
        proof {
            assert(defs@.take(i + 1).drop_last() =~= defs@.take(i as int));
        }
        if crate::text::str_eq(defs[i].term.as_str(), t) {
            c += 1;
        }
        i += 1;
    }
    proof {
        assert(defs@.take(defs@.len() as int) =~= defs@);
    }
    c
}

/// A warning for every defined term that is never used in `text` (see
/// [`reported_unused`]), at its first definition site, sorted by source
/// line and then term.
pub fn unused_term_warnings(defs: &Vec<TermDefinition>, items: &Vec<ScheduleItem>, text: &str) -> (r: Vec<Diagnostic>)
    ensures
        forall|k: int|
            #![trigger r@[k]]
            0 <= k < r@.len() ==> {
                &&& r@[k].code@ == "unused-term"@
                &&& exists|i: int|
                    reported_unused(defs@, items@, text@, i) && r@[k].message@ == unused_message(
                        #[trigger] defs@[i].term@,
                    )
            },
        forall|i: int|
            reported_unused(defs@, items@, text@, i) ==> exists|k: int|
                0 <= k < r@.len() && (#[trigger] r@[k]).message@ == unused_message(defs@[i].term@),
        exists|order: Seq<int>|
            #![trigger order.to_multiset()]
            unused_reports_are(r@, order, defs@, items@, text@),
{
    let mut entries: Vec<SortEntry> = Vec::new();
    let mut i: usize = 0;
    proof {
        assert(entries@.map_values(|e: SortEntry| e.index as int) =~= reported_upto(
            defs@,
            items@,
            text@,
            0,
        ));
    }
    while i < defs.len()
        invariant
            i <= defs@.len(),
            forall|k: int| 0 <= k < entries@.len() ==> term_entry_of(#[trigger] entries@[k], defs@),
            entries@.map_values(|e: SortEntry| e.index as int) == reported_upto(
                defs@,
                items@,
                text@,
                i as int,
            ),
        decreases defs@.len() - i,
    {
        let ghost e0 = entries@;
        let t = defs[i].term.as_str();
        let mut first = true;
        let mut j: usize = 0;
        while j < i
            invariant
                j <= i < defs@.len(),
                t@ == defs@[i as int].term@,
                first == forall|q: int| 0 <= q < j ==> (#[trigger] defs@[q]).term@ != t@,
            decreases i - j,
        {
            if crate::text::str_eq(defs[j].term.as_str(), t) {
                first = false;
            }
            j += 1;
        }
        let mut reported = false;
        if first {
            let mut sched = false;
            let mut k: usize = 0;
            while k < items.len()
                invariant
                    k <= items@.len(),
                    sched == exists|q: int| 0 <= q < k && (#[trigger] items@[q]).term@ == t@,
                decreases items@.len() - k,
            {
                if crate::text::str_eq(items[k].term.as_str(), t) {
                    sched = true;
                }
                k += 1;
            }
            if !sched && count_sites(defs, t) < 2 && !term_is_used(t, text) {
                let line = match defs[i].pos {
                    Some(p) => p.line,
                    None => 0,
                };
                entries.push(SortEntry { line, text: chars_of(t), index: i });
                reported = true;
            }
        }
        proof {
            assert(reported == reported_unused(defs@, items@, text@, i as int));
            assert(entries@.map_values(|e: SortEntry| e.index as int) =~= reported_upto(
                defs@,
                items@,
                text@,
                i + 1,
            ));
        }
        i += 1;
    }
    let ghost es = entries@;
    let sorted = sort_entries(entries);
    proof {
        broadcast use vstd::seq_lib::group_to_multiset_ensures;

        assert forall|k: int| 0 <= k < sorted@.len() implies term_entry_of(#[trigger] sorted@[k], defs@) by {
            assert(sorted@.to_multiset().count(sorted@[k]) > 0);
            assert(es.contains(sorted@[k]));
        }
    }
    let ghost sv = sorted@;
    let mut out: Vec<Diagnostic> = Vec::new();
    let mut k: usize = 0;
    while k < sorted.len()
        invariant
            k <= sorted@.len(),
            sv == sorted@,
            forall|q: int| 0 <= q < sorted@.len() ==> term_entry_of(#[trigger] sorted@[q], defs@),
            diags_view(out@) == sv.take(k as int).map_values(
                |e: SortEntry| unused_term_view(defs@[e.index as int]),
            ),
        decreases sorted@.len() - k,
    {
        let ghost o0 = out@;
        let e = &sorted[k];
        assert(term_entry_of(sv[k as int], defs@));
        let idx = e.index;
        let mut msg: Vec<char> = Vec::new();
        extend_str(&mut msg, "'");
        extend_chars(&mut msg, &e.text);
        extend_str(&mut msg, "' is defined but never used in the document");
        let loc = match &defs[idx].location {
            Some(l) => l.clone(),
            None => String::new(),
        };
        let d = Diagnostic::warning("unused-term", string_of(&msg)).at(loc).at_pos(defs[idx].pos);
        proof {
            assert(msg@ =~= unused_message(defs@[idx as int].term@));
            assert(diag_view(d) == unused_term_view(defs@[idx as int]));
        }
        out.push(d);
        proof {
            crate::parser::clause::lemma_take_next(sv, k as int);
            assert(diags_view(out@) =~= diags_view(o0).push(diag_view(d)));
            assert(sv.take(k + 1).map_values(|e: SortEntry| unused_term_view(defs@[e.index as int]))
                =~= sv.take(k as int).map_values(
                |e: SortEntry| unused_term_view(defs@[e.index as int]),
            ).push(unused_term_view(defs@[sv[k as int].index as int])));
        }
        k += 1;
    }
    proof {
        let order = sv.map_values(|e: SortEntry| e.index as int);
        assert(sv.take(k as int) =~= sv);
        assert(diags_view(out@) =~= order.map_values(|i: int| unused_term_view(defs@[i])));
        lemma_multiset_map(sv, es, |e: SortEntry| e.index as int);
        assert forall|a: int, b: int| 0 <= a < b < order.len() implies !term_before(
            defs@[#[trigger] order[b]],
            defs@[#[trigger] order[a]],
        ) by {
            assert(term_entry_of(sv[a], defs@));
            assert(term_entry_of(sv[b], defs@));
            assert(!entry_lt(sv[b], sv[a]));
        }
        assert(unused_reports_are(out@, order, defs@, items@, text@));
        lemma_unused_reports_old(out@, order, defs@, items@, text@);
    }
    out
}

/// The warnings for the declared schedules that no item refers to stand
/// in `diags` from `off` on, in declaration order, each a warning located
/// at the front-matter.
pub open spec fn reports_unreferenced_at(
    diags: Seq<Diagnostic>,
    schedules: Seq<ScheduleDecl>,
    items: Seq<ScheduleItem>,
    off: int,
) -> bool {
    let u = unreferenced_upto(items, schedules.len() as int);
    &&& 0 <= off
    &&& off + u.len() <= diags.len()
    &&& diags_view(diags.subrange(off, off + u.len())) == u.map_values(|i: int| unreferenced_view(schedules[i]))
}

/// How many times `t` occurs in `ts`.
pub open spec fn term_count(ts: Seq<Seq<char>>, t: Seq<char>) -> nat
    decreases ts.len(),
{
    if ts.len() == 0 {
        0
    } else {
        term_count(ts.drop_last(), t) + if ts.last() == t {
            1nat
        } else {
            0nat
        }
    }
}

/// The terms of a list of schedule items.
pub open spec fn item_terms(items: Seq<ScheduleItem>) -> Seq<Seq<char>> {
    items.map_values(|x: ScheduleItem| x.term@)
}

/// The term at `i` of the defined terms `ts` is reported as unused: `i` is
/// its first definition, it is not a schedule item, it is defined fewer
/// than twice, and none of its word forms occurs in `text`.
pub open spec fn unused_term_at(ts: Seq<Seq<char>>, its: Seq<Seq<char>>, text: Seq<char>, i: int) -> bool {
    &&& 0 <= i < ts.len()
    &&& forall|j: int| 0 <= j < i ==> #[trigger] ts[j] != ts[i]
    &&& !its.contains(ts[i])
    &&& term_count(ts, ts[i]) < 2
    &&& !term_used(ts[i], text)
}

proof fn lemma_def_count_terms(d: Seq<TermDefinition>, t: Seq<char>)
    ensures
        def_count(d, t) == term_count(def_terms(d), t),
    decreases d.len(),
{
    if d.len() > 0 {
        lemma_def_count_terms(d.drop_last(), t);
        assert(def_terms(d.drop_last()) =~= def_terms(d).drop_last());
    }
}

proof fn lemma_reported_unused_terms(d: Seq<TermDefinition>, items: Seq<ScheduleItem>, text: Seq<char>, i: int)
    ensures
        reported_unused(d, items, text, i) == unused_term_at(def_terms(d), item_terms(items), text, i),
{
    if 0 <= i < d.len() {
        lemma_def_count_terms(d, d[i].term@);
        let ts = def_terms(d);
        let its = item_terms(items);
        assert(first_site(d, i) == (forall|j: int| 0 <= j < i ==> #[trigger] ts[j] != ts[i])) by {
            if first_site(d, i) {
                assert forall|j: int| 0 <= j < i implies #[trigger] ts[j] != ts[i] by {
                    assert(d[j].term@ != d[i].term@);
                }
            }
            if forall|j: int| 0 <= j < i ==> #[trigger] ts[j] != ts[i] {
                assert forall|j: int| 0 <= j < i implies (#[trigger] d[j]).term@ != d[i].term@ by {
                    assert(ts[j] != ts[i]);
                }
            }
        }
        assert(is_schedule_term(items, d[i].term@) == its.contains(ts[i])) by {
            if is_schedule_term(items, d[i].term@) {
                let k = choose|k: int| 0 <= k < items.len() && (#[trigger] items[k]).term@ == d[i].term@;
                assert(its[k] == ts[i]);
            }
            if its.contains(ts[i]) {
                let k = choose|k: int| 0 <= k < its.len() && its[k] == ts[i];
                assert(items[k].term@ == d[i].term@);
            }
        }
    }
}

/// From position `off` on, `diags` are exactly the unused-term warnings
/// for the defined terms `ts` (see [`unused_term_at`]): each is one of
/// them, and each has one.
pub open spec fn reports_unused_from(
    diags: Seq<Diagnostic>,
    ts: Seq<Seq<char>>,
    its: Seq<Seq<char>>,
    text: Seq<char>,
    off: int,
) -> bool {
    &&& 0 <= off <= diags.len()
    &&& forall|k: int|
        #![trigger diags[k]]
        off <= k < diags.len() ==> {
            &&& diags[k].code@ == "unused-term"@
            &&& exists|i: int| unused_term_at(ts, its, text, i) && diags[k].message@ == unused_message(#[trigger] ts[i])
        }
    &&& forall|i: int|
        unused_term_at(ts, its, text, i) ==> exists|k: int|
            off <= k < diags.len() && (#[trigger] diags[k]).message@ == unused_message(ts[i])
}

/// The terms the front-matter defines: the party roles, then the document
/// type.
pub open spec fn front_matter_terms(meta: crate::model::DocumentMeta) -> Seq<Seq<char>> {
    meta.parties@.map_values(|p: crate::model::Party| p.role@) + match meta.doc_type {
        Some(t) => seq![t@],
        None => Seq::empty(),
    }
}

/// Every defined term of a document, in order of definition.
pub open spec fn all_defined_terms(doc: Document, p: Seq<Seq<char>>) -> Seq<Seq<char>> {
    front_matter_terms(doc.meta) + def_entries(document_defs(doc, p))
}

/// Every addendum's clause lists can be formatted.
pub open spec fn addenda_formattable(a: Seq<Addendum>, convention: NumberingConvention) -> bool {
    forall|k: int| 0 <= k < a.len() ==> addendum_formattable(#[trigger] a[k], convention)
}

/// Collect every definition site and schedule item of a document, and
/// report on them: definitions referring to undeclared schedules, declared
/// schedules no term refers to, terms bold-defined twice in one scope, and
/// terms never used. Party roles and an explicit short title count as
/// definitions from the front-matter. The schedule items replace the
/// document's; the reports are appended to its diagnostics.
#[verifier::rlimit(50)]
#[verifier::spinoff_prover]
pub fn collect_and_validate_terms(doc: &mut Document, ctx: &ScheduleContext, convention: NumberingConvention)
    requires
        ctx.patterns@.len() == old(doc).meta.schedule@.len(),
        old(doc).recitals matches Some(r) ==> elements_formattable(r.body@, convention),
        elements_formattable(old(doc).body@, convention),
        addenda_formattable(old(doc).addenda@, convention),
    ensures
        final(doc).meta == old(doc).meta,
        final(doc).recitals == old(doc).recitals,
        final(doc).body_heading == old(doc).body_heading,
        final(doc).body == old(doc).body,
        final(doc).addenda == old(doc).addenda,
        extends(old(doc).diagnostics@, final(doc).diagnostics@),
        item_view(final(doc).schedule_items@) == schedule_entries(
            document_defs(*old(doc), patterns_view(ctx.patterns@)),
        ),
        items_in_range(final(doc).schedule_items@, old(doc).meta.schedule@.len() as int),
        exists|off: int|
            reports_unreferenced_at(
                final(doc).diagnostics@,
                old(doc).meta.schedule@,
                final(doc).schedule_items@,
                off,
            ),
        exists|off: int|
            reports_unused_from(
                final(doc).diagnostics@,
                all_defined_terms(*old(doc), patterns_view(ctx.patterns@)),
                item_terms(final(doc).schedule_items@),
                document_text(*old(doc)),
                off,
            ),
        exists|defs: Seq<TermDefinition>, u: int|
            #![trigger term_reports(final(doc).diagnostics@, old(doc).diagnostics@.len() as int, u, *old(doc), defs, final(doc).schedule_items@, patterns_view(ctx.patterns@), ctx.declared_lower@, convention)]
            term_reports(
                final(doc).diagnostics@,
                old(doc).diagnostics@.len() as int,
                u,
                *old(doc),
                defs,
                final(doc).schedule_items@,
                patterns_view(ctx.patterns@),
                ctx.declared_lower@,
                convention,
            ),
{
    let ghost pv = patterns_view(ctx.patterns@);
    let ghost doc0 = *doc;
    let mut definitions = front_matter_definitions(&doc.meta);
    let ghost fd = definitions@;
    let mut schedule_items: Vec<ScheduleItem> = Vec::new();
    let mut diagnostics: Vec<Diagnostic> = Vec::new();
    collect_document_terms(doc, &mut definitions, &mut schedule_items, ctx, convention, &mut diagnostics);
    proof {
        assert(def_terms(definitions@) =~= all_defined_terms(*doc, pv));
        assert(item_view(schedule_items@) =~= schedule_entries(document_defs(*doc, pv)));
        assert(def_sites(definitions@) =~= all_sites(*doc, pv, convention));
    }
    let ghost coll = diagnostics@;
    let ghost dg0 = doc.diagnostics@;
    doc.diagnostics.append(&mut diagnostics);
    proof {
        assert(doc.diagnostics@.take(dg0.len() as int) =~= dg0);
    }
    let unreferenced = unreferenced_schedule_warnings(&doc.meta.schedule, &schedule_items);
    let duplicates = duplicate_definition_warnings(&definitions);
    let all_text = document_usage_text(doc);
    let text = string_of(&all_text);
    let unused = unused_term_warnings(&definitions, &schedule_items, text.as_str());
    let ghost dg1 = doc.diagnostics@;
    let ghost uv = unreferenced@;
    let ghost nv = unused@;
    let ghost uv_idx = unreferenced_upto(schedule_items@, doc.meta.schedule@.len() as int);
    let mut unreferenced = unreferenced;
    doc.diagnostics.append(&mut unreferenced);
    let ghost dupv = duplicates@;
    let mut duplicates = duplicates;
    doc.diagnostics.append(&mut duplicates);
    let ghost dg2 = doc.diagnostics@;
    let mut unused = unused;
    doc.diagnostics.append(&mut unused);
    doc.schedule_items = schedule_items;
    proof {
        assert(doc.diagnostics@.take(dg0.len() as int) =~= dg0);
        let sch = doc.meta.schedule@;
        let its = doc.schedule_items@;
        let dg = doc.diagnostics@;
        let off = dg1.len() as int;
        assert(unreferenced_upto(its, sch.len() as int) == uv_idx);
        assert(dg =~= dg0 + coll + uv + dupv + nv);
        assert(dg.subrange(off, off + uv_idx.len()) =~= uv);
        assert(reports_unreferenced_at(dg, sch, its, off));
        lemma_unused_reported(dg, dg2, nv, definitions@, its, text@, all_defined_terms(*old(doc), pv),
            document_text(*old(doc)));
        let u = dg1.len() as int;
        let r_end = u + uv_idx.len();
        assert(dg1 =~= dg0 + coll);
        assert(dg =~= dg0 + coll + uv + dupv + nv);
        assert(dg.take(dg0.len() as int) =~= dg0);
        assert(dg.take(u) =~= dg1);
        assert(dg.subrange(dg0.len() as int, u) =~= coll);
        assert(diags_view(coll) =~= diags_view(Seq::<Diagnostic>::empty()) + und_document(doc0, pv, ctx.declared_lower@, convention));
        assert(dg.subrange(u, r_end) =~= uv);
        assert forall|q: int| 0 <= q < dupv.len() implies duplicate_warning(
            #[trigger] dg[r_end + q],
            definitions@,
            duplicate_openers(definitions@, definitions@.len() as int)[q],
        ) by {
            assert(dg[r_end + q] == dupv[q]);
        }
        assert(dg.skip(r_end + dupv.len()) =~= nv);
        let order = choose|order: Seq<int>| #![trigger order.to_multiset()] unused_reports_are(nv, order, definitions@, its, text@);
        assert(unused_reports_are(dg.skip(r_end + dupv.len()), order, definitions@, its, document_text(doc0)));
        assert(term_reports(dg, dg0.len() as int, u, doc0, definitions@, its, pv, ctx.declared_lower@, convention));
    }
}

#[verifier::spinoff_prover]
#[verifier::rlimit(60)]
proof fn lemma_unused_reported(
    dg: Seq<Diagnostic>,
    dg2: Seq<Diagnostic>,
    nv: Seq<Diagnostic>,
    defs: Seq<TermDefinition>,
    its: Seq<ScheduleItem>,
    text: Seq<char>,
    ts: Seq<Seq<char>>,
    tx: Seq<char>,
)
    requires
        dg == dg2 + nv,
        ts == def_terms(defs),
        tx == text,
        forall|k: int|
            #![trigger nv[k]]
            0 <= k < nv.len() ==> {
                &&& nv[k].code@ == "unused-term"@
                &&& exists|i: int|
                    reported_unused(defs, its, text, i) && nv[k].message@ == unused_message(
                        #[trigger] defs[i].term@,
                    )
            },
        forall|i: int|
            reported_unused(defs, its, text, i) ==> exists|k: int|
                0 <= k < nv.len() && (#[trigger] nv[k]).message@ == unused_message(defs[i].term@),
    ensures
        reports_unused_from(dg, ts, item_terms(its), tx, dg2.len() as int),
{
    let itv = item_terms(its);
    let off2 = dg2.len() as int;
    assert forall|k: int| #![trigger dg[k]] off2 <= k < dg.len() implies {
        &&& dg[k].code@ == "unused-term"@
        &&& exists|i: int| unused_term_at(ts, itv, tx, i) && dg[k].message@ == unused_message(#[trigger] ts[i])
    } by {
        assert(dg[k] == nv[k - off2]);
        let i = choose|i: int| reported_unused(defs, its, text, i) && nv[k - off2].message@ == unused_message(
            #[trigger] defs[i].term@);
        lemma_reported_unused_terms(defs, its, text, i);
        assert(ts[i] == defs[i].term@);
    }
    assert forall|i: int| unused_term_at(ts, itv, tx, i) implies exists|k: int|
        off2 <= k < dg.len() && (#[trigger] dg[k]).message@ == unused_message(ts[i]) by {
        lemma_reported_unused_terms(defs, its, text, i);
        let q = choose|q: int| 0 <= q < nv.len() && (#[trigger] nv[q]).message@ == unused_message(defs[i].term@);
        assert(dg[off2 + q] == nv[q]);
    }
}

/// The definitions the front-matter makes: each party role, then the
/// document type.
fn front_matter_definitions(meta: &crate::model::DocumentMeta) -> (r: Vec<TermDefinition>)
    ensures
        def_terms(r@) == front_matter_terms(*meta),
        def_sites(r@) == front_sites(*meta),
{
    let mut definitions: Vec<TermDefinition> = Vec::new();
    let ghost roles = meta.parties@.map_values(|p: crate::model::Party| p.role@);
    let mut p: usize = 0;
    while p < meta.parties.len()
        invariant
            p <= meta.parties@.len(),
            roles == meta.parties@.map_values(|p: crate::model::Party| p.role@),
            def_terms(definitions@) == roles.take(p as int),
            forall|k: int| 0 <= k < definitions@.len() ==> front_site(#[trigger] definitions@[k]),
        decreases meta.parties@.len() - p,
    {
        let term = meta.parties[p].role.clone();
        let ghost before = definitions@;
        definitions.push(
            TermDefinition {
                term,
                location: Some(string_of(&chars_of("front-matter"))),
                pos: None,
                from_front_matter: true,
                in_addendum: false,
            },
        );
        proof {
            assert(term@ == roles[p as int]);
            assert(def_terms(definitions@) =~= def_terms(before).push(term@));
            assert(roles.take(p + 1) =~= roles.take(p as int).push(roles[p as int]));
        }
        p += 1;
    }
    assert(roles.take(roles.len() as int) =~= roles);
    match &meta.doc_type {
        Some(t) => {
            definitions.push(
                TermDefinition {
                    term: t.clone(),
                    location: Some(string_of(&chars_of("front-matter"))),
                    pos: None,
                    from_front_matter: true,
                    in_addendum: false,
                },
            );
        },
        None => {},
    }
    assert(def_terms(definitions@) =~= front_matter_terms(*meta));
    assert forall|k: int| 0 <= k < definitions@.len() implies #[trigger] def_sites(definitions@)[k]
        == front_sites(*meta)[k] by {
        assert(front_site(definitions@[k]));
        assert(def_terms(definitions@)[k] == front_matter_terms(*meta)[k]);
    }
    assert(def_sites(definitions@) =~= front_sites(*meta));
    definitions
}

/// Collect the definitions and schedule items of a document's text:
/// recitals, body, then addenda.
fn collect_document_terms(
    doc: &Document,
    defs: &mut Vec<TermDefinition>,
    schedule_items: &mut Vec<ScheduleItem>,
    ctx: &ScheduleContext,
    convention: NumberingConvention,
    diagnostics: &mut Vec<Diagnostic>,
)
    requires
        ctx.patterns@.len() == doc.meta.schedule@.len(),
        doc.recitals matches Some(r) ==> elements_formattable(r.body@, convention),
        elements_formattable(doc.body@, convention),
        addenda_formattable(doc.addenda@, convention),
        items_in_range(old(schedule_items)@, ctx.patterns@.len() as int),
    ensures
        collects(old(defs)@, final(defs)@, old(schedule_items)@, final(schedule_items)@,
            document_defs(*doc, patterns_view(ctx.patterns@))),
        items_in_range(final(schedule_items)@, ctx.patterns@.len() as int),
        sites_grow(old(defs)@, final(defs)@, document_sites(*doc, patterns_view(ctx.patterns@), convention)),
        extends(old(diagnostics)@, final(diagnostics)@),
        warns_undeclared(old(diagnostics)@, final(diagnostics)@),
        warns(old(diagnostics)@, final(diagnostics)@, und_document(*doc, patterns_view(ctx.patterns@), ctx.declared_lower@, convention)),
{
    let ghost dl = ctx.declared_lower@;
    let ghost n = ctx.patterns@.len() as int;
    let ghost pv = patterns_view(ctx.patterns@);
    let ghost (d0, s0, g0) = (defs@, schedule_items@, diagnostics@);
    proof {
        lemma_collects_refl(defs@, schedule_items@);
        lemma_sites_refl(defs@);
        lemma_collect_refl(defs@, schedule_items@, diagnostics@, n);
        lemma_warns_refl(diagnostics@);
    }
    match &doc.recitals {
        Some(rec) => {
            collect_body_terms(&rec.body, defs, schedule_items, ctx, convention, Some("recitals"), diagnostics);
        },
        None => {},
    }
    let ghost rec_defs = recitals_defs(doc.recitals, pv);
    let ghost rec_sites = recitals_sites(doc.recitals, pv, convention);
    assert(collects(d0, defs@, s0, schedule_items@, rec_defs));
    assert(sites_grow(d0, defs@, rec_sites));
    assert(collect_grows(d0, defs@, s0, schedule_items@, g0, diagnostics@, n));
    let ghost rec_w = und_recitals(doc.recitals, pv, dl, convention);
    assert(warns(g0, diagnostics@, rec_w));
    let ghost (d1, s1, g1) = (defs@, schedule_items@, diagnostics@);
    collect_body_terms(&doc.body, defs, schedule_items, ctx, convention, None, diagnostics);
    proof {
        lemma_collects_trans(d0, d1, defs@, s0, s1, schedule_items@, rec_defs, elements_defs(doc.body@, pv));
        lemma_sites_trans(d0, d1, defs@, rec_sites, elements_sites(doc.body@, pv, convention, None));
        lemma_collect_trans(d0, d1, defs@, s0, s1, schedule_items@, g0, g1, diagnostics@, n);
        lemma_warns_trans(g0, g1, diagnostics@, rec_w, und_elements(doc.body@, pv, dl, convention, None));
        assert(rec_w + und_elements(doc.body@, pv, dl, convention, None) + und_addenda(doc.addenda@.take(0), pv, dl, convention)
            =~= rec_w + und_elements(doc.body@, pv, dl, convention, None));
        assert(rec_sites + elements_sites(doc.body@, pv, convention, None) + addenda_sites(
            doc.addenda@.take(0),
            pv,
            convention,
        ) =~= rec_sites + elements_sites(doc.body@, pv, convention, None));
        assert(doc.addenda@.take(0) =~= Seq::<Addendum>::empty());
        assert(rec_defs + elements_defs(doc.body@, pv) + addenda_defs(doc.addenda@.take(0), pv)
            =~= rec_defs + elements_defs(doc.body@, pv));
    }
    let mut a: usize = 0;
    while a < doc.addenda.len()
        invariant
            a <= doc.addenda@.len(),
            n == ctx.patterns@.len(),
            pv == patterns_view(ctx.patterns@),
            addenda_formattable(doc.addenda@, convention),
            items_in_range(schedule_items@, n),
            collects(d0, defs@, s0, schedule_items@,
                rec_defs + elements_defs(doc.body@, pv) + addenda_defs(doc.addenda@.take(a as int), pv)),
            sites_grow(d0, defs@, rec_sites + elements_sites(doc.body@, pv, convention, None) + addenda_sites(
                doc.addenda@.take(a as int),
                pv,
                convention,
            )),
            collect_grows(d0, defs@, s0, schedule_items@, g0, diagnostics@, n),
            dl == ctx.declared_lower@,
            warns(g0, diagnostics@, rec_w + und_elements(doc.body@, pv, dl, convention, None) + und_addenda(doc.addenda@.take(a as int), pv, dl, convention)),
        decreases doc.addenda@.len() - a,
    {
        let ghost (d2, s2, g2) = (defs@, schedule_items@, diagnostics@);
        collect_addendum_terms(&doc.addenda[a], defs, schedule_items, ctx, convention, diagnostics);
        proof {
            let t = doc.addenda@.take(a + 1);
            assert(t.drop_last() =~= doc.addenda@.take(a as int));
            assert(t.last() == doc.addenda@[a as int]);
            lemma_collects_trans(d0, d2, defs@, s0, s2, schedule_items@,
                rec_defs + elements_defs(doc.body@, pv) + addenda_defs(doc.addenda@.take(a as int), pv),
                addendum_defs(doc.addenda@[a as int].content@, pv));
            assert(rec_defs + elements_defs(doc.body@, pv) + addenda_defs(doc.addenda@.take(a as int), pv)
                + addendum_defs(doc.addenda@[a as int].content@, pv)
                =~= rec_defs + elements_defs(doc.body@, pv) + addenda_defs(t, pv));
            let ad = doc.addenda@[a as int];
            let pre = rec_sites + elements_sites(doc.body@, pv, convention, None) + addenda_sites(
                doc.addenda@.take(a as int),
                pv,
                convention,
            );
            lemma_sites_trans(d0, d2, defs@, pre, addendum_sites(ad.content@, pv, convention,
                Some(crate::model::addendum_heading(ad.number, ad.title@)), ad.source_pos));
            assert(pre + addendum_sites(ad.content@, pv, convention, Some(crate::model::addendum_heading(
                ad.number,
                ad.title@,
            )), ad.source_pos) =~= rec_sites + elements_sites(doc.body@, pv, convention, None)
                + addenda_sites(t, pv, convention));
            lemma_collect_trans(d0, d2, defs@, s0, s2, schedule_items@, g0, g2, diagnostics@, n);
            let prew = rec_w + und_elements(doc.body@, pv, dl, convention, None) + und_addenda(doc.addenda@.take(a as int), pv, dl, convention);
            let adw = und_addendum(ad.content@, pv, dl, convention, Some(crate::model::addendum_heading(ad.number, ad.title@)), ad.source_pos);
            lemma_warns_trans(g0, g2, diagnostics@, prew, adw);
            assert(prew + adw =~= rec_w + und_elements(doc.body@, pv, dl, convention, None) + und_addenda(t, pv, dl, convention));
        }
        a += 1;
    }
    assert(doc.addenda@.take(doc.addenda@.len() as int) =~= doc.addenda@);
    assert(rec_w + und_elements(doc.body@, pv, dl, convention, None) + und_addenda(doc.addenda@, pv, dl, convention)
        == und_document(*doc, pv, dl, convention));
}

/// The text a document's terms are looked for in ([`document_text`]).
fn document_usage_text(doc: &Document) -> (r: Vec<char>)
    ensures
        r@ == document_text(*doc),
{
    let mut all_text: Vec<char> = Vec::new();
    match &doc.recitals {
        Some(rec) => {
            let mut k: usize = 0;
            assert(all_text@ =~= elements_text(rec.body@.take(0)));
            while k < rec.body.len()
                invariant
                    k <= rec.body@.len(),
                    all_text@ == elements_text(rec.body@.take(k as int)),
                decreases rec.body@.len() - k,
            {
                collect_element_text(&rec.body[k], &mut all_text);
                proof {
                    let t = rec.body@.take(k + 1);
                    assert(t.drop_last() =~= rec.body@.take(k as int));
                    assert(t.last() == rec.body@[k as int]);
                }
                k += 1;
            }
            assert(rec.body@.take(rec.body@.len() as int) =~= rec.body@);
        },
        None => {},
    }
    let ghost rec_text = all_text@;
    let mut k: usize = 0;
    assert(all_text@ =~= rec_text + elements_text(doc.body@.take(0)));
    while k < doc.body.len()
        invariant
            k <= doc.body@.len(),
            all_text@ == rec_text + elements_text(doc.body@.take(k as int)),
        decreases doc.body@.len() - k,
    {
        collect_element_text(&doc.body[k], &mut all_text);
        proof {
            let t = doc.body@.take(k + 1);
            assert(t.drop_last() =~= doc.body@.take(k as int));
            assert(t.last() == doc.body@[k as int]);
            assert(all_text@ =~= rec_text + elements_text(t));
        }
        k += 1;
    }
    assert(doc.body@.take(doc.body@.len() as int) =~= doc.body@);
    let ghost body_text_ = all_text@;
    let mut k: usize = 0;
    assert(all_text@ =~= body_text_ + addenda_text(doc.addenda@.take(0)));
    while k < doc.addenda.len()
        invariant
            k <= doc.addenda@.len(),
            all_text@ == body_text_ + addenda_text(doc.addenda@.take(k as int)),
        decreases doc.addenda@.len() - k,
    {
        collect_addendum_text(&doc.addenda[k], &mut all_text);
        proof {
            let t = doc.addenda@.take(k + 1);
            assert(t.drop_last() =~= doc.addenda@.take(k as int));
            assert(t.last() == doc.addenda@[k as int]);
            assert(all_text@ =~= body_text_ + addenda_text(t));
        }
        k += 1;
    }
    assert(doc.addenda@.take(doc.addenda@.len() as int) =~= doc.addenda@);
    assert(all_text@ =~= document_text(*doc));
    all_text
}

} // verus!
