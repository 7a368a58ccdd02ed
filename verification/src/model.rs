//! The document model: front-matter, clause tree, addenda.
use vstd::prelude::*;

use crate::error::{Diagnostic, SourcePos};
use crate::style::NumberingConvention;
use crate::text::{decimal, decimal_chars, extend_chars, extend_str, string_of};

verus! {

/// The fully parsed and resolved document.
#[derive(Debug)]
pub struct Document {
    pub meta: DocumentMeta,
    pub recitals: Option<Recitals>,
    pub body_heading: Option<String>,
    pub body: Vec<BodyElement>,
    pub addenda: Vec<Addendum>,
    pub schedule_items: Vec<ScheduleItem>,
    pub diagnostics: Vec<Diagnostic>,
}

/// The optional recitals (background) section.
#[derive(Debug)]
pub struct Recitals {
    pub heading: String,
    pub body: Vec<BodyElement>,
}

/// The YAML front-matter.
#[derive(Debug, Clone)]
pub struct DocumentMeta {
    pub title: String,
    pub doc_type: Option<String>,
    pub date: Option<String>,
    pub ref_: Option<String>,
    pub author: Option<String>,
    pub status: Option<Status>,
    pub version: Option<String>,
    pub parties: Vec<Party>,
    pub exhibits: Vec<Exhibit>,
    pub schedule: Vec<ScheduleDecl>,
}

/// A schedule declared in the front-matter.
#[derive(Debug, Clone)]
pub struct ScheduleDecl {
    pub title: String,
}

/// An exhibit declared in the front-matter.
#[derive(Debug, Clone)]
pub struct Exhibit {
    pub title: String,
    pub path: Option<String>,
}

/// Document status.
#[derive(Debug, Clone, Copy, PartialEq, Eq, Structural)]
pub enum Status {
    Draft,
    Final,
    Executed,
}

/// Display name of a status.
pub open spec fn status_name(s: Status) -> Seq<char> {
    match s {
        Status::Draft => "DRAFT"@,
        Status::Final => "FINAL"@,
        Status::Executed => "EXECUTED"@,
    }
}

impl Status {
    /// Upper-case display name: `DRAFT`, `FINAL`, `EXECUTED`.
    pub fn to_display_string(&self) -> (r: String)
        ensures
            r@ == status_name(*self),
    {
        match self {
            Status::Draft => crate::text::owned("DRAFT"),
            Status::Final => crate::text::owned("FINAL"),
            Status::Executed => crate::text::owned("EXECUTED"),
        }
    }
}

/// A contracting party.
#[derive(Debug, Clone)]
pub struct Party {
    pub name: Option<String>,
    pub specifier: Option<String>,
    pub role: String,
    pub entity_type: Option<String>,
}

/// A top-level element of the body or recitals.
#[derive(Debug)]
pub enum BodyElement {
    Clause(Clause),
    Prose(Vec<InlineContent>),
    BulletList(Vec<Vec<InlineContent>>),
}

/// A numbered clause with its heading, anchor and body.
#[derive(Debug)]
pub struct Clause {
    pub level: ClauseLevel,
    pub heading: Option<ClauseHeading>,
    pub anchor: Option<String>,
    pub number: Option<ClauseNumber>,
    /// Where the clause starts in the source file.
    pub source_pos: Option<SourcePos>,
    /// Interleaved content and children, in source order.
    pub body: Vec<ClauseBody>,
}

/// One piece of a clause body: content, or a run of child clauses.
#[derive(Debug)]
pub enum ClauseBody {
    Content(ClauseContent),
    Children(Vec<Clause>),
}

/// Depth of a clause in the outline.
#[derive(Debug, Clone, Copy, PartialEq, Eq, Structural)]
pub enum ClauseLevel {
    TopLevel,
    Clause,
    SubClause,
    SubSubClause,
    Paragraph,
    SubParagraph,
}

/// The level of the children of a clause at `level` (capped at the deepest).
pub open spec fn next_level_spec(level: ClauseLevel) -> ClauseLevel {
    match level {
        ClauseLevel::TopLevel => ClauseLevel::Clause,
        ClauseLevel::Clause => ClauseLevel::SubClause,
        ClauseLevel::SubClause => ClauseLevel::SubSubClause,
        ClauseLevel::SubSubClause => ClauseLevel::Paragraph,
        ClauseLevel::Paragraph => ClauseLevel::SubParagraph,
        ClauseLevel::SubParagraph => ClauseLevel::SubParagraph,
    }
}

/// The level of the children of a clause at `level`.
pub fn next_level(level: ClauseLevel) -> (r: ClauseLevel)
    ensures
        r == next_level_spec(level),
{
    match level {
        ClauseLevel::TopLevel => ClauseLevel::Clause,
        ClauseLevel::Clause => ClauseLevel::SubClause,
        ClauseLevel::SubClause => ClauseLevel::SubSubClause,
        ClauseLevel::SubSubClause => ClauseLevel::Paragraph,
        ClauseLevel::Paragraph => ClauseLevel::SubParagraph,
        ClauseLevel::SubParagraph => ClauseLevel::SubParagraph,
    }
}

/// Depth index of a level, 0 for top level to 5 for sub-paragraphs.
pub open spec fn level_depth(level: ClauseLevel) -> usize {
    match level {
        ClauseLevel::TopLevel => 0,
        ClauseLevel::Clause => 1,
        ClauseLevel::SubClause => 2,
        ClauseLevel::SubSubClause => 3,
        ClauseLevel::Paragraph => 4,
        ClauseLevel::SubParagraph => 5,
    }
}

/// A nested clause sits exactly one level below its parent: the children of
/// a clause at any level but the deepest are one step deeper in the
/// outline, and the deepest level nests into itself.
pub proof fn lemma_next_level_one_deeper(level: ClauseLevel)
    ensures
        level != ClauseLevel::SubParagraph ==> level_depth(next_level_spec(level)) == level_depth(level) + 1,
        level == ClauseLevel::SubParagraph ==> next_level_spec(level) == ClauseLevel::SubParagraph,
{
}

/// Levels are told apart by their depth.
pub proof fn lemma_level_depth_injective(a: ClauseLevel, b: ClauseLevel)
    ensures
        level_depth(a) == level_depth(b) <==> a == b,
{
}

/// A clause heading (`## Heading` inside a list item).
#[derive(Debug)]
pub struct ClauseHeading {
    pub text: Vec<InlineContent>,
    pub level: u8,
}

/// The number assigned to a clause, one component per level.
#[derive(Debug, Clone, Copy, PartialEq, Eq, Structural)]
pub enum ClauseNumber {
    TopLevel(u32),
    Clause(u32, u32),
    SubClause(u32, u32, u32),
    SubSubClause(u32, u32, u32, u32),
    Paragraph(u32, u32, u32, u32, u32),
    SubParagraph(u32, u32, u32, u32, u32, u32),
}

/// Decimal digits of a number component.
pub open spec fn num(n: u32) -> Seq<char> {
    decimal(n as nat)
}

/// `n`-th lower-case letter (`1` is `a`). The byte arithmetic stays in range
/// exactly when [`lower_letter_ok`] holds.
pub open spec fn lower_letter(n: u32) -> char {
    ((97 + ((n - 1) as int) % 256) as u32) as char
}

/// `n`-th upper-case letter (`1` is `A`).
pub open spec fn upper_letter(n: u32) -> char {
    ((65 + ((n - 1) as int) % 256) as u32) as char
}

/// `n` can be turned into a lower-case letter without overflow.
pub open spec fn lower_letter_ok(n: u32) -> bool {
    1 <= n && ((n - 1) as int) % 256 <= 158
}

/// `n` can be turned into an upper-case letter without overflow.
pub open spec fn upper_letter_ok(n: u32) -> bool {
    1 <= n && ((n - 1) as int) % 256 <= 190
}

fn to_lower_letter(n: u32) -> (c: char)
    requires
        lower_letter_ok(n),
    ensures
        c == lower_letter(n),
{
    let off = ((n - 1) % 256) as u8;
    (97u8 + off) as char
}

fn to_upper_letter(n: u32) -> (c: char)
    requires
        upper_letter_ok(n),
    ensures
        c == upper_letter(n),
{
    let off = ((n - 1) % 256) as u8;
    (65u8 + off) as char
}

/// Roman numeral of `n` (greedy, subtractive pairs), lower or upper case.
pub open spec fn roman(n: nat, upper: bool) -> Seq<char>
    decreases n,
{
    if n >= 1000 {
        (if upper { "M"@ } else { "m"@ }) + roman((n - 1000) as nat, upper)
    } else if n >= 900 {
        (if upper { "CM"@ } else { "cm"@ }) + roman((n - 900) as nat, upper)
    } else if n >= 500 {
        (if upper { "D"@ } else { "d"@ }) + roman((n - 500) as nat, upper)
    } else if n >= 400 {
        (if upper { "CD"@ } else { "cd"@ }) + roman((n - 400) as nat, upper)
    } else if n >= 100 {
        (if upper { "C"@ } else { "c"@ }) + roman((n - 100) as nat, upper)
    } else if n >= 90 {
        (if upper { "XC"@ } else { "xc"@ }) + roman((n - 90) as nat, upper)
    } else if n >= 50 {
        (if upper { "L"@ } else { "l"@ }) + roman((n - 50) as nat, upper)
    } else if n >= 40 {
        (if upper { "XL"@ } else { "xl"@ }) + roman((n - 40) as nat, upper)
    } else if n >= 10 {
        (if upper { "X"@ } else { "x"@ }) + roman((n - 10) as nat, upper)
    } else if n >= 9 {
        (if upper { "IX"@ } else { "ix"@ }) + roman((n - 9) as nat, upper)
    } else if n >= 5 {
        (if upper { "V"@ } else { "v"@ }) + roman((n - 5) as nat, upper)
    } else if n >= 4 {
        (if upper { "IV"@ } else { "iv"@ }) + roman((n - 4) as nat, upper)
    } else if n >= 1 {
        (if upper { "I"@ } else { "i"@ }) + roman((n - 1) as nat, upper)
    } else {
        Seq::empty()
    }
}

/// The value of a roman letter, in either case; 0 for any other character.
pub open spec fn roman_letter_value(c: char) -> int {
    if c == 'i' || c == 'I' {
        1
    } else if c == 'v' || c == 'V' {
        5
    } else if c == 'x' || c == 'X' {
        10
    } else if c == 'l' || c == 'L' {
        50
    } else if c == 'c' || c == 'C' {
        100
    } else if c == 'd' || c == 'D' {
        500
    } else if c == 'm' || c == 'M' {
        1000
    } else {
        0
    }
}

/// `c` is a roman letter in upper case when `upper` holds, in lower case
/// otherwise.
pub open spec fn roman_letter_in_case(c: char, upper: bool) -> bool {
    if upper {
        c == 'I' || c == 'V' || c == 'X' || c == 'L' || c == 'C' || c == 'D' || c == 'M'
    } else {
        c == 'i' || c == 'v' || c == 'x' || c == 'l' || c == 'c' || c == 'd' || c == 'm'
    }
}

/// `v` is the value of some roman letter.
pub open spec fn is_letter_value(v: int) -> bool {
    v == 1 || v == 5 || v == 10 || v == 50 || v == 100 || v == 500 || v == 1000
}

/// The number a roman numeral is read as: each letter counts its value,
/// negatively when a letter of larger value follows it.
pub open spec fn roman_value(s: Seq<char>) -> int
    decreases s.len(),
{
    if s.len() == 0 {
        0
    } else {
        let v = roman_letter_value(s[0]);
        (if s.len() >= 2 && v < roman_letter_value(s[1]) {
            -v
        } else {
            v
        }) + roman_value(s.drop_first())
    }
}

/// How many times in a row `s` opens with `ch`.
pub open spec fn leading_run(s: Seq<char>, ch: char) -> nat
    decreases s.len(),
{
    if s.len() > 0 && s[0] == ch {
        1 + leading_run(s.drop_first(), ch)
    } else {
        0
    }
}

/// No letter of `s` occurs four times in a row.
pub open spec fn no_fourfold(s: Seq<char>) -> bool {
    forall|i: int|
        #![trigger s[i]]
        0 <= i && i + 3 < s.len() ==> !(s[i] == s[i + 1] && s[i + 1] == s[i + 2] && s[i + 2] == s[i + 3])
}

/// One step of writing `n` as a numeral: the letters written first and
/// the value they stand for, with what the rest of the numeral relies on.
proof fn lemma_roman_unfold(n: nat, upper: bool) -> (pk: (Seq<char>, nat))
    requires
        n >= 1,
    ensures
        roman(n, upper) == pk.0 + roman((n - pk.1) as nat, upper),
        1 <= pk.1 <= n,
        pk.0.len() == 1 || pk.0.len() == 2,
        is_letter_value(roman_letter_value(pk.0[0])),
        roman_letter_value(pk.0[0]) <= n,
        is_letter_value(roman_letter_value(pk.0.last())),
        pk.0.len() == 1 ==> roman_letter_value(pk.0[0]) == pk.1,
        pk.0.len() == 2 ==> roman_letter_value(pk.0[0]) < roman_letter_value(pk.0[1]) && pk.1
            == roman_letter_value(pk.0[1]) - roman_letter_value(pk.0[0]) && pk.0[0] != pk.0[1],
        forall|l: int| is_letter_value(l) && l <= n - pk.1 ==> l <= roman_letter_value(pk.0.last()),
        n < 4000 ==> n - pk.1 < 3 * roman_letter_value(pk.0.last()),
        pk.0.len() == 2 ==> n - pk.1 < roman_letter_value(pk.0.last()),
        forall|j: int| 0 <= j < pk.0.len() ==> roman_letter_in_case(#[trigger] pk.0[j], upper),
        pk.0.len() == 2 ==> (roman_letter_value(pk.0[0]) == 1 || roman_letter_value(pk.0[0]) == 10
            || roman_letter_value(pk.0[0]) == 100) && (roman_letter_value(pk.0[1]) == 5 * roman_letter_value(pk.0[0])
            || roman_letter_value(pk.0[1]) == 10 * roman_letter_value(pk.0[0])),
        pk.0.len() == 1 && roman_letter_value(pk.0[0]) != 1 && roman_letter_value(pk.0[0]) != 10
            && roman_letter_value(pk.0[0]) != 100 && roman_letter_value(pk.0[0]) != 1000 ==> n - pk.1
            < roman_letter_value(pk.0[0]),
{
    reveal_strlit("M");
    reveal_strlit("m");
    reveal_strlit("CM");
    reveal_strlit("cm");
    reveal_strlit("D");
    reveal_strlit("d");
    reveal_strlit("CD");
    reveal_strlit("cd");
    reveal_strlit("C");
    reveal_strlit("c");
    reveal_strlit("XC");
    reveal_strlit("xc");
    reveal_strlit("L");
    reveal_strlit("l");
    reveal_strlit("XL");
    reveal_strlit("xl");
    reveal_strlit("X");
    reveal_strlit("x");
    reveal_strlit("IX");
    reveal_strlit("ix");
    reveal_strlit("V");
    reveal_strlit("v");
    reveal_strlit("IV");
    reveal_strlit("iv");
    reveal_strlit("I");
    reveal_strlit("i");
    let pk = if n >= 1000 {
        (if upper { "M"@ } else { "m"@ }, 1000nat)
    } else if n >= 900 {
        (if upper { "CM"@ } else { "cm"@ }, 900nat)
    } else if n >= 500 {
        (if upper { "D"@ } else { "d"@ }, 500nat)
    } else if n >= 400 {
        (if upper { "CD"@ } else { "cd"@ }, 400nat)
    } else if n >= 100 {
        (if upper { "C"@ } else { "c"@ }, 100nat)
    } else if n >= 90 {
        (if upper { "XC"@ } else { "xc"@ }, 90nat)
    } else if n >= 50 {
        (if upper { "L"@ } else { "l"@ }, 50nat)
    } else if n >= 40 {
        (if upper { "XL"@ } else { "xl"@ }, 40nat)
    } else if n >= 10 {
        (if upper { "X"@ } else { "x"@ }, 10nat)
    } else if n >= 9 {
        (if upper { "IX"@ } else { "ix"@ }, 9nat)
    } else if n >= 5 {
        (if upper { "V"@ } else { "v"@ }, 5nat)
    } else if n >= 4 {
        (if upper { "IV"@ } else { "iv"@ }, 4nat)
    } else if n >= 1 {
        (if upper { "I"@ } else { "i"@ }, 1nat)
    } else {
        (Seq::empty(), 0nat)
    };
    pk
}

/// A numeral for a positive number opens with a letter worth at most the
/// number; the numeral for 0 is empty.
proof fn lemma_roman_first(m: nat, upper: bool)
    ensures
        m == 0 ==> roman(m, upper).len() == 0,
        m >= 1 ==> roman(m, upper).len() >= 1 && is_letter_value(roman_letter_value(roman(m, upper)[0]))
            && roman_letter_value(roman(m, upper)[0]) <= m,
{
    if m >= 1 {
        let pk = lemma_roman_unfold(m, upper);
        assert(roman(m, upper)[0] == pk.0[0]);
    }
}

/// Reading a letter in front of a numeral that opens with no larger letter
/// adds the letter's value.
proof fn lemma_value_cons(c: char, r: Seq<char>)
    requires
        r.len() == 0 || roman_letter_value(r[0]) <= roman_letter_value(c),
    ensures
        roman_value(seq![c] + r) == roman_letter_value(c) + roman_value(r),
{
    let s = seq![c] + r;
    assert(s.drop_first() =~= r);
    assert(s[0] == c);
    if r.len() > 0 {
        assert(s[1] == r[0]);
    }
}

/// A roman numeral reads back as the number it was written for: each
/// letter counts its value, and a letter before a larger one (the `iv` of
/// 4, the `ix` of 9, `xl`, `xc`, `cd`, `cm`) counts negatively.
pub proof fn lemma_roman_reads_back(n: nat, upper: bool)
    ensures
        roman_value(roman(n, upper)) == n,
    decreases n,
{
    if n >= 1 {
        let pk = lemma_roman_unfold(n, upper);
        let p = pk.0;
        let rest = (n - pk.1) as nat;
        let r = roman(rest, upper);
        lemma_roman_reads_back(rest, upper);
        lemma_roman_first(rest, upper);
        if p.len() == 1 {
            assert(p =~= seq![p[0]]);
            lemma_value_cons(p[0], r);
        } else {
            assert(p =~= seq![p[0], p[1]]);
            lemma_value_cons(p[1], r);
            let t = seq![p[1]] + r;
            assert(p + r =~= seq![p[0]] + t);
            assert((p + r).drop_first() =~= t);
            assert((p + r)[0] == p[0]);
            assert((p + r)[1] == p[1]);
        }
    }
}

/// A string that opens with three `ch` opens with a run of at least three.
proof fn lemma_run_three(s: Seq<char>, ch: char)
    requires
        s.len() >= 3,
        s[0] == ch,
        s[1] == ch,
        s[2] == ch,
    ensures
        leading_run(s, ch) >= 3,
{
    let s1 = s.drop_first();
    let s2 = s1.drop_first();
    assert(s1[0] == ch);
    assert(s2[0] == ch);
    assert(leading_run(s2, ch) >= 1);
    assert(leading_run(s1, ch) >= 2);
}

/// A numeral for `m` opens with a run of one letter worth at most `m` in
/// all.
proof fn lemma_roman_run(m: nat, upper: bool, ch: char)
    ensures
        leading_run(roman(m, upper), ch) * roman_letter_value(ch) <= m,
    decreases m,
{
    if m >= 1 {
        let pk = lemma_roman_unfold(m, upper);
        let p = pk.0;
        let rest = (m - pk.1) as nat;
        let r = roman(rest, upper);
        lemma_roman_run(rest, upper, ch);
        let s = p + r;
        assert(s[0] == p[0]);
        if p[0] == ch {
            if p.len() == 1 {
                assert(s.drop_first() =~= r);
                assert(leading_run(s, ch) == 1 + leading_run(r, ch));
                let a = leading_run(r, ch) as int;
                let v = roman_letter_value(ch);
                assert((1 + a) * v == v + a * v) by (nonlinear_arith);
                assert(v == pk.1);
                assert(a * v <= rest);
                assert(leading_run(s, ch) * v <= m);
            } else {
                assert(s.drop_first()[0] == p[1]);
                assert(leading_run(s.drop_first(), ch) == 0);
                assert(leading_run(s, ch) == 1);
                assert(leading_run(s, ch) * roman_letter_value(ch) == roman_letter_value(ch));
            }
        } else {
            assert(leading_run(s, ch) == 0);
            let z = leading_run(s, ch) as int;
            let v = roman_letter_value(ch);
            assert(z * v == 0) by (nonlinear_arith)
                requires
                    z == 0,
            ;
        }
        assert(roman(m, upper) == s);
    } else {
        assert(roman(m, upper).len() == 0);
    }
}

/// Roman numerals are written in standard form: below 4000, no letter
/// occurs four times in a row (4 is `iv`, never `iiii`; 9 is `ix`, never
/// `viiii`; 40 is `xl`; 400 is `cd`).
pub proof fn lemma_roman_no_fourfold(n: nat, upper: bool)
    requires
        n < 4000,
    ensures
        no_fourfold(roman(n, upper)),
    decreases n,
{
    if n >= 1 {
        let pk = lemma_roman_unfold(n, upper);
        let p = pk.0;
        let rest = (n - pk.1) as nat;
        let r = roman(rest, upper);
        lemma_roman_no_fourfold(rest, upper);
        let s = p + r;
        let l = p.last();
        lemma_roman_run(rest, upper, l);
        lemma_roman_first(rest, upper);
        assert forall|i: int|
            #![trigger s[i]]
            0 <= i && i + 3 < s.len() implies !(s[i] == s[i + 1] && s[i + 1] == s[i + 2] && s[i + 2] == s[i + 3]) by {
            if i >= p.len() {
                let j = i - p.len();
                assert(s[i] == r[j] && s[i + 1] == r[j + 1] && s[i + 2] == r[j + 2] && s[i + 3] == r[j + 3]);
            } else if i == p.len() - 1 {
                if s[i] == s[i + 1] && s[i + 1] == s[i + 2] && s[i + 2] == s[i + 3] {
                    assert(s[i] == l);
                    assert(r[0] == s[i + 1] && r[1] == s[i + 2] && r[2] == s[i + 3]);
                    lemma_run_three(r, l);
                    assert(leading_run(r, l) * roman_letter_value(l) >= 3 * roman_letter_value(l)) by (nonlinear_arith)
                        requires
                            leading_run(r, l) >= 3,
                            roman_letter_value(l) >= 0,
                    ;
                }
            } else {
                assert(s[0] == p[0] && s[1] == p[1]);
            }
        }
    }
}

/// Letters of `s` are doubled only when worth a power of ten (never `vv`,
/// `ll` or `dd`), and a letter counts negatively only as `i`, `x` or `c`
/// before a letter worth five or ten times as much.
pub open spec fn standard_pairs(s: Seq<char>) -> bool {
    forall|i: int|
        #![trigger s[i]]
        0 <= i && i + 1 < s.len() ==> {
            &&& s[i] == s[i + 1] ==> (roman_letter_value(s[i]) == 1 || roman_letter_value(s[i]) == 10
                || roman_letter_value(s[i]) == 100 || roman_letter_value(s[i]) == 1000)
            &&& roman_letter_value(s[i]) < roman_letter_value(s[i + 1]) ==> (roman_letter_value(s[i]) == 1
                || roman_letter_value(s[i]) == 10 || roman_letter_value(s[i]) == 100) && (roman_letter_value(
                s[i + 1],
            ) == 5 * roman_letter_value(s[i]) || roman_letter_value(s[i + 1]) == 10 * roman_letter_value(s[i]))
        }
}

/// Roman numerals pair their letters in standard form: only `i`, `x` and
/// `c` are written before a larger letter, and only before the letters worth
/// five and ten times as much (`iv`, `ix`, `xl`, `xc`, `cd`, `cm`); `v`, `l`
/// and `d` are never doubled.
pub proof fn lemma_roman_standard_pairs(n: nat, upper: bool)
    ensures
        standard_pairs(roman(n, upper)),
    decreases n,
{
    if n >= 1 {
        let pk = lemma_roman_unfold(n, upper);
        let p = pk.0;
        let rest = (n - pk.1) as nat;
        let r = roman(rest, upper);
        lemma_roman_standard_pairs(rest, upper);
        lemma_roman_first(rest, upper);
        let s = p + r;
        assert forall|i: int| #![trigger s[i]] 0 <= i && i + 1 < s.len() implies {
            &&& s[i] == s[i + 1] ==> (roman_letter_value(s[i]) == 1 || roman_letter_value(s[i]) == 10
                || roman_letter_value(s[i]) == 100 || roman_letter_value(s[i]) == 1000)
            &&& roman_letter_value(s[i]) < roman_letter_value(s[i + 1]) ==> (roman_letter_value(s[i]) == 1
                || roman_letter_value(s[i]) == 10 || roman_letter_value(s[i]) == 100) && (roman_letter_value(
                s[i + 1],
            ) == 5 * roman_letter_value(s[i]) || roman_letter_value(s[i + 1]) == 10 * roman_letter_value(s[i]))
        } by {
            if i >= p.len() {
                let j = i - p.len();
                assert(s[i] == r[j] && s[i + 1] == r[j + 1]);
            } else if i == p.len() - 1 {
                assert(s[i] == p.last());
                assert(s[i + 1] == r[0]);
            } else {
                assert(s[0] == p[0] && s[1] == p[1]);
            }
        }
    }
}

/// A numeral is written in roman letters only, all upper case or all
/// lower case as asked.
pub proof fn lemma_roman_letters_in_case(n: nat, upper: bool)
    ensures
        forall|i: int| 0 <= i < roman(n, upper).len() ==> roman_letter_in_case(#[trigger] roman(n, upper)[i], upper),
    decreases n,
{
    if n >= 1 {
        let pk = lemma_roman_unfold(n, upper);
        let p = pk.0;
        let rest = (n - pk.1) as nat;
        let r = roman(rest, upper);
        lemma_roman_letters_in_case(rest, upper);
        let s = p + r;
        assert forall|i: int| 0 <= i < s.len() implies roman_letter_in_case(#[trigger] s[i], upper) by {
            if i >= p.len() {
                assert(s[i] == r[i - p.len()]);
            } else {
                assert(s[i] == p[i]);
            }
        }
    }
}

/// The numeral for one step of the greedy table, and its value.
fn roman_step(n: u32, upper: bool) -> (r: (&'static str, u32))
    requires
        n >= 1,
    ensures
        1 <= r.1 <= n,
        roman(n as nat, upper) == r.0@ + roman((n - r.1) as nat, upper),
{
    proof {
        reveal_strlit("M");
        reveal_strlit("m");
        reveal_strlit("CM");
        reveal_strlit("cm");
        reveal_strlit("D");
        reveal_strlit("d");
        reveal_strlit("CD");
        reveal_strlit("cd");
        reveal_strlit("C");
        reveal_strlit("c");
        reveal_strlit("XC");
        reveal_strlit("xc");
        reveal_strlit("L");
        reveal_strlit("l");
        reveal_strlit("XL");
        reveal_strlit("xl");
        reveal_strlit("X");
        reveal_strlit("x");
        reveal_strlit("IX");
        reveal_strlit("ix");
        reveal_strlit("V");
        reveal_strlit("v");
        reveal_strlit("IV");
        reveal_strlit("iv");
        reveal_strlit("I");
        reveal_strlit("i");
    }
    if n >= 1000 {
        (if upper { "M" } else { "m" }, 1000)
    } else if n >= 900 {
        (if upper { "CM" } else { "cm" }, 900)
    } else if n >= 500 {
        (if upper { "D" } else { "d" }, 500)
    } else if n >= 400 {
        (if upper { "CD" } else { "cd" }, 400)
    } else if n >= 100 {
        (if upper { "C" } else { "c" }, 100)
    } else if n >= 90 {
        (if upper { "XC" } else { "xc" }, 90)
    } else if n >= 50 {
        (if upper { "L" } else { "l" }, 50)
    } else if n >= 40 {
        (if upper { "XL" } else { "xl" }, 40)
    } else if n >= 10 {
        (if upper { "X" } else { "x" }, 10)
    } else if n >= 9 {
        (if upper { "IX" } else { "ix" }, 9)
    } else if n >= 5 {
        (if upper { "V" } else { "v" }, 5)
    } else if n >= 4 {
        (if upper { "IV" } else { "iv" }, 4)
    } else {
        (if upper { "I" } else { "i" }, 1)
    }
}

/// Append the roman numeral of `n` to `out`.
fn push_roman(out: &mut Vec<char>, n: u32, upper: bool)
    ensures
        final(out)@ == old(out)@ + roman(n as nat, upper),
{
    let mut m = n;
    while m > 0
        invariant
            out@ + roman(m as nat, upper) == old(out)@ + roman(n as nat, upper),
        decreases m,
    {
        let (numeral, value) = roman_step(m, upper);
        let ghost before = out@;
        extend_str(out, numeral);
        assert(out@ + roman((m - value) as nat, upper) =~= before + roman(m as nat, upper));
        m = m - value;
    }
    assert(roman(0, upper) =~= Seq::<char>::empty());
    assert(out@ =~= out@ + roman(0, upper));
}

/// Lower-case roman numeral of `n`.
pub fn to_lower_roman(n: u32) -> (r: String)
    ensures
        r@ == roman(n as nat, false),
{
    let mut out: Vec<char> = Vec::new();
    push_roman(&mut out, n, false);
    string_of(&out)
}

/// Every letter component of `n` can be formatted under `convention`
/// without the letter arithmetic overflowing.
pub open spec fn number_formattable(n: ClauseNumber, convention: NumberingConvention) -> bool {
    match convention {
        NumberingConvention::Decimal => true,
        NumberingConvention::Commonwealth => match n {
            ClauseNumber::TopLevel(_) | ClauseNumber::Clause(_, _) => true,
            ClauseNumber::SubClause(_, _, c) | ClauseNumber::SubSubClause(_, _, c, _) => lower_letter_ok(c),
            ClauseNumber::Paragraph(_, _, c, _, e) | ClauseNumber::SubParagraph(_, _, c, _, e, _) =>
                lower_letter_ok(c) && upper_letter_ok(e),
        },
        NumberingConvention::UsTraditional => match n {
            ClauseNumber::TopLevel(_) => true,
            ClauseNumber::Clause(_, b) | ClauseNumber::SubClause(_, b, _) => upper_letter_ok(b),
            ClauseNumber::SubSubClause(_, b, _, d) | ClauseNumber::Paragraph(_, b, _, d, _) =>
                upper_letter_ok(b) && lower_letter_ok(d),
            ClauseNumber::SubParagraph(_, b, _, d, _, g) => upper_letter_ok(b) && lower_letter_ok(d)
                && lower_letter_ok(g),
        },
    }
}

/// `(x)` for a character sequence `x`.
pub open spec fn paren(x: Seq<char>) -> Seq<char> {
    seq!['('] + x + seq![')']
}

/// Commonwealth style: `1`, `1.2`, `1.2(a)`, `1.2(a)(i)`, `1.2(a)(i)(A)`, `1.2(a)(i)(A)(I)`.
pub open spec fn format_commonwealth(n: ClauseNumber) -> Seq<char> {
    match n {
        ClauseNumber::TopLevel(a) => num(a),
        ClauseNumber::Clause(a, b) => num(a) + seq!['.'] + num(b),
        ClauseNumber::SubClause(a, b, c) => num(a) + seq!['.'] + num(b) + paren(
            seq![lower_letter(c)],
        ),
        ClauseNumber::SubSubClause(a, b, c, d) => num(a) + seq!['.'] + num(b) + paren(
            seq![lower_letter(c)],
        ) + paren(roman(d as nat, false)),
        ClauseNumber::Paragraph(a, b, c, d, e) => num(a) + seq!['.'] + num(b) + paren(
            seq![lower_letter(c)],
        ) + paren(roman(d as nat, false)) + paren(seq![upper_letter(e)]),
        ClauseNumber::SubParagraph(a, b, c, d, e, g) => num(a) + seq!['.'] + num(b) + paren(
            seq![lower_letter(c)],
        ) + paren(roman(d as nat, false)) + paren(seq![upper_letter(e)]) + paren(
            roman(g as nat, true),
        ),
    }
}

/// Decimal style: the components joined by dots.
pub open spec fn format_decimal(n: ClauseNumber) -> Seq<char> {
    match n {
        ClauseNumber::TopLevel(a) => num(a),
        ClauseNumber::Clause(a, b) => num(a) + seq!['.'] + num(b),
        ClauseNumber::SubClause(a, b, c) => num(a) + seq!['.'] + num(b) + seq!['.'] + num(c),
        ClauseNumber::SubSubClause(a, b, c, d) => num(a) + seq!['.'] + num(b) + seq!['.'] + num(c)
            + seq!['.'] + num(d),
        ClauseNumber::Paragraph(a, b, c, d, e) => num(a) + seq!['.'] + num(b) + seq!['.'] + num(c)
            + seq!['.'] + num(d) + seq!['.'] + num(e),
        ClauseNumber::SubParagraph(a, b, c, d, e, g) => num(a) + seq!['.'] + num(b) + seq!['.']
            + num(c) + seq!['.'] + num(d) + seq!['.'] + num(e) + seq!['.'] + num(g),
    }
}

/// US traditional style: `I`, `I.A`, `I.A.1`, `I.A.1.a`, `I.A.1.a(1)`, `I.A.1.a(1)(a)`.
pub open spec fn format_us_traditional(n: ClauseNumber) -> Seq<char> {
    match n {
        ClauseNumber::TopLevel(a) => roman(a as nat, true),
        ClauseNumber::Clause(a, b) => roman(a as nat, true) + seq!['.', upper_letter(b)],
        ClauseNumber::SubClause(a, b, c) => roman(a as nat, true) + seq!['.', upper_letter(b), '.']
            + num(c),
        ClauseNumber::SubSubClause(a, b, c, d) => roman(a as nat, true) + seq![
            '.',
            upper_letter(b),
            '.',
        ] + num(c) + seq!['.', lower_letter(d)],
        ClauseNumber::Paragraph(a, b, c, d, e) => roman(a as nat, true) + seq![
            '.',
            upper_letter(b),
            '.',
        ] + num(c) + seq!['.', lower_letter(d)] + paren(num(e)),
        ClauseNumber::SubParagraph(a, b, c, d, e, g) => roman(a as nat, true) + seq![
            '.',
            upper_letter(b),
            '.',
        ] + num(c) + seq!['.', lower_letter(d)] + paren(num(e)) + paren(seq![lower_letter(g)]),
    }
}

/// The number formatted in the given convention.
pub open spec fn format_number(n: ClauseNumber, convention: NumberingConvention) -> Seq<char> {
    match convention {
        NumberingConvention::Commonwealth => format_commonwealth(n),
        NumberingConvention::Decimal => format_decimal(n),
        NumberingConvention::UsTraditional => format_us_traditional(n),
    }
}

/// `prefix`, a space, and the formatted number: e.g. `clause 3.1(a)`.
pub open spec fn full_reference_spec(
    n: ClauseNumber,
    prefix: Seq<char>,
    convention: NumberingConvention,
) -> Seq<char> {
    prefix + seq![' '] + format_number(n, convention)
}

/// The plain dotted display form: `1.`, `1.2`, `1.2.3`, ...
pub open spec fn number_display(n: ClauseNumber) -> Seq<char> {
    match n {
        ClauseNumber::TopLevel(a) => num(a) + seq!['.'],
        _ => format_decimal(n),
    }
}

fn push_num(out: &mut Vec<char>, n: u32)
    ensures
        final(out)@ == old(out)@ + num(n),
{
    let d = decimal_chars(n as usize);
    extend_chars(out, &d);
}

fn push_paren_num(out: &mut Vec<char>, n: u32)
    ensures
        final(out)@ == old(out)@ + paren(num(n)),
{
    out.push('(');
    push_num(out, n);
    out.push(')');
    assert(out@ =~= old(out)@ + paren(num(n)));
}

fn push_paren_letter(out: &mut Vec<char>, c: char)
    ensures
        final(out)@ == old(out)@ + paren(seq![c]),
{
    out.push('(');
    out.push(c);
    out.push(')');
    assert(out@ =~= old(out)@ + paren(seq![c]));
}

fn push_paren_roman(out: &mut Vec<char>, n: u32, upper: bool)
    ensures
        final(out)@ == old(out)@ + paren(roman(n as nat, upper)),
{
    out.push('(');
    push_roman(out, n, upper);
    out.push(')');
    assert(out@ =~= old(out)@ + paren(roman(n as nat, upper)));
}

fn push_dot_num(out: &mut Vec<char>, n: u32)
    ensures
        final(out)@ == old(out)@ + seq!['.'] + num(n),
{
    out.push('.');
    push_num(out, n);
    assert(out@ =~= old(out)@ + seq!['.'] + num(n));
}

impl ClauseNumber {
    fn push_decimal(&self, out: &mut Vec<char>)
        ensures
            final(out)@ == old(out)@ + format_decimal(*self),
    {
        let ghost start = out@;
        match *self {
            ClauseNumber::TopLevel(a) => {
                push_num(out, a);
                assert(out@ =~= start + format_decimal(*self));
            },
            ClauseNumber::Clause(a, b) => {
                push_num(out, a);
                push_dot_num(out, b);
                assert(out@ =~= start + format_decimal(*self));
            },
            ClauseNumber::SubClause(a, b, c) => {
                push_num(out, a);
                push_dot_num(out, b);
                push_dot_num(out, c);
                assert(out@ =~= start + format_decimal(*self));
            },
            ClauseNumber::SubSubClause(a, b, c, d) => {
                push_num(out, a);
                push_dot_num(out, b);
                push_dot_num(out, c);
                push_dot_num(out, d);
                assert(out@ =~= start + format_decimal(*self));
            },
            ClauseNumber::Paragraph(a, b, c, d, e) => {
                push_num(out, a);
                push_dot_num(out, b);
                push_dot_num(out, c);
                push_dot_num(out, d);
                push_dot_num(out, e);
                assert(out@ =~= start + format_decimal(*self));
            },
            ClauseNumber::SubParagraph(a, b, c, d, e, g) => {
                push_num(out, a);
                push_dot_num(out, b);
                push_dot_num(out, c);
                push_dot_num(out, d);
                push_dot_num(out, e);
                push_dot_num(out, g);
                assert(out@ =~= start + format_decimal(*self));
            },
        }
    }

    fn push_commonwealth(&self, out: &mut Vec<char>)
        requires
            number_formattable(*self, NumberingConvention::Commonwealth),
        ensures
            final(out)@ == old(out)@ + format_commonwealth(*self),
    {
        let ghost start = out@;
        match *self {
            ClauseNumber::TopLevel(a) => {
                push_num(out, a);
                assert(out@ =~= start + format_commonwealth(*self));
            },
            ClauseNumber::Clause(a, b) => {
                push_num(out, a);
                push_dot_num(out, b);
                assert(out@ =~= start + format_commonwealth(*self));
            },
            ClauseNumber::SubClause(a, b, c) => {
                push_num(out, a);
                push_dot_num(out, b);
                push_paren_letter(out, to_lower_letter(c));
                assert(out@ =~= start + format_commonwealth(*self));
            },
            ClauseNumber::SubSubClause(a, b, c, d) => {
                push_num(out, a);
                push_dot_num(out, b);
                push_paren_letter(out, to_lower_letter(c));
                push_paren_roman(out, d, false);
                assert(out@ =~= start + format_commonwealth(*self));
            },
            ClauseNumber::Paragraph(a, b, c, d, e) => {
                push_num(out, a);
                push_dot_num(out, b);
                push_paren_letter(out, to_lower_letter(c));
                push_paren_roman(out, d, false);
                push_paren_letter(out, to_upper_letter(e));
                assert(out@ =~= start + format_commonwealth(*self));
            },
            ClauseNumber::SubParagraph(a, b, c, d, e, g) => {
                push_num(out, a);
                push_dot_num(out, b);
                push_paren_letter(out, to_lower_letter(c));
                push_paren_roman(out, d, false);
                push_paren_letter(out, to_upper_letter(e));
                push_paren_roman(out, g, true);
                assert(out@ =~= start + format_commonwealth(*self));
            },
        }
    }

    fn push_us(&self, out: &mut Vec<char>)
        requires
            number_formattable(*self, NumberingConvention::UsTraditional),
        ensures
            final(out)@ == old(out)@ + format_us_traditional(*self),
    {
        let ghost start = out@;
        match *self {
            ClauseNumber::TopLevel(a) => {
                push_roman(out, a, true);
                assert(out@ =~= start + format_us_traditional(*self));
            },
            ClauseNumber::Clause(a, b) => {
                push_roman(out, a, true);
                out.push('.');
                out.push(to_upper_letter(b));
                assert(out@ =~= start + format_us_traditional(*self));
            },
            ClauseNumber::SubClause(a, b, c) => {
                push_roman(out, a, true);
                out.push('.');
                out.push(to_upper_letter(b));
                push_dot_num(out, c);
                assert(out@ =~= start + format_us_traditional(*self));
            },
            ClauseNumber::SubSubClause(a, b, c, d) => {
                push_roman(out, a, true);
                out.push('.');
                out.push(to_upper_letter(b));
                push_dot_num(out, c);
                out.push('.');
                out.push(to_lower_letter(d));
                assert(out@ =~= start + format_us_traditional(*self));
            },
            ClauseNumber::Paragraph(a, b, c, d, e) => {
                push_roman(out, a, true);
                out.push('.');
                out.push(to_upper_letter(b));
                push_dot_num(out, c);
                out.push('.');
                out.push(to_lower_letter(d));
                push_paren_num(out, e);
                assert(out@ =~= start + format_us_traditional(*self));
            },
            ClauseNumber::SubParagraph(a, b, c, d, e, g) => {
                push_roman(out, a, true);
                out.push('.');
                out.push(to_upper_letter(b));
                push_dot_num(out, c);
                out.push('.');
                out.push(to_lower_letter(d));
                push_paren_num(out, e);
                push_paren_letter(out, to_lower_letter(g));
                assert(out@ =~= start + format_us_traditional(*self));
            },
        }
    }

    /// Append the number in `convention` to `out`.
    fn push_formatted(&self, out: &mut Vec<char>, convention: NumberingConvention)
        requires
            number_formattable(*self, convention),
        ensures
            final(out)@ == old(out)@ + format_number(*self, convention),
    {
        match convention {
            NumberingConvention::Decimal => self.push_decimal(out),
            NumberingConvention::Commonwealth => self.push_commonwealth(out),
            NumberingConvention::UsTraditional => self.push_us(out),
        }
    }

    /// A reference such as `clause 3.1(a)`: `prefix`, a space, and the
    /// number in the given convention.
    pub fn full_reference(&self, prefix: &str, convention: NumberingConvention) -> (r: String)
        requires
            number_formattable(*self, convention),
        ensures
            r@ == full_reference_spec(*self, prefix@, convention),
    {
        let mut out: Vec<char> = Vec::new();
        extend_str(&mut out, prefix);
        out.push(' ');
        self.push_formatted(&mut out, convention);
        string_of(&out)
    }

    /// The plain dotted form: `1.` for a top-level clause, else `1.2.3`.
    pub fn to_display_string(&self) -> (r: String)
        ensures
            r@ == number_display(*self),
    {
        let mut out: Vec<char> = Vec::new();
        match *self {
            ClauseNumber::TopLevel(a) => {
                push_num(&mut out, a);
                out.push('.');
            },
            _ => {
                self.push_formatted(&mut out, NumberingConvention::Decimal);
            },
        }
        assert(out@ =~= number_display(*self));
        string_of(&out)
    }
}

/// A block of clause content.
#[derive(Debug)]
pub enum ClauseContent {
    Paragraph(Vec<InlineContent>),
    Blockquote(Vec<InlineContent>),
    Table(Table),
    BulletList(Vec<Vec<InlineContent>>),
}

/// A run of inline content.
#[derive(Debug, Clone)]
pub enum InlineContent {
    Text(String),
    Bold(String),
    Italic(String),
    Superscript(String),
    CrossRef { display: String, anchor_id: String, resolved: Option<String> },
    Link { text: String, url: String },
    SoftBreak,
    LineBreak,
}

/// The value of an inline, strings by their characters.
pub enum InlineView {
    Text(Seq<char>),
    Bold(Seq<char>),
    Italic(Seq<char>),
    Superscript(Seq<char>),
    CrossRef { display: Seq<char>, anchor_id: Seq<char>, resolved: Option<Seq<char>> },
    Link { text: Seq<char>, url: Seq<char> },
    SoftBreak,
    LineBreak,
}

impl View for InlineContent {
    type V = InlineView;

    open spec fn view(&self) -> InlineView {
        match self {
            InlineContent::Text(s) => InlineView::Text(s@),
            InlineContent::Bold(s) => InlineView::Bold(s@),
            InlineContent::Italic(s) => InlineView::Italic(s@),
            InlineContent::Superscript(s) => InlineView::Superscript(s@),
            InlineContent::CrossRef { display, anchor_id, resolved } => InlineView::CrossRef {
                display: display@,
                anchor_id: anchor_id@,
                resolved: match resolved {
                    Some(r) => Some(r@),
                    None => None,
                },
            },
            InlineContent::Link { text, url } => InlineView::Link { text: text@, url: url@ },
            InlineContent::SoftBreak => InlineView::SoftBreak,
            InlineContent::LineBreak => InlineView::LineBreak,
        }
    }
}

/// The values of a run of inlines.
pub open spec fn inlines_view(s: Seq<InlineContent>) -> Seq<InlineView> {
    s.map_values(|i: InlineContent| i@)
}

/// The values of a list of inline runs (bullet items, table cells).
pub open spec fn runs_view(s: Seq<Vec<InlineContent>>) -> Seq<Seq<InlineView>> {
    s.map_values(|r: Vec<InlineContent>| inlines_view(r@))
}

/// The plain text of an inline: its text, the resolved reference of a
/// cross-reference (else its display text), a space for a soft break and a
/// newline for a hard break.
pub open spec fn inline_text(i: InlineContent) -> Seq<char> {
    match i {
        InlineContent::Text(s) => s@,
        InlineContent::Bold(s) => s@,
        InlineContent::Italic(s) => s@,
        InlineContent::Superscript(s) => s@,
        InlineContent::CrossRef { display, resolved, .. } => match resolved {
            Some(r) => r@,
            None => display@,
        },
        InlineContent::Link { text, .. } => text@,
        InlineContent::SoftBreak => seq![' '],
        InlineContent::LineBreak => seq!['\n'],
    }
}

/// Concatenated plain text of a run of inlines.
pub open spec fn inlines_text(s: Seq<InlineContent>) -> Seq<char>
    decreases s.len(),
{
    if s.len() == 0 {
        Seq::empty()
    } else {
        inlines_text(s.drop_last()) + inline_text(s.last())
    }
}

impl InlineContent {
    /// Append the plain text of this inline to `out`.
    pub fn push_plain_text(&self, out: &mut Vec<char>)
        ensures
            final(out)@ == old(out)@ + inline_text(*self),
    {
        match self {
            InlineContent::Text(s)
            | InlineContent::Bold(s)
            | InlineContent::Italic(s)
            | InlineContent::Superscript(s) => extend_str(out, s.as_str()),
            InlineContent::CrossRef { display, resolved, .. } => match resolved {
                Some(r) => extend_str(out, r.as_str()),
                None => extend_str(out, display.as_str()),
            },
            InlineContent::Link { text, .. } => extend_str(out, text.as_str()),
            InlineContent::SoftBreak => {
                out.push(' ');
                assert(out@ =~= old(out)@ + inline_text(*self));
            },
            InlineContent::LineBreak => {
                out.push('\n');
                assert(out@ =~= old(out)@ + inline_text(*self));
            },
        }
    }

    /// The plain text of this inline.
    pub fn as_plain_text(&self) -> (r: String)
        ensures
            r@ == inline_text(*self),
    {
        let mut out: Vec<char> = Vec::new();
        self.push_plain_text(&mut out);
        assert(out@ =~= inline_text(*self));
        string_of(&out)
    }
}

/// Concatenated plain text of a run of inlines.
pub fn inlines_plain_text(inlines: &[InlineContent]) -> (r: Vec<char>)
    ensures
        r@ == inlines_text(inlines@),
{
    let mut out: Vec<char> = Vec::new();
    let mut i: usize = 0;
    while i < inlines.len()
        invariant
            i <= inlines@.len(),
            out@ == inlines_text(inlines@.take(i as int)),
        decreases inlines@.len() - i,
    {
        inlines[i].push_plain_text(&mut out);
        assert(inlines@.take(i + 1).drop_last() =~= inlines@.take(i as int));
        i += 1;
    }
    assert(inlines@.take(inlines@.len() as int) =~= inlines@);
    out
}

/// A table: header row and body rows of cells.
#[derive(Debug)]
pub struct Table {
    pub headers: Vec<Vec<InlineContent>>,
    pub rows: Vec<Vec<Vec<InlineContent>>>,
}

/// An addendum (`# Addendum N - Title`).
#[derive(Debug)]
pub struct Addendum {
    pub number: u32,
    pub title: String,
    pub anchor: Option<String>,
    /// Where the addendum's heading is in the source file.
    pub source_pos: Option<SourcePos>,
    pub content: Vec<AddendumContent>,
}

/// `ADDENDUM N` or `ADDENDUM N - Title`.
pub open spec fn addendum_heading(number: u32, title: Seq<char>) -> Seq<char> {
    if title.len() == 0 {
        "ADDENDUM "@ + num(number)
    } else {
        "ADDENDUM "@ + num(number) + " - "@ + title
    }
}

impl Addendum {
    /// The full rendered heading, e.g. `ADDENDUM 1 - Details of Processing`.
    pub fn heading(&self) -> (r: String)
        ensures
            r@ == addendum_heading(self.number, self.title@),
    {
        let mut out: Vec<char> = Vec::new();
        extend_str(&mut out, "ADDENDUM ");
        push_num(&mut out, self.number);
        let t = crate::text::chars_of(self.title.as_str());
        if t.len() > 0 {
            extend_str(&mut out, " - ");
            extend_chars(&mut out, &t);
        }
        string_of(&out)
    }
}

/// A block of addendum content.
#[derive(Debug)]
pub enum AddendumContent {
    Paragraph(Vec<InlineContent>),
    Heading(u8, Vec<InlineContent>),
    ClauseList(Vec<Clause>),
    NumberedList(Vec<Vec<InlineContent>>),
    Table(Table),
    BulletList(Vec<Vec<InlineContent>>),
}

/// A defined term whose value is filled in on a schedule page.
#[derive(Debug, Clone)]
pub struct ScheduleItem {
    pub term: String,
    pub schedule_index: usize,
}

} // verus!
