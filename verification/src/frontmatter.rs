//! YAML front-matter: splitting it from the body, reading the metadata, and
//! validating it.
use vstd::prelude::*;

use crate::error::{Diagnostic, LexiconError};
use crate::model::{DocumentMeta, Exhibit, Party, ScheduleDecl, Status};
use crate::pattern::{date_parses, parses_as_date};
use crate::text::{
    chars_of, decimal_chars, extend_chars, extend_str, find, first_occurrence, is_white_space,
    owned, slice_chars, starts_with, str_eq, string_of, trim_start, trim_start_seq,
};
use crate::yaml::{
    tree_get, yaml_get, yaml_index, yaml_load, yaml_parse, yaml_scalar, yaml_tree_of, YamlScalar,
    YamlTree,
};

verus! {

// ---------------------------------------------------------------------------
// Splitting
// ---------------------------------------------------------------------------

/// The input without a leading byte-order mark.
pub open spec fn without_bom(s: Seq<char>) -> Seq<char> {
    if s.len() > 0 && s[0] == '\u{feff}' {
        s.drop_first()
    } else {
        s
    }
}

/// `s` with leading newlines removed.
pub open spec fn trim_newlines_start(s: Seq<char>) -> Seq<char>
    decreases s.len(),
{
    if s.len() > 0 && s[0] == '\n' {
        trim_newlines_start(s.drop_first())
    } else {
        s
    }
}

/// Number of newlines in `s`.
pub open spec fn count_newlines(s: Seq<char>) -> nat
    decreases s.len(),
{
    if s.len() == 0 {
        0
    } else {
        count_newlines(s.drop_last()) + if s.last() == '\n' {
            1nat
        } else {
            0nat
        }
    }
}

/// How a document splits into front-matter and body: `None` when it does
/// not begin with `---` (after a byte-order mark and white space) or has no
/// closing `\n---`; otherwise the YAML text between the delimiters and the
/// body after the closing one, leading newlines removed.
pub open spec fn split_spec(input: Seq<char>) -> Option<(Seq<char>, Seq<char>)> {
    let trimmed = trim_start_seq(without_bom(input));
    if !("---"@).is_prefix_of(trimmed) {
        None
    } else {
        let after = trimmed.skip(3);
        match first_occurrence(after, "\n---"@) {
            None => None,
            Some(close) => Some(
                (after.take(close), trim_newlines_start(after.skip(close + 4))),
            ),
        }
    }
}

/// The front-matter split off a document.
pub struct FrontMatterSplit {
    pub yaml: String,
    pub body: String,
    /// Number of source lines preceding the body.
    pub body_line_offset: usize,
}

/// Remove leading newlines.
fn trim_newlines(v: &[char]) -> (r: Vec<char>)
    ensures
        r@ == trim_newlines_start(v@),
{
    let mut i: usize = 0;
    assert(v@.skip(0) =~= v@);
    while i < v.len() && v[i] == '\n'
        invariant
            i <= v@.len(),
            trim_newlines_start(v@) == trim_newlines_start(v@.skip(i as int)),
        decreases v@.len() - i,
    {
        assert(v@.skip(i as int).drop_first() =~= v@.skip(i + 1));
        i += 1;
    }
    let r = slice_chars(v, i, v.len());
    assert(r@ =~= v@.skip(i as int));
    r
}

/// Count the newlines in `v[..n]`.
fn newlines_before(v: &[char], n: usize) -> (r: usize)
    requires
        n <= v@.len(),
    ensures
        r == count_newlines(v@.take(n as int)),
{
    let mut count: usize = 0;
    let mut i: usize = 0;
    assert(v@.take(0) =~= Seq::<char>::empty());
    while i < n
        invariant
            i <= n <= v@.len(),
            count == count_newlines(v@.take(i as int)),
            count <= i,
        decreases n - i,
    {
        assert(v@.take(i + 1).drop_last() =~= v@.take(i as int));
        if v[i] == '\n' {
            count += 1;
        }
        i += 1;
    }
    count
}

/// Split a document into its YAML front-matter and body.
pub fn split_frontmatter(input: &str) -> (r: Result<FrontMatterSplit, LexiconError>)
    ensures
        match r {
            Ok(s) => split_spec(input@) == Some((s.yaml@, s.body@)) && s.body_line_offset
                == count_newlines(input@.take(input@.len() - s.body@.len())),
            Err(e) => split_spec(input@) is None && e is FrontMatter,
        },
{
    let all = chars_of(input);
    let start: usize = if all.len() > 0 && all[0] == '\u{feff}' {
        1
    } else {
        0
    };
    let unbommed = slice_chars(&all, start, all.len());
    assert(unbommed@ =~= without_bom(input@));
    let trimmed = trim_start(&unbommed);
    let dashes = chars_of("---");
    proof {
        reveal_strlit("---");
        reveal_strlit("\n---");
    }
    if !starts_with(&trimmed, &dashes) {
        return Err(
            LexiconError::FrontMatter(owned("Document must begin with YAML front-matter (---)")),
        );
    }
    let after = slice_chars(&trimmed, 3, trimmed.len());
    assert(after@ =~= trimmed@.skip(3));
    let close_pat = chars_of("\n---");
    let close = match find(&after, &close_pat) {
        Some(c) => c,
        None => {
            return Err(LexiconError::FrontMatter(owned("No closing --- for front-matter")));
        },
    };
    let yaml = slice_chars(&after, 0, close);
    let rest = slice_chars(&after, close + 4, after.len());
    assert(rest@ =~= after@.skip(close + 4));
    assert(yaml@ =~= after@.take(close as int));
    let body = trim_newlines(&rest);
    proof {
        lemma_trim_newlines_suffix(rest@);
        lemma_trim_start_suffix(unbommed@);
        assert(body@.is_suffix_of(input@)) by {
            lemma_suffix_trans(body@, rest@, after@);
            lemma_suffix_trans(body@, after@, trimmed@);
            lemma_suffix_trans(body@, trimmed@, unbommed@);
            lemma_suffix_trans(body@, unbommed@, all@);
        }
    }
    assert(trimmed@ == trim_start_seq(without_bom(input@)));
    assert(close_pat@ == "\n---"@);
    assert(first_occurrence(after@, "\n---"@) == Some(close as int));
    assert(split_spec(input@) == Some((yaml@, body@)));
    let consumed = all.len() - body.len();
    let offset = newlines_before(&all, consumed);
    Ok(FrontMatterSplit { yaml: string_of(&yaml), body: string_of(&body), body_line_offset: offset })
}

proof fn lemma_suffix_trans(a: Seq<char>, b: Seq<char>, c: Seq<char>)
    requires
        a.is_suffix_of(b) || a =~= b,
        b.is_suffix_of(c) || b =~= c,
    ensures
        a.is_suffix_of(c),
{
    assert(c.skip(c.len() - a.len()) =~= a);
}

proof fn lemma_trim_newlines_suffix(s: Seq<char>)
    ensures
        trim_newlines_start(s).is_suffix_of(s),
    decreases s.len(),
{
    if s.len() > 0 && s[0] == '\n' {
        lemma_trim_newlines_suffix(s.drop_first());
        assert(s.drop_first().is_suffix_of(s)) by {
            assert(s.skip(1) =~= s.drop_first());
        }
        lemma_suffix_trans(trim_newlines_start(s), s.drop_first(), s);
    } else {
        assert(s.skip(0) =~= s);
    }
}

proof fn lemma_trim_start_suffix(s: Seq<char>)
    ensures
        trim_start_seq(s).is_suffix_of(s),
    decreases s.len(),
{
    if s.len() > 0 && is_white_space(s[0]) {
        lemma_trim_start_suffix(s.drop_first());
        assert(s.drop_first().is_suffix_of(s)) by {
            assert(s.skip(1) =~= s.drop_first());
        }
        lemma_suffix_trans(trim_start_seq(s), s.drop_first(), s);
    } else {
        assert(s.skip(0) =~= s);
    }
}

// ---------------------------------------------------------------------------
// Reading the metadata
// ---------------------------------------------------------------------------

/// The text of a scalar read into a string field: a string as is, a number
/// as its text, a boolean as `true`/`false`; anything else is not a string.
pub open spec fn scalar_text(t: YamlTree) -> Option<Seq<char>> {
    match t {
        YamlTree::Str(s) => Some(s),
        YamlTree::Number(s, _) => Some(s),
        YamlTree::Bool(b) => Some(
            if b {
                "true"@
            } else {
                "false"@
            },
        ),
        _ => None,
    }
}

/// A required string field: `Some(text)` when present and a scalar.
pub open spec fn required_text(t: YamlTree, key: Seq<char>) -> Option<Seq<char>> {
    match tree_get(t, key) {
        Some(v) => scalar_text(v),
        None => None,
    }
}

/// An optional string field: `Some(None)` when absent or null,
/// `Some(Some(text))` for a scalar, `None` (an error) otherwise.
pub open spec fn optional_text(t: YamlTree, key: Seq<char>) -> Option<Option<Seq<char>>> {
    match tree_get(t, key) {
        None => Some(None),
        Some(YamlTree::Null) => Some(None),
        Some(v) => match scalar_text(v) {
            Some(s) => Some(Some(s)),
            None => None,
        },
    }
}

/// The view of an optional string.
pub open spec fn opt_view(o: Option<String>) -> Option<Seq<char>> {
    match o {
        Some(s) => Some(s@),
        None => None,
    }
}

/// The `version` field: a number as its text, a string as is, anything
/// else present as the empty string; absent or null as `None`.
pub open spec fn version_text(t: YamlTree) -> Option<Seq<char>> {
    match tree_get(t, "version"@) {
        None => None,
        Some(YamlTree::Null) => None,
        Some(YamlTree::Number(s, _)) => Some(s),
        Some(YamlTree::Str(s)) => Some(s),
        Some(_) => Some(Seq::empty()),
    }
}

/// The `status` field: `Some(None)` when absent or null, the status for
/// `draft`/`final`/`executed`, `None` (an error) otherwise.
pub open spec fn status_field(t: YamlTree) -> Option<Option<Status>> {
    match tree_get(t, "status"@) {
        None => Some(None),
        Some(YamlTree::Null) => Some(None),
        Some(YamlTree::Str(s)) => if s == "draft"@ {
            Some(Some(Status::Draft))
        } else if s == "final"@ {
            Some(Some(Status::Final))
        } else if s == "executed"@ {
            Some(Some(Status::Executed))
        } else {
            None
        },
        Some(_) => None,
    }
}

/// A party entry reads as `p`.
pub open spec fn party_conforms(p: Party, t: YamlTree) -> bool {
    &&& t is Mapping
    &&& required_text(t, "role"@) == Some(p.role@)
    &&& optional_text(t, "name"@) == Some(opt_view(p.name))
    &&& optional_text(t, "specifier"@) == Some(opt_view(p.specifier))
    &&& optional_text(t, "entity_type"@) == Some(opt_view(p.entity_type))
}

/// A party entry is readable.
pub open spec fn party_readable(t: YamlTree) -> bool {
    &&& t is Mapping
    &&& required_text(t, "role"@) is Some
    &&& optional_text(t, "name"@) is Some
    &&& optional_text(t, "specifier"@) is Some
    &&& optional_text(t, "entity_type"@) is Some
}

/// An exhibit entry reads as `e`.
pub open spec fn exhibit_conforms(e: Exhibit, t: YamlTree) -> bool {
    &&& t is Mapping
    &&& required_text(t, "title"@) == Some(e.title@)
    &&& optional_text(t, "path"@) == Some(opt_view(e.path))
}

/// An exhibit entry is readable.
pub open spec fn exhibit_readable(t: YamlTree) -> bool {
    &&& t is Mapping
    &&& required_text(t, "title"@) is Some
    &&& optional_text(t, "path"@) is Some
}

/// A schedule entry reads as `s`.
pub open spec fn schedule_conforms(s: ScheduleDecl, t: YamlTree) -> bool {
    t is Mapping && required_text(t, "title"@) == Some(s.title@)
}

/// A schedule entry is readable.
pub open spec fn schedule_readable(t: YamlTree) -> bool {
    t is Mapping && required_text(t, "title"@) is Some
}

/// The items of a list field: required lists must be present; optional
/// ones default to empty when absent. Anything but a sequence is an error.
pub open spec fn list_items(t: YamlTree, key: Seq<char>, required: bool) -> Option<
    Seq<YamlTree>,
> {
    match tree_get(t, key) {
        None => if required {
            None
        } else {
            Some(Seq::empty())
        },
        Some(YamlTree::Sequence(items)) => Some(items),
        Some(_) => None,
    }
}

/// The `parties` list is present as required and every entry is readable.
pub open spec fn parties_readable(t: YamlTree) -> bool {
    list_items(t, "parties"@, true) matches Some(items) && forall|i: int|
        0 <= i < items.len() ==> party_readable(#[trigger] items[i])
}

/// `xs` is what the `parties` list reads as.
pub open spec fn parties_conform(xs: Seq<Party>, t: YamlTree) -> bool {
    list_items(t, "parties"@, true) matches Some(items) && items.len() == xs.len() && forall|i: int|
        0 <= i < items.len() ==> party_conforms(#[trigger] xs[i], items[i])
}

/// The `exhibits` list is present as required and every entry is readable.
pub open spec fn exhibits_readable(t: YamlTree) -> bool {
    list_items(t, "exhibits"@, false) matches Some(items) && forall|i: int|
        0 <= i < items.len() ==> exhibit_readable(#[trigger] items[i])
}

/// `xs` is what the `exhibits` list reads as.
pub open spec fn exhibits_conform(xs: Seq<Exhibit>, t: YamlTree) -> bool {
    list_items(t, "exhibits"@, false) matches Some(items) && items.len() == xs.len() && forall|i: int|
        0 <= i < items.len() ==> exhibit_conforms(#[trigger] xs[i], items[i])
}

/// The `schedule` list is present as required and every entry is readable.
pub open spec fn schedules_readable(t: YamlTree) -> bool {
    list_items(t, "schedule"@, false) matches Some(items) && forall|i: int|
        0 <= i < items.len() ==> schedule_readable(#[trigger] items[i])
}

/// `xs` is what the `schedule` list reads as.
pub open spec fn schedules_conform(xs: Seq<ScheduleDecl>, t: YamlTree) -> bool {
    list_items(t, "schedule"@, false) matches Some(items) && items.len() == xs.len() && forall|i: int|
        0 <= i < items.len() ==> schedule_conforms(#[trigger] xs[i], items[i])
}

/// The front-matter tree can be read as metadata.
pub open spec fn meta_readable(t: YamlTree) -> bool {
    &&& t is Mapping
    &&& required_text(t, "title"@) is Some
    &&& optional_text(t, "type"@) is Some
    &&& optional_text(t, "date"@) is Some
    &&& optional_text(t, "ref"@) is Some
    &&& optional_text(t, "author"@) is Some
    &&& status_field(t) is Some
    &&& list_items(t, "parties"@, true) matches Some(ps) && forall|i: int|
        0 <= i < ps.len() ==> party_readable(#[trigger] ps[i])
    &&& list_items(t, "exhibits"@, false) matches Some(es) && forall|i: int|
        0 <= i < es.len() ==> exhibit_readable(#[trigger] es[i])
    &&& list_items(t, "schedule"@, false) matches Some(ss) && forall|i: int|
        0 <= i < ss.len() ==> schedule_readable(#[trigger] ss[i])
}

/// `m` is the metadata the front-matter tree reads as.
pub open spec fn meta_conforms(m: DocumentMeta, t: YamlTree) -> bool {
    &&& required_text(t, "title"@) == Some(m.title@)
    &&& optional_text(t, "type"@) == Some(opt_view(m.doc_type))
    &&& optional_text(t, "date"@) == Some(opt_view(m.date))
    &&& optional_text(t, "ref"@) == Some(opt_view(m.ref_))
    &&& optional_text(t, "author"@) == Some(opt_view(m.author))
    &&& status_field(t) == Some(m.status)
    &&& opt_view(m.version) == version_text(t)
    &&& list_items(t, "parties"@, true) matches Some(ps) && ps.len() == m.parties@.len() && forall|
        i: int,
    | 0 <= i < ps.len() ==> party_conforms(#[trigger] m.parties@[i], ps[i])
    &&& list_items(t, "exhibits"@, false) matches Some(es) && es.len() == m.exhibits@.len()
        && forall|i: int| 0 <= i < es.len() ==> exhibit_conforms(#[trigger] m.exhibits@[i], es[i])
    &&& list_items(t, "schedule"@, false) matches Some(ss) && ss.len() == m.schedule@.len()
        && forall|i: int| 0 <= i < ss.len() ==> schedule_conforms(#[trigger] m.schedule@[i], ss[i])
}

fn scalar_string(v: &serde_yaml::Value) -> (r: Option<String>)
    ensures
        opt_view(r) == scalar_text(yaml_tree_of(*v)),
{
    proof {
        reveal_strlit("true");
        reveal_strlit("false");
    }
    match yaml_scalar(v) {
        YamlScalar::Str(s) => Some(s),
        YamlScalar::Number(s) => Some(s),
        YamlScalar::Bool(b) => Some(
            if b {
                owned("true")
            } else {
                owned("false")
            },
        ),
        _ => None,
    }
}

fn read_required(v: &serde_yaml::Value, key: &str) -> (r: Option<String>)
    ensures
        opt_view(r) == required_text(yaml_tree_of(*v), key@),
{
    match yaml_get(v, key) {
        Some(x) => scalar_string(x),
        None => None,
    }
}

fn read_optional(v: &serde_yaml::Value, key: &str) -> (r: Option<Option<String>>)
    ensures
        match r {
            Some(o) => optional_text(yaml_tree_of(*v), key@) == Some(opt_view(o)),
            None => optional_text(yaml_tree_of(*v), key@) is None,
        },
{
    match yaml_get(v, key) {
        None => Some(None),
        Some(x) => {
            if let YamlScalar::Null = yaml_scalar(x) {
                Some(None)
            } else {
                match scalar_string(x) {
                    Some(s) => Some(Some(s)),
                    None => None,
                }
            }
        },
    }
}

fn read_status(v: &serde_yaml::Value) -> (r: Option<Option<Status>>)
    ensures
        r == status_field(yaml_tree_of(*v)),
{
    proof {
        reveal_strlit("draft");
        reveal_strlit("final");
        reveal_strlit("executed");
    }
    match yaml_get(v, "status") {
        None => Some(None),
        Some(x) => match yaml_scalar(x) {
            YamlScalar::Null => Some(None),
            YamlScalar::Str(s) => {
                if str_eq(s.as_str(), "draft") {
                    Some(Some(Status::Draft))
                } else if str_eq(s.as_str(), "final") {
                    Some(Some(Status::Final))
                } else if str_eq(s.as_str(), "executed") {
                    Some(Some(Status::Executed))
                } else {
                    None
                }
            },
            _ => None,
        },
    }
}

fn read_version(v: &serde_yaml::Value) -> (r: Option<String>)
    ensures
        opt_view(r) == version_text(yaml_tree_of(*v)),
{
    match yaml_get(v, "version") {
        None => None,
        Some(x) => match yaml_scalar(x) {
            YamlScalar::Null => None,
            YamlScalar::Number(s) => Some(s),
            YamlScalar::Str(s) => Some(s),
            _ => Some(String::new()),
        },
    }
}

/// Read the items of a list field: the value and its length.
fn read_list<'a>(v: &'a serde_yaml::Value, key: &str, required: bool) -> (r: Option<
    (Option<&'a serde_yaml::Value>, usize),
>)
    ensures
        match r {
            Some((Some(x), n)) => list_items(yaml_tree_of(*v), key@, required) == Some(
                yaml_tree_of(*x)->Sequence_0,
            ) && yaml_tree_of(*x) is Sequence && n == yaml_tree_of(*x)->Sequence_0.len(),
            Some((None, n)) => n == 0 && list_items(yaml_tree_of(*v), key@, required) == Some(
                Seq::<YamlTree>::empty(),
            ),
            None => list_items(yaml_tree_of(*v), key@, required) is None,
        },
{
    match yaml_get(v, key) {
        None => if required {
            None
        } else {
            Some((None, 0))
        },
        Some(x) => match yaml_scalar(x) {
            YamlScalar::Sequence(n) => Some((Some(x), n)),
            _ => None,
        },
    }
}

fn read_party(v: &serde_yaml::Value) -> (r: Option<Party>)
    ensures
        match r {
            Some(p) => party_conforms(p, yaml_tree_of(*v)),
            None => !party_readable(yaml_tree_of(*v)),
        },
{
    let is_map = matches!(yaml_scalar(v), YamlScalar::Mapping);
    if !is_map {
        return None;
    }
    let role = read_required(v, "role");
    let name = read_optional(v, "name");
    let specifier = read_optional(v, "specifier");
    let entity_type = read_optional(v, "entity_type");
    match (role, name, specifier, entity_type) {
        (Some(role), Some(name), Some(specifier), Some(entity_type)) => Some(
            Party { name, specifier, role, entity_type },
        ),
        _ => None,
    }
}

fn read_exhibit(v: &serde_yaml::Value) -> (r: Option<Exhibit>)
    ensures
        match r {
            Some(e) => exhibit_conforms(e, yaml_tree_of(*v)),
            None => !exhibit_readable(yaml_tree_of(*v)),
        },
{
    let is_map = matches!(yaml_scalar(v), YamlScalar::Mapping);
    if !is_map {
        return None;
    }
    match (read_required(v, "title"), read_optional(v, "path")) {
        (Some(title), Some(path)) => Some(Exhibit { title, path }),
        _ => None,
    }
}

fn read_schedule(v: &serde_yaml::Value) -> (r: Option<ScheduleDecl>)
    ensures
        match r {
            Some(s) => schedule_conforms(s, yaml_tree_of(*v)),
            None => !schedule_readable(yaml_tree_of(*v)),
        },
{
    let is_map = matches!(yaml_scalar(v), YamlScalar::Mapping);
    if !is_map {
        return None;
    }
    match read_required(v, "title") {
        Some(title) => Some(ScheduleDecl { title }),
        None => None,
    }
}

fn read_parties(v: &serde_yaml::Value) -> (r: Option<Vec<Party>>)
    ensures
        match r {
            Some(xs) => parties_conform(xs@, yaml_tree_of(*v)),
            None => !parties_readable(yaml_tree_of(*v)),
        },
{
    let (list, n) = match read_list(v, "parties", true) {
        Some(x) => x,
        None => return None,
    };
    let mut out: Vec<Party> = Vec::new();
    if let Some(seq) = list {
        let ghost items = yaml_tree_of(*seq)->Sequence_0;
        let mut i: usize = 0;
        while i < n
            invariant
                i <= n,
                n == items.len(),
                yaml_tree_of(*seq) == YamlTree::Sequence(items),
                list_items(yaml_tree_of(*v), "parties"@, true) == Some(items),
                out@.len() == i,
                forall|k: int| 0 <= k < i ==> party_conforms(#[trigger] out@[k], items[k]),
            decreases n - i,
        {
            let item = match yaml_index(seq, i) {
                Some(x) => x,
                None => return None,
            };
            match read_party(item) {
                Some(p) => out.push(p),
                None => {
                    assert(!party_readable(items[i as int]));
                    assert(!parties_readable(yaml_tree_of(*v))) by {
                        if parties_readable(yaml_tree_of(*v)) {
                            let its = list_items(yaml_tree_of(*v), "parties"@, true)->Some_0;
                            assert(its == items);
                            assert(party_readable(its[i as int]));
                        }
                    }
                    return None;
                },
            }
            i += 1;
        }
    }
    Some(out)
}

fn read_exhibits(v: &serde_yaml::Value) -> (r: Option<Vec<Exhibit>>)
    ensures
        match r {
            Some(xs) => exhibits_conform(xs@, yaml_tree_of(*v)),
            None => !exhibits_readable(yaml_tree_of(*v)),
        },
{
    let (list, n) = match read_list(v, "exhibits", false) {
        Some(x) => x,
        None => return None,
    };
    let mut out: Vec<Exhibit> = Vec::new();
    if let Some(seq) = list {
        let ghost items = yaml_tree_of(*seq)->Sequence_0;
        let mut i: usize = 0;
        while i < n
            invariant
                i <= n,
                n == items.len(),
                yaml_tree_of(*seq) == YamlTree::Sequence(items),
                list_items(yaml_tree_of(*v), "exhibits"@, false) == Some(items),
                out@.len() == i,
                forall|k: int| 0 <= k < i ==> exhibit_conforms(#[trigger] out@[k], items[k]),
            decreases n - i,
        {
            let item = match yaml_index(seq, i) {
                Some(x) => x,
                None => return None,
            };
            match read_exhibit(item) {
                Some(e) => out.push(e),
                None => {
                    assert(!exhibit_readable(items[i as int]));
                    assert(!exhibits_readable(yaml_tree_of(*v))) by {
                        if exhibits_readable(yaml_tree_of(*v)) {
                            let its = list_items(yaml_tree_of(*v), "exhibits"@, false)->Some_0;
                            assert(its == items);
                            assert(exhibit_readable(its[i as int]));
                        }
                    }
                    return None;
                },
            }
            i += 1;
        }
    }
    Some(out)
}

fn read_schedules(v: &serde_yaml::Value) -> (r: Option<Vec<ScheduleDecl>>)
    ensures
        match r {
            Some(xs) => schedules_conform(xs@, yaml_tree_of(*v)),
            None => !schedules_readable(yaml_tree_of(*v)),
        },
{
    let (list, n) = match read_list(v, "schedule", false) {
        Some(x) => x,
        None => return None,
    };
    let mut out: Vec<ScheduleDecl> = Vec::new();
    if let Some(seq) = list {
        let ghost items = yaml_tree_of(*seq)->Sequence_0;
        let mut i: usize = 0;
        while i < n
            invariant
                i <= n,
                n == items.len(),
                yaml_tree_of(*seq) == YamlTree::Sequence(items),
                list_items(yaml_tree_of(*v), "schedule"@, false) == Some(items),
                out@.len() == i,
                forall|k: int| 0 <= k < i ==> schedule_conforms(#[trigger] out@[k], items[k]),
            decreases n - i,
        {
            let item = match yaml_index(seq, i) {
                Some(x) => x,
                None => return None,
            };
            match read_schedule(item) {
                Some(s) => out.push(s),
                None => {
                    assert(!schedule_readable(items[i as int]));
                    assert(!schedules_readable(yaml_tree_of(*v))) by {
                        if schedules_readable(yaml_tree_of(*v)) {
                            let its = list_items(yaml_tree_of(*v), "schedule"@, false)->Some_0;
                            assert(its == items);
                            assert(schedule_readable(its[i as int]));
                        }
                    }
                    return None;
                },
            }
            i += 1;
        }
    }
    Some(out)
}

/// Read the metadata out of a parsed front-matter value.
pub fn read_meta(v: &serde_yaml::Value) -> (r: Option<DocumentMeta>)
    ensures
        match r {
            Some(m) => meta_readable(yaml_tree_of(*v)) && meta_conforms(m, yaml_tree_of(*v)),
            None => !meta_readable(yaml_tree_of(*v)),
        },
{
    let is_map = matches!(yaml_scalar(v), YamlScalar::Mapping);
    if !is_map {
        return None;
    }
    let title = match read_required(v, "title") {
        Some(t) => t,
        None => return None,
    };
    let doc_type = match read_optional(v, "type") {
        Some(t) => t,
        None => return None,
    };
    let date = match read_optional(v, "date") {
        Some(t) => t,
        None => return None,
    };
    let ref_ = match read_optional(v, "ref") {
        Some(t) => t,
        None => return None,
    };
    let author = match read_optional(v, "author") {
        Some(t) => t,
        None => return None,
    };
    let status = match read_status(v) {
        Some(s) => s,
        None => return None,
    };
    let version = read_version(v);
    let parties = match read_parties(v) {
        Some(p) => p,
        None => return None,
    };
    let exhibits = match read_exhibits(v) {
        Some(e) => e,
        None => return None,
    };
    let schedule = match read_schedules(v) {
        Some(s) => s,
        None => return None,
    };
    proof {
        let t = yaml_tree_of(*v);
        let ps = list_items(t, "parties"@, true)->Some_0;
        assert forall|i: int| 0 <= i < ps.len() implies party_readable(#[trigger] ps[i]) by {
            assert(party_conforms(parties@[i], ps[i]));
        }
        let es = list_items(t, "exhibits"@, false)->Some_0;
        assert forall|i: int| 0 <= i < es.len() implies exhibit_readable(#[trigger] es[i]) by {
            assert(exhibit_conforms(exhibits@[i], es[i]));
        }
        let ss = list_items(t, "schedule"@, false)->Some_0;
        assert forall|i: int| 0 <= i < ss.len() implies schedule_readable(#[trigger] ss[i]) by {
            assert(schedule_conforms(schedule@[i], ss[i]));
        }
    }
    Some(
        DocumentMeta {
            title,
            doc_type,
            date,
            ref_,
            author,
            status,
            version,
            parties,
            exhibits,
            schedule,
        },
    )
}

// ---------------------------------------------------------------------------
// Validation
// ---------------------------------------------------------------------------

/// The date format the front-matter `date` must have.
pub const DATE_FORMAT: &'static str = "%Y-%m-%d";

/// The diagnostics front-matter validation reports, in order: an invalid
/// date, missing parties, then one per party with an empty role.
pub open spec fn validation_codes(m: DocumentMeta) -> Seq<Seq<char>> {
    let date_bad = match m.date {
        Some(d) => !date_parses(d@, DATE_FORMAT@),
        None => false,
    };
    (if date_bad {
        seq!["invalid-date"@]
    } else {
        Seq::empty()
    }) + (if m.parties@.len() == 0 {
        seq!["missing-parties"@]
    } else {
        Seq::empty()
    }) + Seq::new(empty_roles(m.parties@), |i: int| "missing-party-role"@)
}

/// Number of parties with an empty role.
pub open spec fn empty_roles(ps: Seq<Party>) -> nat
    decreases ps.len(),
{
    if ps.len() == 0 {
        0
    } else {
        empty_roles(ps.drop_last()) + if ps.last().role@.len() == 0 {
            1nat
        } else {
            0nat
        }
    }
}

/// Validate the metadata: the date must parse as `YYYY-MM-DD`, there must
/// be parties, and every party must have a role. All findings are errors
/// located at the front-matter.
pub fn validate_meta(meta: &DocumentMeta) -> (r: Vec<Diagnostic>)
    ensures
        r@.map_values(|d: Diagnostic| d.code@) == validation_codes(*meta),
        forall|i: int| 0 <= i < r@.len() ==> (#[trigger] r@[i]).level
            == crate::error::DiagLevel::Error,
{
    let mut out: Vec<Diagnostic> = Vec::new();
    proof {
        reveal_strlit("invalid-date");
        reveal_strlit("missing-parties");
        reveal_strlit("missing-party-role");
    }
    if let Some(date) = &meta.date {
        if !parses_as_date(date.as_str(), DATE_FORMAT) {
            let mut m: Vec<char> = Vec::new();
            extend_str(&mut m, "Date '");
            extend_str(&mut m, date.as_str());
            extend_str(&mut m, "' is not a valid YYYY-MM-DD date");
            out.push(
                Diagnostic::error("invalid-date", string_of(&m)).at(owned("front-matter")),
            );
        }
    }
    if meta.parties.len() == 0 {
        out.push(
            Diagnostic::error(
                "missing-parties",
                owned("No parties defined in front-matter"),
            ).at(owned("front-matter")),
        );
    }
    let ghost head = out@.map_values(|d: Diagnostic| d.code@);
    let ghost ps = meta.parties@;
    let mut i: usize = 0;
    assert(ps.take(0) =~= Seq::<Party>::empty());
    assert(out@.map_values(|d: Diagnostic| d.code@) =~= head + Seq::new(
        empty_roles(ps.take(0)),
        |k: int| "missing-party-role"@,
    ));
    while i < meta.parties.len()
        invariant
            i <= ps.len(),
            ps == meta.parties@,
            out@.map_values(|d: Diagnostic| d.code@) == head + Seq::new(
                empty_roles(ps.take(i as int)),
                |k: int| "missing-party-role"@,
            ),
            forall|k: int| 0 <= k < out@.len() ==> (#[trigger] out@[k]).level
                == crate::error::DiagLevel::Error,
        decreases ps.len() - i,
    {
        let ghost before = out@;
        proof {
            assert(ps.take(i + 1).drop_last() =~= ps.take(i as int));
        }
        let role = chars_of(meta.parties[i].role.as_str());
        if role.len() == 0 {
            let mut m: Vec<char> = Vec::new();
            extend_str(&mut m, "Party ");
            let d = decimal_chars(i + 1);
            extend_chars(&mut m, &d);
            extend_str(&mut m, " has empty role");
            out.push(Diagnostic::error("missing-party-role", string_of(&m)).at(owned("front-matter")));
            assert(out@.map_values(|d: Diagnostic| d.code@) =~= before.map_values(
                |d: Diagnostic| d.code@,
            ).push("missing-party-role"@));
        }
        i += 1;
        assert(out@.map_values(|d: Diagnostic| d.code@) =~= head + Seq::new(
            empty_roles(ps.take(i as int)),
            |k: int| "missing-party-role"@,
        ));
    }
    assert(ps.take(ps.len() as int) =~= ps);
    out
}

// ---------------------------------------------------------------------------
// The whole front-matter step
// ---------------------------------------------------------------------------

/// The result of reading a document's front-matter.
pub struct FrontMatterResult {
    pub meta: DocumentMeta,
    pub body: String,
    /// Number of source lines preceding the body (front-matter and
    /// delimiters), so body-relative line numbers can be mapped back.
    pub body_line_offset: usize,
    pub diagnostics: Vec<Diagnostic>,
}

/// Split the front-matter off a document, read it as metadata and validate
/// it. Fails when the delimiters are missing, the YAML does not parse, or
/// the YAML does not have the shape of the metadata.
pub fn parse_frontmatter(input: &str) -> (r: Result<FrontMatterResult, LexiconError>)
    ensures
        match r {
            Ok(fm) => {
                &&& split_spec(input@) matches Some((yaml, body))
                &&& fm.body@ == body
                &&& fm.body_line_offset == count_newlines(input@.take(input@.len() - body.len()))
                &&& yaml_parse(yaml) matches Some(t)
                &&& meta_readable(t)
                &&& meta_conforms(fm.meta, t)
                &&& fm.diagnostics@.map_values(|d: Diagnostic| d.code@) == validation_codes(fm.meta)
            },
            Err(e) => e is FrontMatter && (split_spec(input@) matches Some((yaml, body)) ==> (
            yaml_parse(yaml) matches Some(t) ==> !meta_readable(t))),
        },
{
    let split = split_frontmatter(input)?;
    let value = match yaml_load(split.yaml.as_str()) {
        Ok(v) => v,
        Err(e) => {
            let mut m: Vec<char> = Vec::new();
            extend_str(&mut m, "Invalid YAML front-matter: ");
            extend_str(&mut m, e.as_str());
            return Err(LexiconError::FrontMatter(string_of(&m)));
        },
    };
    let meta = match read_meta(&value) {
        Some(m) => m,
        None => {
            return Err(
                LexiconError::FrontMatter(
                    owned("Invalid YAML front-matter: the fields do not match the expected shape"),
                ),
            );
        },
    };
    let diagnostics = validate_meta(&meta);
    Ok(
        FrontMatterResult {
            meta,
            body: split.body,
            body_line_offset: split.body_line_offset,
            diagnostics,
        },
    )
}

} // verus!
