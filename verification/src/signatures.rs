//! Signature blocks: which execution template each party signs under, and
//! the block built from it.
//!
//! Templates come from a definitions file keyed by jurisdiction, entity type
//! and execution method (`au` / `company` / `deed`). A party's template is
//! its configured override, else the one its `entity_type` and the
//! document's execution method select, else a minimal built-in block.
use vstd::prelude::*;

use crate::error::{DiagLevel, Diagnostic};
use crate::frontmatter::opt_view;
use crate::model::Party;
use crate::render::common::{clean_empty_parens, without_empty_parens};
use crate::style::{SignatoryOverride, SignaturesConfig, SignaturesPartyOverride};
use crate::terms::str_opt_view;
use crate::text::{
    chars_eq, chars_eq_ignore_ascii_case, chars_of, eq_ignore_ascii_case, extend_str, find,
    first_occurrence, lines_view, owned, replace_seq, replace_str, slice_chars, split_chars,
    split_on, str_eq, string_of,
};

verus! {

/// A resolved signature block ready for rendering.
#[derive(Debug, Clone)]
pub struct SignatureBlock {
    pub intro: String,
    pub signatories: Vec<Signatory>,
    pub fields: Vec<SignatureField>,
    pub witness: bool,
    pub witness_fields: Vec<SignatureField>,
}

/// One person signing for a party.
#[derive(Debug, Clone)]
pub struct Signatory {
    pub title: Option<String>,
}

/// One field of a signature block: a signature line or a blank to fill in.
#[derive(Debug, Clone)]
pub struct SignatureField {
    pub label: Option<String>,
    pub field_type: FieldType,
    pub value: Option<String>,
}

/// How a field is drawn.
#[derive(Debug, Clone, Copy, PartialEq, Eq, Structural)]
pub enum FieldType {
    Line,
    Blank,
}

/// A template of the definitions file.
#[derive(Debug, Clone)]
pub struct TemplateDefinition {
    pub intro: String,
    pub signatories: Vec<SignatoryDef>,
    pub fields: Vec<FieldDef>,
    pub witness: bool,
    pub witness_fields: Vec<FieldDef>,
}

/// A signatory of a template.
#[derive(Debug, Clone)]
pub struct SignatoryDef {
    pub title: Option<String>,
}

/// A field of a template; `field_type` is `"line"` for a signature line,
/// anything else (or nothing) for a blank.
#[derive(Debug, Clone)]
pub struct FieldDef {
    pub field_type: Option<String>,
    pub label: Option<String>,
    pub value: Option<String>,
}

/// One template of the definitions file with its three keys.
#[derive(Debug, Clone)]
pub struct DefinitionEntry {
    pub jurisdiction: String,
    pub entity_type: String,
    pub execution: String,
    pub template: TemplateDefinition,
}

/// The definitions file: its templates, each under a jurisdiction, an
/// entity type and an execution method. The file is a nested table, so no
/// two entries share all three keys.
#[derive(Debug, Clone)]
pub struct Definitions {
    pub entries: Vec<DefinitionEntry>,
}

// ---------------------------------------------------------------------------
// Views
// ---------------------------------------------------------------------------

/// A field's label, kind and value.
pub type FieldView = (Option<Seq<char>>, FieldType, Option<Seq<char>>);

impl View for SignatureField {
    type V = FieldView;

    open spec fn view(&self) -> FieldView {
        (opt_view(self.label), self.field_type, opt_view(self.value))
    }
}

/// The fields of a list of fields.
pub open spec fn fields_view(fs: Seq<SignatureField>) -> Seq<FieldView> {
    fs.map_values(|f: SignatureField| f@)
}

/// The titles of a list of signatories.
pub open spec fn titles_view(ss: Seq<Signatory>) -> Seq<Option<Seq<char>>> {
    ss.map_values(|s: Signatory| opt_view(s.title))
}

/// A signature block's content.
pub struct BlockView {
    pub intro: Seq<char>,
    pub signatories: Seq<Option<Seq<char>>>,
    pub fields: Seq<FieldView>,
    pub witness: bool,
    pub witness_fields: Seq<FieldView>,
}

impl View for SignatureBlock {
    type V = BlockView;

    open spec fn view(&self) -> BlockView {
        BlockView {
            intro: self.intro@,
            signatories: titles_view(self.signatories@),
            fields: fields_view(self.fields@),
            witness: self.witness,
            witness_fields: fields_view(self.witness_fields@),
        }
    }
}

// ---------------------------------------------------------------------------
// Execution method and lookups
// ---------------------------------------------------------------------------

/// `deed` when the document's type is `Deed` in any case, else `agreement`.
pub open spec fn execution_of(short_title: Option<Seq<char>>) -> Seq<char> {
    match short_title {
        Some(t) => if eq_ignore_ascii_case(t, "deed"@) {
            "deed"@
        } else {
            "agreement"@
        },
        None => "agreement"@,
    }
}

/// Determine the execution method from the document's type.
pub fn execution_method(short_title: Option<&str>) -> (r: &'static str)
    ensures
        r@ == execution_of(str_opt_view(short_title)),
{
    match short_title {
        Some(t) => {
            let tc = chars_of(t);
            let deed = chars_of("deed");
            if chars_eq_ignore_ascii_case(&tc, &deed) {
                "deed"
            } else {
                "agreement"
            }
        },
        None => "agreement",
    }
}

/// `au-company` split at its first hyphen into `au` and `company`; `None`
/// without a hyphen.
pub open spec fn entity_parts(entity_type: Seq<char>) -> Option<(Seq<char>, Seq<char>)> {
    match first_occurrence(entity_type, seq!['-']) {
        Some(i) => Some((entity_type.take(i), entity_type.skip(i + 1))),
        None => None,
    }
}

/// Split an entity type at its first hyphen.
fn split_entity_type(entity_type: &str) -> (r: Option<(Vec<char>, Vec<char>)>)
    ensures
        match r {
            Some((j, t)) => entity_parts(entity_type@) == Some((j@, t@)),
            None => entity_parts(entity_type@) is None,
        },
{
    let s = chars_of(entity_type);
    let mut hyphen: Vec<char> = Vec::new();
    hyphen.push('-');
    assert(hyphen@ =~= seq!['-']);
    match find(&s, &hyphen) {
        Some(i) => {
            let n = s.len();
            assert(i + 1 <= n);
            let j = slice_chars(&s, 0, i);
            let t = slice_chars(&s, i + 1, n);
            assert(j@ =~= s@.take(i as int));
            assert(t@ =~= s@.skip(i + 1));
            Some((j, t))
        },
        None => None,
    }
}

/// Whether an entry is filed under the three keys.
pub open spec fn filed_under(
    e: DefinitionEntry,
    jurisdiction: Seq<char>,
    entity: Seq<char>,
    execution: Seq<char>,
) -> bool {
    e.jurisdiction@ == jurisdiction && e.entity_type@ == entity && e.execution@ == execution
}

/// Position of the entry filed under the three keys (the first, were there
/// several).
pub open spec fn find_definition(
    es: Seq<DefinitionEntry>,
    jurisdiction: Seq<char>,
    entity: Seq<char>,
    execution: Seq<char>,
) -> Option<int>
    decreases es.len(),
{
    if es.len() == 0 {
        None
    } else {
        match find_definition(es.drop_last(), jurisdiction, entity, execution) {
            Some(i) => Some(i),
            None => if filed_under(es.last(), jurisdiction, entity, execution) {
                Some(es.len() - 1)
            } else {
                None
            },
        }
    }
}

proof fn lemma_find_definition_bound(
    es: Seq<DefinitionEntry>,
    jurisdiction: Seq<char>,
    entity: Seq<char>,
    execution: Seq<char>,
)
    ensures
        find_definition(es, jurisdiction, entity, execution) matches Some(i) ==> 0 <= i < es.len(),
    decreases es.len(),
{
    if es.len() > 0 {
        lemma_find_definition_bound(es.drop_last(), jurisdiction, entity, execution);
    }
}

/// Find the entry filed under the three keys.
fn find_entry(defs: &Definitions, jurisdiction: &[char], entity: &[char], execution: &[char]) -> (r:
    Option<usize>)
    ensures
        match r {
            Some(i) => find_definition(defs.entries@, jurisdiction@, entity@, execution@) == Some(
                i as int,
            ) && i < defs.entries@.len(),
            None => find_definition(defs.entries@, jurisdiction@, entity@, execution@) is None,
        },
{
    let es = &defs.entries;
    let mut i: usize = 0;
    while i < es.len()
        invariant
            i <= es@.len(),
            es@ == defs.entries@,
            find_definition(es@.take(i as int), jurisdiction@, entity@, execution@) is None,
        decreases es@.len() - i,
    {
        let e = &es[i];
        let j = chars_of(e.jurisdiction.as_str());
        let t = chars_of(e.entity_type.as_str());
        let x = chars_of(e.execution.as_str());
        assert(es@.take(i + 1).drop_last() =~= es@.take(i as int));
        if chars_eq(&j, jurisdiction) && chars_eq(&t, entity) && chars_eq(&x, execution) {
            proof {
                assert(es@.take(i + 1).last() == es@[i as int]);
                assert(find_definition(es@.take(i + 1), jurisdiction@, entity@, execution@) == Some(
                    i as int,
                ));
                lemma_find_definition_prefix(es@, i + 1, jurisdiction@, entity@, execution@);
            }
            return Some(i);
        }
        i += 1;
    }
    assert(es@.take(es@.len() as int) =~= es@);
    None
}

proof fn lemma_find_definition_prefix(
    es: Seq<DefinitionEntry>,
    n: int,
    jurisdiction: Seq<char>,
    entity: Seq<char>,
    execution: Seq<char>,
)
    requires
        0 <= n <= es.len(),
        find_definition(es.take(n), jurisdiction, entity, execution) is Some,
    ensures
        find_definition(es, jurisdiction, entity, execution) == find_definition(
            es.take(n),
            jurisdiction,
            entity,
            execution,
        ),
    decreases es.len() - n,
{
    if n < es.len() {
        assert(es.take(n + 1).drop_last() =~= es.take(n));
        lemma_find_definition_prefix(es, n + 1, jurisdiction, entity, execution);
    } else {
        assert(es.take(n) =~= es);
    }
}

/// The entry an entity type selects for an execution method.
pub open spec fn lookup_definition_spec(
    defs: Definitions,
    entity_type: Seq<char>,
    execution: Seq<char>,
) -> Option<int> {
    match entity_parts(entity_type) {
        Some((j, t)) => find_definition(defs.entries@, j, t, execution),
        None => None,
    }
}

/// Look up a template by entity type (`au-company`) and execution method.
fn lookup_definition(defs: &Definitions, entity_type: &str, execution: &str) -> (r: Option<usize>)
    ensures
        match r {
            Some(i) => lookup_definition_spec(*defs, entity_type@, execution@) == Some(i as int) && i
                < defs.entries@.len(),
            None => lookup_definition_spec(*defs, entity_type@, execution@) is None,
        },
{
    match split_entity_type(entity_type) {
        Some((j, t)) => {
            let x = chars_of(execution);
            find_entry(defs, &j, &t, &x)
        },
        None => None,
    }
}

/// The entry a template key `jurisdiction.entity.execution` names; `None`
/// unless the key has exactly three parts.
pub open spec fn keyed_definition(defs: Definitions, key: Seq<char>) -> Option<int> {
    let parts = split_on(key, '.');
    if parts.len() == 3 {
        find_definition(defs.entries@, parts[0], parts[1], parts[2])
    } else {
        None
    }
}

fn lookup_key(defs: &Definitions, key: &str) -> (r: Option<usize>)
    ensures
        match r {
            Some(i) => keyed_definition(*defs, key@) == Some(i as int) && i < defs.entries@.len(),
            None => keyed_definition(*defs, key@) is None,
        },
{
    let k = chars_of(key);
    let parts = split_chars(&k, '.');
    assert(lines_view(parts@).len() == parts@.len());
    if parts.len() == 3 {
        assert(lines_view(parts@)[0] == parts@[0]@);
        assert(lines_view(parts@)[1] == parts@[1]@);
        assert(lines_view(parts@)[2] == parts@[2]@);
        find_entry(defs, &parts[0], &parts[1], &parts[2])
    } else {
        None
    }
}

/// Position of the override configured for a role (the first, were there
/// several).
pub open spec fn find_override(ps: Seq<(String, SignaturesPartyOverride)>, role: Seq<char>) -> Option<
    int,
>
    decreases ps.len(),
{
    if ps.len() == 0 {
        None
    } else {
        match find_override(ps.drop_last(), role) {
            Some(i) => Some(i),
            None => if ps.last().0@ == role {
                Some(ps.len() - 1)
            } else {
                None
            },
        }
    }
}

proof fn lemma_find_override_prefix(ps: Seq<(String, SignaturesPartyOverride)>, n: int, role: Seq<char>)
    requires
        0 <= n <= ps.len(),
        find_override(ps.take(n), role) is Some,
    ensures
        find_override(ps, role) == find_override(ps.take(n), role),
    decreases ps.len() - n,
{
    if n < ps.len() {
        assert(ps.take(n + 1).drop_last() =~= ps.take(n));
        lemma_find_override_prefix(ps, n + 1, role);
    } else {
        assert(ps.take(n) =~= ps);
    }
}

/// The override configured for a role.
fn party_override<'a>(config: &'a SignaturesConfig, role: &str) -> (r: Option<&'a SignaturesPartyOverride>)
    ensures
        match find_override(config.party@, role@) {
            Some(i) => 0 <= i < config.party@.len() && r == Some(&config.party@[i].1),
            None => r is None,
        },
{
    let ps = &config.party;
    let mut i: usize = 0;
    while i < ps.len()
        invariant
            i <= ps@.len(),
            ps == &config.party,
            find_override(ps@.take(i as int), role@) is None,
        decreases ps@.len() - i,
    {
        assert(ps@.take(i + 1).drop_last() =~= ps@.take(i as int));
        if str_eq(ps[i].0.as_str(), role) {
            proof {
                assert(ps@.take(i + 1).last() == ps@[i as int]);
                assert(find_override(ps@.take(i + 1), role@) == Some(i as int));
                lemma_find_override_prefix(ps@, i + 1, role@);
            }
            return Some(&ps[i].1);
        }
        i += 1;
    }
    assert(ps@.take(ps@.len() as int) =~= ps@);
    None
}

// ---------------------------------------------------------------------------
// Choosing a template
// ---------------------------------------------------------------------------

/// The template key configured for a party: its override's template, else
/// the configured default.
pub open spec fn template_key(config: SignaturesConfig, party: Party) -> Option<Seq<char>> {
    match find_override(config.party@, party.role@) {
        Some(i) => match config.party@[i].1.template {
            Some(t) => Some(t@),
            None => opt_view(config.default_template),
        },
        None => opt_view(config.default_template),
    }
}

/// The template a party's key, or else its entity type, selects.
pub open spec fn primary_template(
    config: SignaturesConfig,
    party: Party,
    execution: Seq<char>,
    defs: Option<Definitions>,
) -> Option<int> {
    match template_key(config, party) {
        Some(k) => match defs {
            Some(d) => keyed_definition(d, k),
            None => None,
        },
        None => match party.entity_type {
            Some(et) => match defs {
                Some(d) => lookup_definition_spec(d, et@, execution),
                None => None,
            },
            None => None,
        },
    }
}

/// The template a party signs under: its override's template key, else
/// the one its entity type and the execution method select; `None` when
/// there is none, and the built-in block is used.
pub open spec fn chosen_template(
    config: SignaturesConfig,
    party: Party,
    execution: Seq<char>,
    defs: Option<Definitions>,
) -> Option<int> {
    primary_template(config, party, execution, defs)
}

/// The warning resolving a party's block gives, as code, message and
/// location: a party with neither a key nor an entity type has no
/// `entity_type`; one whose key or entity type finds nothing has no
/// template.
pub open spec fn party_warning(
    config: SignaturesConfig,
    party: Party,
    execution: Seq<char>,
    defs: Option<Definitions>,
) -> Option<(Seq<char>, Seq<char>, Option<Seq<char>>)> {
    if template_key(config, party) is None && party.entity_type is None {
        Some(
            (
                "signature-missing-entity-type"@,
                "Party '"@ + party.role@ + "' has no entity_type; using generic signature block"@,
                Some("front-matter"@),
            ),
        )
    } else if primary_template(config, party, execution, defs) is None {
        Some(
            (
                "signature-template-missing"@,
                "No signature template found for party '"@ + party.role@ + "' (entity_type: "@
                    + match party.entity_type {
                    Some(e) => e@,
                    None => "none"@,
                } + ", execution: "@ + execution + "); using fallback"@,
                None,
            ),
        )
    } else {
        None
    }
}

/// `d` is a warning with this code, message and location, and no position.
pub open spec fn warning_is(
    d: Diagnostic,
    code: Seq<char>,
    message: Seq<char>,
    location: Option<Seq<char>>,
) -> bool {
    &&& d.level == DiagLevel::Warning
    &&& d.code@ == code
    &&& d.message@ == message
    &&& opt_view(d.location) == location
    &&& d.line is None
    &&& d.column is None
}

// ---------------------------------------------------------------------------
// Building the block
// ---------------------------------------------------------------------------

/// A template field as a block field: `"line"` is a signature line,
/// anything else a blank.
pub open spec fn def_field_view(d: FieldDef) -> FieldView {
    (
        opt_view(d.label),
        if opt_view(d.field_type) == Some("line"@) {
            FieldType::Line
        } else {
            FieldType::Blank
        },
        opt_view(d.value),
    )
}

/// The block fields of a list of template fields.
pub open spec fn def_fields_view(ds: Seq<FieldDef>) -> Seq<FieldView> {
    ds.map_values(|d: FieldDef| def_field_view(d))
}

/// The titles of a template's signatories.
pub open spec fn def_titles_view(ss: Seq<SignatoryDef>) -> Seq<Option<Seq<char>>> {
    ss.map_values(|s: SignatoryDef| opt_view(s.title))
}

/// The fields of the built-in block: a signature line, the name, the date.
pub open spec fn fallback_fields() -> Seq<FieldView> {
    seq![
        (None, FieldType::Line, None),
        (Some("Name"@), FieldType::Blank, Some("{name}"@)),
        (Some("Date"@), FieldType::Blank, None),
    ]
}

/// The witness fields used when a template gives none: a signature line,
/// the witness's name and address.
pub open spec fn default_witness_view() -> Seq<FieldView> {
    seq![
        (None, FieldType::Line, None),
        (Some("Witness name"@), FieldType::Blank, None),
        (Some("Address"@), FieldType::Blank, None),
    ]
}

/// An optional text, or the empty text.
pub open spec fn or_empty(o: Option<String>) -> Seq<char> {
    match o {
        Some(s) => s@,
        None => Seq::empty(),
    }
}

/// A block's intro with `{name}`, `{specifier}`, `{role}` and
/// `{short_title}` filled in (absent ones empty, the short title
/// `Agreement`), then cleared of empty parentheses.
pub open spec fn expanded_intro(template: Seq<char>, party: Party, short_title: Option<Seq<char>>) -> Seq<
    char,
> {
    without_empty_parens(
        replace_seq(
            replace_seq(
                replace_seq(
                    replace_seq(template, "{name}"@, or_empty(party.name)),
                    "{specifier}"@,
                    or_empty(party.specifier),
                ),
                "{role}"@,
                party.role@,
            ),
            "{short_title}"@,
            match short_title {
                Some(t) => t,
                None => "Agreement"@,
            },
        ),
    )
}

/// A field value with `{title}`, `{name}`, `{specifier}` and `{role}`
/// filled in, absent ones empty.
pub open spec fn expanded_value(value: Seq<char>, party: Party, signatory: Signatory) -> Seq<char> {
    replace_seq(
        replace_seq(
            replace_seq(
                replace_seq(value, "{title}"@, or_empty(signatory.title)),
                "{name}"@,
                or_empty(party.name),
            ),
            "{specifier}"@,
            or_empty(party.specifier),
        ),
        "{role}"@,
        party.role@,
    )
}

/// The signature block of a party: the chosen template (or the built-in
/// block) with the party's override of signatories and witnessing, its
/// intro expanded, and the default witness fields where the template gives
/// none.
pub open spec fn resolved_block(
    party: Party,
    execution: Seq<char>,
    short_title: Option<Seq<char>>,
    config: SignaturesConfig,
    defs: Option<Definitions>,
) -> BlockView {
    let ov = find_override(config.party@, party.role@);
    let base: (Seq<char>, Seq<Option<Seq<char>>>, Seq<FieldView>, bool, Seq<FieldView>) = match chosen_template(
        config,
        party,
        execution,
        defs,
    ) {
        Some(i) => {
            let t = defs.unwrap().entries@[i].template;
            (
                t.intro@,
                def_titles_view(t.signatories@),
                def_fields_view(t.fields@),
                t.witness,
                def_fields_view(t.witness_fields@),
            )
        },
        None => ("**Signed by {name}**:"@, seq![None], fallback_fields(), false, Seq::empty()),
    };
    BlockView {
        intro: expanded_intro(base.0, party, short_title),
        signatories: match ov {
            Some(i) => match config.party@[i].1.signatories {
                Some(v) => v@.map_values(|s: SignatoryOverride| opt_view(s.title)),
                None => base.1,
            },
            None => base.1,
        },
        fields: base.2,
        witness: match ov {
            Some(i) => match config.party@[i].1.witness {
                Some(w) => w,
                None => base.3,
            },
            None => base.3,
        },
        witness_fields: if base.4.len() == 0 {
            default_witness_view()
        } else {
            base.4
        },
    }
}

fn copy_opt(o: &Option<String>) -> (r: Option<String>)
    ensures
        opt_view(r) == opt_view(*o),
{
    match o {
        Some(t) => Some(t.clone()),
        None => None,
    }
}

fn name_or_empty(o: &Option<String>) -> (r: &str)
    ensures
        r@ == or_empty(*o),
{
    proof {
        reveal_strlit("");
    }
    match o {
        Some(t) => t.as_str(),
        None => "",
    }
}

fn convert_field_def(def: &FieldDef) -> (r: SignatureField)
    ensures
        r@ == def_field_view(*def),
{
    let field_type = match &def.field_type {
        Some(t) => if str_eq(t.as_str(), "line") {
            FieldType::Line
        } else {
            FieldType::Blank
        },
        None => FieldType::Blank,
    };
    SignatureField { label: copy_opt(&def.label), field_type, value: copy_opt(&def.value) }
}

fn convert_fields(ds: &Vec<FieldDef>) -> (r: Vec<SignatureField>)
    ensures
        fields_view(r@) == def_fields_view(ds@),
{
    let mut out: Vec<SignatureField> = Vec::new();
    let mut i: usize = 0;
    while i < ds.len()
        invariant
            i <= ds@.len(),
            fields_view(out@) == def_fields_view(ds@.take(i as int)),
        decreases ds@.len() - i,
    {
        let f = convert_field_def(&ds[i]);
        let ghost before = out@;
        out.push(f);
        assert(ds@.take(i + 1) =~= ds@.take(i as int).push(ds@[i as int]));
        assert(fields_view(out@) =~= fields_view(before).push(f@));
        assert(fields_view(out@) =~= def_fields_view(ds@.take(i + 1)));
        i += 1;
    }
    assert(ds@.take(ds@.len() as int) =~= ds@);
    out
}

fn convert_signatories(ss: &Vec<SignatoryDef>) -> (r: Vec<Signatory>)
    ensures
        titles_view(r@) == def_titles_view(ss@),
{
    let mut out: Vec<Signatory> = Vec::new();
    let mut i: usize = 0;
    while i < ss.len()
        invariant
            i <= ss@.len(),
            titles_view(out@) == def_titles_view(ss@.take(i as int)),
        decreases ss@.len() - i,
    {
        let sg = Signatory { title: copy_opt(&ss[i].title) };
        let ghost before = out@;
        out.push(sg);
        assert(ss@.take(i + 1) =~= ss@.take(i as int).push(ss@[i as int]));
        assert(titles_view(out@) =~= titles_view(before).push(opt_view(sg.title)));
        assert(titles_view(out@) =~= def_titles_view(ss@.take(i + 1)));
        i += 1;
    }
    assert(ss@.take(ss@.len() as int) =~= ss@);
    out
}

fn override_signatories(ss: &Vec<SignatoryOverride>) -> (r: Vec<Signatory>)
    ensures
        titles_view(r@) == ss@.map_values(|s: SignatoryOverride| opt_view(s.title)),
{
    let mut out: Vec<Signatory> = Vec::new();
    let mut i: usize = 0;
    while i < ss.len()
        invariant
            i <= ss@.len(),
            titles_view(out@) == ss@.take(i as int).map_values(
                |s: SignatoryOverride| opt_view(s.title),
            ),
        decreases ss@.len() - i,
    {
        let sg = Signatory { title: copy_opt(&ss[i].title) };
        let ghost before = out@;
        out.push(sg);
        assert(ss@.take(i + 1) =~= ss@.take(i as int).push(ss@[i as int]));
        assert(titles_view(out@) =~= titles_view(before).push(opt_view(sg.title)));
        assert(titles_view(out@) =~= ss@.take(i + 1).map_values(
            |s: SignatoryOverride| opt_view(s.title),
        ));
        i += 1;
    }
    assert(ss@.take(ss@.len() as int) =~= ss@);
    out
}

fn field(label: Option<&str>, field_type: FieldType, value: Option<&str>) -> (r: SignatureField)
    ensures
        r@ == (str_opt_view(label), field_type, str_opt_view(value)),
{
    let label = match label {
        Some(l) => Some(owned(l)),
        None => None,
    };
    let value = match value {
        Some(v) => Some(owned(v)),
        None => None,
    };
    SignatureField { label, field_type, value }
}

/// The built-in block: intro, signatories, fields, witnessing and witness
/// fields.
fn hardcoded_fallback() -> (r: (String, Vec<Signatory>, Vec<SignatureField>, bool, Vec<SignatureField>))
    ensures
        r.0@ == "**Signed by {name}**:"@,
        titles_view(r.1@) == seq![None::<Seq<char>>],
        fields_view(r.2@) == fallback_fields(),
        !r.3,
        r.4@.len() == 0,
{
    let mut signatories: Vec<Signatory> = Vec::new();
    signatories.push(Signatory { title: None });
    let mut fields: Vec<SignatureField> = Vec::new();
    fields.push(field(None, FieldType::Line, None));
    fields.push(field(Some("Name"), FieldType::Blank, Some("{name}")));
    fields.push(field(Some("Date"), FieldType::Blank, None));
    assert(titles_view(signatories@) =~= seq![None::<Seq<char>>]);
    assert(fields_view(fields@) =~= fallback_fields());
    (owned("**Signed by {name}**:"), signatories, fields, false, Vec::new())
}

/// The witness fields used when a template gives none.
fn default_witness_fields() -> (r: Vec<SignatureField>)
    ensures
        fields_view(r@) == default_witness_view(),
{
    let mut fields: Vec<SignatureField> = Vec::new();
    fields.push(field(None, FieldType::Line, None));
    fields.push(field(Some("Witness name"), FieldType::Blank, None));
    fields.push(field(Some("Address"), FieldType::Blank, None));
    assert(fields_view(fields@) =~= default_witness_view());
    fields
}

/// Expand `{name}`, `{specifier}`, `{role}` and `{short_title}` in a
/// block's intro and clear the empty parentheses an absent value leaves.
fn expand_placeholders(template: &str, party: &Party, short_title: Option<&str>) -> (r: String)
    ensures
        r@ == expanded_intro(template@, *party, str_opt_view(short_title)),
{
    proof {
        reveal_strlit("{name}");
        reveal_strlit("{specifier}");
        reveal_strlit("{role}");
        reveal_strlit("{short_title}");
    }
    let t = chars_of(template);
    let a = replace_str(&t, "{name}", name_or_empty(&party.name));
    let b = replace_str(&a, "{specifier}", name_or_empty(&party.specifier));
    let c = replace_str(&b, "{role}", party.role.as_str());
    let title = match short_title {
        Some(s) => s,
        None => "Agreement",
    };
    let d = replace_str(&c, "{short_title}", title);
    let joined = string_of(&d);
    clean_empty_parens(joined.as_str())
}

/// Expand `{title}`, `{name}`, `{specifier}` and `{role}` within a field
/// value, from the signatory and the party.
pub fn expand_field_value(value: &str, party: &Party, signatory: &Signatory) -> (r: String)
    ensures
        r@ == expanded_value(value@, *party, *signatory),
{
    proof {
        reveal_strlit("{title}");
        reveal_strlit("{name}");
        reveal_strlit("{specifier}");
        reveal_strlit("{role}");
    }
    let v = chars_of(value);
    let a = replace_str(&v, "{title}", name_or_empty(&signatory.title));
    let b = replace_str(&a, "{name}", name_or_empty(&party.name));
    let c = replace_str(&b, "{specifier}", name_or_empty(&party.specifier));
    let d = replace_str(&c, "{role}", party.role.as_str());
    string_of(&d)
}

fn str_of_opt(o: &Option<String>) -> (r: Option<&str>)
    ensures
        str_opt_view(r) == opt_view(*o),
{
    match o {
        Some(t) => Some(t.as_str()),
        None => None,
    }
}

/// Resolve the signature block of one party, pushing the warning, if any,
/// that [`party_warning`] gives.
fn resolve_party_block(
    party: &Party,
    execution: &str,
    short_title: Option<&str>,
    config: &SignaturesConfig,
    definitions: &Option<Definitions>,
    diagnostics: &mut Vec<Diagnostic>,
) -> (r: SignatureBlock)
    ensures
        r@ == resolved_block(*party, execution@, str_opt_view(short_title), *config, *definitions),
        match party_warning(*config, *party, execution@, *definitions) {
            Some((code, message, location)) => {
                &&& final(diagnostics)@.len() == old(diagnostics)@.len() + 1
                &&& final(diagnostics)@.take(old(diagnostics)@.len() as int) == old(diagnostics)@
                &&& warning_is(final(diagnostics)@.last(), code, message, location)
            },
            None => final(diagnostics)@ == old(diagnostics)@,
        },
{
    proof {
        reveal_strlit("front-matter");
    }
    let ov = party_override(config, party.role.as_str());
    let default_key = str_of_opt(&config.default_template);
    let key: Option<&str> = match ov {
        Some(o) => match &o.template {
            Some(t) => Some(t.as_str()),
            None => default_key,
        },
        None => default_key,
    };
    assert(str_opt_view(key) == template_key(*config, *party));
    let primary: Option<usize> = match key {
        Some(k) => match definitions {
            Some(d) => lookup_key(d, k),
            None => None,
        },
        None => match &party.entity_type {
            Some(et) => match definitions {
                Some(d) => lookup_definition(d, et.as_str(), execution),
                None => None,
            },
            None => {
                let mut message = chars_of("Party '");
                extend_str(&mut message, party.role.as_str());
                extend_str(&mut message, "' has no entity_type; using generic signature block");
                let d = Diagnostic::warning("signature-missing-entity-type", string_of(&message)).at(
                    owned("front-matter"),
                );
                diagnostics.push(d);
                None
            },
        },
    };
    assert(match primary {
        Some(i) => primary_template(*config, *party, execution@, *definitions) == Some(i as int),
        None => primary_template(*config, *party, execution@, *definitions) is None,
    });
    let chosen: Option<usize> = match primary {
        Some(i) => Some(i),
        None => {
            if party.entity_type.is_some() || key.is_some() {
                let mut message = chars_of("No signature template found for party '");
                extend_str(&mut message, party.role.as_str());
                extend_str(&mut message, "' (entity_type: ");
                match &party.entity_type {
                    Some(e) => extend_str(&mut message, e.as_str()),
                    None => extend_str(&mut message, "none"),
                }
                extend_str(&mut message, ", execution: ");
                extend_str(&mut message, execution);
                extend_str(&mut message, "); using fallback");
                let d = Diagnostic::warning("signature-template-missing", string_of(&message));
                diagnostics.push(d);
            }
            None
        },
    };
    assert(match chosen {
        Some(i) => {
            &&& chosen_template(*config, *party, execution@, *definitions) == Some(i as int)
            &&& definitions matches Some(d) && i < d.entries@.len()
        },
        None => chosen_template(*config, *party, execution@, *definitions) is None,
    });
    let (base_intro, base_signatories, base_fields, base_witness, base_witness_fields) = match (
        chosen,
        definitions,
    ) {
        (Some(i), Some(d)) => {
            let t = &d.entries[i].template;
            (
                t.intro.clone(),
                convert_signatories(&t.signatories),
                convert_fields(&t.fields),
                t.witness,
                convert_fields(&t.witness_fields),
            )
        },
        _ => hardcoded_fallback(),
    };
    let signatories = match ov {
        Some(o) => match &o.signatories {
            Some(v) => override_signatories(v),
            None => base_signatories,
        },
        None => base_signatories,
    };
    let witness = match ov {
        Some(o) => match o.witness {
            Some(w) => w,
            None => base_witness,
        },
        None => base_witness,
    };
    let intro = expand_placeholders(base_intro.as_str(), party, short_title);
    let witness_fields = if base_witness_fields.len() == 0 {
        default_witness_fields()
    } else {
        base_witness_fields
    };
    let block = SignatureBlock { intro, signatories, fields: base_fields, witness, witness_fields };
    assert(block@ == resolved_block(*party, execution@, str_opt_view(short_title), *config, *definitions));
    block
}

/// The warnings resolving the parties' blocks gives, in party order.
pub open spec fn party_warnings(
    parties: Seq<Party>,
    execution: Seq<char>,
    config: SignaturesConfig,
    defs: Option<Definitions>,
) -> Seq<(Seq<char>, Seq<char>, Option<Seq<char>>)>
    decreases parties.len(),
{
    if parties.len() == 0 {
        Seq::empty()
    } else {
        party_warnings(parties.drop_last(), execution, config, defs) + match party_warning(
            config,
            parties.last(),
            execution,
            defs,
        ) {
            Some(w) => seq![w],
            None => Seq::empty(),
        }
    }
}

/// `after` is `before` with warnings `ws` appended.
pub open spec fn warnings_appended(
    before: Seq<Diagnostic>,
    after: Seq<Diagnostic>,
    ws: Seq<(Seq<char>, Seq<char>, Option<Seq<char>>)>,
) -> bool {
    &&& after.len() == before.len() + ws.len()
    &&& after.take(before.len() as int) == before
    &&& forall|k: int|
        0 <= k < ws.len() ==> warning_is(
            #[trigger] after[before.len() + k],
            ws[k].0,
            ws[k].1,
            ws[k].2,
        )
}

/// Resolve the signature blocks of all parties, in order, under the
/// execution method of the document's type. The warnings of
/// [`party_warnings`] are appended to `diagnostics`.
pub fn resolve_signature_blocks(
    parties: &[Party],
    short_title: Option<&str>,
    config: &SignaturesConfig,
    definitions: &Option<Definitions>,
    diagnostics: &mut Vec<Diagnostic>,
) -> (r: Vec<SignatureBlock>)
    ensures
        r@.len() == parties@.len(),
        forall|i: int|
            0 <= i < parties@.len() ==> (#[trigger] r@[i])@ == resolved_block(
                parties@[i],
                execution_of(str_opt_view(short_title)),
                str_opt_view(short_title),
                *config,
                *definitions,
            ),
        warnings_appended(
            old(diagnostics)@,
            final(diagnostics)@,
            party_warnings(parties@, execution_of(str_opt_view(short_title)), *config, *definitions),
        ),
{
    let execution = execution_method(short_title);
    let ghost x = execution_of(str_opt_view(short_title));
    let ghost start = diagnostics@;
    let mut out: Vec<SignatureBlock> = Vec::new();
    let mut i: usize = 0;
    assert(diagnostics@.take(start.len() as int) =~= start);
    while i < parties.len()
        invariant
            i <= parties@.len(),
            execution@ == x,
            out@.len() == i,
            forall|j: int|
                0 <= j < i ==> (#[trigger] out@[j])@ == resolved_block(
                    parties@[j],
                    x,
                    str_opt_view(short_title),
                    *config,
                    *definitions,
                ),
            warnings_appended(
                start,
                diagnostics@,
                party_warnings(parties@.take(i as int), x, *config, *definitions),
            ),
        decreases parties@.len() - i,
    {
        let ghost before = diagnostics@;
        let b = resolve_party_block(&parties[i], execution, short_title, config, definitions, diagnostics);
        out.push(b);
        proof {
            let t = parties@.take(i + 1);
            assert(t.drop_last() =~= parties@.take(i as int));
            assert(t.last() == parties@[i as int]);
            let ws = party_warnings(t, x, *config, *definitions);
            let prev = party_warnings(parties@.take(i as int), x, *config, *definitions);
            assert(diagnostics@.take(before.len() as int) =~= before);
            assert(diagnostics@.take(start.len() as int) =~= start) by {
                assert(before.take(start.len() as int) =~= start);
            }
            assert forall|k: int| 0 <= k < ws.len() implies warning_is(
                #[trigger] diagnostics@[start.len() + k],
                ws[k].0,
                ws[k].1,
                ws[k].2,
            ) by {
                if k < prev.len() {
                    assert(diagnostics@[start.len() + k] == before[start.len() + k]);
                    assert(ws[k] == prev[k]);
                }
            }
        }
        i += 1;
    }
    assert(parties@.take(parties@.len() as int) =~= parties@);
    out
}

} // verus!
