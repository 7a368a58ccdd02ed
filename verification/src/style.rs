//! Style settings that the document logic depends on.
//!
//! The typographic settings (font sizes, margins, spacing) are floating-point
//! values used only when rendering, and live with the renderer.
use vstd::prelude::*;

verus! {

/// How clause numbers are written in cross-references.
#[derive(Debug, Clone, Copy, PartialEq, Eq, Structural)]
pub enum NumberingConvention {
    /// `1.1`, `(a)`, `(i)`
    Commonwealth,
    /// `1.1.1`
    Decimal,
    /// `I.`, `A.`, `1.`
    UsTraditional,
}

/// How parties are listed on the cover page.
#[derive(Debug, Clone, Copy, PartialEq, Eq, Structural)]
pub enum PartyFormat {
    NameSpecRole,
    NameRole,
    NameOnly,
}

/// Where the schedule table is placed.
#[derive(Debug, Clone, Copy, PartialEq, Eq, Structural)]
pub enum SchedulePosition {
    End,
    AfterToc,
}

/// Order of schedule items.
#[derive(Debug, Clone, Copy, PartialEq, Eq, Structural)]
pub enum ScheduleOrder {
    Document,
    Alphabetical,
}

/// Style of the parties preamble.
#[derive(Debug, Clone, Copy, PartialEq, Eq, Structural)]
pub enum PreambleStyle {
    Simple,
    Prose,
    Custom,
}

/// Paper size.
#[derive(Debug, Clone, Copy, PartialEq, Eq, Structural)]
pub enum PageSize {
    A4,
    Letter,
}

/// How defined terms are rendered.
#[derive(Debug, Clone, Copy, PartialEq, Eq, Structural)]
pub enum DefinedTermStyle {
    Bold,
    Quoted,
    BoldQuoted,
}

/// Page width in twips (A4: 210 mm, Letter: 8.5 in).
pub open spec fn page_width(size: PageSize) -> u32 {
    match size {
        PageSize::A4 => 11906,
        PageSize::Letter => 12240,
    }
}

/// Page height in twips (A4: 297 mm, Letter: 11 in).
pub open spec fn page_height(size: PageSize) -> u32 {
    match size {
        PageSize::A4 => 16838,
        PageSize::Letter => 15840,
    }
}

impl PageSize {
    /// Page width in twips.
    pub fn width_twips(&self) -> (r: u32)
        ensures
            r == page_width(*self),
    {
        match self {
            PageSize::A4 => 11906,
            PageSize::Letter => 12240,
        }
    }

    /// Page height in twips.
    pub fn height_twips(&self) -> (r: u32)
        ensures
            r == page_height(*self),
    {
        match self {
            PageSize::A4 => 16838,
            PageSize::Letter => 15840,
        }
    }
}

/// Table of contents settings.
#[derive(Debug, Clone)]
pub struct TocConfig {
    pub enabled: bool,
    pub heading: String,
}

/// Footer settings.
#[derive(Debug, Clone, Copy)]
pub struct FooterConfig {
    pub show_ref: bool,
    pub show_page_number: bool,
    pub show_version: bool,
}

/// Preamble settings.
#[derive(Debug, Clone)]
pub struct PreambleConfig {
    pub enabled: bool,
    pub style: PreambleStyle,
    pub template: String,
    pub party_template: String,
    pub party_separator: String,
}

/// A per-signatory override.
#[derive(Debug, Clone)]
pub struct SignatoryOverride {
    pub title: Option<String>,
}

/// A per-party override of the signature block.
#[derive(Debug, Clone)]
pub struct SignaturesPartyOverride {
    pub template: Option<String>,
    pub signatories: Option<Vec<SignatoryOverride>>,
    pub witness: Option<bool>,
}

/// Signature page settings. `party` holds the per-party overrides keyed by
/// role, in the order the configuration file gives them.
#[derive(Debug, Clone)]
pub struct SignaturesConfig {
    pub enabled: bool,
    pub heading: Option<String>,
    pub default_template: Option<String>,
    pub separate_pages: bool,
    pub party: Vec<(String, SignaturesPartyOverride)>,
}

impl TocConfig {
    /// Defaults: enabled, headed "Contents".
    pub fn default_config() -> (r: TocConfig)
        ensures
            r.enabled,
            r.heading@ == "Contents"@,
    {
        TocConfig { enabled: true, heading: crate::text::owned("Contents") }
    }
}

impl FooterConfig {
    /// Defaults: reference and page number shown, version hidden.
    pub fn default_config() -> (r: FooterConfig)
        ensures
            r.show_ref && r.show_page_number && !r.show_version,
    {
        FooterConfig { show_ref: true, show_page_number: true, show_version: false }
    }
}

impl SignaturesConfig {
    /// Defaults: enabled, no heading or template, no overrides.
    pub fn default_config() -> (r: SignaturesConfig)
        ensures
            r.enabled,
            r.heading is None,
            r.default_template is None,
            !r.separate_pages,
            r.party@.len() == 0,
    {
        SignaturesConfig {
            enabled: true,
            heading: None,
            default_template: None,
            separate_pages: false,
            party: Vec::new(),
        }
    }
}

impl PreambleConfig {
    /// Defaults: disabled, simple style, the standard templates.
    pub fn default_config() -> (r: PreambleConfig)
        ensures
            !r.enabled,
            r.style == PreambleStyle::Simple,
            r.template@ == "This {title} (**{type}**) is dated {date} between"@,
            r.party_template@ == "{name} ({specifier}) (**{role}**)"@,
            r.party_separator@ == "; and"@,
    {
        PreambleConfig {
            enabled: false,
            style: PreambleStyle::Simple,
            template: crate::text::owned("This {title} (**{type}**) is dated {date} between"),
            party_template: crate::text::owned("{name} ({specifier}) (**{role}**)"),
            party_separator: crate::text::owned("; and"),
        }
    }
}

} // verus!
