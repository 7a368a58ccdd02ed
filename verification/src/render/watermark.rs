//! The draft watermark: a WordArt text shape put into the page headers of
//! a finished `.docx` package.
//!
//! The package is a ZIP archive of XML parts; the watermark edits the XML
//! text of the header parts (and, where the default header is missing, adds
//! it with its relationship and content type).
use vstd::prelude::*;


use crate::text::{
    chars_of, contains, decimal, decimal_chars, extend_chars, extend_str, find, first_occurrence,
    matches_at, occurs_at, replace_seq, replace_str, string_of,
};

verus! {

/// VML shapetype definition for WordArt text (type #136).
pub const VML_SHAPETYPE: &'static str = r##"<v:shapetype id="_x0000_t136" coordsize="21600,21600" o:spt="136" adj="10800" path="m@7,l@8,m@5,21600l@6,21600e"><v:formulas><v:f eqn="sum #0 0 10800"/><v:f eqn="prod #0 2 1"/><v:f eqn="sum 21600 0 @1"/><v:f eqn="sum 0 0 @2"/><v:f eqn="sum 21600 0 @3"/><v:f eqn="if @0 @3 0"/><v:f eqn="if @0 21600 @1"/><v:f eqn="if @0 0 @2"/><v:f eqn="if @0 @4 21600"/><v:f eqn="mid @5 @6"/><v:f eqn="mid @8 @5"/><v:f eqn="mid @7 @8"/><v:f eqn="mid @6 @7"/><v:f eqn="sum @6 0 @5"/></v:formulas><v:path textpathok="t" o:connecttype="custom" o:connectlocs="@9,0;@10,10800;@11,21600;@12,10800" o:connectangles="270,180,90,0"/><v:textpath on="t" fitshape="t"/><v:handles><v:h position="#0,bottomRight" xrange="6629,14971"/></v:handles><o:lock v:ext="edit" text="t" shapetype="t"/></v:shapetype>"##;

/// The pieces of a watermark run around its shapetype, shape id, shape
/// number, z-index and text.
pub const RUN_START: &'static str = r##"<w:r><w:rPr><w:noProof/></w:rPr><w:pict>"##;
pub const RUN_SHAPE_ID: &'static str = r##"<v:shape id=""##;
pub const RUN_SPID: &'static str = r##"" o:spid=""##;
pub const RUN_Z_INDEX: &'static str = r##"" type="#_x0000_t136" alt="" style="position:absolute;margin-left:0;margin-top:0;width:442.55pt;height:193.6pt;rotation:315;z-index:"##;
pub const RUN_TEXT: &'static str = r##";mso-wrap-edited:f;mso-position-horizontal:center;mso-position-horizontal-relative:margin;mso-position-vertical:center;mso-position-vertical-relative:margin" o:allowincell="f" fillcolor="silver" stroked="f"><v:textpath style="font-family:&quot;Calibri&quot;;font-size:1pt" string=""##;
pub const RUN_END: &'static str = r##""/></v:shape></w:pict></w:r>"##;

/// A header part around its one paragraph's run.
pub const HEADER_START: &'static str = r##"<?xml version="1.0" encoding="UTF-8" standalone="yes"?><w:hdr xmlns:r="http://schemas.openxmlformats.org/officeDocument/2006/relationships" xmlns:o="urn:schemas-microsoft-com:office:office" xmlns:v="urn:schemas-microsoft-com:vml" xmlns:w="http://schemas.openxmlformats.org/wordprocessingml/2006/main" xmlns:w10="urn:schemas-microsoft-com:office:word" xmlns:wp="http://schemas.openxmlformats.org/drawingml/2006/wordprocessingDrawing" xmlns:wps="http://schemas.microsoft.com/office/word/2010/wordprocessingShape" xmlns:wpg="http://schemas.microsoft.com/office/word/2010/wordprocessingGroup" xmlns:mc="http://schemas.openxmlformats.org/markup-compatibility/2006" xmlns:wp14="http://schemas.microsoft.com/office/word/2010/wordprocessingDrawing" xmlns:w14="http://schemas.microsoft.com/office/word/2010/wordml" mc:Ignorable="w14 wp14"><w:p><w:pPr><w:pStyle w:val="Header"/></w:pPr>"##;
pub const HEADER_END: &'static str = r##"</w:p></w:hdr>"##;

// ---------------------------------------------------------------------------
// The watermark run and header
// ---------------------------------------------------------------------------

/// Text with the XML special characters `&`, `<`, `>` and `"` escaped.
pub open spec fn xml_escape(t: Seq<char>) -> Seq<char> {
    replace_seq(
        replace_seq(replace_seq(replace_seq(t, "&"@, "&amp;"@), "<"@, "&lt;"@), ">"@, "&gt;"@),
        "\""@,
        "&quot;"@,
    )
}

/// A signed integer in decimal.
pub open spec fn signed_decimal(z: i32) -> Seq<char> {
    if z < 0 {
        seq!['-'] + decimal((-z) as nat)
    } else {
        decimal(z as nat)
    }
}

/// The VML watermark run of a header paragraph.
pub open spec fn watermark_run_of(text: Seq<char>, shape_id: Seq<char>, spid: Seq<char>, z_index: i32) -> Seq<
    char,
> {
    RUN_START@ + VML_SHAPETYPE@ + RUN_SHAPE_ID@ + shape_id + RUN_SPID@ + spid + RUN_Z_INDEX@
        + signed_decimal(z_index) + RUN_TEXT@ + xml_escape(text) + RUN_END@
}

/// A complete header part holding the watermark.
pub open spec fn header_xml_of(text: Seq<char>, shape_id: Seq<char>, spid: Seq<char>, z_index: i32) -> Seq<
    char,
> {
    HEADER_START@ + watermark_run_of(text, shape_id, spid, z_index) + HEADER_END@
}

fn push_signed(out: &mut Vec<char>, z: i32)
    ensures
        final(out)@ == old(out)@ + signed_decimal(z),
{
    if z < 0 {
        out.push('-');
        let m: i64 = -(z as i64);
        let d = decimal_chars(m as usize);
        extend_chars(out, d.as_slice());
        assert(out@ =~= old(out)@ + signed_decimal(z));
    } else {
        let d = decimal_chars(z as usize);
        extend_chars(out, d.as_slice());
    }
}

fn push_run(out: &mut Vec<char>, text: &str, shape_id: &str, spid: &str, z_index: i32)
    ensures
        final(out)@ == old(out)@ + watermark_run_of(text@, shape_id@, spid@, z_index),
{
    proof {
        reveal_strlit("&");
        reveal_strlit("<");
        reveal_strlit(">");
        reveal_strlit("\"");
    }
    let t = chars_of(text);
    let a = replace_str(&t, "&", "&amp;");
    let b = replace_str(&a, "<", "&lt;");
    let c = replace_str(&b, ">", "&gt;");
    let escaped = replace_str(&c, "\"", "&quot;");
    extend_str(out, RUN_START);
    extend_str(out, VML_SHAPETYPE);
    extend_str(out, RUN_SHAPE_ID);
    extend_str(out, shape_id);
    extend_str(out, RUN_SPID);
    extend_str(out, spid);
    extend_str(out, RUN_Z_INDEX);
    push_signed(out, z_index);
    extend_str(out, RUN_TEXT);
    extend_chars(out, escaped.as_slice());
    extend_str(out, RUN_END);
    assert(out@ =~= old(out)@ + watermark_run_of(text@, shape_id@, spid@, z_index));
}

/// Build the VML watermark run for a header paragraph.
fn watermark_run(text: &str, shape_id: &str, spid: &str, z_index: i32) -> (r: Vec<char>)
    ensures
        r@ == watermark_run_of(text@, shape_id@, spid@, z_index),
{
    let mut out: Vec<char> = Vec::new();
    push_run(&mut out, text, shape_id, spid, z_index);
    assert(out@ =~= watermark_run_of(text@, shape_id@, spid@, z_index));
    out
}

/// Build a complete header part containing the watermark.
fn watermark_header_xml(text: &str, shape_id: &str, spid: &str, z_index: i32) -> (r: Vec<char>)
    ensures
        r@ == header_xml_of(text@, shape_id@, spid@, z_index),
{
    let mut out = chars_of(HEADER_START);
    push_run(&mut out, text, shape_id, spid, z_index);
    extend_str(&mut out, HEADER_END);
    assert(out@ =~= header_xml_of(text@, shape_id@, spid@, z_index));
    out
}

// ---------------------------------------------------------------------------
// Editing XML parts
// ---------------------------------------------------------------------------

/// `ins` put into `s` before index `pos`.
pub open spec fn insert_at(s: Seq<char>, pos: int, ins: Seq<char>) -> Seq<char> {
    s.take(pos) + ins + s.skip(pos)
}

fn insert_chars(s: &Vec<char>, pos: usize, ins: &Vec<char>) -> (r: Vec<char>)
    requires
        pos <= s@.len(),
    ensures
        r@ == insert_at(s@, pos as int, ins@),
{
    let mut out: Vec<char> = Vec::new();
    let mut i: usize = 0;
    while i < pos
        invariant
            i <= pos <= s@.len(),
            out@ == s@.take(i as int),
        decreases pos - i,
    {
        out.push(s[i]);
        assert(s@.take(i + 1) =~= s@.take(i as int).push(s@[i as int]));
        i += 1;
    }
    extend_chars(&mut out, ins.as_slice());
    let mut j: usize = pos;
    let n = s.len();
    while j < n
        invariant
            pos <= j <= n,
            n == s@.len(),
            out@ == s@.take(pos as int) + ins@ + s@.subrange(pos as int, j as int),
        decreases n - j,
    {
        out.push(s[j]);
        assert(s@.subrange(pos as int, j + 1) =~= s@.subrange(pos as int, j as int).push(s@[j as int]));
        j += 1;
    }
    assert(s@.subrange(pos as int, n as int) =~= s@.skip(pos as int));
    out
}

/// The last index where `p` occurs in `s`.
pub open spec fn last_occurrence(s: Seq<char>, p: Seq<char>) -> Option<int>
    decreases s.len(),
{
    if p.len() > s.len() {
        None
    } else if occurs_at(s, p, s.len() - p.len()) {
        Some(s.len() - p.len())
    } else if s.len() == 0 {
        None
    } else {
        last_occurrence(s.drop_last(), p)
    }
}

proof fn lemma_occurs_prefix(s: Seq<char>, p: Seq<char>, n: int, i: int)
    requires
        0 <= n <= s.len(),
    ensures
        occurs_at(s.take(n), p, i) ==> occurs_at(s, p, i),
        i + p.len() <= n ==> (occurs_at(s, p, i) ==> occurs_at(s.take(n), p, i)),
{
    if occurs_at(s.take(n), p, i) {
        assert(s.take(n).subrange(i, i + p.len()) =~= s.subrange(i, i + p.len()));
    }
    if i + p.len() <= n && 0 <= i && occurs_at(s, p, i) {
        assert(s.take(n).subrange(i, i + p.len()) =~= s.subrange(i, i + p.len()));
    }
}

/// Find the last occurrence of `p` in `s`.
fn rfind(s: &Vec<char>, p: &Vec<char>) -> (r: Option<usize>)
    ensures
        match r {
            Some(i) => last_occurrence(s@, p@) == Some(i as int),
            None => last_occurrence(s@, p@) is None,
        },
        r matches Some(i) ==> i + p@.len() <= s@.len(),
{
    let mut n: usize = s.len();
    assert(s@.take(n as int) =~= s@);
    while n >= p.len()
        invariant
            n <= s@.len(),
            last_occurrence(s@, p@) == last_occurrence(s@.take(n as int), p@),
        decreases n,
    {
        let i = n - p.len();
        let ghost t = s@.take(n as int);
        proof {
            lemma_occurs_prefix(s@, p@, n as int, i as int);
        }
        if matches_at(s.as_slice(), p.as_slice(), i) {
            assert(occurs_at(t, p@, t.len() - p@.len()));
            return Some(i);
        }
        if n == 0 {
            return None;
        }
        assert(t.drop_last() =~= s@.take(n - 1));
        n -= 1;
    }
    None
}

/// `PARAGRAPH_OPEN`: a new header paragraph.
pub const PARAGRAPH_OPEN: &'static str = "<w:p><w:pPr><w:pStyle w:val=\"Header\"/></w:pPr>";

/// A header part with the watermark run put into it: before the end of its
/// first paragraph; else in a new paragraph before the end of the header;
/// else, for a header written as one self-closing tag, in place of that
/// tag's `/>` and whatever follows it; else the part unchanged.
pub open spec fn injected_header(
    xml: Seq<char>,
    text: Seq<char>,
    shape_id: Seq<char>,
    spid: Seq<char>,
    z_index: i32,
) -> Seq<char> {
    let run = watermark_run_of(text, shape_id, spid, z_index);
    match first_occurrence(xml, "</w:p>"@) {
        Some(p) => insert_at(xml, p, run),
        None => match first_occurrence(xml, "</w:hdr>"@) {
            Some(p) => insert_at(xml, p, PARAGRAPH_OPEN@ + run + "</w:p>"@),
            None => match last_occurrence(xml, "/>"@) {
                Some(p) => xml.take(p) + seq!['>'] + PARAGRAPH_OPEN@ + run + "</w:p></w:hdr>"@,
                None => xml,
            },
        },
    }
}

/// Inject the watermark run into an existing header part.
fn inject_into_existing_header(
    header_xml: &Vec<char>,
    text: &str,
    shape_id: &str,
    spid: &str,
    z_index: i32,
) -> (r: Vec<char>)
    ensures
        r@ == injected_header(header_xml@, text@, shape_id@, spid@, z_index),
{
    let run = watermark_run(text, shape_id, spid, z_index);
    let para_end = chars_of("</w:p>");
    if let Some(pos) = find(header_xml.as_slice(), para_end.as_slice()) {
        return insert_chars(header_xml, pos, &run);
    }
    let hdr_end = chars_of("</w:hdr>");
    if let Some(pos) = find(header_xml.as_slice(), hdr_end.as_slice()) {
        let mut ins = chars_of(PARAGRAPH_OPEN);
        extend_chars(&mut ins, run.as_slice());
        extend_str(&mut ins, "</w:p>");
        return insert_chars(header_xml, pos, &ins);
    }
    let self_close = chars_of("/>");
    if let Some(pos) = rfind(header_xml, &self_close) {
        let mut out: Vec<char> = Vec::new();
        let mut i: usize = 0;
        while i < pos
            invariant
                i <= pos <= header_xml@.len(),
                out@ == header_xml@.take(i as int),
            decreases pos - i,
        {
            out.push(header_xml[i]);
            assert(header_xml@.take(i + 1) =~= header_xml@.take(i as int).push(header_xml@[i as int]));
            i += 1;
        }
        out.push('>');
        extend_str(&mut out, PARAGRAPH_OPEN);
        extend_chars(&mut out, run.as_slice());
        extend_str(&mut out, "</w:p></w:hdr>");
        assert(out@ =~= injected_header(header_xml@, text@, shape_id@, spid@, z_index));
        return out;
    }
    header_xml.clone()
}

/// `document.xml` with a header reference of the given type and
/// relationship put before the end of its section properties; unchanged
/// without one.
pub open spec fn with_header_reference(xml: Seq<char>, r_id: Seq<char>, header_type: Seq<char>) -> Seq<
    char,
> {
    match first_occurrence(xml, "</w:sectPr>"@) {
        Some(p) => insert_at(
            xml,
            p,
            "<w:headerReference w:type=\""@ + header_type + "\" r:id=\""@ + r_id + "\"/>"@,
        ),
        None => xml,
    }
}

/// Add a `<w:headerReference>` to the section properties of `document.xml`.
fn add_header_reference(xml: &Vec<char>, r_id: &str, header_type: &str) -> (r: Vec<char>)
    ensures
        r@ == with_header_reference(xml@, r_id@, header_type@),
{
    let close = chars_of("</w:sectPr>");
    match find(xml.as_slice(), close.as_slice()) {
        Some(pos) => {
            let mut reference = chars_of("<w:headerReference w:type=\"");
            extend_str(&mut reference, header_type);
            extend_str(&mut reference, "\" r:id=\"");
            extend_str(&mut reference, r_id);
            extend_str(&mut reference, "\"/>");
            insert_chars(xml, pos, &reference)
        },
        None => xml.clone(),
    }
}

/// `document.xml.rels` with a relationship put before its end; unchanged
/// without one.
pub open spec fn with_relationship(xml: Seq<char>, id: Seq<char>, rel_type: Seq<char>, target: Seq<char>) -> Seq<
    char,
> {
    match first_occurrence(xml, "</Relationships>"@) {
        Some(p) => insert_at(
            xml,
            p,
            "<Relationship Id=\""@ + id + "\" Type=\""@ + rel_type + "\" Target=\""@ + target
                + "\"/>"@,
        ),
        None => xml,
    }
}

/// Add a `<Relationship>` to `document.xml.rels`.
fn add_relationship(xml: &Vec<char>, id: &str, rel_type: &str, target: &str) -> (r: Vec<char>)
    ensures
        r@ == with_relationship(xml@, id@, rel_type@, target@),
{
    let close = chars_of("</Relationships>");
    match find(xml.as_slice(), close.as_slice()) {
        Some(pos) => {
            let mut rel = chars_of("<Relationship Id=\"");
            extend_str(&mut rel, id);
            extend_str(&mut rel, "\" Type=\"");
            extend_str(&mut rel, rel_type);
            extend_str(&mut rel, "\" Target=\"");
            extend_str(&mut rel, target);
            extend_str(&mut rel, "\"/>");
            insert_chars(xml, pos, &rel)
        },
        None => xml.clone(),
    }
}

/// The content type of a header part.
pub const HEADER_CONTENT_TYPE: &'static str = "application/vnd.openxmlformats-officedocument.wordprocessingml.header+xml";

/// `[Content_Types].xml` with an override for a header part put before its
/// end, unless the part name already occurs in it or it has no end.
pub open spec fn with_header_content_type(xml: Seq<char>, part_name: Seq<char>) -> Seq<char> {
    if first_occurrence(xml, part_name) is Some {
        xml
    } else {
        match first_occurrence(xml, "</Types>"@) {
            Some(p) => insert_at(
                xml,
                p,
                "<Override PartName=\""@ + part_name + "\" ContentType=\""@ + HEADER_CONTENT_TYPE@
                    + "\"/>"@,
            ),
            None => xml,
        }
    }
}

/// Ensure a content type override exists for a header part.
fn ensure_header_content_type(xml: &Vec<char>, part_name: &str) -> (r: Vec<char>)
    ensures
        r@ == with_header_content_type(xml@, part_name@),
{
    let part = chars_of(part_name);
    if contains(xml.as_slice(), part.as_slice()) {
        return xml.clone();
    }
    let close = chars_of("</Types>");
    match find(xml.as_slice(), close.as_slice()) {
        Some(pos) => {
            let mut elem = chars_of("<Override PartName=\"");
            extend_str(&mut elem, part_name);
            extend_str(&mut elem, "\" ContentType=\"");
            extend_str(&mut elem, HEADER_CONTENT_TYPE);
            extend_str(&mut elem, "\"/>");
            insert_chars(xml, pos, &elem)
        },
        None => xml.clone(),
    }
}

// ---------------------------------------------------------------------------
// The package's parts
// ---------------------------------------------------------------------------

/// The text of a part's bytes, invalid UTF-8 replaced by U+FFFD
/// (`String::from_utf8_lossy`).
pub uninterp spec fn lossy_text(bytes: Seq<u8>) -> Seq<char>;

/// The UTF-8 encoding of a text (`String::into_bytes`).
pub uninterp spec fn utf8_encoded(text: Seq<char>) -> Seq<u8>;

/// `String::from_utf8_lossy`, made an owned string. Claimed: [`lossy_text`]
/// of the bytes.
#[verifier::external_body]
fn lossy_string(bytes: &[u8]) -> (r: String)
    ensures
        r@ == lossy_text(bytes@),
{
    String::from_utf8_lossy(bytes).into_owned()
}

/// `String::into_bytes`. Claimed: [`utf8_encoded`] of the text.
#[verifier::external_body]
fn string_into_bytes(s: String) -> (r: Vec<u8>)
    ensures
        r@ == utf8_encoded(s@),
{
    s.into_bytes()
}

/// The characters of a part's bytes read as UTF-8, invalid sequences
/// replaced by U+FFFD.
fn text_of_bytes(bytes: &[u8]) -> (r: Vec<char>)
    ensures
        r@ == lossy_text(bytes@),
{
    let s = lossy_string(bytes);
    crate::text::chars_of(s.as_str())
}

/// The UTF-8 encoding of a text.
fn bytes_of_text(text: &[char]) -> (r: Vec<u8>)
    ensures
        r@ == utf8_encoded(text@),
{
    string_into_bytes(crate::text::string_of(text))
}

/// A part of the package: its name and contents.
pub type PartView = (Seq<char>, Seq<u8>);

/// The names and contents of a list of parts.
pub open spec fn parts_view(v: Seq<(String, Vec<u8>)>) -> Seq<PartView> {
    v.map_values(|p: (String, Vec<u8>)| (p.0@, p.1@))
}

/// The first header part.
pub const HEADER1: &'static str = "word/header1.xml";

/// The default header part.
pub const HEADER2: &'static str = "word/header2.xml";

/// The relationship of the added default header.
pub const HEADER_REL_ID: &'static str = "rIdWatermarkHeader";

/// Position of the first part with the given name.
pub open spec fn first_part(parts: Seq<PartView>, name: Seq<char>) -> Option<int>
    decreases parts.len(),
{
    if parts.len() == 0 {
        None
    } else {
        match first_part(parts.drop_last(), name) {
            Some(i) => Some(i),
            None => if parts.last().0 == name {
                Some(parts.len() - 1)
            } else {
                None
            },
        }
    }
}

/// The `i`-th part after watermarking: the watermark put into the first
/// header and (its first copy) into an existing default header; where no
/// default header exists, the reference, relationship and content type it
/// needs added to the main document, its relationships and the content
/// types; every other part as it was.
pub open spec fn watermarked_part(parts: Seq<PartView>, i: int, text: Seq<char>) -> PartView {
    let (name, contents) = parts[i];
    let need_header2 = first_part(parts, HEADER2@) is None;
    if name == HEADER1@ {
        (
            name,
            utf8_encoded(
                injected_header(
                    lossy_text(contents),
                    text,
                    "PowerPlusWaterMarkObject1"@,
                    "_x0000_s1025"@,
                    -251655168i32,
                ),
            ),
        )
    } else if name == "word/document.xml"@ && need_header2 {
        (name, utf8_encoded(with_header_reference(lossy_text(contents), HEADER_REL_ID@, "default"@)))
    } else if name == "word/_rels/document.xml.rels"@ && need_header2 {
        (
            name,
            utf8_encoded(
                with_relationship(
                    lossy_text(contents),
                    HEADER_REL_ID@,
                    "http://schemas.openxmlformats.org/officeDocument/2006/relationships/header"@,
                    "header2.xml"@,
                ),
            ),
        )
    } else if name == "[Content_Types].xml"@ && need_header2 {
        (name, utf8_encoded(with_header_content_type(lossy_text(contents), "/word/header2.xml"@)))
    } else if name == HEADER2@ && first_part(parts, HEADER2@) == Some(i) {
        (
            name,
            utf8_encoded(
                injected_header(
                    lossy_text(contents),
                    text,
                    "PowerPlusWaterMarkObject2"@,
                    "_x0000_s1026"@,
                    -251651072i32,
                ),
            ),
        )
    } else {
        (name, contents)
    }
}

/// The parts of a watermarked package: every part as [`watermarked_part`]
/// gives it, in order, then a new first header if there was none, then a
/// new default header if there was none.
pub open spec fn watermarked_parts(parts: Seq<PartView>, text: Seq<char>) -> Seq<PartView> {
    Seq::new(parts.len(), |i: int| watermarked_part(parts, i, text)) + (if first_part(
        parts,
        HEADER1@,
    ) is None {
        seq![
            (
                HEADER1@,
                utf8_encoded(
                    header_xml_of(text, "PowerPlusWaterMarkObject1"@, "_x0000_s1025"@, -251655168i32),
                ),
            ),
        ]
    } else {
        Seq::empty()
    }) + (if first_part(parts, HEADER2@) is None {
        seq![
            (
                HEADER2@,
                utf8_encoded(
                    header_xml_of(text, "PowerPlusWaterMarkObject2"@, "_x0000_s1026"@, -251651072i32),
                ),
            ),
        ]
    } else {
        Seq::empty()
    })
}

proof fn lemma_first_part_prefix(parts: Seq<PartView>, n: int, name: Seq<char>)
    requires
        0 <= n <= parts.len(),
        first_part(parts.take(n), name) is Some,
    ensures
        first_part(parts, name) == first_part(parts.take(n), name),
    decreases parts.len() - n,
{
    if n < parts.len() {
        assert(parts.take(n + 1).drop_last() =~= parts.take(n));
        lemma_first_part_prefix(parts, n + 1, name);
    } else {
        assert(parts.take(n) =~= parts);
    }
}

proof fn lemma_first_part_bound(parts: Seq<PartView>, name: Seq<char>)
    ensures
        first_part(parts, name) matches Some(i) ==> 0 <= i < parts.len() && parts[i].0 == name,
    decreases parts.len(),
{
    if parts.len() > 0 {
        lemma_first_part_bound(parts.drop_last(), name);
    }
}

/// Find the first part with the given name.
fn find_part(parts: &Vec<(String, Vec<u8>)>, name: &str) -> (r: Option<usize>)
    ensures
        match r {
            Some(i) => first_part(parts_view(parts@), name@) == Some(i as int),
            None => first_part(parts_view(parts@), name@) is None,
        },
{
    let ghost pv = parts_view(parts@);
    let mut i: usize = 0;
    while i < parts.len()
        invariant
            i <= parts@.len(),
            pv == parts_view(parts@),
            first_part(pv.take(i as int), name@) is None,
        decreases parts@.len() - i,
    {
        assert(pv.take(i + 1).drop_last() =~= pv.take(i as int));
        if crate::text::str_eq(parts[i].0.as_str(), name) {
            proof {
                assert(pv.take(i + 1).last() == pv[i as int]);
                assert(first_part(pv.take(i + 1), name@) == Some(i as int));
                lemma_first_part_prefix(pv, i + 1, name@);
            }
            return Some(i);
        }
        i += 1;
    }
    assert(pv.take(pv.len() as int) =~= pv);
    None
}

/// The parts of a watermarked package (see [`watermarked_parts`]).
pub fn watermark_parts(parts: &Vec<(String, Vec<u8>)>, text: &str) -> (r: Vec<(String, Vec<u8>)>)
    ensures
        parts_view(r@) == watermarked_parts(parts_view(parts@), text@),
{
    let ghost pv = parts_view(parts@);
    let header1 = find_part(parts, HEADER1);
    let header2 = find_part(parts, HEADER2);
    let need_header2 = header2.is_none();
    let mut out: Vec<(String, Vec<u8>)> = Vec::new();
    let mut i: usize = 0;
    while i < parts.len()
        invariant
            i <= parts@.len(),
            pv == parts_view(parts@),
            need_header2 == (first_part(pv, HEADER2@) is None),
            match header2 {
                Some(k) => first_part(pv, HEADER2@) == Some(k as int),
                None => first_part(pv, HEADER2@) is None,
            },
            parts_view(out@) == Seq::new(i as nat, |j: int| watermarked_part(pv, j, text@)),
        decreases parts@.len() - i,
    {
        let name = &parts[i].0;
        let contents = &parts[i].1;
        let n = name.as_str();
        let new_contents: Vec<u8> = if crate::text::str_eq(n, HEADER1) {
            let xml = text_of_bytes(contents.as_slice());
            let edited = inject_into_existing_header(
                &xml,
                text,
                "PowerPlusWaterMarkObject1",
                "_x0000_s1025",
                -251655168,
            );
            bytes_of_text(edited.as_slice())
        } else if crate::text::str_eq(n, "word/document.xml") && need_header2 {
            let xml = text_of_bytes(contents.as_slice());
            bytes_of_text(add_header_reference(&xml, HEADER_REL_ID, "default").as_slice())
        } else if crate::text::str_eq(n, "word/_rels/document.xml.rels") && need_header2 {
            let xml = text_of_bytes(contents.as_slice());
            let edited = add_relationship(
                &xml,
                HEADER_REL_ID,
                "http://schemas.openxmlformats.org/officeDocument/2006/relationships/header",
                "header2.xml",
            );
            bytes_of_text(edited.as_slice())
        } else if crate::text::str_eq(n, "[Content_Types].xml") && need_header2 {
            let xml = text_of_bytes(contents.as_slice());
            bytes_of_text(ensure_header_content_type(&xml, "/word/header2.xml").as_slice())
        } else if crate::text::str_eq(n, HEADER2) && header2 == Some(i) {
            let xml = text_of_bytes(contents.as_slice());
            let edited = inject_into_existing_header(
                &xml,
                text,
                "PowerPlusWaterMarkObject2",
                "_x0000_s1026",
                -251651072,
            );
            bytes_of_text(edited.as_slice())
        } else {
            contents.clone()
        };
        let ghost before = out@;
        out.push((name.clone(), new_contents));
        proof {
            assert(parts_view(out@) =~= parts_view(before).push((name@, new_contents@)));
            assert((name@, new_contents@) == watermarked_part(pv, i as int, text@));
            assert(parts_view(out@) =~= Seq::new((i + 1) as nat, |j: int| watermarked_part(pv, j, text@)));
        }
        i += 1;
    }
    let ghost body = parts_view(out@);
    if header1.is_none() {
        let xml = watermark_header_xml(text, "PowerPlusWaterMarkObject1", "_x0000_s1025", -251655168);
        out.push((crate::text::owned(HEADER1), bytes_of_text(xml.as_slice())));
    }
    let ghost mid = parts_view(out@);
    if need_header2 {
        let xml = watermark_header_xml(text, "PowerPlusWaterMarkObject2", "_x0000_s1026", -251651072);
        out.push((crate::text::owned(HEADER2), bytes_of_text(xml.as_slice())));
    }
    assert(parts_view(out@) =~= watermarked_parts(pv, text@));
    out
}

// ---------------------------------------------------------------------------
// The ZIP package
// ---------------------------------------------------------------------------

/// `std::io::Cursor`, carried through opaquely.
#[verifier::external_type_specification]
#[verifier::external_body]
#[verifier::reject_recursive_types(T)]
pub struct ExCursor<T>(std::io::Cursor<T>);

/// `zip::ZipArchive`, carried through opaquely.
#[verifier::external_type_specification]
#[verifier::external_body]
#[verifier::reject_recursive_types(R)]
pub struct ExZipArchive<R>(zip::ZipArchive<R>);

/// What `zip` reads out of the bytes of a package: `None` when
/// `ZipArchive::new` does not open them, otherwise, for each entry in
/// archive order, its name and contents, or `None` where that entry cannot
/// be read. A function of the bytes alone.
pub uninterp spec fn zip_read(bytes: Seq<u8>) -> Option<Seq<Option<PartView>>>;

/// What an opened archive holds: for each entry in archive order, its name
/// and contents, or `None` where that entry cannot be read.
pub uninterp spec fn archive_entries(a: zip::ZipArchive<std::io::Cursor<Vec<u8>>>) -> Seq<Option<PartView>>;

/// The bytes `zip::ZipWriter` writes for the parts (see [`zip_package`]),
/// or `None` when writing fails. A function of the parts alone: entries
/// are stamped with `zip`'s default time, 1980-01-01, because this build
/// does not turn on `zip`'s `time` feature.
pub uninterp spec fn zip_written(parts: Seq<PartView>) -> Option<Seq<u8>>;

/// `zip::ZipArchive::new` over the bytes of a package; the error as text.
/// Claimed: it opens exactly when [`zip_read`] gives entries, and the
/// archive then holds those entries.
#[verifier::external_body]
fn zip_open(bytes: Vec<u8>) -> (r: Result<zip::ZipArchive<std::io::Cursor<Vec<u8>>>, String>)
    ensures
        r is Ok <==> zip_read(bytes@) is Some,
        r matches Ok(a) ==> zip_read(bytes@) == Some(archive_entries(a)),
{
    zip::ZipArchive::new(std::io::Cursor::new(bytes)).map_err(|e| e.to_string())
}

/// `zip::ZipArchive::len`: the number of entries.
#[verifier::external_body]
fn zip_len(archive: &zip::ZipArchive<std::io::Cursor<Vec<u8>>>) -> (r: usize)
    ensures
        r == archive_entries(*archive).len(),
{
    archive.len()
}

/// Why an entry could not be read: the entry itself, or its data.
pub enum ZipEntryError {
    Entry(String),
    Data(String),
}

/// `zip::ZipArchive::by_index`, the entry read out as its name and
/// contents. Claimed: reading leaves what the archive holds as it was, and
/// for an entry of the archive, the read succeeds exactly when the entry
/// can be read, with its name and contents. Which of the two errors comes
/// is not claimed.
#[verifier::external_body]
fn zip_entry(archive: &mut zip::ZipArchive<std::io::Cursor<Vec<u8>>>, i: usize) -> (r: Result<
    (String, Vec<u8>),
    ZipEntryError,
>)
    ensures
        archive_entries(*final(archive)) == archive_entries(*old(archive)),
        i < archive_entries(*old(archive)).len() ==> match r {
            Ok(e) => archive_entries(*old(archive))[i as int] == Some((e.0@, e.1@)),
            Err(_) => archive_entries(*old(archive))[i as int] is None,
        },
{
    let mut file = archive.by_index(i).map_err(|e| ZipEntryError::Entry(e.to_string()))?;
    let name = file.name().map_err(|e| ZipEntryError::Entry(e.to_string()))?.into_owned();
    let mut contents = Vec::new();
    std::io::Read::read_to_end(&mut file, &mut contents).map_err(|e| ZipEntryError::Data(e.to_string()))?;
    Ok((name, contents))
}

/// Why writing a package failed: starting an entry, writing its data, or
/// finishing the archive.
pub enum ZipWriteError {
    Entry(String),
    Data(String),
    Finish(String),
}

/// A new deflate-compressed ZIP package of the parts, in order, written
/// with `zip::ZipWriter` (`start_file` and `write_all` for each part, then
/// `finish`). Verus cannot declare `ZipWriter`, whose parameter is bound by
/// `std::io` traits, so the writer stays inside this one item. Claimed: it
/// succeeds exactly when [`zip_written`] gives bytes, and returns those
/// bytes; which of the three errors comes is not claimed.
#[verifier::external_body]
fn zip_package(parts: &Vec<(String, Vec<u8>)>) -> (r: Result<Vec<u8>, ZipWriteError>)
    ensures
        match r {
            Ok(b) => zip_written(parts_view(parts@)) == Some(b@),
            Err(_) => zip_written(parts_view(parts@)) is None,
        },
{
    let mut writer = zip::ZipWriter::new(std::io::Cursor::new(Vec::new()));
    let options = zip::write::SimpleFileOptions::default().compression_method(zip::CompressionMethod::Deflated);
    for (name, contents) in parts {
        writer.start_file(name.as_str(), options).map_err(|e| ZipWriteError::Entry(e.to_string()))?;
        std::io::Write::write_all(&mut writer, contents).map_err(|e| ZipWriteError::Data(e.to_string()))?;
    }
    writer.finish().map(|c| c.into_inner()).map_err(|e| ZipWriteError::Finish(e.to_string()))
}

fn render_error(prefix: &str, detail: &str) -> (r: crate::error::LexiconError)
    ensures
        r matches crate::error::LexiconError::Render(m) && m@ == prefix@ + detail@,
{
    let mut msg = chars_of(prefix);
    extend_str(&mut msg, detail);
    crate::error::LexiconError::Render(string_of(&msg))
}

/// A render error whose message is one of `prefixes` followed by the
/// outside error's text.
pub open spec fn render_error_from(e: crate::error::LexiconError, prefixes: Seq<Seq<char>>) -> bool {
    e matches crate::error::LexiconError::Render(m) && exists|i: int|
        0 <= i < prefixes.len() && #[trigger] prefixes[i].is_prefix_of(m@)
}

/// The messages that reading a package fails with.
pub open spec fn read_error_prefixes() -> Seq<Seq<char>> {
    seq![
        "Failed to read docx ZIP: "@,
        "Failed to read ZIP entry: "@,
        "Failed to read ZIP entry data: "@,
    ]
}

/// The messages that writing a package fails with.
pub open spec fn write_error_prefixes() -> Seq<Seq<char>> {
    seq![
        "Failed to write ZIP entry: "@,
        "Failed to write ZIP data: "@,
        "Failed to finalize ZIP: "@,
    ]
}

proof fn lemma_render_error_from(m: Seq<char>, detail: Seq<char>, prefixes: Seq<Seq<char>>, i: int)
    requires
        0 <= i < prefixes.len(),
        m == prefixes[i] + detail,
    ensures
        prefixes[i].is_prefix_of(m),
{
    assert(m.subrange(0, prefixes[i].len() as int) =~= prefixes[i]);
}

/// The parts of an archive when every entry can be read.
pub open spec fn all_read(es: Seq<Option<PartView>>) -> Option<Seq<PartView>>
    decreases es.len(),
{
    if es.len() == 0 {
        Some(Seq::empty())
    } else {
        match (all_read(es.drop_last()), es.last()) {
            (Some(ps), Some(p)) => Some(ps.push(p)),
            _ => None,
        }
    }
}

/// The parts of a package: what [`zip_read`] gives, when the bytes open as
/// an archive and every entry can be read.
pub open spec fn package_parts(bytes: Seq<u8>) -> Option<Seq<PartView>> {
    match zip_read(bytes) {
        Some(es) => all_read(es),
        None => None,
    }
}

proof fn lemma_all_read_prefix(es: Seq<Option<PartView>>, n: int)
    requires
        0 <= n <= es.len(),
        all_read(es.take(n)) is None,
    ensures
        all_read(es) is None,
    decreases es.len() - n,
{
    if n < es.len() {
        crate::parser::clause::lemma_take_next(es, n);
        lemma_all_read_prefix(es, n + 1);
    } else {
        assert(es.take(n) =~= es);
    }
}

/// Read every part of a package, in archive order.
#[verifier::loop_isolation(false)]
fn read_parts(docx_bytes: Vec<u8>) -> (r: Result<Vec<(String, Vec<u8>)>, crate::error::LexiconError>)
    ensures
        r matches Err(e) ==> render_error_from(e, read_error_prefixes()),
        match package_parts(docx_bytes@) {
            Some(ps) => r matches Ok(files) && parts_view(files@) == ps,
            None => r is Err,
        },
{
    let ghost bytes = docx_bytes@;
    let mut archive = match zip_open(docx_bytes) {
        Ok(a) => a,
        Err(e) => {
            let err = render_error("Failed to read docx ZIP: ", e.as_str());
            proof {
                lemma_render_error_from(err->Render_0@, e@, read_error_prefixes(), 0);
            }
            return Err(err);
        },
    };
    let ghost es = archive_entries(archive);
    let n = zip_len(&archive);
    let mut files: Vec<(String, Vec<u8>)> = Vec::new();
    let mut i: usize = 0;
    proof {
        assert(es.take(0) =~= Seq::<Option<PartView>>::empty());
        assert(parts_view(files@) =~= Seq::<PartView>::empty());
    }
    while i < n
        invariant
            i <= n,
            n == es.len(),
            zip_read(bytes) == Some(es),
            archive_entries(archive) == es,
            all_read(es.take(i as int)) == Some(parts_view(files@)),
        decreases n - i,
    {
        proof {
            crate::parser::clause::lemma_take_next(es, i as int);
        }
        let (prefix, detail, k) = match zip_entry(&mut archive, i) {
            Ok(entry) => {
                let ghost before = files@;
                files.push(entry);
                proof {
                    assert(parts_view(files@) =~= parts_view(before).push((entry.0@, entry.1@)));
                }
                i += 1;
                continue;
            },
            Err(ZipEntryError::Entry(e)) => ("Failed to read ZIP entry: ", e, Ghost(1int)),
            Err(ZipEntryError::Data(e)) => ("Failed to read ZIP entry data: ", e, Ghost(2int)),
        };
        let err = render_error(prefix, detail.as_str());
        proof {
            assert(prefix@ == read_error_prefixes()[k@]);
            lemma_render_error_from(err->Render_0@, detail@, read_error_prefixes(), k@);
            assert(es[i as int] is None);
            assert(all_read(es.take(i + 1)) is None);
            lemma_all_read_prefix(es, i + 1);
            assert(all_read(es) is None);
            assert(package_parts(bytes) is None);
        }
        return Err(err);
    }
    proof {
        assert(es.take(i as int) =~= es);
    }
    Ok(files)
}

/// Write parts into a new package, deflate-compressed, in order.
fn write_parts(parts: &Vec<(String, Vec<u8>)>) -> (r: Result<Vec<u8>, crate::error::LexiconError>)
    ensures
        r matches Err(e) ==> render_error_from(e, write_error_prefixes()),
        match zip_written(parts_view(parts@)) {
            Some(b) => r matches Ok(out) && out@ == b,
            None => r is Err,
        },
{
    let (prefix, detail, i) = match zip_package(parts) {
        Ok(bytes) => {
            return Ok(bytes);
        },
        Err(ZipWriteError::Entry(e)) => ("Failed to write ZIP entry: ", e, Ghost(0int)),
        Err(ZipWriteError::Data(e)) => ("Failed to write ZIP data: ", e, Ghost(1int)),
        Err(ZipWriteError::Finish(e)) => ("Failed to finalize ZIP: ", e, Ghost(2int)),
    };
    let err = render_error(prefix, detail.as_str());
    proof {
        assert(prefix@ == write_error_prefixes()[i@]);
        lemma_render_error_from(err->Render_0@, detail@, write_error_prefixes(), i@);
    }
    Err(err)
}

/// Put a watermark with the given text (`DRAFT` for a draft) into a
/// `.docx` package: its parts are read, rewritten as [`watermark_parts`]
/// says, and written into a new package. Reading and writing the archive
/// is the `zip` crate's; only failures there give an error.
pub fn inject_watermark(docx_bytes: Vec<u8>, text: &str) -> (r: Result<Vec<u8>, crate::error::LexiconError>)
    ensures
        r matches Err(e) ==> render_error_from(e, read_error_prefixes() + write_error_prefixes()),
        match package_parts(docx_bytes@) {
            Some(ps) => match zip_written(watermarked_parts(ps, text@)) {
                Some(b) => r matches Ok(out) && out@ == b,
                None => r is Err,
            },
            None => r is Err,
        },
{
    let files = match read_parts(docx_bytes) {
        Ok(f) => f,
        Err(e) => {
            proof {
                lemma_error_prefixes_grow(e, read_error_prefixes(), write_error_prefixes(), true);
            }
            return Err(e);
        },
    };
    let parts = watermark_parts(&files, text);
    let r = write_parts(&parts);
    proof {
        if r is Err {
            lemma_error_prefixes_grow(r->Err_0, write_error_prefixes(), read_error_prefixes(), false);
        }
    }
    r
}

proof fn lemma_error_prefixes_grow(
    e: crate::error::LexiconError,
    a: Seq<Seq<char>>,
    b: Seq<Seq<char>>,
    first: bool,
)
    requires
        render_error_from(e, a),
    ensures
        render_error_from(e, if first { a + b } else { b + a }),
{
    let m = e->Render_0@;
    let i = choose|i: int| 0 <= i < a.len() && #[trigger] a[i].is_prefix_of(m);
    if first {
        assert((a + b)[i] == a[i]);
    } else {
        assert((b + a)[b.len() + i] == a[i]);
    }
}

} // verus!
