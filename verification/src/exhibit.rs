//! Exhibit files: where a declared exhibit's file is, and what kind it is.
//!
//! Paths are handled with `std::path::Path`, whose answers depend on the
//! platform and, for existence, on the file system; the logic here states
//! what holds whatever they answer.
use vstd::prelude::*;

use crate::error::LexiconError;
use crate::frontmatter::opt_view;
use crate::pattern::{lowercase, to_lowercase};
use crate::terms::str_opt_view;
use crate::text::{chars_of, extend_str, str_eq, string_of};

verus! {

/// Supported exhibit file types.
#[derive(Debug, Clone, Copy, PartialEq, Eq, Structural)]
pub enum ExhibitFileType {
    Png,
    Jpeg,
    Pdf,
}

/// `Path::is_absolute`. What counts as absolute depends on the platform,
/// so nothing is claimed of the answer.
#[verifier::external_body]
fn path_is_absolute(path: &str) -> bool {
    std::path::Path::new(path).is_absolute()
}

/// `Path::join` of a directory and a path, as a string. The separator
/// depends on the platform, so nothing is claimed of the result.
#[verifier::external_body]
fn path_join(dir: &str, path: &str) -> String {
    std::path::Path::new(dir).join(path).to_string_lossy().into_owned()
}

/// `Path::extension`, as a string. Where the file name starts depends on the
/// platform's separators, so nothing is claimed of the result.
#[verifier::external_body]
fn path_extension(path: &str) -> Option<String> {
    std::path::Path::new(path).extension().map(|e| e.to_string_lossy().into_owned())
}

/// `Path::exists`: whether the file system has something at the path. It
/// depends on the file system, so nothing is claimed of the answer.
#[verifier::external_body]
pub(crate) fn path_exists(path: &str) -> bool {
    std::path::Path::new(path).exists()
}

/// The error for a relative exhibit path with no directory to resolve it in.
pub open spec fn relative_message(path: Seq<char>) -> Seq<char> {
    "Exhibit path '"@ + path + "' is relative but no input directory is available"@
}

/// Where an exhibit path resolves to, given whether the platform takes it
/// as absolute and what it makes of the path joined to the directory: an
/// absolute path stands as it is, a relative one is the joined path, and a
/// relative one with no directory is an error with this message.
pub open spec fn resolved_path(
    path: Seq<char>,
    input_dir: Option<Seq<char>>,
    absolute: bool,
    joined: Seq<char>,
) -> Result<Seq<char>, Seq<char>> {
    if absolute {
        Ok(path)
    } else {
        match input_dir {
            Some(_) => Ok(joined),
            None => Err(relative_message(path)),
        }
    }
}

/// `r` is the resolution `res`: the path, or a render error with the message.
pub open spec fn resolution_is(r: Result<String, LexiconError>, res: Result<Seq<char>, Seq<char>>) -> bool {
    match res {
        Ok(p) => r matches Ok(s) && s@ == p,
        Err(m) => r matches Err(LexiconError::Render(x)) && x@ == m,
    }
}

/// Resolve an exhibit path from the platform's answers: whether the path
/// is absolute, and the path joined to the input directory.
pub fn resolve_path_from(path: &str, input_dir: Option<&str>, absolute: bool, joined: String) -> (r: Result<
    String,
    LexiconError,
>)
    ensures
        resolution_is(r, resolved_path(path@, str_opt_view(input_dir), absolute, joined@)),
{
    if absolute {
        return Ok(string_of(&chars_of(path)));
    }
    match input_dir {
        Some(_) => Ok(joined),
        None => {
            let mut msg: Vec<char> = Vec::new();
            extend_str(&mut msg, "Exhibit path '");
            extend_str(&mut msg, path);
            extend_str(&mut msg, "' is relative but no input directory is available");
            assert(msg@ =~= relative_message(path@));
            Err(LexiconError::Render(string_of(&msg)))
        },
    }
}

/// Resolve an exhibit path against the input document's directory: an
/// absolute path stands as it is, a relative one is joined to the
/// directory, and a relative one with no directory is an error. Which
/// paths are absolute, and how a path is joined, is the platform's
/// `Path` rule: the result is [`resolve_path_from`] of its answers.
pub fn resolve_exhibit_path(path: &str, input_dir: Option<&str>) -> (r: Result<String, LexiconError>)
    ensures
        r is Err ==> input_dir is None,
        input_dir is Some ==> r is Ok,
        r matches Err(e) ==> e is Render,
        input_dir is None ==> (r matches Ok(p) ==> p@ == path@),
        exists|absolute: bool, joined: Seq<char>|
            #![trigger resolved_path(path@, str_opt_view(input_dir), absolute, joined)]
            resolution_is(r, resolved_path(path@, str_opt_view(input_dir), absolute, joined)),
{
    let absolute = path_is_absolute(path);
    let joined = match input_dir {
        Some(dir) => if absolute {
            String::new()
        } else {
            path_join(dir, path)
        },
        None => String::new(),
    };
    let ghost j = joined@;
    let r = resolve_path_from(path, input_dir, absolute, joined);
    assert(resolution_is(r, resolved_path(path@, str_opt_view(input_dir), absolute, j)));
    r
}

/// The resolved path of an exhibit, given whether the file system has
/// something there: the path, or the not-found error.
pub fn exhibit_found(resolved: String, exists: bool) -> (r: Result<String, LexiconError>)
    ensures
        exists ==> (r matches Ok(p) && p@ == resolved@),
        !exists ==> (r matches Err(LexiconError::Render(m)) && m@ == not_found_message(resolved@)),
{
    if !exists {
        let mut msg: Vec<char> = Vec::new();
        extend_str(&mut msg, "Exhibit file not found: '");
        extend_str(&mut msg, resolved.as_str());
        extend_str(&mut msg, "'");
        assert(msg@ =~= not_found_message(resolved@));
        return Err(LexiconError::Render(string_of(&msg)));
    }
    Ok(resolved)
}

/// The file type of a lower-cased extension.
pub open spec fn file_type_of(ext: Seq<char>) -> Option<ExhibitFileType> {
    if ext == "png"@ {
        Some(ExhibitFileType::Png)
    } else if ext == "jpg"@ || ext == "jpeg"@ {
        Some(ExhibitFileType::Jpeg)
    } else if ext == "pdf"@ {
        Some(ExhibitFileType::Pdf)
    } else {
        None
    }
}

/// The file type of a lower-cased extension: `png`, `jpg`/`jpeg` or `pdf`.
pub fn file_type_for(ext: &str) -> (r: Option<ExhibitFileType>)
    ensures
        r == file_type_of(ext@),
{
    if str_eq(ext, "png") {
        Some(ExhibitFileType::Png)
    } else if str_eq(ext, "jpg") || str_eq(ext, "jpeg") {
        Some(ExhibitFileType::Jpeg)
    } else if str_eq(ext, "pdf") {
        Some(ExhibitFileType::Pdf)
    } else {
        None
    }
}

/// The file type an extension (as `Path::extension` gives it) selects,
/// compared without regard to case; no extension selects nothing.
pub open spec fn type_for_extension(ext: Option<Seq<char>>) -> Option<ExhibitFileType> {
    file_type_of(lowercase(ext_or_empty(ext)))
}

/// An extension, or the empty text.
pub open spec fn ext_or_empty(ext: Option<Seq<char>>) -> Seq<char> {
    match ext {
        Some(e) => e,
        None => Seq::empty(),
    }
}

/// The error an unsupported extension gives.
pub open spec fn unsupported_type_message(ext: Option<Seq<char>>, path: Seq<char>) -> Seq<char> {
    "Unsupported exhibit file type '"@ + lowercase(ext_or_empty(ext)) + "' for '"@ + path + "'"@
}

/// What detecting the type of `path` gives when its extension is `ext`.
pub open spec fn type_detected(
    r: Result<ExhibitFileType, LexiconError>,
    ext: Option<Seq<char>>,
    path: Seq<char>,
) -> bool {
    match type_for_extension(ext) {
        Some(t) => r == Ok::<ExhibitFileType, LexiconError>(t),
        None => r matches Err(LexiconError::Render(m)) && m@ == unsupported_type_message(ext, path),
    }
}

/// The file type of an exhibit at `path` whose extension is `ext`: `png`,
/// `jpg`/`jpeg` or `pdf` in any case; anything else, or no extension, is
/// an error naming the extension and the path.
pub fn classify_extension(ext: Option<&str>, path: &str) -> (r: Result<ExhibitFileType, LexiconError>)
    ensures
        type_detected(r, str_opt_view(ext), path@),
{
    proof {
        reveal_strlit("");
        assert(""@ =~= Seq::<char>::empty());
    }
    let lower = match ext {
        Some(e) => to_lowercase(e),
        None => to_lowercase(""),
    };
    assert(lower@ == lowercase(ext_or_empty(str_opt_view(ext))));
    match file_type_for(lower.as_str()) {
        Some(t) => Ok(t),
        None => {
            let mut msg: Vec<char> = Vec::new();
            extend_str(&mut msg, "Unsupported exhibit file type '");
            extend_str(&mut msg, lower.as_str());
            extend_str(&mut msg, "' for '");
            extend_str(&mut msg, path);
            extend_str(&mut msg, "'");
            Err(LexiconError::Render(string_of(&msg)))
        },
    }
}

/// Detect an exhibit's file type from its path's extension (see
/// [`classify_extension`]). Which part of the path is the extension is the
/// platform's `Path` rule, so this holds for the extension found, whatever
/// it is.
pub fn detect_file_type(path: &str) -> (r: Result<ExhibitFileType, LexiconError>)
    ensures
        exists|ext: Option<Seq<char>>| type_detected(r, ext, path@),
{
    let ext = path_extension(path);
    let r = match &ext {
        Some(e) => classify_extension(Some(e.as_str()), path),
        None => classify_extension(None, path),
    };
    assert(type_detected(r, opt_view(ext), path@));
    r
}

/// The error a missing exhibit file gives.
pub open spec fn not_found_message(path: Seq<char>) -> Seq<char> {
    "Exhibit file not found: '"@ + path + "'"@
}

/// `r` is what locating an exhibit gives when its path resolves as `res`
/// and the file system answers `found` for the resolved path: the
/// resolution's error; else the not-found error when nothing is there,
/// checked before the file type; else the resolved path and the type the
/// path's extension selects, or the type error.
pub open spec fn located(
    r: Result<(String, ExhibitFileType), LexiconError>,
    res: Result<Seq<char>, Seq<char>>,
    found: bool,
) -> bool {
    match res {
        Err(m) => r matches Err(LexiconError::Render(x)) && x@ == m,
        Ok(p) => if !found {
            r matches Err(LexiconError::Render(x)) && x@ == not_found_message(p)
        } else {
            match r {
                Ok((q, t)) => q@ == p && exists|ext: Option<Seq<char>>|
                    #[trigger] type_detected(Ok::<ExhibitFileType, LexiconError>(t), ext, p),
                Err(e) => exists|ext: Option<Seq<char>>|
                    #[trigger] type_detected(Err::<ExhibitFileType, LexiconError>(e), ext, p),
            }
        },
    }
}

/// Where an exhibit's file is and what kind of file it is: the path
/// resolved against the input directory ([`resolve_exhibit_path`]), an
/// error if nothing is there, else its type ([`detect_file_type`]).
pub fn locate_exhibit(path: &str, input_dir: Option<&str>) -> (r: Result<
    (String, ExhibitFileType),
    LexiconError,
>)
    ensures
        input_dir is None ==> (r matches Ok((p, _)) ==> p@ == path@),
        r matches Err(e) ==> e is Render,
        r matches Ok((p, t)) ==> exists|ext: Option<Seq<char>>|
            #[trigger] type_detected(Ok::<ExhibitFileType, LexiconError>(t), ext, p@),
        exists|absolute: bool, joined: Seq<char>, found: bool|
            #![trigger located(r, resolved_path(path@, str_opt_view(input_dir), absolute, joined), found)]
            located(r, resolved_path(path@, str_opt_view(input_dir), absolute, joined), found),
{
    let resolved = match resolve_exhibit_path(path, input_dir) {
        Ok(p) => p,
        Err(e) => {
            let ghost (a, j) = choose|absolute: bool, joined: Seq<char>|
                resolution_is(
                    Err::<String, LexiconError>(e),
                    resolved_path(path@, str_opt_view(input_dir), absolute, joined),
                );
            assert(located(Err(e), resolved_path(path@, str_opt_view(input_dir), a, j), true));
            return Err(e);
        },
    };
    let ghost (a, j) = choose|absolute: bool, joined: Seq<char>|
        resolution_is(
            Ok::<String, LexiconError>(resolved),
            resolved_path(path@, str_opt_view(input_dir), absolute, joined),
        );
    let exists = path_exists(resolved.as_str());
    let resolved = match exhibit_found(resolved, exists) {
        Ok(p) => p,
        Err(e) => {
            assert(located(Err(e), resolved_path(path@, str_opt_view(input_dir), a, j), exists));
            return Err(e);
        },
    };
    let d = detect_file_type(resolved.as_str());
    match d {
        Ok(t) => {
            let ghost ext = choose|ext: Option<Seq<char>>| type_detected(d, ext, resolved@);
            assert(type_detected(Ok::<ExhibitFileType, LexiconError>(t), ext, resolved@));
            let r = (resolved, t);
            assert(type_detected(Ok::<ExhibitFileType, LexiconError>(r.1), ext, r.0@));
            assert(located(Ok(r), resolved_path(path@, str_opt_view(input_dir), a, j), exists));
            Ok(r)
        },
        Err(e) => {
            let ghost ext = choose|ext: Option<Seq<char>>| type_detected(d, ext, resolved@);
            assert(type_detected(d, ext, resolved@));
            assert(located(Err(e), resolved_path(path@, str_opt_view(input_dir), a, j), exists));
            Err(e)
        },
    }
}

/// A loaded exhibit page: PNG bytes and pixel dimensions.
pub struct ExhibitImage {
    pub png_bytes: Vec<u8>,
    pub width_px: u32,
    pub height_px: u32,
}


/// English Metric Units per pixel at 96 dpi.
pub const EMU_PER_PX: u64 = 9525;

/// Whether an image of `w` by `h` EMU is scaled by its width (to exactly
/// `max_w`) rather than by its height: the width ratio `max_w / w` is the
/// smaller one, a side of length zero never limiting the scale.
pub open spec fn scale_by_width(w: int, h: int, max_w: int, max_h: int) -> bool {
    w > 0 && (h == 0 || max_w * h <= max_h * w)
}

/// The display size of an image of `img_w_px` by `img_h_px` pixels on a
/// content area of `max_w` by `max_h` EMU: its natural size when that fits,
/// else the natural size times the largest scale that fits, rounded down.
pub open spec fn fitted_size(img_w_px: int, img_h_px: int, max_w: int, max_h: int) -> (int, int) {
    let w = img_w_px * 9525;
    let h = img_h_px * 9525;
    if w <= max_w && h <= max_h {
        (w, h)
    } else if scale_by_width(w, h, max_w, max_h) {
        (max_w, h * max_w / w)
    } else {
        (w * max_h / h, max_h)
    }
}

/// Display size in EMU that fits the page content area, keeping the aspect
/// ratio: `(width_emu, height_emu)`.
pub fn fit_to_page(img_w_px: u32, img_h_px: u32, max_w_emu: u32, max_h_emu: u32) -> (r: (u32, u32))
    ensures
        (r.0 as int, r.1 as int) == fitted_size(
            img_w_px as int,
            img_h_px as int,
            max_w_emu as int,
            max_h_emu as int,
        ),
{
    let w: u64 = img_w_px as u64 * EMU_PER_PX;
    let h: u64 = img_h_px as u64 * EMU_PER_PX;
    let mw: u64 = max_w_emu as u64;
    let mh: u64 = max_h_emu as u64;
    if w <= mw && h <= mh {
        return (w as u32, h as u32);
    }
    proof {
        assert(mw as int * h as int <= 0xffff_ffff * 0x1_0000_0000_0000) by (nonlinear_arith)
            requires
                mw <= 0xffff_ffff,
                h <= 0x1_0000_0000_0000,
        ;
        assert(mh as int * w as int <= 0xffff_ffff * 0x1_0000_0000_0000) by (nonlinear_arith)
            requires
                mh <= 0xffff_ffff,
                w <= 0x1_0000_0000_0000,
        ;
    }
    let cross_w: u128 = mw as u128 * h as u128;
    let cross_h: u128 = mh as u128 * w as u128;
    if w > 0 && (h == 0 || cross_w <= cross_h) {
        let scaled: u128 = h as u128 * mw as u128 / w as u128;
        proof {
            assert(h as int * mw as int / w as int <= mh as int) by (nonlinear_arith)
                requires
                    w > 0,
                    h * mw <= mh * w,
            {
                assert(h as int * mw as int / w as int * w as int <= h as int * mw as int);
            }
            if h == 0 {
                assert(h as int * mw as int == 0);
            }
        }
        (max_w_emu, scaled as u32)
    } else {
        proof {
            if w == 0 {
                assert(w as int * mh as int == 0);
            }
        }
        let scaled: u128 = w as u128 * mh as u128 / h as u128;
        proof {
            assert(w as int * mh as int / h as int <= mw as int) by (nonlinear_arith)
                requires
                    h > 0,
                    w * mh <= mw * h,
            {
                assert(w as int * mh as int / h as int * h as int <= w as int * mh as int);
            }
        }
        (scaled as u32, max_h_emu)
    }
}

} // verus!
