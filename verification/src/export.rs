use vstd::prelude::*;
use vstd::string::*;
use crate::text::{ascii_lowered, eq_ignore_ascii_case};

verus! {

/// Image file formats the canvas can be exported to.
#[derive(Clone, Copy, Debug, PartialEq, Eq, Structural)]
pub enum ExportFormat {
    PNG,
    JPEG,
    TIFF,
}

impl ExportFormat {
    /// Name of the format as shown to the user.
    pub fn label(&self) -> (r: &'static str)
        ensures
            r@ == (match *self {
                ExportFormat::PNG => "PNG"@,
                ExportFormat::JPEG => "JPEG"@,
                ExportFormat::TIFF => "TIFF"@,
            }),
    {
        match self {
            ExportFormat::PNG => "PNG",
            ExportFormat::JPEG => "JPEG",
            ExportFormat::TIFF => "TIFF",
        }
    }

    /// File extension of the format, without the dot.
    pub fn extension(&self) -> (r: &'static str)
        ensures
            r@ == self.extension_text(),
    {
        match self {
            ExportFormat::PNG => "png",
            ExportFormat::JPEG => "jpg",
            ExportFormat::TIFF => "tiff",
        }
    }

    pub open spec fn extension_text(self) -> Seq<char> {
        match self {
            ExportFormat::PNG => "png"@,
            ExportFormat::JPEG => "jpg"@,
            ExportFormat::TIFF => "tiff"@,
        }
    }
}

/// What `std::path::Path::extension` gives for the path with the text
/// `path` (under the path syntax of the platform the library is built for):
/// the text after the last dot of the file name, if there is one.
pub uninterp spec fn path_extension(path: Seq<char>) -> Option<Seq<char>>;

/// The text of the path that `std::path::PathBuf::set_extension` makes of
/// the path `path` with the extension `ext` (under the path syntax of the
/// platform the library is built for).
pub uninterp spec fn path_with_extension(path: Seq<char>, ext: Seq<char>) -> Seq<char>;

/// What `std::path::Path::file_stem` gives for the path with the text
/// `path`: the file name without its extension, `None` exactly when the
/// path has no file name.
pub uninterp spec fn path_file_stem(path: Seq<char>) -> Option<Seq<char>>;

pub open spec fn opt_text(o: Option<String>) -> Option<Seq<char>> {
    match o {
        Some(s) => Some(s@),
        None => None,
    }
}

/// Calls `std::path::Path::extension` on the path `path` and hands the
/// extension back as text. Claimed: the result is `path_extension` of the
/// path text (an extension of a path given as UTF-8 text is UTF-8 text).
#[verifier::external_body]
pub(crate) fn extension_of(path: &String) -> (r: Option<String>)
    ensures
        opt_text(r) == path_extension(path@),
{
    match std::path::Path::new(path.as_str()).extension() {
        Some(e) => match e.to_str() {
            Some(text) => Some(text.to_string()),
            None => None,
        },
        None => None,
    }
}

/// Calls `std::path::Path::file_stem` on the path `path` and hands the
/// stem back as text. Claimed: the result is `path_file_stem` of the path
/// text (a part of a path given as UTF-8 text is UTF-8 text).
#[verifier::external_body]
pub(crate) fn file_stem_of(path: &String) -> (r: Option<String>)
    ensures
        opt_text(r) == path_file_stem(path@),
{
    match std::path::Path::new(path.as_str()).file_stem() {
        Some(stem) => match stem.to_str() {
            Some(text) => Some(text.to_string()),
            None => None,
        },
        None => None,
    }
}

/// Whether `ext` holds no path separator (`/`, or a backslash where that
/// is one too); `std::path::PathBuf::set_extension` panics on an extension
/// with one.
pub open spec fn separator_free(ext: Seq<char>) -> bool {
    forall|i: int| 0 <= i < ext.len() ==> ext[i] != '/' && ext[i] != '\\'
}

/// A non-empty extension without a dot: `set_extension` then gives the
/// path exactly that extension.
pub open spec fn plain_extension(ext: Seq<char>) -> bool {
    ext.len() > 0 && forall|i: int| 0 <= i < ext.len() ==> ext[i] != '.'
}

/// Calls `std::path::PathBuf::set_extension` on the path `path` with
/// `ext` and hands the path back as text. Claimed: the result is
/// `path_with_extension` of the two texts; and, for a non-empty extension
/// without a dot, as documented: a path without a file name (no file stem)
/// is left unchanged, and otherwise the file stem is kept and the
/// extension becomes `ext`.
#[verifier::external_body]
fn set_extension_of(path: &String, ext: &str) -> (r: String)
    requires
        separator_free(ext@),
    ensures
        r@ == path_with_extension(path@, ext@),
        plain_extension(ext@) && path_file_stem(path@) is None ==> r@ == path@,
        plain_extension(ext@) && path_file_stem(path@) is Some ==> path_extension(r@) == Some(ext@)
            && path_file_stem(r@) == path_file_stem(path@),
{
    let mut p = std::path::PathBuf::from(path.as_str());
    p.set_extension(ext);
    p.to_string_lossy().into_owned()
}

/// The extension already present is kept when it equals `ext` up to ASCII
/// case.
pub open spec fn keeps(current: Option<Seq<char>>, ext: Seq<char>) -> bool {
    match current {
        Some(c) => ascii_lowered(c) == ascii_lowered(ext),
        None => false,
    }
}

/// Whether a path whose extension is `current` already ends in `ext`, up
/// to ASCII case.
pub fn keeps_extension(current: &Option<String>, ext: &str) -> (r: bool)
    ensures
        r == keeps(opt_text(*current), ext@),
{
    match current {
        Some(c) => eq_ignore_ascii_case(c.as_str(), ext),
        None => false,
    }
}

/// The path `path` with extension `ext`: unchanged where its extension
/// already matches up to ASCII case, else with the extension set.
pub open spec fn with_ensured_extension(path: Seq<char>, ext: Seq<char>) -> Seq<char> {
    if keeps(path_extension(path), ext) {
        path
    } else {
        path_with_extension(path, ext)
    }
}

/// Gives `path` the extension `ext` unless it already has it, in any ASCII
/// case. For a non-empty extension without a dot, a path with a file name
/// keeps its file stem and ends up with the extension (in some ASCII case),
/// and doing it again to the result changes nothing.
pub fn ensure_extension(path: String, ext: &str) -> (r: String)
    requires
        separator_free(ext@),
    ensures
        r@ == with_ensured_extension(path@, ext@),
        plain_extension(ext@) ==> with_ensured_extension(r@, ext@) == r@,
        plain_extension(ext@) && path_file_stem(path@) is Some ==> keeps(path_extension(r@), ext@)
            && path_file_stem(r@) == path_file_stem(path@),
{
    let current = extension_of(&path);
    if keeps_extension(&current, ext) {
        path
    } else {
        set_extension_of(&path, ext)
    }
}

/// Export settings chosen in the export dialog.
pub struct ExportSettings {
    pub format: ExportFormat,
    /// Path picked in the file dialog, as text.
    pub chosen_path: Option<String>,
    pub base_name: String,
}

impl ExportSettings {
    /// PNG, no path chosen, base name `export`.
    pub fn new() -> (s: Self)
        ensures
            s.format == ExportFormat::PNG,
            s.chosen_path is None,
            s.base_name@ == "export"@,
    {
        ExportSettings { format: ExportFormat::PNG, chosen_path: None, base_name: String::from_str("export") }
    }

    /// The base name, a dot and the extension of the format.
    pub open spec fn default_name(self) -> Seq<char> {
        self.base_name@ + "."@ + self.format.extension_text()
    }

    /// File name offered when no path has been chosen.
    pub fn default_file_name(&self) -> (r: String)
        ensures
            r@ == self.default_name(),
    {
        let mut s = self.base_name.clone();
        s.append(".");
        s.append(self.format.extension());
        s
    }

    /// Where the export is written: the chosen path with the format's
    /// extension ensured (its file stem kept), or else the default file
    /// name.
    pub fn output_path(&self) -> (r: String)
        ensures
            r@ == (match self.chosen_path {
                Some(p) => with_ensured_extension(p@, self.format.extension_text()),
                None => self.default_name(),
            }),
            self.chosen_path matches Some(p) ==> (path_file_stem(p@) is Some ==> keeps(
                path_extension(r@),
                self.format.extension_text(),
            ) && path_file_stem(r@) == path_file_stem(p@)),
    {
        proof {
            reveal_strlit("png");
            reveal_strlit("jpg");
            reveal_strlit("tiff");
        }
        match &self.chosen_path {
            Some(path) => ensure_extension(path.clone(), self.format.extension()),
            None => self.default_file_name(),
        }
    }
}

} // verus!
