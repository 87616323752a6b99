use vstd::prelude::*;
use vstd::string::*;
use crate::text::{ascii_lowered, eq_ignore_ascii_case};
use crate::export::{extension_of, file_stem_of, path_extension, path_file_stem};

verus! {

/// An extension of the image files that brush tips are loaded from:
/// `png`, `jpg`, `jpeg` or `bmp`, in any ASCII case.
pub open spec fn tip_extension(e: Seq<char>) -> bool {
    let l = ascii_lowered(e);
    l == "png"@ || l == "jpg"@ || l == "jpeg"@ || l == "bmp"@
}

/// Whether the file at `path` is loaded as a brush tip: its extension is
/// one of the tip image formats.
pub fn is_brush_tip_path(path: &String) -> (r: bool)
    ensures
        r == match path_extension(path@) {
            Some(e) => tip_extension(e),
            None => false,
        },
{
    proof {
        reveal_strlit("png");
        reveal_strlit("jpg");
        reveal_strlit("jpeg");
        reveal_strlit("bmp");
        assert(ascii_lowered("png"@) =~= "png"@);
        assert(ascii_lowered("jpg"@) =~= "jpg"@);
        assert(ascii_lowered("jpeg"@) =~= "jpeg"@);
        assert(ascii_lowered("bmp"@) =~= "bmp"@);
    }
    let ext = extension_of(path);
    match &ext {
        Some(e) => {
            let e = e.as_str();
            eq_ignore_ascii_case(e, "png") || eq_ignore_ascii_case(e, "jpg") || eq_ignore_ascii_case(e, "jpeg")
                || eq_ignore_ascii_case(e, "bmp")
        },
        None => false,
    }
}

/// Name of the brush tip loaded from `path`: its file stem, or empty text
/// when it has none.
pub fn brush_tip_name(path: &String) -> (r: String)
    ensures
        r@ == match path_file_stem(path@) {
            Some(s) => s,
            None => Seq::<char>::empty(),
        },
{
    match file_stem_of(path) {
        Some(s) => s,
        None => String::new(),
    }
}

} // verus!
