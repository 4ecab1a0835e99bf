//! Which files a recursive directory listing keeps.

use vstd::prelude::*;

verus! {

/// Whether a directory listing keeps a file with extension `file_ext`
/// (none when the file has no extension): with no wanted extension every
/// file is kept; else only those whose extension is exactly the wanted one.
pub fn keep_file(file_ext: Option<&str>, wanted: Option<&str>) -> (r: bool)
    ensures
        r == match (file_ext, wanted) {
            (_, None) => true,
            (None, Some(_)) => false,
            (Some(f), Some(w)) => f@ == w@,
        },
{
    match wanted {
        None => true,
        Some(w) => match file_ext {
            None => false,
            Some(f) => crate::tokens::attrs::str_is(f, w),
        },
    }
}

} // verus!
