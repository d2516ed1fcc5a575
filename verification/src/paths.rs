//! Default names of the files the command line writes.
use vstd::prelude::*;

verus! {

/// The archive written when `pack` gets no output path: the directory's name
/// followed by `.riftx`, or `archive.riftx` when the name is not valid text.
pub fn default_pack_output(dir_name: Option<&str>) -> (r: String)
    ensures
        dir_name matches Some(n) ==> r@ == n@ + ".riftx"@,
        dir_name is None ==> r@ == "archive.riftx"@,
{
    match dir_name {
        Some(n) => String::from_str(n).concat(".riftx"),
        None => String::from_str("archive.riftx"),
    }
}

/// The directory `unpack` extracts into when it gets no output path: the
/// archive's file stem, or `archive` when there is none that is valid text.
pub fn default_unpack_output(stem_name: Option<&str>) -> (r: String)
    ensures
        stem_name matches Some(n) ==> r@ == n@,
        stem_name is None ==> r@ == "archive"@,
{
    match stem_name {
        Some(n) => String::from_str(n),
        None => String::from_str("archive"),
    }
}

} // verus!
