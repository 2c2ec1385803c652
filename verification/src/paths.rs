//! File-system paths as the standard library reads them: extensions, file
//! stems and components, for the target's path syntax.

use vstd::prelude::*;

verus! {

/// The extension of a path (`Path::extension`), as text.
pub uninterp spec fn path_extension(path: Seq<char>) -> Option<Seq<char>>;

/// The file stem of a path (`Path::file_stem`), as text.
pub uninterp spec fn path_file_stem(path: Seq<char>) -> Option<Seq<char>>;

/// The components of a path (`Path::components`), each as text.
pub uninterp spec fn path_components(path: Seq<char>) -> Seq<Seq<char>>;

/// `Path::extension`: the text after the last `.` of the file name, if the
/// file name has a `.` that is not its first character. The result is named
/// `path_extension`; the rules by which the standard library finds the file
/// name are not restated here.
#[verifier::external_body]
pub(crate) fn extension_of(path: &str) -> (r: Option<String>)
    ensures
        match r {
            Some(e) => path_extension(path@) == Some(e@),
            None => path_extension(path@) is None,
        },
{
    std::path::Path::new(path).extension().map(|e| e.to_string_lossy().into_owned())
}

/// `Path::file_stem`: the file name without its extension. The result is
/// named `path_file_stem`; how the file name is found is not restated here.
#[verifier::external_body]
pub(crate) fn file_stem_of(path: &str) -> (r: Option<String>)
    ensures
        match r {
            Some(s) => path_file_stem(path@) == Some(s@),
            None => path_file_stem(path@) is None,
        },
{
    std::path::Path::new(path).file_stem().map(|s| s.to_string_lossy().into_owned())
}

/// `Path::components`: the normalised components of a path. The result is
/// named `path_components`; the normalisation rules are not restated here.
#[verifier::external_body]
pub(crate) fn components_of(path: &str) -> (r: Vec<String>)
    ensures
        r@.map_values(|c: String| c@) == path_components(path@),
{
    std::path::Path::new(path).components().map(|c| c.as_os_str().to_string_lossy().into_owned()).collect()
}

} // verus!
