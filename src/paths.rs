//! File names of flow files and project anchors.
use vstd::prelude::*;

verus! {

/// What `Path::file_stem` gives for a path: its file name without the final extension.
pub uninterp spec fn file_stem_of(path: Seq<char>) -> Option<Seq<char>>;

/// What `Path::extension` gives for a path: what follows the final `.` of its file name.
pub uninterp spec fn extension_of(path: Seq<char>) -> Option<Seq<char>>;

/// Relies on `std::path::Path::file_stem`: the stem of the path's file name,
/// if it has a file name.
#[verifier::external_body]
fn path_stem(path: &str) -> (r: Option<String>)
    ensures
        match r {
            Some(s) => file_stem_of(path@) == Some(s@),
            None => file_stem_of(path@) is None,
        },
{
    match std::path::Path::new(path).file_stem() {
        Some(s) => Some(s.to_string_lossy().into_owned()),
        None => None,
    }
}

/// Relies on `std::path::Path::extension`: the extension of the path's file
/// name, if it has one.
#[verifier::external_body]
fn path_extension(path: &str) -> (r: Option<String>)
    ensures
        match r {
            Some(s) => extension_of(path@) == Some(s@),
            None => extension_of(path@) is None,
        },
{
    match std::path::Path::new(path).extension() {
        Some(s) => Some(s.to_string_lossy().into_owned()),
        None => None,
    }
}

pub open spec fn unknown_name() -> Seq<char> {
    seq!['u', 'n', 'k', 'n', 'o', 'w', 'n']
}

/// The name a file gives to what it defines: its stem, or `unknown`.
pub open spec fn name_of(path: Seq<char>) -> Seq<char> {
    match file_stem_of(path) {
        Some(s) => s,
        None => unknown_name(),
    }
}

pub open spec fn project_ext() -> Seq<char> {
    seq!['p', 'r', 'o', 'j', 'e', 'c', 't']
}

/// A file that marks its directory as a project.
pub open spec fn is_anchor(path: Seq<char>) -> bool {
    extension_of(path) == Some(project_ext())
}

/// The name of the flow or project that the file at `path` defines.
pub fn stem_name(path: &str) -> (r: String)
    ensures
        r@ == name_of(path@),
{
    match path_stem(path) {
        Some(s) => s,
        None => {
            let r = "unknown".to_owned();
            proof {
                reveal_strlit("unknown");
            }
            assert(r@ =~= unknown_name());
            r
        },
    }
}

/// Whether the file at `path` is a project anchor (extension `project`).
pub fn is_project_file(path: &str) -> (r: bool)
    ensures
        r == is_anchor(path@),
{
    match path_extension(path) {
        Some(e) => {
            let p = "project".to_owned();
            proof {
                reveal_strlit("project");
            }
            assert(p@ =~= project_ext());
            e == p
        },
        None => false,
    }
}

} // verus!
