//! The start of a directory walk.
use vstd::prelude::*;

verus! {

/// Why a directory walk cannot start.
#[derive(PartialEq, Eq, Structural, Clone, Copy, Debug)]
pub enum WalkError {
    /// The root does not exist.
    NotFound,
    /// The root exists but is not a directory.
    NotADirectory,
}

/// Whether a walk may start at a root, given what the file system says of it.
pub fn check_root(exists: bool, is_dir: bool) -> (r: Result<(), WalkError>)
    ensures
        r == (if !exists {
            Err(WalkError::NotFound)
        } else if !is_dir {
            Err(WalkError::NotADirectory)
        } else {
            Ok(())
        }),
{
    if !exists {
        Err(WalkError::NotFound)
    } else if !is_dir {
        Err(WalkError::NotADirectory)
    } else {
        Ok(())
    }
}

} // verus!
