//! The vault directory and its repository.
use vstd::prelude::*;

verus! {

/// What making sure a vault exists takes.
#[derive(Debug, PartialEq, Eq, Structural)]
pub enum EnsureStep {
    /// Create the directory and initialize the repository.
    CreateAndInit,
    /// Initialize the repository in the existing directory.
    InitRepository,
    /// The vault is there already.
    Nothing,
}

/// Ensure a vault exists at the given path: from whether the directory
/// exists and whether it holds a `.jj` repository, what to do. A missing
/// vault is created and initialized; a directory without repository gets
/// one.
pub fn ensure(exists: bool, has_repository: bool) -> (res: EnsureStep)
    ensures
        !exists ==> res == EnsureStep::CreateAndInit,
        exists && !has_repository ==> res == EnsureStep::InitRepository,
        exists && has_repository ==> res == EnsureStep::Nothing,
{
    if !exists {
        EnsureStep::CreateAndInit
    } else if !has_repository {
        EnsureStep::InitRepository
    } else {
        EnsureStep::Nothing
    }
}

} // verus!
