//! Which PDS recordings a pattern stands for.
use crate::paths::{are_selected, select_paths, FoundPath};
use crate::pds::error::PdsError;
use vstd::prelude::*;

verus! {

/// The places of the files that a pattern stands for among the paths that were found for it: all
/// of them, in order, each once.
pub fn expand_paths(pattern: &str, found: &Vec<FoundPath>) -> (places: Result<
    Vec<usize>,
    PdsError,
>)
    ensures
        match places {
            Ok(places) => found@.len() > 0 && are_selected(
                places@,
                found@,
                false,
                found@.len() as int,
            ),
            Err(error) => found@.len() == 0 && (error matches PdsError::NoFiles(p) && p@
                == pattern@),
        },
{
    if found.len() == 0 {
        return Err(PdsError::NoFiles(pattern.to_owned()));
    }
    Ok(select_paths(found, false))
}

} // verus!
