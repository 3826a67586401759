//! Where the machine keeps the user's things.

use vstd::prelude::*;

use crate::paths;
use crate::paths::Place;

verus! {

/// `dirs::home_dir`: the user's home directory, by this machine's environment. Which
/// one that is, or whether there is one, nothing is claimed of; it is held with the
/// bytes of its name, so that a name that is not Unicode is not lost.
#[verifier::external_body]
pub(crate) fn home_dir() -> (r: Option<Place>)
    ensures
        paths::held_exactly(paths::place_view(r)),
{
    dirs::home_dir().map(
        |path| Place {
            shown: path.to_string_lossy().into_owned(),
            exact: Some(path.as_os_str().as_encoded_bytes().to_vec()),
        },
    )
}

/// `dirs::document_dir`: the user's documents, by this machine's environment. Which
/// directory that is, or whether there is one, nothing is claimed of; it is held
/// with the bytes of its name, so that a name that is not Unicode is not lost.
#[verifier::external_body]
pub(crate) fn document_dir() -> (r: Option<Place>)
    ensures
        paths::held_exactly(paths::place_view(r)),
{
    dirs::document_dir().map(
        |path| Place {
            shown: path.to_string_lossy().into_owned(),
            exact: Some(path.as_os_str().as_encoded_bytes().to_vec()),
        },
    )
}

/// `dirs::config_dir`: the user's settings, by this machine's environment. Which
/// directory that is, or whether there is one, nothing is claimed of; it is held
/// with the bytes of its name, so that a name that is not Unicode is not lost.
#[verifier::external_body]
pub(crate) fn config_dir() -> (r: Option<Place>)
    ensures
        paths::held_exactly(paths::place_view(r)),
{
    dirs::config_dir().map(
        |path| Place {
            shown: path.to_string_lossy().into_owned(),
            exact: Some(path.as_os_str().as_encoded_bytes().to_vec()),
        },
    )
}

} // verus!
