//! The adapter from a path of the namespace to a path of the host.

use crate::path::{render, KosmoraPathBuf};
use std::path::PathBuf;
use vstd::prelude::*;
use vstd::std_specs::convert::FromSpecImpl;

verus! {

/// `std::path::PathBuf`, a path of the host. Nothing is known of what one
/// holds.
#[verifier::external_type_specification]
#[verifier::external_body]
pub struct ExPathBuf(PathBuf);

/// The host path that `PathBuf::from` makes of a string with the characters `text`.
pub uninterp spec fn host_path(text: Seq<char>) -> PathBuf;

/// `PathBuf::from` on a `String` wraps the string as it is: the result
/// depends on the characters of the string and on nothing else.
#[verifier::external_body]
fn host_path_from(text: String) -> (out: PathBuf)
    ensures
        out == host_path(text@),
{
    PathBuf::from(text)
}

impl From<KosmoraPathBuf> for PathBuf {
    /// The host path written as the canonical text of `value`.
    fn from(value: KosmoraPathBuf) -> (out: PathBuf) {
        host_path_from(value.to_string())
    }
}

impl FromSpecImpl<KosmoraPathBuf> for PathBuf {
    open spec fn obeys_from_spec() -> bool {
        true
    }

    open spec fn from_spec(value: KosmoraPathBuf) -> PathBuf {
        host_path(render(value@.components))
    }
}

} // verus!
