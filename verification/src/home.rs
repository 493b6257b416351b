//! The user's home directory.

use vstd::prelude::*;

use crate::ledger::opt_bytes;
use crate::ledger::opt_path;
use crate::path::parsed;
use crate::path::PathBuf;
use crate::path::PathView;
use crate::path::Style;

verus! {

/// Calls `dirs::home_dir`, and hands over the bytes of the path. What it says
/// depends on the user and on the environment, so nothing is said of it.
#[verifier::external_body]
fn home_bytes() -> (r: Option<Vec<u8>>) {
    dirs::home_dir().map(|p| p.into_os_string().into_encoded_bytes())
}

/// The home directory, when the system says `found` of it.
pub open spec fn home_place(style: Style, found: Option<Seq<u8>>) -> Option<PathView> {
    match found {
        Some(text) => Some(parsed(style, text)),
        None => None,
    }
}

/// The home directory, by what the system says of it: the path that it names, and
/// none just where it names none.
pub fn home_dir_from(style: Style, found: &Option<Vec<u8>>) -> (r: Option<PathBuf>)
    ensures
        match r {
            Some(p) => home_place(style, opt_bytes(*found)) == Some(p@),
            None => found is None,
        },
{
    match found {
        Some(b) => Some(PathBuf::parse(style, b)),
        None => None,
    }
}

/// Whether a home directory is what the system may have said.
pub open spec fn is_said(style: Style, r: Option<PathView>) -> bool {
    exists|found: Option<Seq<u8>>| r == #[trigger] home_place(style, found)
}

/// The user's home directory, where the system knows it.
pub fn home_dir(style: Style) -> (r: Option<PathBuf>)
    ensures
        is_said(style, opt_path(r)),
{
    let found = home_bytes();
    let r = home_dir_from(style, &found);
    assert(opt_path(r) == home_place(style, opt_bytes(found)));
    r
}

} // verus!
