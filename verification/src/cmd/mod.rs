//! The command-line commands: their arguments and the logic they run.
use vstd::prelude::*;

pub mod decode;
pub mod download;
pub mod download_piece;
pub mod info;

verus! {

/// `std::path::PathBuf`, carried through as an opaque value.
#[verifier::external_type_specification]
#[verifier::external_body]
pub struct ExPathBuf(std::path::PathBuf);

} // verus!
