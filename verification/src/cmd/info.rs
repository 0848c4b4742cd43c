//! Arguments of the `info` command.
use vstd::prelude::*;

use std::path::PathBuf;

verus! {

/// Print the information of a metainfo file.
pub struct Info {
    /// The metainfo file.
    pub path: PathBuf,
}

} // verus!
