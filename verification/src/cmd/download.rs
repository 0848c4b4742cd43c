//! Arguments of the `download` command.
use vstd::prelude::*;

use std::path::PathBuf;

verus! {

/// Download a whole torrent.
pub struct Download {
    /// The metainfo file.
    pub path: PathBuf,
    /// Where to write the download.
    pub output: PathBuf,
}

} // verus!
