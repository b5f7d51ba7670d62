pub mod biggest;
pub mod cache;
pub mod dir_info;

use vstd::prelude::*;

verus! {

/// What can go wrong while aggregating or listing: an enumerated entry
/// whose metadata could not be read, a failure of the backing cache store,
/// or a stored cache record that does not decode.
#[derive(Debug, PartialEq, Eq, Structural, Clone, Copy)]
pub enum FsError {
    Metadata,
    Store,
    Corrupt,
}

/// Query parameters of an aggregation request: the root path and how many
/// of the biggest files and directories to keep.
pub struct DirInfoParams {
    pub path: Option<String>,
    pub files_count: Option<usize>,
    pub dirs_count: Option<usize>,
}

/// Query parameters of a listing request: the path and whether to compute
/// directory sizes.
pub struct DirContentsParams {
    pub path: Option<String>,
    pub show_dir_size: bool,
}

} // verus!
