//! Observed filesystem state, as an external directory walker reports it.
//!
//! The walker itself does I/O and lives with the caller; it hands this
//! library, for every regular file under the watched root, the file's path
//! relative to that root (separators normalized to forward slashes) and its
//! modification time in seconds since the epoch.

use vstd::prelude::*;
use vstd::string::StrSliceExecFns;

verus! {

/// One observed file: relative path and modification time, no digest.
pub struct FileData {
    pub filename: String,
    pub modified: u64,
}

impl FileData {
    pub fn new(filename: String, modified: u64) -> (r: FileData)
        ensures
            r.filename == filename,
            r.modified == modified,
    {
        FileData { filename, modified }
    }

    /// The observed modification time, in seconds since the epoch.
    pub fn get_modified(&self) -> (m: u64)
        ensures
            m == self.modified,
    {
        self.modified
    }
}

/// Drop a single leading path separator, so that a path cut from under the
/// watched root is relative: `/a/b.txt` becomes `a/b.txt`. Paths are
/// forward-slash-normalized before they reach the library.
pub fn strip_leading_separator(path_name: &String) -> (r: String)
    ensures
        r@ == if path_name@.len() > 0 && path_name@[0] == '/' {
            path_name@.subrange(1, path_name@.len() as int)
        } else {
            path_name@
        },
{
    let n = path_name.as_str().unicode_len();
    if n > 0 && path_name.as_str().get_char(0) == '/' {
        path_name.as_str().substring_char(1, n).to_owned()
    } else {
        path_name.clone()
    }
}

} // verus!
