use vstd::prelude::*;

use crate::errors::LeviError;
use vstd::string::StringExecFns;

verus! {

/// How a file is opened for writing.
#[derive(Debug, PartialEq, Eq, Structural, Clone, Copy)]
pub enum OpenMode {
    /// Created if missing, written at its end.
    Append,
    /// Created anew.
    Overwrite,
}

/// Decides how `create_file` opens `file_path`: in append mode when asked,
/// else anew, which is refused with `LeviError::FileExists` and the path when
/// the file already exists. `exists` is only read when `append` is false.
pub fn creation_mode(file_path: &str, append: bool, exists: bool) -> (r: Result<
    OpenMode,
    LeviError,
>)
    ensures
        append ==> r == Ok::<OpenMode, LeviError>(OpenMode::Append),
        !append && !exists ==> r == Ok::<OpenMode, LeviError>(OpenMode::Overwrite),
        !append && exists ==> (r matches Err(LeviError::FileExists(p)) && p@ == file_path@),
{
    if append {
        Ok(OpenMode::Append)
    } else if exists {
        Err(LeviError::FileExists(String::from_str(file_path)))
    } else {
        Ok(OpenMode::Overwrite)
    }
}

} // verus!
