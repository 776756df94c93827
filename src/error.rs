use vstd::prelude::*;

verus! {

/// A failed OS operation, with the OS error code it reported.
#[derive(Clone, Copy, Debug, PartialEq, Eq, Structural)]
pub enum MyError {
    Open(i32),
    GetDEnts64(i32),
    GetDirEntries(i32),
    Close(i32),
    FdOpenDir(i32),
    ReadDir(i32),
    OpenSubdir(i32),
    USleep(i32),
}

} // verus!
