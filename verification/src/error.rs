//! What can go wrong.

use crate::name::FilenameError;
use vstd::prelude::*;

verus! {

/// All the ways in which an operation on a volume can fail, where `E` is the
/// error type of the block device.
#[derive(Debug)]
pub enum Error<E> {
    /// The underlying block device reported an error.
    DeviceError(E),
    /// The file system is badly formatted (or this code is buggy).
    FormatError(&'static str),
    /// The given name is not one that can be used.
    FilenameError(FilenameError),
    /// That file or directory doesn't exist.
    NotFound,
    /// You can't create that file or directory, since something by that name
    /// is already there.
    FileAlreadyExists,
    /// There are no free clusters, or no room in a directory of fixed size.
    NotEnoughSpace,
    /// The chain of clusters ends here.
    EndOfFile,
    /// The chain leads to a cluster that is marked as bad.
    BadCluster,
    /// The chain leads to a cluster that is not in use.
    UnterminatedFatChain,
    /// The boot sector asks for blocks of a size other than 512 bytes.
    BadBlockSize(u16),
}

} // verus!
