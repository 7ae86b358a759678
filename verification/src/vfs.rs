//! Where a model file comes from: the file store first, then the model disk,
//! then the boot image. The caller makes the requests.
use vstd::prelude::*;

verus! {

/// Bytes that are read from the boot image at most.
pub const RAMDISK_MAX: usize = 4194304;

/// Where a file is looked for.
#[derive(Debug, Clone, Copy, PartialEq, Eq, Structural)]
pub enum VfsSource {
    Store,
    ModelDisk,
    Ramdisk,
}

/// How the file store failed.
#[derive(Debug, Clone, Copy, PartialEq, Eq, Structural)]
pub enum StoreFault {
    /// The exchange with the store failed.
    IpcFailed,
    /// Another failure, by the number that the store gave.
    Other { code: u32 },
}

/// What a request for a file gave.
#[derive(Debug, Clone, Copy, PartialEq, Eq, Structural)]
pub enum VfsReply {
    /// A shared region with that many bytes.
    Found { size: u64 },
    NotFound,
    Failed { fault: StoreFault },
}

/// Why a file could not be read.
#[derive(Debug, Clone, Copy, PartialEq, Eq, Structural)]
pub enum VfsError {
    NotFound,
    /// The store failed. An empty file counts as a failed exchange.
    Store { fault: StoreFault },
    /// The region could not be mapped.
    ShmemMap,
}

/// What to do next.
#[derive(Debug, Clone, Copy, PartialEq, Eq, Structural)]
pub enum VfsStep {
    Ask { source: VfsSource },
    /// Map the region.
    MapRegion,
    /// Give the region back and fail.
    DropAndFail { error: VfsError },
    Fail { error: VfsError },
    /// The bytes read from the boot image are the file.
    Take { len: usize },
}

/// The next step of a read that copies the file: a file that is missing is
/// looked for in the next place, an empty one is an error.
pub fn read_file(source: VfsSource, reply: VfsReply) -> (r: VfsStep)
    ensures
        r == (match reply {
            VfsReply::Found { size } => if source == VfsSource::Ramdisk {
                if size == 0 {
                    VfsStep::Fail { error: VfsError::NotFound }
                } else {
                    VfsStep::Take {
                        len: if size < RAMDISK_MAX {
                            size as usize
                        } else {
                            RAMDISK_MAX
                        },
                    }
                }
            } else if size == 0 {
                VfsStep::DropAndFail { error: VfsError::Store { fault: StoreFault::IpcFailed } }
            } else {
                VfsStep::MapRegion
            },
            VfsReply::NotFound => match source {
                VfsSource::Store => VfsStep::Ask { source: VfsSource::ModelDisk },
                VfsSource::ModelDisk => VfsStep::Ask { source: VfsSource::Ramdisk },
                VfsSource::Ramdisk => VfsStep::Fail { error: VfsError::NotFound },
            },
            VfsReply::Failed { fault } => if source == VfsSource::Ramdisk {
                VfsStep::Fail { error: VfsError::NotFound }
            } else {
                VfsStep::Fail { error: VfsError::Store { fault } }
            },
        }),
{
    match reply {
        VfsReply::Found { size } => {
            if source == VfsSource::Ramdisk {
                if size == 0 {
                    VfsStep::Fail { error: VfsError::NotFound }
                } else if size < RAMDISK_MAX as u64 {
                    VfsStep::Take { len: size as usize }
                } else {
                    VfsStep::Take { len: RAMDISK_MAX }
                }
            } else if size == 0 {
                VfsStep::DropAndFail { error: VfsError::Store { fault: StoreFault::IpcFailed } }
            } else {
                VfsStep::MapRegion
            }
        },
        VfsReply::NotFound => match source {
            VfsSource::Store => VfsStep::Ask { source: VfsSource::ModelDisk },
            VfsSource::ModelDisk => VfsStep::Ask { source: VfsSource::Ramdisk },
            VfsSource::Ramdisk => VfsStep::Fail { error: VfsError::NotFound },
        },
        VfsReply::Failed { fault } => {
            if source == VfsSource::Ramdisk {
                VfsStep::Fail { error: VfsError::NotFound }
            } else {
                VfsStep::Fail { error: VfsError::Store { fault } }
            }
        },
    }
}

/// The next step of a read that keeps the file mapped. The boot image cannot
/// be mapped, so the model disk is the last place.
pub fn read_file_mapped(source: VfsSource, reply: VfsReply) -> (r: VfsStep)
    ensures
        r == (match reply {
            VfsReply::Found { size } => if size == 0 {
                VfsStep::DropAndFail { error: VfsError::Store { fault: StoreFault::IpcFailed } }
            } else {
                VfsStep::MapRegion
            },
            VfsReply::NotFound => if source == VfsSource::Store {
                VfsStep::Ask { source: VfsSource::ModelDisk }
            } else {
                VfsStep::Fail { error: VfsError::NotFound }
            },
            VfsReply::Failed { fault } => VfsStep::Fail { error: VfsError::Store { fault } },
        }),
{
    match reply {
        VfsReply::Found { size } => {
            if size == 0 {
                VfsStep::DropAndFail { error: VfsError::Store { fault: StoreFault::IpcFailed } }
            } else {
                VfsStep::MapRegion
            }
        },
        VfsReply::NotFound => {
            if source == VfsSource::Store {
                VfsStep::Ask { source: VfsSource::ModelDisk }
            } else {
                VfsStep::Fail { error: VfsError::NotFound }
            }
        },
        VfsReply::Failed { fault } => VfsStep::Fail { error: VfsError::Store { fault } },
    }
}

} // verus!
