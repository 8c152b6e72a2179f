//! The path classifier: from one metadata query to the kind of an entry.

use vstd::prelude::*;
use crate::error::ScanError;

verus! {

/// What a metadata query says a path is, without following a symbolic link.
#[derive(Clone, Copy, Debug, PartialEq, Eq, Structural)]
pub enum PathKind {
    Directory,
    File,
    /// A symbolic link, a device, a socket or anything else.
    Other,
}

/// The answer of one metadata query on a path.
#[derive(Clone, Copy, Debug, PartialEq, Eq, Structural)]
pub struct PathStat {
    pub kind: PathKind,
    /// The length in bytes.
    pub len: u64,
    /// The identifier of the volume that holds the path.
    pub volume: u64,
}

/// Why a metadata query gave no answer.
#[derive(Clone, Copy, Debug, PartialEq, Eq, Structural)]
pub enum StatFailure {
    NotFound,
    PermissionDenied,
    Other,
}

/// The kind of a path and, for a directory, the volume it resides on.
#[derive(Clone, Copy, Debug, PartialEq, Eq, Structural)]
pub enum FileInfo {
    Directory { volume_id: u64 },
    File { size: u64 },
    Other,
}

/// The volume identifier that every directory gets when none is asked for.
pub const NO_VOLUME: u64 = 0;

impl ScanError {
    /// The error that a failed metadata query stands for.
    pub open spec fn of_failure(failure: StatFailure) -> ScanError {
        match failure {
            StatFailure::NotFound => ScanError::NotFound,
            StatFailure::PermissionDenied => ScanError::AccessDenied,
            StatFailure::Other => ScanError::IoError,
        }
    }

    /// The error that a failed metadata query stands for.
    pub fn from_failure(failure: StatFailure) -> (error: ScanError)
        ensures
            error == ScanError::of_failure(failure),
    {
        match failure {
            StatFailure::NotFound => ScanError::NotFound,
            StatFailure::PermissionDenied => ScanError::AccessDenied,
            StatFailure::Other => ScanError::IoError,
        }
    }
}

impl FileInfo {
    /// The classification of a path that a metadata query answered.
    pub open spec fn of_stat(stat: PathStat, compute_volume: bool) -> FileInfo {
        match stat.kind {
            PathKind::Directory => FileInfo::Directory {
                volume_id: if compute_volume {
                    stat.volume
                } else {
                    NO_VOLUME
                },
            },
            PathKind::File => FileInfo::File { size: stat.len },
            PathKind::Other => FileInfo::Other,
        }
    }

    /// The classification of a path, or the error when the query failed.
    pub open spec fn classified(
        stat: Result<PathStat, StatFailure>,
        compute_volume: bool,
    ) -> Result<FileInfo, ScanError> {
        match stat {
            Ok(stat) => Ok(FileInfo::of_stat(stat, compute_volume)),
            Err(failure) => Err(ScanError::of_failure(failure)),
        }
    }

    /// The volume on which a scan of a root with this classification stays,
    /// or why the root cannot be scanned: the error of its classification,
    /// or `NotADirectory`.
    pub open spec fn scan_volume(root: Result<FileInfo, ScanError>) -> Result<u64, ScanError> {
        match root {
            Ok(FileInfo::Directory { volume_id }) => Ok(volume_id),
            Ok(_) => Err(ScanError::NotADirectory),
            Err(error) => Err(error),
        }
    }

    /// The volume on which a scan of the root stays, or why the root cannot
    /// be scanned.
    pub fn root_volume(root: Result<FileInfo, ScanError>) -> (volume: Result<u64, ScanError>)
        ensures
            volume == FileInfo::scan_volume(root),
    {
        match root {
            Ok(FileInfo::Directory { volume_id }) => Ok(volume_id),
            Ok(_) => Err(ScanError::NotADirectory),
            Err(error) => Err(error),
        }
    }

    /// Classifies a path from the outcome of one metadata query. A directory
    /// carries its volume identifier when `compute_volume` asks for it; a file
    /// carries its length.
    pub fn from_stat(stat: Result<PathStat, StatFailure>, compute_volume: bool) -> (info: Result<
        FileInfo,
        ScanError,
    >)
        ensures
            info == FileInfo::classified(stat, compute_volume),
    {
        match stat {
            Ok(stat) => {
                let info = match stat.kind {
                    PathKind::Directory => {
                        let volume_id: u64 = if compute_volume {
                            stat.volume
                        } else {
                            NO_VOLUME
                        };
                        FileInfo::Directory { volume_id }
                    },
                    PathKind::File => FileInfo::File { size: stat.len },
                    PathKind::Other => FileInfo::Other,
                };
                Ok(info)
            },
            Err(failure) => Err(ScanError::from_failure(failure)),
        }
    }
}

} // verus!
