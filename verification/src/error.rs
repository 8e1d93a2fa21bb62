//! Errors reported by the volume layer.

use vstd::prelude::*;
use crate::device::DeviceError;

verus! {

/// Every failure the library reports.
#[derive(Debug, Clone, Copy, PartialEq, Eq)]
pub enum VolumeError {
    /// The block device refused a read or write.
    Device(DeviceError),
    /// An index or position lies outside the structure it addresses.
    OutOfRange,
    /// A block or inode was freed that was already free.
    DoubleFree,
    /// Not enough free space (blocks, inodes, or reservations).
    NoSpace,
    /// A stored checksum does not match the data it covers.
    ChecksumMismatch,
    /// A magic number did not match.
    BadMagic,
    /// A version or size that this implementation does not handle.
    Unsupported,
    /// A buffer is shorter than the structure stored in it.
    TooShort,
    /// An argument or stored value is not acceptable.
    Invalid,
    /// A named thing (lock, transaction, entry) does not exist.
    NotFound,
    /// A name to be added is already present.
    AlreadyExists,
    /// A lock request conflicts with a lock already held.
    Conflict,
    /// An operation was attempted in the wrong state.
    BadState,
    /// The volume has too few blocks for its metadata.
    TooSmall,
}

/// The description `to_string` gives of each error.
pub open spec fn error_text(e: VolumeError) -> Seq<char> {
    match e {
        VolumeError::Device(_) => "device I/O error"@,
        VolumeError::OutOfRange => "index out of range"@,
        VolumeError::DoubleFree => "double-free: already free"@,
        VolumeError::NoSpace => "No space left on device (ENOSPC)"@,
        VolumeError::ChecksumMismatch => "checksum mismatch"@,
        VolumeError::BadMagic => "bad magic"@,
        VolumeError::Unsupported => "unsupported version or size"@,
        VolumeError::TooShort => "buffer too short"@,
        VolumeError::Invalid => "invalid argument"@,
        VolumeError::NotFound => "not found"@,
        VolumeError::AlreadyExists => "already exists"@,
        VolumeError::Conflict => "lock conflict"@,
        VolumeError::BadState => "operation not allowed in the current state"@,
        VolumeError::TooSmall => "volume too small"@,
    }
}

impl VolumeError {
    /// A human-readable description of the error.
    pub fn to_string(&self) -> (r: String)
        ensures
            r@ == error_text(*self),
    {
        match self {
            VolumeError::Device(_) => "device I/O error".to_owned(),
            VolumeError::OutOfRange => "index out of range".to_owned(),
            VolumeError::DoubleFree => "double-free: already free".to_owned(),
            VolumeError::NoSpace => "No space left on device (ENOSPC)".to_owned(),
            VolumeError::ChecksumMismatch => "checksum mismatch".to_owned(),
            VolumeError::BadMagic => "bad magic".to_owned(),
            VolumeError::Unsupported => "unsupported version or size".to_owned(),
            VolumeError::TooShort => "buffer too short".to_owned(),
            VolumeError::Invalid => "invalid argument".to_owned(),
            VolumeError::NotFound => "not found".to_owned(),
            VolumeError::AlreadyExists => "already exists".to_owned(),
            VolumeError::Conflict => "lock conflict".to_owned(),
            VolumeError::BadState => "operation not allowed in the current state".to_owned(),
            VolumeError::TooSmall => "volume too small".to_owned(),
        }
    }
}

} // verus!
