//! Error kinds reported by the virtual-disk storage core.

use vstd::prelude::*;

verus! {

/// The error taxonomy of the container: every I/O-touching entry point
/// reports one of these kinds.
#[derive(Debug, Clone)]
pub enum IDVDError {
    /// The container file does not exist.
    VDNotFound,
    /// The operating system denied access to the container file.
    OSPermissionDenied,
    /// The operating-system entropy source was unavailable.
    FiledGetOsRng,
    /// The container header is malformed.
    InvalidFormat,
    /// The container was written by an unsupported format version.
    NotSupportedVersion,
    /// Any other failure, with a description.
    Other(String),
}

impl IDVDError {
    /// A human-readable description of the error.
    pub fn message(&self) -> (r: String)
        ensures
            match self {
                IDVDError::VDNotFound => r@ == "VD not found"@,
                IDVDError::OSPermissionDenied => r@ == "OS permission denied"@,
                IDVDError::FiledGetOsRng => r@ == "Failed to get OS RNG"@,
                IDVDError::InvalidFormat => r@ == "Invalid format"@,
                IDVDError::NotSupportedVersion => r@ == "Not supported version"@,
                IDVDError::Other(s) => r@ == s@,
            },
    {
        match self {
            IDVDError::VDNotFound => "VD not found".to_string(),
            IDVDError::OSPermissionDenied => "OS permission denied".to_string(),
            IDVDError::FiledGetOsRng => "Failed to get OS RNG".to_string(),
            IDVDError::InvalidFormat => "Invalid format".to_string(),
            IDVDError::NotSupportedVersion => "Not supported version".to_string(),
            IDVDError::Other(s) => s.clone(),
        }
    }
}

} // verus!
