use vstd::prelude::*;

verus! {

/// Why a copy run stops before the whole range is committed.
#[derive(Clone, Copy, Debug, PartialEq, Eq, Structural)]
pub enum CopyError {
    /// The input seek offset lies past the end of the input file.
    SeekRange,
    /// The destination range does not fit in 64-bit file offsets.
    OutputRange,
    /// The memory-lock budget could not be queried.
    ResourceQuery,
    /// The kernel refused to register the buffers or the files.
    Registration,
    /// A read or write completed with an error; holds the OS error code.
    Io(i64),
    /// A completion reported more bytes than were asked for, or arrived for
    /// a buffer that was not waiting for that kind of operation.
    InvariantViolation,
}

/// Why the run configuration is rejected before anything is opened for I/O.
#[derive(Clone, Copy, Debug, PartialEq, Eq, Structural)]
pub enum ConfigError {
    /// Both the ring size and the buffer count were given, one of them zero.
    ZeroRingOrBuffers,
    /// The ring size was given as zero.
    ZeroRingSize,
    /// The buffer count was given as zero.
    ZeroBufferCount,
    /// The buffer count asks for a ring deeper than a 32-bit size can hold.
    RingSizeTooLarge,
    /// The block size is zero.
    ZeroBlockSize,
}

impl CopyError {
    /// A one-line description of the error.
    pub fn describe(&self) -> (r: String) {
        match self {
            CopyError::SeekRange => String::from_str("Invalid input seek offset"),
            CopyError::OutputRange => String::from_str("Output range exceeds the file offset range"),
            CopyError::ResourceQuery => String::from_str("Failed to get memory lock limit"),
            CopyError::Registration => String::from_str("Failed to register buffers or files"),
            CopyError::Io(_) => String::from_str("I/O operation failed"),
            CopyError::InvariantViolation => String::from_str("Completion does not match a submitted operation"),
        }
    }
}

impl ConfigError {
    /// A one-line description of the error.
    pub fn describe(&self) -> (r: String) {
        match self {
            ConfigError::ZeroRingOrBuffers => String::from_str("Ring size and number of buffers must be greater than 0"),
            ConfigError::ZeroRingSize => String::from_str("Ring size must be greater than 0"),
            ConfigError::ZeroBufferCount => String::from_str("Number of buffers must be greater than 0"),
            ConfigError::RingSizeTooLarge => String::from_str("Number of buffers is too large for the ring size"),
            ConfigError::ZeroBlockSize => String::from_str("Block size must be greater than 0"),
        }
    }
}

} // verus!
