//! Errors of the decoder and the layout variant of the document.
use crate::channel::PsdLayerChannel;
use vstd::prelude::*;

verus! {

/// Why a section could not be decoded. Every error ends the decode: no partial result
/// is returned.
#[derive(Debug, Clone, Copy, PartialEq, Eq, Structural)]
pub enum DecodeError {
    /// The buffer ends before a field that must be read.
    TruncatedInput,
    /// A channel id outside the six known ones.
    InvalidChannelId { raw_id: i16 },
    /// A negative layer count.
    InvalidLayerCount { count: i16 },
    /// A layer record whose blend mode signature is not `8BIM`.
    InvalidBlendModeSignature,
    /// A layer name whose bytes are not valid UTF-8.
    InvalidStringEncoding,
    /// A layer record that lists the same channel kind twice.
    DuplicateChannel { kind: PsdLayerChannel },
    /// Two layers of the section with the same name.
    DuplicateLayerName,
}

/// The layout variant: a standard document stores lengths in 4 bytes, a large
/// document (PSB) stores the section lengths and channel data lengths in 8 bytes.
#[derive(Debug, Clone, Copy, PartialEq, Eq, Structural)]
pub enum DocumentFormat {
    Psd,
    Psb,
}

/// The width of a length field in the given layout.
pub open spec fn len_size(f: DocumentFormat) -> int {
    match f {
        DocumentFormat::Psd => 4,
        DocumentFormat::Psb => 8,
    }
}

impl DocumentFormat {
    /// The width of a length field in this layout.
    pub fn length_size(self) -> (r: usize)
        ensures
            r == len_size(self),
    {
        match self {
            DocumentFormat::Psd => 4,
            DocumentFormat::Psb => 8,
        }
    }
}

} // verus!
