//! The kinds of channel that a layer can hold.
use vstd::prelude::*;

verus! {

/// The different kinds of channels in a layer (red, green, blue, masks).
#[derive(Debug, Clone, Copy, PartialEq, Eq, Structural, Hash, PartialOrd, Ord)]
pub enum PsdLayerChannel {
    Red,
    Green,
    Blue,
    TransparencyMask,
    UserSuppliedLayerMask,
    RealUserSuppliedLayerMask,
}

/// Represents an invalid layer channel id.
#[derive(Debug, Clone, Copy, PartialEq, Eq, Structural)]
pub enum PsdLayerChannelError {
    InvalidChannelId { raw_id: i8 },
}

/// The channel kind that a stored channel id denotes, if any.
pub open spec fn kind_of_id(id: int) -> Option<PsdLayerChannel> {
    if id == 0 {
        Some(PsdLayerChannel::Red)
    } else if id == 1 {
        Some(PsdLayerChannel::Green)
    } else if id == 2 {
        Some(PsdLayerChannel::Blue)
    } else if id == -1 {
        Some(PsdLayerChannel::TransparencyMask)
    } else if id == -2 {
        Some(PsdLayerChannel::UserSuppliedLayerMask)
    } else if id == -3 {
        Some(PsdLayerChannel::RealUserSuppliedLayerMask)
    } else {
        None
    }
}

/// Exactly the ids 0, 1, 2, -1, -2 and -3 denote a kind, respectively Red, Green, Blue,
/// TransparencyMask, UserSuppliedLayerMask and RealUserSuppliedLayerMask; each kind is
/// denoted by its own id and by no other.
pub proof fn lemma_channel_ids(id: int, k: PsdLayerChannel)
    ensures
        kind_of_id(id) is Some <==> (id == 0 || id == 1 || id == 2 || id == -1 || id == -2 || id
            == -3),
        kind_of_id(0) == Some(PsdLayerChannel::Red),
        kind_of_id(1) == Some(PsdLayerChannel::Green),
        kind_of_id(2) == Some(PsdLayerChannel::Blue),
        kind_of_id(-1) == Some(PsdLayerChannel::TransparencyMask),
        kind_of_id(-2) == Some(PsdLayerChannel::UserSuppliedLayerMask),
        kind_of_id(-3) == Some(PsdLayerChannel::RealUserSuppliedLayerMask),
        kind_of_id(k.id()) == Some(k),
        kind_of_id(id) == Some(k) ==> id == k.id(),
{
}

impl PsdLayerChannel {
    /// The channel id under which this kind is stored.
    pub open spec fn id(self) -> int {
        match self {
            PsdLayerChannel::Red => 0,
            PsdLayerChannel::Green => 1,
            PsdLayerChannel::Blue => 2,
            PsdLayerChannel::TransparencyMask => -1,
            PsdLayerChannel::UserSuppliedLayerMask => -2,
            PsdLayerChannel::RealUserSuppliedLayerMask => -3,
        }
    }

    /// Create a new PsdLayerChannel from its stored id; any id outside the six known
    /// ones is refused with that id.
    pub fn new(channel_id: i8) -> (r: Result<PsdLayerChannel, PsdLayerChannelError>)
        ensures
            r == (match kind_of_id(channel_id as int) {
                Some(k) => Ok(k),
                None => Err(PsdLayerChannelError::InvalidChannelId { raw_id: channel_id }),
            }),
    {
        match channel_id {
            0 => Ok(PsdLayerChannel::Red),
            1 => Ok(PsdLayerChannel::Green),
            2 => Ok(PsdLayerChannel::Blue),
            -1 => Ok(PsdLayerChannel::TransparencyMask),
            -2 => Ok(PsdLayerChannel::UserSuppliedLayerMask),
            -3 => Ok(PsdLayerChannel::RealUserSuppliedLayerMask),
            _ => Err(PsdLayerChannelError::InvalidChannelId { raw_id: channel_id }),
        }
    }
}

} // verus!
