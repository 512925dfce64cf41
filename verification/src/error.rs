//! The ways in which hiding or recovering a message can fail.

use vstd::prelude::*;

verus! {

/// Why the codec refused an image or a message.
#[derive(Clone, Copy, Debug, PartialEq, Eq, Structural)]
pub enum StegoError {
    /// The message is too long for the header, or for the pixels that follow
    /// the header.
    CapacityExceeded,
    /// The image has fewer pixels than the header takes.
    ImageTooSmall,
    /// The length read from the header is not a number that fits the
    /// length's type.
    MalformedHeader,
}

} // verus!
