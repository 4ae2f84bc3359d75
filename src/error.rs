use vstd::prelude::*;

verus! {

/// Why an event, a placement or a request was refused.
#[derive(PartialEq, Eq, Structural, Debug, Clone, Copy)]
pub enum IndexerError {
    /// The event ID has the wrong length or a character outside Crockford-Base32.
    DecodeError,
    /// The timestamp lies before the game started or too far in the future.
    StaleOrFutureTimestamp,
    /// The homeserver did not hand out the pixel blob.
    FetchFailed,
    /// The pixel blob is not a valid `{x, y, color}` document.
    InvalidPayload,
    /// The color index lies outside the palette.
    InvalidColor,
    /// The coordinates lie outside the current canvas.
    OutOfBounds,
    /// No canvas size of the resize history contains the coordinates.
    CoordinateUncovered,
    /// The placement predates the first canvas size that contains its coordinates.
    PreExpansionPlacement,
    /// The author has used every credit of the regeneration window.
    NoCredits,
    /// The homeserver could not be reached.
    HomeserverUnreachable,
    /// The state store could not complete the operation.
    StoreUnavailable,
    /// Discovery found no homeserver for the public key.
    HomeserverNotFound,
    /// The public key is malformed.
    InvalidPublicKey,
}

} // verus!
