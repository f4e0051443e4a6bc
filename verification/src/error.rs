use vstd::prelude::*;

verus! {

/// Error type used throughout the library.
///
/// The kinds are flat: each transport failure is reported by the stage where
/// it happened (clearing a buffer, writing, flushing, reading a byte), a
/// timed-out exchange by `TimedOut`, a response line whose hex tokens do not
/// form a 64-bit value by `Conversion`, and a bad bit-range selector by
/// `Packet` with a descriptive message. `Serial` stands for a failure to open
/// the underlying serial device; the embedding program holds the device
/// library's own error value.
#[derive(Debug, Clone, Copy, PartialEq, Eq)]
pub enum Error {
    Serial,
    Conversion,
    Clear,
    Write,
    Flush,
    Read,
    TimedOut,
    Packet(&'static str),
}

} // verus!
