use vstd::prelude::*;
use vstd::string::StrSliceExecFns;
use vstd::string::StringSliceAdditionalSpecFns;

verus! {

/// Carriage return, the single terminator appended to every outgoing command.
pub const COMMAND_TERMINATOR: u8 = 13;

/// Frames a command for transmission: the command's UTF-8 bytes followed by a
/// single carriage-return terminator. The caller sends exactly these bytes,
/// after clearing the outbound buffer and before flushing.
pub fn command_frame(command: &str) -> (r: Vec<u8>)
    ensures
        r@ == command.spec_bytes().push(COMMAND_TERMINATOR),
{
    let mut r = command.as_bytes_vec();
    r.push(COMMAND_TERMINATOR);
    r
}

} // verus!
