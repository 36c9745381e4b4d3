//! The command set of the wire protocol.
//!
//! One canonical opcode table is used everywhere: PING=0, QUIT=1, GET=2,
//! SET=3, EXISTS=4, DELETE=5; every other byte is UNKNOWN.

use vstd::prelude::*;

verus! {

/// A command that can be given to the cache, decoded from the opcode
/// byte of a request frame.
#[derive(Debug, Clone, Copy, PartialEq, Eq, Structural)]
pub enum Command {
    PING,
    QUIT,
    GET,
    SET,
    EXISTS,
    DELETE,
    UNKNOWN,
}

/// The command that an opcode byte stands for.
pub open spec fn spec_from_u8(c: u8) -> Command {
    match c {
        0u8 => Command::PING,
        1u8 => Command::QUIT,
        2u8 => Command::GET,
        3u8 => Command::SET,
        4u8 => Command::EXISTS,
        5u8 => Command::DELETE,
        _ => Command::UNKNOWN,
    }
}

impl Command {
    /// Maps an opcode byte to its command; any byte outside the table
    /// falls back to `UNKNOWN`.
    pub fn from_u8(c: u8) -> (r: Command)
        ensures
            r == spec_from_u8(c),
    {
        match c {
            0u8 => Command::PING,
            1u8 => Command::QUIT,
            2u8 => Command::GET,
            3u8 => Command::SET,
            4u8 => Command::EXISTS,
            5u8 => Command::DELETE,
            _ => Command::UNKNOWN,
        }
    }
}

} // verus!
