//! One configured server instance.
//!
//! `PaggoInstance` carries the configuration fixed at construction
//! time: the listen port and the two frame dimensions.  Its
//! `handle_frame` is the whole per-connection step — decode one read,
//! run the command against the shared backend, build the reply — so
//! the surrounding binary only reads frames, calls it, and writes
//! replies.

use vstd::prelude::*;
use crate::codec::DecodedFrame;
use crate::codec::decode_frame;
use crate::codec::spec_frame_key;
use crate::codec::spec_key_start;
use crate::command::spec_from_u8;
use crate::dispatch::Backend;
use crate::dispatch::contents_after;
use crate::dispatch::dispatch;
use crate::dispatch::reply_for;

verus! {

/// The settings of one cache server: the port it listens on, the
/// maximum key length and the maximum value length, all fixed for the
/// instance's lifetime.
pub struct PaggoInstance {
    pub port: u16,
    pub max_key_size: usize,
    pub max_value_size: usize,
}

/// What one read from a connection leads to.
pub enum FrameOutcome {
    /// Stop reading and close: the peer finished (a zero-length read
    /// with a zero opcode byte) or sent a short, malformed frame.
    Close,
    /// A reply to write back; `close` directs the connection to shut
    /// down once the reply is written (QUIT).
    Reply { bytes: Vec<u8>, close: bool },
}

impl PaggoInstance {
    /// Creates a new instance from the port, the maximum key length,
    /// and the maximum value length.
    pub fn new(port: u16, max_key_size: usize, max_value_size: usize) -> (r: PaggoInstance)
        ensures
            r.port == port,
            r.max_key_size == max_key_size,
            r.max_value_size == max_value_size,
    {
        PaggoInstance { port, max_key_size, max_value_size }
    }

    /// The size of a full request frame: one opcode byte, the padded
    /// key field, and room for the largest value.
    pub open spec fn spec_frame_size(self) -> int {
        1 + self.max_key_size + self.max_value_size
    }

    /// Computes the request frame size, which a connection's read
    /// buffer must have.
    pub fn frame_size(&self) -> (r: usize)
        requires
            1 + self.max_key_size + self.max_value_size <= usize::MAX,
        ensures
            r == self.spec_frame_size(),
    {
        1 + self.max_key_size + self.max_value_size
    }

    /// Handles one read of `n` bytes into the frame buffer `buf`
    /// (zero-filled before the read): decodes it, executes it against
    /// the backend, and says what to write back.  End of stream and
    /// malformed frames close the connection without touching the
    /// store.
    pub fn handle_frame(&self, store: &mut Backend, buf: &Vec<u8>, n: usize) -> (r:
        FrameOutcome)
        requires
            old(store).inv(),
            n <= buf@.len(),
            1 + self.max_key_size <= buf@.len(),
            self.max_key_size < usize::MAX,
        ensures
            final(store).inv(),
            ((n == 0 && buf@[0] == 0) || (n as nat) < spec_key_start(
                self.max_key_size as nat,
            )) ==> (r is Close && *final(store) == *old(store)),
            !((n == 0 && buf@[0] == 0) || (n as nat) < spec_key_start(
                self.max_key_size as nat,
            )) ==> {
                let command = spec_from_u8(buf@[0]);
                let key = spec_frame_key(buf@, self.max_key_size as nat);
                let payload = buf@.subrange(
                    spec_key_start(self.max_key_size as nat) as int,
                    n as int,
                );
                let can = old(store).can_store(payload.len());
                &&& (r matches FrameOutcome::Reply { bytes, close } && bytes@ == reply_for(
                    old(store)@,
                    can,
                    command,
                    key,
                ) && close == (command == crate::command::Command::QUIT))
                &&& final(store)@ == contents_after(old(store)@, can, command, key, payload)
            },
    {
        match decode_frame(buf, n, self.max_key_size) {
            DecodedFrame::EndOfStream => FrameOutcome::Close,
            DecodedFrame::ProtocolError => FrameOutcome::Close,
            DecodedFrame::Request(req) => {
                let outcome = dispatch(req.command, req.key, req.payload, store);
                FrameOutcome::Reply { bytes: outcome.reply, close: outcome.close }
            },
        }
    }
}

} // verus!
