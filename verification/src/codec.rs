//! The frame codec.
//!
//! A request frame is `1 + max_key_size + max_value_size` bytes: byte 0
//! is the opcode, bytes `[1, 1 + max_key_size)` hold the key
//! left-justified and NUL-padded, and the payload runs from the key's
//! end to `n`, the number of bytes actually read.  A read of zero bytes
//! whose opcode byte is also zero signals end of stream.  When
//! `max_key_size == 1` the payload starts at offset 1, overlapping the
//! key byte: a quirk of the framing kept as documented behaviour.

use vstd::prelude::*;
use crate::command::Command;
use crate::command::spec_from_u8;

verus! {

/// The character sequence that lossy UTF-8 decoding yields for a byte
/// sequence.  The decoding is a function of the bytes alone.
pub uninterp spec fn lossy_utf8(bytes: Seq<u8>) -> Seq<char>;

/// Relies on `String::from_utf8_lossy`: the result depends only on the
/// input bytes, and an empty input decodes to an empty string.
#[verifier::external_body]
fn lossy_decode(bytes: &[u8]) -> (r: String)
    ensures
        r@ == lossy_utf8(bytes@),
        bytes@.len() == 0 ==> r@.len() == 0,
{
    String::from_utf8_lossy(bytes).into_owned()
}

/// `bytes` with every trailing NUL byte removed.
pub open spec fn strip_trailing_nuls(bytes: Seq<u8>) -> Seq<u8>
    decreases bytes.len(),
{
    if bytes.len() > 0 && bytes.last() == 0u8 {
        strip_trailing_nuls(bytes.drop_last())
    } else {
        bytes
    }
}

/// The key that a padded key field decodes to: trailing NUL padding is
/// stripped and the rest is decoded as text.  A NUL byte never occurs
/// inside a multi-byte UTF-8 encoding, so stripping the padding before
/// decoding equals decoding first and trimming NUL characters after.
pub open spec fn spec_decode_key(bytes: Seq<u8>) -> Seq<char> {
    lossy_utf8(strip_trailing_nuls(bytes))
}

/// Decodes a NUL-padded key field into its text form.
pub fn decode_key(buf: &[u8]) -> (r: String)
    ensures
        r@ == spec_decode_key(buf@),
{
    proof {
        assert(buf@.subrange(0, buf@.len() as int) =~= buf@);
    }
    let mut end: usize = buf.len();
    while end > 0 && buf[end - 1] == 0
        invariant
            end <= buf.len(),
            strip_trailing_nuls(buf@) == strip_trailing_nuls(buf@.subrange(0, end as int)),
        decreases end,
    {
        proof {
            assert(buf@.subrange(0, end as int).last() == buf@[end - 1]);
            assert(buf@.subrange(0, end as int).drop_last() =~= buf@.subrange(
                0,
                end as int - 1,
            ));
        }
        end = end - 1;
    }
    proof {
        if end > 0 {
            assert(buf@.subrange(0, end as int).last() == buf@[end - 1]);
        }
        assert(strip_trailing_nuls(buf@.subrange(0, end as int)) == buf@.subrange(
            0,
            end as int,
        ));
    }
    let mut trimmed: Vec<u8> = Vec::new();
    let mut i: usize = 0;
    while i < end
        invariant
            i <= end,
            end <= buf.len(),
            trimmed@ =~= buf@.subrange(0, i as int),
        decreases end - i,
    {
        trimmed.push(buf[i]);
        i = i + 1;
    }
    assert(trimmed@ =~= buf@.subrange(0, end as int));
    lossy_decode(trimmed.as_slice())
}

/// The offset at which the payload begins.  In the general case the
/// payload follows the key field; in the degenerate `max_key_size == 1`
/// case it begins at offset 1, overlapping the single key byte.
pub open spec fn spec_key_start(max_key_size: nat) -> nat {
    if max_key_size == 1 {
        1
    } else {
        max_key_size + 1
    }
}

/// Computes the payload offset for a given maximum key size.
pub fn key_start(max_key_size: usize) -> (r: usize)
    requires
        max_key_size < usize::MAX,
    ensures
        r == spec_key_start(max_key_size as nat),
{
    if max_key_size == 1 {
        1
    } else {
        max_key_size + 1
    }
}

/// A decoded request: the command, the key text, and the raw payload.
pub struct FrameRequest {
    pub command: Command,
    pub key: String,
    pub payload: Vec<u8>,
}

/// The outcome of decoding one read from a connection.
pub enum DecodedFrame {
    /// A zero-length read with a zero opcode byte: the peer is done.
    EndOfStream,
    /// A short frame: fewer bytes than the payload offset were read.
    /// The connection is terminated; no reply is owed.
    ProtocolError,
    /// A well-formed request.
    Request(FrameRequest),
}

/// The key text of a frame: the NUL-padded key field decoded.
pub open spec fn spec_frame_key(buf: Seq<u8>, max_key_size: nat) -> Seq<char> {
    spec_decode_key(buf.subrange(1, 1 + max_key_size as int))
}

/// Decodes one read of `n` bytes into `buf`.
///
/// `buf` is the full frame buffer, zero-filled before the read, so the
/// key field may be inspected even when the read was short.
pub fn decode_frame(buf: &Vec<u8>, n: usize, max_key_size: usize) -> (r: DecodedFrame)
    requires
        n <= buf@.len(),
        1 + max_key_size <= buf@.len(),
        max_key_size < usize::MAX,
    ensures
        (n == 0 && buf@[0] == 0) <==> (r is EndOfStream),
        !(n == 0 && buf@[0] == 0) && (n as nat) < spec_key_start(max_key_size as nat) <==> (
        r is ProtocolError),
        (r is Request) ==> {
            let req = r->Request_0;
            &&& req.command == spec_from_u8(buf@[0])
            &&& req.key@ == spec_frame_key(buf@, max_key_size as nat)
            &&& req.payload@ == buf@.subrange(
                spec_key_start(max_key_size as nat) as int,
                n as int,
            )
        },
{
    if n == 0 && buf[0] == 0 {
        return DecodedFrame::EndOfStream;
    }
    let start = key_start(max_key_size);
    if n < start {
        return DecodedFrame::ProtocolError;
    }
    let command = Command::from_u8(buf[0]);
    let key = decode_key(vstd::slice::slice_subrange(buf.as_slice(), 1, 1 + max_key_size));
    let mut payload: Vec<u8> = Vec::new();
    let mut i: usize = start;
    while i < n
        invariant
            start <= i <= n,
            n <= buf@.len(),
            payload@ =~= buf@.subrange(start as int, i as int),
        decreases n - i,
    {
        payload.push(buf[i]);
        i = i + 1;
    }
    assert(payload@ =~= buf@.subrange(start as int, n as int));
    DecodedFrame::Request(FrameRequest { command, key, payload })
}

} // verus!
