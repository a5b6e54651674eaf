//! Length-prefixed framing: a 4-byte little-endian body length, then the body.
//!
//! The body is the envelope's JSON text; printing and parsing that JSON
//! happen outside the library, which frames and checks the bytes.

use vstd::prelude::*;
use crate::ipc::envelope::MAX_FRAME_BODY;
use crate::ipc::error::{IpcError, ProtocolError};
use crate::text::{concat, decimal, dec};

verus! {

/// The little-endian number held by the first four bytes of `f`.
pub open spec fn prefix_value(f: Seq<u8>) -> int {
    f[0] as int + f[1] as int * 256 + f[2] as int * 65536 + f[3] as int * 16777216
}

/// The four little-endian bytes of `n` (`n < 2^32`).
pub open spec fn le_prefix(n: nat) -> Seq<u8> {
    seq![
        (n % 256) as u8,
        ((n / 256) % 256) as u8,
        ((n / 65536) % 256) as u8,
        ((n / 16777216) % 256) as u8,
    ]
}

/// The frame that carries `body`.
pub open spec fn frame_of(body: Seq<u8>) -> Seq<u8> {
    le_prefix(body.len()) + body
}

/// Whether `r` is the outcome of framing `body`: the frame when the body
/// fits, `PayloadTooLarge` otherwise.
pub open spec fn encoded(body: Seq<u8>, r: Result<Vec<u8>, IpcError>) -> bool {
    if body.len() > MAX_FRAME_BODY {
        r == Err::<Vec<u8>, IpcError>(IpcError::Protocol(
            ProtocolError::PayloadTooLarge { length: body.len() as u32, max: MAX_FRAME_BODY },
        ))
    } else {
        match r {
            Ok(out) => out@ == frame_of(body),
            Err(_) => false,
        }
    }
}

/// Whether `f` starts with a usable length prefix (1 to `MAX_FRAME_BODY`).
pub open spec fn prefix_ok(f: Seq<u8>) -> bool {
    f.len() >= 4 && 1 <= prefix_value(f) <= MAX_FRAME_BODY
}

/// Whether `e` is the error reported for a frame `f` whose prefix is unusable.
pub open spec fn prefix_error(f: Seq<u8>, e: IpcError) -> bool {
    if f.len() < 4 {
        e == IpcError::Protocol(ProtocolError::Incomplete { needed: 4, available: f.len() as usize })
    } else {
        match e {
            IpcError::Protocol(ProtocolError::InvalidFrame(m)) =>
                m@ == "invalid length prefix: "@ + dec(prefix_value(f) as nat),
            _ => false,
        }
    }
}

/// Total frame length (prefix included) announced by a frame's first four bytes.
pub fn length_prefix_len(frame: &[u8]) -> (r: Result<usize, IpcError>)
    ensures
        match r {
            Ok(n) => prefix_ok(frame@) && n == 4 + prefix_value(frame@),
            Err(e) => !prefix_ok(frame@) && prefix_error(frame@, e),
        },
{
    if frame.len() < 4 {
        return Err(IpcError::Protocol(ProtocolError::Incomplete { needed: 4, available: frame.len() }));
    }
    let length: u32 = frame[0] as u32 + (frame[1] as u32) * 256 + (frame[2] as u32) * 65536
        + (frame[3] as u32) * 16777216;
    if length == 0 || length as usize > MAX_FRAME_BODY {
        let msg = concat("invalid length prefix: ", decimal(length as u64).as_str());
        return Err(IpcError::Protocol(ProtocolError::InvalidFrame(msg)));
    }
    Ok(4 + length as usize)
}

/// Copies `src[from..to]` into a new vector.
pub fn copy_range(src: &[u8], from: usize, to: usize) -> (out: Vec<u8>)
    requires
        from <= to <= src.len(),
    ensures
        out@ == src@.subrange(from as int, to as int),
{
    let mut out: Vec<u8> = Vec::with_capacity(to - from);
    let mut i = from;
    while i < to
        invariant
            from <= i <= to <= src.len(),
            out@ == src@.subrange(from as int, i as int),
        decreases to - i,
    {
        out.push(src[i]);
        i += 1;
        assert(out@ =~= src@.subrange(from as int, i as int));
    }
    out
}

/// Frames envelope bodies with a length prefix and splits frames off a
/// byte stream.
pub trait FrameCodec {
    /// Frames a body; a body over `MAX_FRAME_BODY` bytes is refused.
    fn encode(&self, body: &[u8]) -> (r: Result<Vec<u8>, IpcError>)
        ensures
            encoded(body@, r),
    ;

    /// Splits one frame off the front of `frame`: its body and the bytes consumed.
    fn decode_frame(&self, frame: &[u8]) -> (r: Result<(Vec<u8>, usize), IpcError>)
        ensures
            !prefix_ok(frame@) ==> match r {
                Err(e) => prefix_error(frame@, e),
                Ok(_) => false,
            },
            prefix_ok(frame@) && frame@.len() < 4 + prefix_value(frame@) ==> r == Err::<(Vec<u8>, usize), IpcError>(
                IpcError::Protocol(ProtocolError::Incomplete {
                    needed: (4 + prefix_value(frame@)) as usize,
                    available: frame@.len() as usize,
                }),
            ),
            prefix_ok(frame@) && frame@.len() >= 4 + prefix_value(frame@) ==> match r {
                Ok((body, used)) => {
                    &&& used == 4 + prefix_value(frame@)
                    &&& body@ == frame@.subrange(4, used as int)
                },
                Err(_) => false,
            },
    ;
}

/// 4-byte little-endian length + UTF-8 JSON envelope body.
#[derive(Debug, Clone, Copy, Default)]
pub struct LeJsonCodec;

impl FrameCodec for LeJsonCodec {
    fn encode(&self, body: &[u8]) -> (r: Result<Vec<u8>, IpcError>)
    {
        let n = body.len();
        if n > MAX_FRAME_BODY {
            return Err(IpcError::Protocol(ProtocolError::PayloadTooLarge {
                length: n as u32,
                max: MAX_FRAME_BODY,
            }));
        }
        let mut out: Vec<u8> = Vec::with_capacity(4 + n);
        out.push((n % 256) as u8);
        out.push(((n / 256) % 256) as u8);
        out.push(((n / 65536) % 256) as u8);
        out.push(((n / 16777216) % 256) as u8);
        assert(out@ =~= le_prefix(n as nat));
        let mut i: usize = 0;
        while i < n
            invariant
                i <= n == body@.len(),
                out@ == le_prefix(n as nat) + body@.subrange(0, i as int),
            decreases n - i,
        {
            out.push(body[i]);
            i += 1;
            assert(out@ =~= le_prefix(n as nat) + body@.subrange(0, i as int));
        }
        assert(body@.subrange(0, n as int) =~= body@);
        Ok(out)
    }

    fn decode_frame(&self, frame: &[u8]) -> (r: Result<(Vec<u8>, usize), IpcError>)
    {
        let total = length_prefix_len(frame)?;
        if frame.len() < total {
            return Err(IpcError::Protocol(ProtocolError::Incomplete { needed: total, available: frame.len() }));
        }
        let body = copy_range(frame, 4, total);
        Ok((body, total))
    }
}

/// The prefix of a frame announces its body's length.
pub proof fn lemma_prefix_roundtrip(n: nat)
    requires
        n < 4294967296,
    ensures
        prefix_value(le_prefix(n)) == n,
{
    let b0 = n % 256;
    let b1 = (n / 256) % 256;
    let b2 = (n / 65536) % 256;
    let b3 = (n / 16777216) % 256;
    assert(le_prefix(n)[0] as int == b0);
    assert(le_prefix(n)[1] as int == b1);
    assert(le_prefix(n)[2] as int == b2);
    assert(le_prefix(n)[3] as int == b3);
    assert(b0 + b1 * 256 + b2 * 65536 + b3 * 16777216 == n) by (nonlinear_arith)
        requires
            b0 == n % 256,
            b1 == (n / 256) % 256,
            b2 == (n / 65536) % 256,
            b3 == (n / 16777216) % 256,
            n < 4294967296,
    ;
}

/// Decoding gives back what encoding framed: for every non-empty body of
/// at most `MAX_FRAME_BODY` bytes, followed by any further bytes, the first
/// frame decodes to exactly that body and consumes exactly its frame.
pub proof fn law_decode_after_encode(body: Seq<u8>, rest: Seq<u8>)
    requires
        1 <= body.len() <= MAX_FRAME_BODY,
    ensures
        prefix_ok(frame_of(body) + rest),
        4 + prefix_value(frame_of(body) + rest) == frame_of(body).len(),
        (frame_of(body) + rest).subrange(4, frame_of(body).len() as int) == body,
{
    lemma_prefix_roundtrip(body.len());
    let f = frame_of(body) + rest;
    assert(f[0] == le_prefix(body.len())[0]);
    assert(f[1] == le_prefix(body.len())[1]);
    assert(f[2] == le_prefix(body.len())[2]);
    assert(f[3] == le_prefix(body.len())[3]);
    assert(f.subrange(4, frame_of(body).len() as int) =~= body);
}

/// Frames are read in the order they were sent: after the first frame of
/// a stream holding `frame_of(first)` then `rest` is consumed, exactly
/// `rest` remains.
pub proof fn law_frames_in_order(first: Seq<u8>, rest: Seq<u8>)
    requires
        1 <= first.len() <= MAX_FRAME_BODY,
    ensures
        ({
            let stream = frame_of(first) + rest;
            let used = 4 + prefix_value(stream);
            stream.subrange(used, stream.len() as int) == rest
        }),
{
    law_decode_after_encode(first, rest);
    let stream = frame_of(first) + rest;
    assert(stream.subrange(frame_of(first).len() as int, stream.len() as int) =~= rest);
}

} // verus!
