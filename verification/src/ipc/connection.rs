//! Framed connection: the reader and writer halves plus the bytes read so far.
//!
//! Reading and writing the stream happen outside the library; the library
//! decides when the buffered bytes hold a whole frame and what a closed
//! stream means.

use vstd::prelude::*;
use crate::ipc::error::{IpcError, ProtocolError};
use crate::ipc::envelope::MAX_FRAME_BODY;
use crate::ipc::frame::{FrameCodec, LeJsonCodec, length_prefix_len, prefix_ok, prefix_value, prefix_error, encoded, frame_of, law_decode_after_encode};

verus! {

/// A connection over any reader/writer pair, framing with [`LeJsonCodec`].
pub struct FramedConnection<R, W> {
    pub reader: R,
    pub writer: W,
    codec: LeJsonCodec,
    read_buf: Vec<u8>,
}

impl<R, W> FramedConnection<R, W> {
    /// Bytes received and not yet consumed as frames.
    pub closed spec fn buffered(&self) -> Seq<u8> {
        self.read_buf@
    }

    /// The reader and writer halves.
    pub closed spec fn halves(&self) -> (R, W) {
        (self.reader, self.writer)
    }

    /// A connection with nothing buffered.
    pub fn new(reader: R, writer: W) -> (c: Self)
        ensures
            c.halves() == (reader, writer),
            c.buffered() == Seq::<u8>::empty(),
    {
        FramedConnection { reader, writer, codec: LeJsonCodec, read_buf: Vec::new() }
    }

    /// Appends bytes read from the stream.
    pub fn receive(&mut self, chunk: &[u8])
        ensures
            final(self).buffered() == old(self).buffered() + chunk@,
            final(self).halves() == old(self).halves(),
    {
        let mut i: usize = 0;
        while i < chunk.len()
            invariant
                i <= chunk.len(),
                self.read_buf@ == old(self).read_buf@ + chunk@.subrange(0, i as int),
                self.reader == old(self).reader,
                self.writer == old(self).writer,
            decreases chunk.len() - i,
        {
            self.read_buf.push(chunk[i]);
            i += 1;
            assert(self.read_buf@ =~= old(self).read_buf@ + chunk@.subrange(0, i as int));
        }
        assert(chunk@.subrange(0, chunk@.len() as int) =~= chunk@);
    }

    /// The first whole frame buffered, as its body and its total length, if
    /// one has arrived; an unusable length prefix is an error.
    pub fn peek_frame(&self) -> (r: Result<Option<(Vec<u8>, usize)>, IpcError>)
        ensures
            self.buffered().len() < 4 ==> r == Ok::<Option<(Vec<u8>, usize)>, IpcError>(None),
            self.buffered().len() >= 4 && !prefix_ok(self.buffered()) ==> match r {
                Err(e) => prefix_error(self.buffered(), e),
                Ok(_) => false,
            },
            self.buffered().len() >= 4 && prefix_ok(self.buffered())
                && self.buffered().len() < 4 + prefix_value(self.buffered())
                ==> r == Ok::<Option<(Vec<u8>, usize)>, IpcError>(None),
            self.buffered().len() >= 4 && prefix_ok(self.buffered())
                && self.buffered().len() >= 4 + prefix_value(self.buffered()) ==> match r {
                Ok(Some((body, used))) => {
                    &&& used == 4 + prefix_value(self.buffered())
                    &&& body@ == self.buffered().subrange(4, used as int)
                },
                _ => false,
            },
    {
        if self.read_buf.len() < 4 {
            return Ok(None);
        }
        let frame_len = length_prefix_len(self.read_buf.as_slice())?;
        if self.read_buf.len() < frame_len {
            return Ok(None);
        }
        let (body, used) = self.codec.decode_frame(self.read_buf.as_slice())?;
        Ok(Some((body, used)))
    }

    /// Drops the first `n` buffered bytes (a frame that was handled).
    pub fn consume(&mut self, n: usize)
        requires
            n <= old(self).buffered().len(),
        ensures
            final(self).buffered() == old(self).buffered().subrange(n as int, old(self).buffered().len() as int),
            final(self).halves() == old(self).halves(),
    {
        let rest = self.read_buf.split_off(n);
        self.read_buf = rest;
    }

    /// One step of reading an envelope: takes the first whole frame off the
    /// buffer and gives its body; gives nothing while only part of a frame
    /// has arrived; an unusable length prefix is an error. This is the
    /// step `read_once` takes before it needs another chunk.
    pub fn take_frame(&mut self) -> (r: Result<Option<Vec<u8>>, IpcError>)
        ensures
            final(self).halves() == old(self).halves(),
            whole_frame(old(self).buffered()) ==> {
                let used = 4 + prefix_value(old(self).buffered());
                &&& r matches Ok(Some(body)) && body@ == old(self).buffered().subrange(4, used)
                &&& final(self).buffered() == old(self).buffered().subrange(used, old(self).buffered().len() as int)
            },
            short_frame(old(self).buffered()) ==> r == Ok::<Option<Vec<u8>>, IpcError>(None)
                && final(self).buffered() == old(self).buffered(),
            !whole_frame(old(self).buffered()) && !short_frame(old(self).buffered()) ==> {
                &&& r matches Err(e) && prefix_error(old(self).buffered(), e)
                &&& final(self).buffered() == old(self).buffered()
            },
    {
        match self.peek_frame() {
            Ok(Some((body, used))) => {
                self.consume(used);
                Ok(Some(body))
            },
            Ok(None) => Ok(None),
            Err(e) => Err(e),
        }
    }

    /// The error for a stream that ended: nothing buffered means the peer
    /// closed between frames; a partial frame is incomplete.
    pub fn closed_error(&self) -> (e: IpcError)
        ensures
            self.buffered().len() == 0 ==> match e {
                IpcError::Protocol(ProtocolError::InvalidFrame(m)) => m@ == "connection closed"@,
                _ => false,
            },
            self.buffered().len() > 0 ==> e == IpcError::Protocol(ProtocolError::Incomplete {
                needed: 4,
                available: self.buffered().len() as usize,
            }),
    {
        if self.read_buf.len() == 0 {
            IpcError::Protocol(ProtocolError::InvalidFrame(String::from_str("connection closed")))
        } else {
            IpcError::Protocol(ProtocolError::Incomplete { needed: 4, available: self.read_buf.len() })
        }
    }

    /// Frames an envelope body for writing.
    pub fn frame_body(&self, body: &[u8]) -> (r: Result<Vec<u8>, IpcError>)
        ensures
            encoded(body@, r),
    {
        self.codec.encode(body)
    }
}

/// What one read of an envelope gives, on the framing level: a frame's
/// body, a refused length prefix, or the end of the stream with so many
/// bytes of an unfinished frame left.
pub ghost enum ReadOutcome {
    Frame(Seq<u8>),
    BadPrefix,
    Closed(nat),
}

/// The chunks of a stream, one after another.
pub open spec fn flatten(chunks: Seq<Seq<u8>>) -> Seq<u8>
    decreases chunks.len(),
{
    if chunks.len() == 0 {
        Seq::empty()
    } else {
        chunks[0] + flatten(chunks.drop_first())
    }
}

/// The frames of `bodies`, one after another.
pub open spec fn frames_of(bodies: Seq<Seq<u8>>) -> Seq<u8>
    decreases bodies.len(),
{
    if bodies.len() == 0 {
        Seq::empty()
    } else {
        frame_of(bodies[0]) + frames_of(bodies.drop_first())
    }
}

/// Whether `buf` starts with a whole frame (`peek_frame` gives it).
pub open spec fn whole_frame(buf: Seq<u8>) -> bool {
    prefix_ok(buf) && buf.len() >= 4 + prefix_value(buf)
}

/// Whether `buf` holds the start of a frame and no more (`peek_frame` gives nothing).
pub open spec fn short_frame(buf: Seq<u8>) -> bool {
    buf.len() < 4 || (prefix_ok(buf) && buf.len() < 4 + prefix_value(buf))
}

/// One read of an envelope from the buffered bytes `buf` with the stream's
/// `chunks` still to come, as the read loop runs it over `take_frame`,
/// `receive` and `closed_error`: a whole frame is taken and consumed; a refused prefix ends the read; otherwise the next chunk is
/// received, and when none is left the stream is closed. Gives the outcome,
/// the bytes left buffered and the chunks left.
pub open spec fn read_once(buf: Seq<u8>, chunks: Seq<Seq<u8>>) -> (ReadOutcome, Seq<u8>, Seq<Seq<u8>>)
    decreases chunks.len(),
{
    if whole_frame(buf) {
        let used = 4 + prefix_value(buf);
        (ReadOutcome::Frame(buf.subrange(4, used)), buf.subrange(used, buf.len() as int), chunks)
    } else if !short_frame(buf) {
        (ReadOutcome::BadPrefix, buf, chunks)
    } else if chunks.len() == 0 {
        (ReadOutcome::Closed(buf.len()), buf, chunks)
    } else {
        read_once(buf + chunks[0], chunks.drop_first())
    }
}

/// Up to `n` successive reads, stopping after the first that gives no frame.
pub open spec fn read_many(buf: Seq<u8>, chunks: Seq<Seq<u8>>, n: nat) -> Seq<ReadOutcome>
    decreases n,
{
    if n == 0 {
        Seq::empty()
    } else {
        let step = read_once(buf, chunks);
        if step.0 is Frame {
            seq![step.0] + read_many(step.1, step.2, (n - 1) as nat)
        } else {
            seq![step.0]
        }
    }
}

/// Whether every body can be framed (1 to `MAX_FRAME_BODY` bytes).
pub open spec fn bodies_ok(bodies: Seq<Seq<u8>>) -> bool {
    forall|i: int| 0 <= i < bodies.len() ==> 1 <= (#[trigger] bodies[i]).len() <= MAX_FRAME_BODY
}

proof fn lemma_read_closed(buf: Seq<u8>, chunks: Seq<Seq<u8>>)
    requires
        buf.len() == 0,
        flatten(chunks).len() == 0,
    ensures
        read_once(buf, chunks).0 == ReadOutcome::Closed(0),
    decreases chunks.len(),
{
    if chunks.len() > 0 {
        assert(buf + chunks[0] =~= Seq::<u8>::empty());
        lemma_read_closed(buf + chunks[0], chunks.drop_first());
    }
}

proof fn lemma_read_one(buf: Seq<u8>, chunks: Seq<Seq<u8>>, body: Seq<u8>, tail: Seq<u8>)
    requires
        1 <= body.len() <= MAX_FRAME_BODY,
        buf + flatten(chunks) == frame_of(body) + tail,
    ensures
        read_once(buf, chunks).0 == ReadOutcome::Frame(body),
        read_once(buf, chunks).1 + flatten(read_once(buf, chunks).2) == tail,
    decreases chunks.len(),
{
    let s = frame_of(body) + tail;
    let l = frame_of(body).len() as int;
    law_decode_after_encode(body, tail);
    if buf.len() >= 4 {
        assert(buf[0] == s[0] && buf[1] == s[1] && buf[2] == s[2] && buf[3] == s[3]);
        assert(prefix_value(buf) == prefix_value(s));
    }
    if buf.len() >= l {
        assert(buf.subrange(4, l) =~= s.subrange(4, l));
        assert(buf.subrange(l, buf.len() as int) + flatten(chunks) =~= s.subrange(l, s.len() as int));
        assert(s.subrange(l, s.len() as int) =~= tail);
    } else {
        if chunks.len() == 0 {
            assert(buf + flatten(chunks) =~= buf);
            assert(false);
        }
        assert((buf + chunks[0]) + flatten(chunks.drop_first()) =~= buf + flatten(chunks));
        lemma_read_one(buf + chunks[0], chunks.drop_first(), body, tail);
    }
}

/// Whether `partial` is nothing, or the start of the frame of `body`
/// short of its end.
pub open spec fn cut_frame(partial: Seq<u8>, body: Seq<u8>) -> bool {
    partial.len() == 0 || {
        &&& 1 <= body.len() <= MAX_FRAME_BODY
        &&& partial.len() < frame_of(body).len()
        &&& partial == frame_of(body).subrange(0, partial.len() as int)
    }
}

proof fn lemma_read_partial(buf: Seq<u8>, chunks: Seq<Seq<u8>>, partial: Seq<u8>, body: Seq<u8>)
    requires
        cut_frame(partial, body),
        buf + flatten(chunks) == partial,
    ensures
        read_once(buf, chunks).0 == ReadOutcome::Closed(partial.len()),
    decreases chunks.len(),
{
    if partial.len() == 0 {
        assert((buf + flatten(chunks)).len() == buf.len() + flatten(chunks).len());
        lemma_read_closed(buf, chunks);
    } else {
        let f = frame_of(body);
        law_decode_after_encode(body, Seq::empty());
        assert(f + Seq::<u8>::empty() =~= f);
        assert(buf.len() <= partial.len());
        if buf.len() >= 4 {
            assert(buf[0] == partial[0] && buf[1] == partial[1] && buf[2] == partial[2] && buf[3] == partial[3]);
            assert(partial[0] == f[0] && partial[1] == f[1] && partial[2] == f[2] && partial[3] == f[3]);
            assert(prefix_value(buf) == prefix_value(f));
        }
        if chunks.len() == 0 {
            assert(buf + flatten(chunks) =~= buf);
        } else {
            assert((buf + chunks[0]) + flatten(chunks.drop_first()) =~= buf + flatten(chunks));
            lemma_read_partial(buf + chunks[0], chunks.drop_first(), partial, body);
        }
    }
}

proof fn lemma_read_many(buf: Seq<u8>, chunks: Seq<Seq<u8>>, bodies: Seq<Seq<u8>>, partial: Seq<u8>, last: Seq<u8>)
    requires
        bodies_ok(bodies),
        cut_frame(partial, last),
        buf + flatten(chunks) == frames_of(bodies) + partial,
    ensures
        read_many(buf, chunks, bodies.len() + 1)
            == bodies.map_values(|b: Seq<u8>| ReadOutcome::Frame(b)).push(ReadOutcome::Closed(partial.len())),
    decreases bodies.len(),
{
    let expect = bodies.map_values(|b: Seq<u8>| ReadOutcome::Frame(b)).push(ReadOutcome::Closed(partial.len()));
    if bodies.len() == 0 {
        assert(frames_of(bodies) + partial =~= partial);
        lemma_read_partial(buf, chunks, partial, last);
        assert(read_many(buf, chunks, 1) =~= expect);
    } else {
        let rest = bodies.drop_first();
        assert(frames_of(bodies) + partial =~= frame_of(bodies[0]) + (frames_of(rest) + partial));
        lemma_read_one(buf, chunks, bodies[0], frames_of(rest) + partial);
        let step = read_once(buf, chunks);
        assert(bodies_ok(rest)) by {
            assert forall|i: int| 0 <= i < rest.len() implies 1 <= (#[trigger] rest[i]).len() <= MAX_FRAME_BODY by {
                assert(rest[i] == bodies[i + 1]);
            }
        }
        lemma_read_many(step.1, step.2, rest, partial, last);
        assert(read_many(buf, chunks, bodies.len() + 1)
            == seq![step.0] + read_many(step.1, step.2, rest.len() + 1));
        assert(read_many(buf, chunks, bodies.len() + 1) =~= expect);
    }
}

/// Frames are read back in the order they were sent, however the stream is
/// cut into chunks: when the chunks of a stream make up the frames of
/// `bodies`, successive reads on a fresh connection give each body in
/// order and then report the stream closed between frames.
pub proof fn law_reads_in_order(bodies: Seq<Seq<u8>>, chunks: Seq<Seq<u8>>)
    requires
        bodies_ok(bodies),
        flatten(chunks) == frames_of(bodies),
    ensures
        read_many(Seq::empty(), chunks, bodies.len() + 1)
            == bodies.map_values(|b: Seq<u8>| ReadOutcome::Frame(b)).push(ReadOutcome::Closed(0)),
{
    assert(Seq::<u8>::empty() + flatten(chunks) =~= frames_of(bodies) + Seq::<u8>::empty());
    lemma_read_many(Seq::empty(), chunks, bodies, Seq::empty(), Seq::empty());
}

/// A stream that ends inside a frame: when the chunks make up the frames
/// of `bodies` followed by the first `partial.len() > 0` bytes of one more
/// frame, successive reads give each body in order and then report the
/// stream closed with those bytes of an unfinished frame buffered (an
/// `Incomplete` error from `closed_error`).
pub proof fn law_read_cut_short(bodies: Seq<Seq<u8>>, chunks: Seq<Seq<u8>>, partial: Seq<u8>, last: Seq<u8>)
    requires
        bodies_ok(bodies),
        cut_frame(partial, last),
        partial.len() > 0,
        flatten(chunks) == frames_of(bodies) + partial,
    ensures
        read_many(Seq::empty(), chunks, bodies.len() + 1)
            == bodies.map_values(|b: Seq<u8>| ReadOutcome::Frame(b)).push(ReadOutcome::Closed(partial.len())),
{
    assert(Seq::<u8>::empty() + flatten(chunks) =~= flatten(chunks));
    lemma_read_many(Seq::empty(), chunks, bodies, partial, last);
}

} // verus!
