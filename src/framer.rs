//! Per-connection buffering: the read side cuts the incoming byte stream
//! into frames, the write side holds outgoing bytes until the socket takes
//! them.

use vstd::prelude::*;
use crate::buffers::{buf_contents, frame_contents, buf_slice};
use crate::chunk::{chunks, remainder};

verus! {

/// The largest frame size accepted: a bound that keeps the buffers' length
/// arithmetic within the address space.
pub const MAX_FRAME_SIZE: usize = usize::MAX / 32;

/// Buffers grow ahead of need by this many frames.
pub const GROWTH_FRAMES: usize = 4;

/// Why a connection could not be set up or could not go on.
#[derive(Debug, Clone, Copy, PartialEq, Eq, Structural)]
pub enum RelayError {
    /// The frame size is zero or above `MAX_FRAME_SIZE`.
    InvalidFrameSize,
    /// The socket accepted zero bytes while output was pending.
    WriteZero,
    /// Every registration token has been handed out.
    TokensExhausted,
}

/// The read and write buffers of one connection.
///
/// A frame is cut as soon as the read buffer holds at least `frame_size`
/// bytes: a stream that ends on a frame boundary delivers its last frame, and
/// only a shorter tail is dropped at end of stream.
pub struct Framer {
    frame_size: usize,
    rd: bytes::BytesMut,
    wr: bytes::BytesMut,
}

/// Whether `size` is an accepted frame size.
pub open spec fn valid_frame_size(size: int) -> bool {
    0 < size <= MAX_FRAME_SIZE
}

impl Framer {
    /// The frame size.
    pub closed spec fn size(&self) -> nat {
        self.frame_size as nat
    }

    /// The bytes read and not yet cut into a frame.
    pub closed spec fn read_buffer(&self) -> Seq<u8> {
        buf_contents(self.rd)
    }

    /// The bytes queued for output and not yet written.
    pub closed spec fn write_buffer(&self) -> Seq<u8> {
        buf_contents(self.wr)
    }

    /// How many bytes the write side takes in one turn before it yields.
    pub open spec fn write_budget(&self) -> nat {
        (GROWTH_FRAMES * self.size()) as nat
    }

    pub open spec fn wf(&self) -> bool {
        valid_frame_size(self.size() as int)
    }

    /// Makes a framer with empty buffers.
    pub fn new(frame_size: usize) -> (r: Result<Framer, RelayError>)
        ensures
            r.is_ok() <==> valid_frame_size(frame_size as int),
            r is Err ==> r == Err::<Framer, RelayError>(RelayError::InvalidFrameSize),
            r matches Ok(f) ==> f.wf() && f.size() == frame_size && f.read_buffer().len() == 0
                && f.write_buffer().len() == 0,
    {
        if frame_size == 0 || frame_size > MAX_FRAME_SIZE {
            return Err(RelayError::InvalidFrameSize);
        }
        Ok(Framer { frame_size, rd: bytes::BytesMut::new(), wr: bytes::BytesMut::new() })
    }

    pub fn frame_size(&self) -> (r: usize)
        ensures
            r == self.size(),
    {
        self.frame_size
    }

    /// The number of bytes read and not yet cut into a frame.
    pub fn read_pending(&self) -> (r: usize)
        ensures
            r == self.read_buffer().len(),
    {
        self.rd.len()
    }

    /// The number of bytes waiting to be written.
    pub fn write_pending(&self) -> (r: usize)
        ensures
            r == self.write_buffer().len(),
    {
        self.wr.len()
    }

    /// Appends freshly read bytes to the read buffer.
    pub fn absorb(&mut self, data: &[u8])
        requires
            old(self).wf(),
            old(self).read_buffer().len() + data@.len() + old(self).write_budget() <= isize::MAX,
        ensures
            final(self).wf(),
            final(self).size() == old(self).size(),
            final(self).read_buffer() == old(self).read_buffer() + data@,
            final(self).write_buffer() == old(self).write_buffer(),
    {
        self.rd.reserve(self.frame_size * GROWTH_FRAMES);
        self.rd.extend_from_slice(data);
    }

    /// Cuts the oldest frame off the read buffer, if a whole one is there.
    pub fn next_frame(&mut self) -> (r: Option<bytes::Bytes>)
        requires
            old(self).wf(),
        ensures
            final(self).wf(),
            final(self).size() == old(self).size(),
            final(self).write_buffer() == old(self).write_buffer(),
            r.is_some() <==> old(self).read_buffer().len() >= old(self).size(),
            r matches Some(f) ==> frame_contents(f) == old(self).read_buffer().take(
                old(self).size() as int,
            ) && final(self).read_buffer() == old(self).read_buffer().skip(old(self).size() as int),
            r is None ==> final(self).read_buffer() == old(self).read_buffer(),
    {
        if self.rd.len() >= self.frame_size {
            let frame = self.rd.split_to(self.frame_size);
            Some(frame.freeze())
        } else {
            None
        }
    }

    /// Cuts every whole frame off the read buffer, oldest first.
    pub fn take_frames(&mut self) -> (r: Vec<bytes::Bytes>)
        requires
            old(self).wf(),
        ensures
            final(self).wf(),
            final(self).size() == old(self).size(),
            final(self).write_buffer() == old(self).write_buffer(),
            r@.map_values(|f: bytes::Bytes| frame_contents(f)) == chunks(
                old(self).read_buffer(),
                old(self).size(),
            ),
            final(self).read_buffer() == remainder(old(self).read_buffer(), old(self).size()),
    {
        let mut out: Vec<bytes::Bytes> = Vec::new();
        loop
            invariant
                self.wf(),
                self.size() == old(self).size(),
                self.write_buffer() == old(self).write_buffer(),
                out@.map_values(|f: bytes::Bytes| frame_contents(f)) + chunks(
                    self.read_buffer(),
                    self.size(),
                ) == chunks(old(self).read_buffer(), old(self).size()),
                remainder(self.read_buffer(), self.size()) == remainder(
                    old(self).read_buffer(),
                    old(self).size(),
                ),
            ensures
                self.wf(),
                self.size() == old(self).size(),
                self.write_buffer() == old(self).write_buffer(),
                self.read_buffer().len() < self.size(),
                out@.map_values(|f: bytes::Bytes| frame_contents(f)) + chunks(
                    self.read_buffer(),
                    self.size(),
                ) == chunks(old(self).read_buffer(), old(self).size()),
                remainder(self.read_buffer(), self.size()) == remainder(
                    old(self).read_buffer(),
                    old(self).size(),
                ),
            decreases self.read_buffer().len(),
        {
            let ghost before = self.read_buffer();
            let ghost done = out@.map_values(|f: bytes::Bytes| frame_contents(f));
            match self.next_frame() {
                Some(frame) => {
                    let ghost c = frame_contents(frame);
                    out.push(frame);
                    proof {
                        assert(chunks(before, self.size()) == seq![c] + chunks(
                            self.read_buffer(),
                            self.size(),
                        ));
                        assert(out@.map_values(|f: bytes::Bytes| frame_contents(f)) == done.push(c));
                        assert(done.push(c) + chunks(self.read_buffer(), self.size()) == done + (
                        seq![c] + chunks(self.read_buffer(), self.size())));
                    }
                },
                None => {
                    break ;
                },
            }
        }
        proof {
            assert(chunks(self.read_buffer(), self.size()) == Seq::<Seq<u8>>::empty());
            assert(remainder(self.read_buffer(), self.size()) == self.read_buffer());
            assert(out@.map_values(|f: bytes::Bytes| frame_contents(f)) + Seq::<Seq<u8>>::empty()
                == out@.map_values(|f: bytes::Bytes| frame_contents(f)));
        }
        out
    }

    /// End of stream: the tail shorter than a frame is dropped. Returns how
    /// many bytes were dropped.
    pub fn discard_partial(&mut self) -> (r: usize)
        requires
            old(self).wf(),
        ensures
            final(self).wf(),
            final(self).size() == old(self).size(),
            r == old(self).read_buffer().len(),
            final(self).read_buffer().len() == 0,
            final(self).write_buffer() == old(self).write_buffer(),
    {
        let n = self.rd.len();
        self.rd.advance(n);
        n
    }

    /// Queues bytes for output; no I/O happens here.
    pub fn buffer(&mut self, data: &[u8])
        requires
            old(self).wf(),
            old(self).write_buffer().len() + data@.len() + old(self).write_budget() <= isize::MAX,
        ensures
            final(self).wf(),
            final(self).size() == old(self).size(),
            final(self).read_buffer() == old(self).read_buffer(),
            final(self).write_buffer() == old(self).write_buffer() + data@,
    {
        self.wr.reserve(self.frame_size * GROWTH_FRAMES);
        self.wr.extend_from_slice(data);
    }

    /// The bytes waiting to be written, oldest first.
    pub fn pending_output(&self) -> (r: &[u8])
        ensures
            r@ == self.write_buffer(),
    {
        buf_slice(&self.wr)
    }

    /// Records that the socket took the first `n` pending bytes. Taking none
    /// while bytes are pending breaks the write contract of a socket and
    /// fails the connection.
    pub fn on_written(&mut self, n: usize) -> (r: Result<(), RelayError>)
        requires
            old(self).wf(),
            n <= old(self).write_buffer().len(),
        ensures
            final(self).wf(),
            final(self).size() == old(self).size(),
            final(self).read_buffer() == old(self).read_buffer(),
            r is Err <==> (n == 0 && old(self).write_buffer().len() > 0),
            r is Err ==> r == Err::<(), RelayError>(RelayError::WriteZero)
                && final(self).write_buffer() == old(self).write_buffer(),
            r is Ok ==> final(self).write_buffer() == old(self).write_buffer().skip(n as int),
    {
        if n == 0 && self.wr.len() > 0 {
            return Err(RelayError::WriteZero);
        }
        self.wr.advance(n);
        Ok(())
    }
}

} // verus!
