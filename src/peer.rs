//! One accepted connection, bound to the producer or the consumer role: the
//! decisions of its read-and-broadcast or drain-and-write cycle. The caller
//! performs the socket I/O and reports what happened.

use vstd::prelude::*;
use crate::buffers::frame_contents;
use crate::chunk::{chunks, remainder};
use crate::framer::{Framer, RelayError, MAX_FRAME_SIZE, valid_frame_size};
use crate::registry::{PeerAddr, PeerRegistry, after_broadcast, after_broadcasts, drained};

verus! {

/// Which side of the relay a connection is on.
#[derive(Debug, Clone, Copy, PartialEq, Eq, Structural)]
pub enum Role {
    /// The upstream connection whose bytes are cut into frames.
    Producer,
    /// A downstream connection that receives every broadcast frame.
    Consumer,
}

/// What a socket write reported.
#[derive(Debug, Clone, Copy, PartialEq, Eq, Structural)]
pub enum WriteEvent {
    /// The peer hung up.
    HangUp,
    /// The socket took this many bytes from the front of the pending output.
    Wrote(usize),
    /// The socket cannot take bytes now.
    WouldBlock,
}

/// What the write side does next.
#[derive(Debug, Clone, Copy, PartialEq, Eq, Structural)]
pub enum FlushStep {
    /// All pending output was written.
    Flushed,
    /// Output is still pending: write again.
    Continue,
    /// Wait until the socket is writable; pending output is kept.
    Suspend,
    /// The peer is gone: close the connection.
    Closed,
}

/// An accepted connection and its buffers.
pub struct Peer {
    addr: PeerAddr,
    role: Role,
    token: u64,
    framer: Framer,
}

impl Peer {
    pub closed spec fn address(&self) -> PeerAddr {
        self.addr
    }

    pub closed spec fn role_spec(&self) -> Role {
        self.role
    }

    pub closed spec fn framer_spec(&self) -> Framer {
        self.framer
    }

    /// The token of this connection's registration (consumers only).
    pub closed spec fn token_spec(&self) -> u64 {
        self.token
    }

    /// Whether the entry at this connection's address is its own
    /// registration, not one of a later connection from the same address.
    pub open spec fn registered_in(&self, registry: &PeerRegistry) -> bool {
        &&& self.role_spec() == Role::Consumer
        &&& registry.owners().contains_key(self.address())
        &&& registry.owners()[self.address()] == self.token_spec()
    }

    /// The framer is valid, and between turns a producer holds less than a
    /// frame of unread input.
    pub open spec fn wf(&self) -> bool {
        &&& self.framer_spec().wf()
        &&& self.role_spec() == Role::Producer ==> self.framer_spec().read_buffer().len()
            < self.framer_spec().size()
    }

    /// Sets up a connection; a consumer is registered at its address with an
    /// empty queue under a fresh token, replacing any earlier entry there.
    /// Fails, registering nothing, where the frame size is not accepted or,
    /// for a consumer, where no token is left.
    pub fn new(registry: &mut PeerRegistry, addr: PeerAddr, role: Role, frame_size: usize) -> (r:
        Result<Peer, RelayError>)
        requires
            old(registry).wf(),
        ensures
            final(registry).wf(),
            r.is_ok() <==> valid_frame_size(frame_size as int) && (role == Role::Producer
                || old(registry).issued() < u64::MAX),
            !valid_frame_size(frame_size as int) ==> r == Err::<Peer, RelayError>(
                RelayError::InvalidFrameSize,
            ),
            valid_frame_size(frame_size as int) && r is Err ==> r == Err::<Peer, RelayError>(
                RelayError::TokensExhausted,
            ),
            r is Err || role == Role::Producer ==> final(registry)@ == old(registry)@
                && final(registry).owners() == old(registry).owners()
                && final(registry).issued() == old(registry).issued(),
            r matches Ok(p) ==> p.wf() && p.address() == addr && p.role_spec() == role
                && p.framer_spec().size() == frame_size && p.framer_spec().read_buffer().len() == 0
                && p.framer_spec().write_buffer().len() == 0,
            r matches Ok(p) ==> (role == Role::Consumer ==> p.token_spec() == old(registry).issued()
                && final(registry).issued() == old(registry).issued() + 1
                && final(registry)@ == old(registry)@.insert(addr, Seq::<Seq<u8>>::empty())
                && final(registry).owners() == old(registry).owners().insert(addr, p.token_spec())
                && p.registered_in(&*final(registry))),
    {
        let framer = match Framer::new(frame_size) {
            Ok(f) => f,
            Err(e) => {
                return Err(e);
            },
        };
        let token = if role == Role::Consumer {
            match registry.register(addr) {
                Some(t) => t,
                None => {
                    return Err(RelayError::TokensExhausted);
                },
            }
        } else {
            0
        };
        Ok(Peer { addr, role, token, framer })
    }

    pub fn addr(&self) -> (r: PeerAddr)
        ensures
            r == self.address(),
    {
        self.addr
    }

    pub fn role(&self) -> (r: Role)
        ensures
            r == self.role_spec(),
    {
        self.role
    }

    /// The token of this connection's registration; zero for a producer.
    pub fn token(&self) -> (r: u64)
        ensures
            r == self.token_spec(),
    {
        self.token
    }

    pub fn framer(&self) -> (r: &Framer)
        ensures
            *r == self.framer_spec(),
    {
        &self.framer
    }

    /// A producer's turn on freshly read bytes: every frame now complete is
    /// cut off and broadcast, oldest first. Returns how many frames went out.
    pub fn on_data(&mut self, registry: &mut PeerRegistry, data: &[u8]) -> (n: usize)
        requires
            old(self).wf(),
            old(registry).wf(),
            old(self).role_spec() == Role::Producer,
            data@.len() <= isize::MAX - 6 * MAX_FRAME_SIZE,
        ensures
            final(self).wf(),
            final(registry).wf(),
            final(self).address() == old(self).address(),
            final(self).role_spec() == old(self).role_spec(),
            final(self).token_spec() == old(self).token_spec(),
            final(self).framer_spec().size() == old(self).framer_spec().size(),
            final(self).framer_spec().write_buffer() == old(self).framer_spec().write_buffer(),
            final(registry).owners() == old(registry).owners(),
            final(registry).issued() == old(registry).issued(),
            n == chunks(
                old(self).framer_spec().read_buffer() + data@,
                old(self).framer_spec().size(),
            ).len(),
            final(registry)@ == after_broadcasts(
                old(registry)@,
                chunks(old(self).framer_spec().read_buffer() + data@, old(self).framer_spec().size()),
            ),
            final(self).framer_spec().read_buffer() == remainder(
                old(self).framer_spec().read_buffer() + data@,
                old(self).framer_spec().size(),
            ),
    {
        let ghost size = self.framer.size();
        let ghost all = self.framer.read_buffer() + data@;
        let ghost reg0 = registry@;
        self.framer.absorb(data);
        let frames = self.framer.take_frames();
        let ghost cs = chunks(all, size);
        proof {
            crate::chunk::lemma_chunks_cover(all, size);
            assert(frames@.map_values(|f: bytes::Bytes| frame_contents(f)) == cs);
        }
        let mut j: usize = 0;
        while j < frames.len()
            invariant
                registry.wf(),
                j <= frames@.len(),
                frames@.map_values(|f: bytes::Bytes| frame_contents(f)) == cs,
                forall|i: int| 0 <= i < cs.len() ==> (#[trigger] cs[i]).len() == size,
                size <= MAX_FRAME_SIZE,
                registry@ == after_broadcasts(reg0, cs.take(j as int)),
                registry.owners() == old(registry).owners(),
                registry.issued() == old(registry).issued(),
            decreases frames@.len() - j,
        {
            proof {
                assert(cs[j as int] == frame_contents(frames@[j as int]));
            }
            registry.broadcast(&frames[j]);
            proof {
                assert(cs.take(j as int + 1).drop_last() =~= cs.take(j as int));
                assert(cs.take(j as int + 1).last() == cs[j as int]);
            }
            j = j + 1;
        }
        proof {
            assert(cs.take(j as int) =~= cs);
        }
        frames.len()
    }

    /// A producer's end of stream: the tail shorter than a frame is dropped,
    /// never sent. Returns how many bytes were dropped.
    pub fn on_end_of_stream(&mut self) -> (r: usize)
        requires
            old(self).wf(),
        ensures
            final(self).wf(),
            final(self).address() == old(self).address(),
            final(self).role_spec() == old(self).role_spec(),
            final(self).token_spec() == old(self).token_spec(),
            final(self).framer_spec().size() == old(self).framer_spec().size(),
            final(self).framer_spec().write_buffer() == old(self).framer_spec().write_buffer(),
            r == old(self).framer_spec().read_buffer().len(),
            final(self).framer_spec().read_buffer().len() == 0,
    {
        self.framer.discard_partial()
    }

    /// A consumer's turn: frames queued for it move into its write buffer
    /// until the queue is empty or the per-turn budget is reached. Returns
    /// whether frames are still queued, in which case the consumer should be
    /// scheduled again at once rather than wait for the socket. A connection
    /// whose entry is gone, or was taken over by a later connection from the
    /// same address, takes nothing.
    pub fn fill_outbound(&mut self, registry: &mut PeerRegistry) -> (again: bool)
        requires
            old(self).wf(),
            old(registry).wf(),
        ensures
            final(self).wf(),
            final(registry).wf(),
            final(self).address() == old(self).address(),
            final(self).role_spec() == old(self).role_spec(),
            final(self).token_spec() == old(self).token_spec(),
            final(self).framer_spec().size() == old(self).framer_spec().size(),
            final(self).framer_spec().read_buffer() == old(self).framer_spec().read_buffer(),
            final(registry).owners() == old(registry).owners(),
            final(registry).issued() == old(registry).issued(),
            !old(self).registered_in(&*old(registry)) ==> !again && final(registry)@ == old(registry)@
                && final(self).framer_spec().write_buffer() == old(self).framer_spec().write_buffer(),
            old(self).registered_in(&*old(registry)) ==> exists|k: int|
                drained(
                    old(registry)@[old(self).address()],
                    old(self).framer_spec().write_buffer().len(),
                    old(self).framer_spec().write_budget(),
                    k,
                ) && final(registry)@ == old(registry)@.insert(
                    old(self).address(),
                    old(registry)@[old(self).address()].skip(k),
                ) && final(self).framer_spec().write_buffer() == old(self).framer_spec().write_buffer()
                    + old(registry)@[old(self).address()].take(k).flatten() && again == (k < old(
                    registry,
                )@[old(self).address()].len()),
    {
        if self.role != Role::Consumer {
            return false;
        }
        match registry.owner(self.addr) {
            Some(t) => {
                if t != self.token {
                    return false;
                }
            },
            None => {
                return false;
            },
        }
        proof {
            registry.lemma_owners_dom();
        }
        let k = registry.drain_into(self.addr, &mut self.framer);
        let left = registry.queued(self.addr);
        proof {
            assert(registry@[self.addr] == old(registry)@[self.addr].skip(k as int));
        }
        left > 0
    }

    /// The bytes waiting to be written, oldest first.
    pub fn pending_output(&self) -> (r: &[u8])
        ensures
            r@ == self.framer_spec().write_buffer(),
    {
        self.framer.pending_output()
    }

    /// Folds the outcome of one socket write into the write buffer and says
    /// what to do next. A hang-up closes the connection; a write of zero
    /// bytes while output is pending fails it.
    pub fn after_write(&mut self, event: WriteEvent) -> (r: Result<FlushStep, RelayError>)
        requires
            old(self).wf(),
            event matches WriteEvent::Wrote(n) ==> n <= old(self).framer_spec().write_buffer().len(),
        ensures
            final(self).wf(),
            final(self).address() == old(self).address(),
            final(self).role_spec() == old(self).role_spec(),
            final(self).token_spec() == old(self).token_spec(),
            final(self).framer_spec().size() == old(self).framer_spec().size(),
            final(self).framer_spec().read_buffer() == old(self).framer_spec().read_buffer(),
            event == WriteEvent::HangUp ==> r == Ok::<FlushStep, RelayError>(FlushStep::Closed)
                && final(self).framer_spec().write_buffer() == old(self).framer_spec().write_buffer(),
            event == WriteEvent::WouldBlock ==> r == Ok::<FlushStep, RelayError>(FlushStep::Suspend)
                && final(self).framer_spec().write_buffer() == old(self).framer_spec().write_buffer(),
            event matches WriteEvent::Wrote(n) ==> {
                let w = old(self).framer_spec().write_buffer();
                if n == 0 && w.len() > 0 {
                    r == Err::<FlushStep, RelayError>(RelayError::WriteZero)
                        && final(self).framer_spec().write_buffer() == w
                } else {
                    final(self).framer_spec().write_buffer() == w.skip(n as int) && (if n == w.len() {
                        r == Ok::<FlushStep, RelayError>(FlushStep::Flushed)
                    } else {
                        r == Ok::<FlushStep, RelayError>(FlushStep::Continue)
                    })
                }
            },
    {
        match event {
            WriteEvent::HangUp => Ok(FlushStep::Closed),
            WriteEvent::WouldBlock => Ok(FlushStep::Suspend),
            WriteEvent::Wrote(n) => {
                match self.framer.on_written(n) {
                    Err(e) => Err(e),
                    Ok(()) => {
                        if self.framer.write_pending() == 0 {
                            Ok(FlushStep::Flushed)
                        } else {
                            Ok(FlushStep::Continue)
                        }
                    },
                }
            },
        }
    }

    /// Tears the connection down. A consumer's entry leaves the registry
    /// only where it is still this connection's own registration: an entry
    /// that a later connection from the same address took over stays. A
    /// producer was never registered. Returns whether an entry was removed.
    pub fn close(self, registry: &mut PeerRegistry) -> (r: bool)
        requires
            old(registry).wf(),
        ensures
            final(registry).wf(),
            final(registry).issued() == old(registry).issued(),
            r == self.registered_in(&*old(registry)),
            r ==> final(registry)@ == old(registry)@.remove(self.address())
                && final(registry).owners() == old(registry).owners().remove(self.address()),
            !r ==> final(registry)@ == old(registry)@ && final(registry).owners() == old(registry).owners(),
    {
        if self.role == Role::Consumer {
            registry.deregister_owned(self.addr, self.token)
        } else {
            false
        }
    }
}

/// Chunking does not depend on how the producer's stream is cut into reads:
/// handing a producer two reads in turn leaves every consumer queue, and the
/// producer's unread tail, as handing it the two reads joined would.
pub proof fn lemma_two_reads_as_one(
    m: Map<PeerAddr, Seq<Seq<u8>>>,
    held: Seq<u8>,
    first: Seq<u8>,
    second: Seq<u8>,
    size: nat,
)
    requires
        size > 0,
    ensures
        after_broadcasts(
            after_broadcasts(m, chunks(held + first, size)),
            chunks(remainder(held + first, size) + second, size),
        ) == after_broadcasts(m, chunks(held + first + second, size)),
        remainder(remainder(held + first, size) + second, size) == remainder(
            held + first + second,
            size,
        ),
{
    crate::chunk::lemma_chunks_split(held + first, second, size);
    crate::registry::lemma_broadcasts_concat(
        m,
        chunks(held + first, size),
        chunks(remainder(held + first, size) + second, size),
    );
}

} // verus!
