//! The table of live consumers and the frames queued for each of them.

use vstd::prelude::*;
use std::collections::VecDeque;
use crate::buffers::{frame_contents, frame_slice};
use crate::framer::{Framer, MAX_FRAME_SIZE};

verus! {

broadcast use vstd::std_specs::vecdeque::group_vec_dequeue_axioms;

/// The network address of a peer: an IPv6 address (IPv4 ones in mapped
/// form) and a port.
#[derive(Debug, Clone, Copy, PartialEq, Eq, Hash, Structural)]
pub struct PeerAddr {
    pub ip: u128,
    pub port: u16,
}

/// One registered consumer and the frames waiting for it, oldest first.
struct Slot {
    addr: PeerAddr,
    token: u64,
    queue: VecDeque<bytes::Bytes>,
}

/// The frames of a queue, as byte sequences.
pub open spec fn frames_of(q: Seq<bytes::Bytes>) -> Seq<Seq<u8>> {
    q.map_values(|b: bytes::Bytes| frame_contents(b))
}

/// The table after `frame` has been appended to every queue in it.
pub open spec fn after_broadcast(m: Map<PeerAddr, Seq<Seq<u8>>>, frame: Seq<u8>) -> Map<
    PeerAddr,
    Seq<Seq<u8>>,
> {
    m.map_values(|q: Seq<Seq<u8>>| q.push(frame))
}

/// Every registered consumer, each with its own unbounded FIFO queue.
///
/// A reconnect from an address replaces that address's entry. Broadcasting
/// never blocks and never fails: a consumer that has gone is no longer in
/// the table, so it is simply not delivered to.
///
/// Each registration gets a token of its own, so that a connection that was
/// replaced by a reconnect cannot remove or drain its successor's entry.
pub struct PeerRegistry {
    slots: Vec<Slot>,
    next_token: u64,
}

impl View for PeerRegistry {
    type V = Map<PeerAddr, Seq<Seq<u8>>>;

    closed spec fn view(&self) -> Map<PeerAddr, Seq<Seq<u8>>> {
        Map::new(
            |a: PeerAddr| exists|i: int| 0 <= i < self.slots@.len() && self.slots@[i].addr == a,
            |a: PeerAddr|
                {
                    let i = choose|i: int| 0 <= i < self.slots@.len() && self.slots@[i].addr == a;
                    frames_of(self.slots@[i].queue@)
                },
        )
    }
}

impl PeerRegistry {
    /// The token of the registration that owns each address's entry.
    pub closed spec fn owners(&self) -> Map<PeerAddr, u64> {
        Map::new(
            |a: PeerAddr| exists|i: int| 0 <= i < self.slots@.len() && self.slots@[i].addr == a,
            |a: PeerAddr|
                {
                    let i = choose|i: int| 0 <= i < self.slots@.len() && self.slots@[i].addr == a;
                    self.slots@[i].token
                },
        )
    }

    /// The token that the next registration gets; every token in use is
    /// smaller.
    pub closed spec fn issued(&self) -> u64 {
        self.next_token
    }

    pub closed spec fn wf(&self) -> bool {
        &&& forall|i: int| 0 <= i < self.slots@.len() ==> #[trigger] self.slots@[i].token < self.next_token
        &&& forall|i: int, j: int|
            0 <= i < self.slots@.len() && 0 <= j < self.slots@.len() && i != j
                ==> #[trigger] self.slots@[i].addr != #[trigger] self.slots@[j].addr
        &&& forall|i: int, k: int|
            0 <= i < self.slots@.len() && 0 <= k < self.slots@[i].queue@.len()
                ==> frame_contents(#[trigger] self.slots@[i].queue@[k]).len() <= MAX_FRAME_SIZE
    }

    proof fn lemma_view_at(&self, i: int)
        requires
            self.wf(),
            0 <= i < self.slots@.len(),
        ensures
            self@.contains_key(self.slots@[i].addr),
            self@[self.slots@[i].addr] == frames_of(self.slots@[i].queue@),
            self.owners().contains_key(self.slots@[i].addr),
            self.owners()[self.slots@[i].addr] == self.slots@[i].token,
            self.owners().dom() == self@.dom(),
    {
        let a = self.slots@[i].addr;
        assert(self@.contains_key(a));
        assert(self.owners().contains_key(a));
        assert(self.owners().dom() =~= self@.dom());
        let j = choose|j: int| 0 <= j < self.slots@.len() && self.slots@[j].addr == a;
        assert(i == j);
    }

    proof fn lemma_view_index(&self, a: PeerAddr) -> (i: int)
        requires
            self.wf(),
            self@.contains_key(a),
        ensures
            0 <= i < self.slots@.len(),
            self.slots@[i].addr == a,
    {
        choose|i: int| 0 <= i < self.slots@.len() && self.slots@[i].addr == a
    }

    /// Tokens are kept for exactly the registered addresses.
    pub proof fn lemma_owners_dom(&self)
        ensures
            self.owners().dom() == self@.dom(),
    {
        assert(self.owners().dom() =~= self@.dom());
    }

    /// Makes an empty table.
    pub fn new() -> (r: PeerRegistry)
        ensures
            r.wf(),
            r@ == Map::<PeerAddr, Seq<Seq<u8>>>::empty(),
            r.owners() == Map::<PeerAddr, u64>::empty(),
            r.issued() == 0,
    {
        let r = PeerRegistry { slots: Vec::new(), next_token: 0 };
        assert(r@ =~= Map::<PeerAddr, Seq<Seq<u8>>>::empty());
        assert(r.owners() =~= Map::<PeerAddr, u64>::empty());
        r
    }

    fn find(&self, addr: PeerAddr) -> (r: Option<usize>)
        requires
            self.wf(),
        ensures
            r matches Some(i) ==> i < self.slots@.len() && self.slots@[i as int].addr == addr,
            r is None ==> forall|i: int| 0 <= i < self.slots@.len() ==> self.slots@[i].addr != addr,
            r is Some <==> self@.contains_key(addr),
    {
        let mut i: usize = 0;
        while i < self.slots.len()
            invariant
                i <= self.slots@.len(),
                forall|j: int| 0 <= j < i ==> self.slots@[j].addr != addr,
            decreases self.slots@.len() - i,
        {
            if self.slots[i].addr == addr {
                proof {
                    assert(self@.contains_key(addr));
                }
                return Some(i);
            }
            i = i + 1;
        }
        None
    }

    /// Whether a consumer is registered at `addr`.
    pub fn contains(&self, addr: PeerAddr) -> (r: bool)
        requires
            self.wf(),
        ensures
            r == self@.contains_key(addr),
    {
        self.find(addr).is_some()
    }

    /// The number of registered consumers.
    pub fn len(&self) -> (r: usize)
        requires
            self.wf(),
        ensures
            r == self@.len(),
    {
        proof {
            self.lemma_dom_len();
        }
        self.slots.len()
    }

    proof fn lemma_dom_len(&self)
        requires
            self.wf(),
        ensures
            self@.dom().finite(),
            self@.len() == self.slots@.len(),
        decreases self.slots@.len(),
    {
        let addrs = self.slots@.map_values(|s: Slot| s.addr);
        assert forall|i: int, j: int| 0 <= i < addrs.len() && 0 <= j < addrs.len() && i != j
            implies addrs[i] != addrs[j] by {
            assert(self.slots@[i].addr != self.slots@[j].addr);
        }
        assert(addrs.no_duplicates());
        assert forall|a: PeerAddr| self@.dom().contains(a) <==> addrs.to_set().contains(a) by {
            if self@.dom().contains(a) {
                let i = self.lemma_view_index(a);
                assert(addrs[i] == a);
            }
            if addrs.to_set().contains(a) {
                let i = choose|i: int| 0 <= i < addrs.len() && addrs[i] == a;
                assert(self.slots@[i].addr == a);
            }
        }
        assert(self@.dom() =~= addrs.to_set());
        addrs.unique_seq_to_set();
    }

    /// The number of frames queued for `addr`; zero where none is registered.
    pub fn queued(&self, addr: PeerAddr) -> (r: usize)
        requires
            self.wf(),
        ensures
            self@.contains_key(addr) ==> r == self@[addr].len(),
            !self@.contains_key(addr) ==> r == 0,
    {
        match self.find(addr) {
            Some(i) => {
                proof {
                    self.lemma_view_at(i as int);
                }
                self.slots[i].queue.len()
            },
            None => 0,
        }
    }
    /// Registers a consumer at `addr` with an empty queue, replacing any
    /// earlier entry of that address, and returns the new registration's
    /// token. Once every token has been handed out nothing is registered and
    /// the result is `None`.
    pub fn register(&mut self, addr: PeerAddr) -> (r: Option<u64>)
        requires
            old(self).wf(),
        ensures
            final(self).wf(),
            r is None <==> old(self).issued() == u64::MAX,
            r is None ==> final(self)@ == old(self)@ && final(self).owners() == old(self).owners()
                && final(self).issued() == old(self).issued(),
            r matches Some(t) ==> t == old(self).issued() && final(self).issued() == t + 1
                && final(self)@ == old(self)@.insert(addr, Seq::<Seq<u8>>::empty())
                && final(self).owners() == old(self).owners().insert(addr, t),
    {
        if self.next_token == u64::MAX {
            return None;
        }
        let token = self.next_token;
        let ghost pre = *self;
        let ghost target = pre@.insert(addr, Seq::<Seq<u8>>::empty());
        let ghost target_owners = pre.owners().insert(addr, token);
        match self.find(addr) {
            Some(i) => {
                self.slots[i].queue = VecDeque::new();
                self.slots[i].token = token;
                self.next_token = token + 1;
                proof {
                    assert forall|a: PeerAddr| #[trigger] self@.contains_key(a) <==> target.contains_key(a) by {
                        if self@.contains_key(a) {
                            let j = self.lemma_view_index(a);
                            pre.lemma_view_at(j);
                        }
                        if pre@.contains_key(a) {
                            let j = pre.lemma_view_index(a);
                            self.lemma_view_at(j);
                        }
                    }
                    assert forall|a: PeerAddr| #[trigger] self@.contains_key(a) implies self@[a] == target[a]
                        && self.owners()[a] == target_owners[a] by {
                        let j = self.lemma_view_index(a);
                        self.lemma_view_at(j);
                        pre.lemma_view_at(j);
                        if j == i {
                            assert(frames_of(self.slots@[j].queue@) =~= Seq::<Seq<u8>>::empty());
                        }
                    }
                    self.lemma_owners_dom();
                    pre.lemma_owners_dom();
                    assert(self@ =~= target);
                    assert(self.owners() =~= target_owners);
                }
            },
            None => {
                self.slots.push(Slot { addr, token, queue: VecDeque::new() });
                self.next_token = token + 1;
                proof {
                    let n = pre.slots@.len() as int;
                    assert forall|a: PeerAddr| #[trigger] self@.contains_key(a) <==> target.contains_key(a) by {
                        if self@.contains_key(a) {
                            let j = self.lemma_view_index(a);
                            if j < n {
                                pre.lemma_view_at(j);
                            }
                        }
                        if pre@.contains_key(a) {
                            let j = pre.lemma_view_index(a);
                            assert(self.slots@[j] == pre.slots@[j]);
                            self.lemma_view_at(j);
                        }
                        if a == addr {
                            self.lemma_view_at(n);
                        }
                    }
                    assert forall|a: PeerAddr| #[trigger] self@.contains_key(a) implies self@[a] == target[a]
                        && self.owners()[a] == target_owners[a] by {
                        let j = self.lemma_view_index(a);
                        self.lemma_view_at(j);
                        if j < n {
                            pre.lemma_view_at(j);
                        } else {
                            assert(frames_of(self.slots@[j].queue@) =~= Seq::<Seq<u8>>::empty());
                        }
                    }
                    self.lemma_owners_dom();
                    pre.lemma_owners_dom();
                    assert(self@ =~= target);
                    assert(self.owners() =~= target_owners);
                }
            },
        }
        Some(token)
    }

    /// The token of the registration at `addr`, if there is one.
    pub fn owner(&self, addr: PeerAddr) -> (r: Option<u64>)
        requires
            self.wf(),
        ensures
            r is Some <==> self.owners().contains_key(addr),
            r matches Some(t) ==> t == self.owners()[addr],
    {
        proof {
            self.lemma_owners_dom();
        }
        match self.find(addr) {
            Some(i) => {
                proof {
                    self.lemma_view_at(i as int);
                }
                Some(self.slots[i].token)
            },
            None => None,
        }
    }

    /// Removes the entry at `addr` only where it belongs to the registration
    /// `token`; an entry that a later registration took over stays. Returns
    /// whether an entry was removed.
    pub fn deregister_owned(&mut self, addr: PeerAddr, token: u64) -> (r: bool)
        requires
            old(self).wf(),
        ensures
            final(self).wf(),
            final(self).issued() == old(self).issued(),
            r == (old(self).owners().contains_key(addr) && old(self).owners()[addr] == token),
            r ==> final(self)@ == old(self)@.remove(addr)
                && final(self).owners() == old(self).owners().remove(addr),
            !r ==> final(self)@ == old(self)@ && final(self).owners() == old(self).owners(),
    {
        match self.owner(addr) {
            Some(t) => {
                if t == token {
                    self.deregister(addr)
                } else {
                    false
                }
            },
            None => false,
        }
    }

    /// Removes the consumer at `addr`; nothing happens where none is
    /// registered. Returns whether one was.
    pub fn deregister(&mut self, addr: PeerAddr) -> (r: bool)
        requires
            old(self).wf(),
        ensures
            final(self).wf(),
            final(self).issued() == old(self).issued(),
            r == old(self)@.contains_key(addr),
            final(self)@ == old(self)@.remove(addr),
            final(self).owners() == old(self).owners().remove(addr),
    {
        let ghost pre = *self;
        match self.find(addr) {
            Some(i) => {
                let _gone = self.slots.remove(i);
                proof {
                    let ii = i as int;
                    assert forall|j: int| 0 <= j < self.slots@.len() implies #[trigger] self.slots@[j] == pre.slots@[if j < ii { j } else { j + 1 }] by {}
                    assert(self.wf()) by {
                        assert forall|j: int, k: int| 0 <= j < self.slots@.len() && 0 <= k < self.slots@.len() && j != k
                            implies #[trigger] self.slots@[j].addr != #[trigger] self.slots@[k].addr by {
                            let jj = if j < ii { j } else { j + 1 };
                            let kk = if k < ii { k } else { k + 1 };
                            assert(pre.slots@[jj].addr != pre.slots@[kk].addr);
                        }
                        assert forall|j: int, k: int| 0 <= j < self.slots@.len() && 0 <= k < self.slots@[j].queue@.len()
                            implies frame_contents(#[trigger] self.slots@[j].queue@[k]).len() <= MAX_FRAME_SIZE by {
                            let jj = if j < ii { j } else { j + 1 };
                            assert(self.slots@[j] == pre.slots@[jj]);
                        }
                        assert forall|j: int| 0 <= j < self.slots@.len() implies #[trigger] self.slots@[j].token < self.next_token by {
                            let jj = if j < ii { j } else { j + 1 };
                            assert(pre.slots@[jj].token < pre.next_token);
                        }
                    }
                    assert forall|a: PeerAddr| #[trigger] self@.contains_key(a) <==> pre@.remove(addr).contains_key(a) by {
                        if self@.contains_key(a) {
                            let j = self.lemma_view_index(a);
                            let jj = if j < ii { j } else { j + 1 };
                            assert(pre.slots@[jj].addr == a);
                            pre.lemma_view_at(jj);
                        }
                        if pre@.remove(addr).contains_key(a) {
                            let j = pre.lemma_view_index(a);
                            if j < ii {
                                assert(self.slots@[j].addr == a);
                                self.lemma_view_at(j);
                            } else {
                                assert(self.slots@[j - 1].addr == a);
                                self.lemma_view_at(j - 1);
                            }
                        }
                    }
                    assert forall|a: PeerAddr| #[trigger] self@.contains_key(a) implies self@[a] == pre@.remove(addr)[a]
                        && self.owners()[a] == pre.owners().remove(addr)[a] by {
                        let j = self.lemma_view_index(a);
                        let jj = if j < ii { j } else { j + 1 };
                        self.lemma_view_at(j);
                        pre.lemma_view_at(jj);
                    }
                    assert(self@ =~= pre@.remove(addr));
                    self.lemma_owners_dom();
                    pre.lemma_owners_dom();
                    assert(self.owners() =~= pre.owners().remove(addr));
                }
                true
            },
            None => {
                assert(pre@.remove(addr) =~= pre@);
                proof {
                    pre.lemma_owners_dom();
                }
                assert(pre.owners().remove(addr) =~= pre.owners());
                false
            },
        }
    }

    /// Appends `frame` to the queue of every registered consumer. It never
    /// blocks and never fails.
    pub fn broadcast(&mut self, frame: &bytes::Bytes)
        requires
            old(self).wf(),
            frame_contents(*frame).len() <= MAX_FRAME_SIZE,
        ensures
            final(self).wf(),
            final(self)@ == after_broadcast(old(self)@, frame_contents(*frame)),
            final(self).owners() == old(self).owners(),
            final(self).issued() == old(self).issued(),
    {
        let ghost pre = *self;
        let ghost f = frame_contents(*frame);
        let n = self.slots.len();
        let mut i: usize = 0;
        while i < n
            invariant
                n == pre.slots@.len(),
                n == self.slots@.len(),
                i <= n,
                pre.wf(),
                frame_contents(*frame) == f,
                f.len() <= MAX_FRAME_SIZE,
                self.next_token == pre.next_token,
                forall|j: int| 0 <= j < n ==> #[trigger] self.slots@[j].addr == pre.slots@[j].addr
                    && self.slots@[j].token == pre.slots@[j].token,
                forall|j: int| 0 <= j < i ==> #[trigger] self.slots@[j].queue@ == pre.slots@[j].queue@.push(*frame)
                    || frames_of(self.slots@[j].queue@) == frames_of(pre.slots@[j].queue@).push(f),
                forall|j: int| i <= j < n ==> #[trigger] self.slots@[j].queue@ == pre.slots@[j].queue@,
            decreases n - i,
        {
            let copy = frame.clone();
            let ghost before = self.slots@[i as int].queue@;
            self.slots[i].queue.push_back(copy);
            proof {
                assert(frames_of(before.push(copy)) =~= frames_of(before).push(f));
            }
            i = i + 1;
        }
        proof {
            assert forall|j: int| 0 <= j < n implies frames_of(#[trigger] self.slots@[j].queue@) == frames_of(pre.slots@[j].queue@).push(f) by {
                if self.slots@[j].queue@ == pre.slots@[j].queue@.push(*frame) {
                    assert(frames_of(pre.slots@[j].queue@.push(*frame)) =~= frames_of(pre.slots@[j].queue@).push(f));
                }
            }
            assert(self.wf()) by {
                assert forall|j: int| 0 <= j < n implies #[trigger] self.slots@[j].token < self.next_token by {
                    assert(self.slots@[j].addr == pre.slots@[j].addr);
                    assert(pre.slots@[j].token < pre.next_token);
                }
                assert forall|j: int, k: int| 0 <= j < n && 0 <= k < self.slots@[j].queue@.len()
                    implies frame_contents(#[trigger] self.slots@[j].queue@[k]).len() <= MAX_FRAME_SIZE by {
                    let fq = frames_of(pre.slots@[j].queue@);
                    assert(frames_of(self.slots@[j].queue@) == fq.push(f));
                    assert(frames_of(self.slots@[j].queue@)[k] == frame_contents(self.slots@[j].queue@[k]));
                    if k < pre.slots@[j].queue@.len() {
                        assert(fq[k] == frame_contents(pre.slots@[j].queue@[k]));
                        assert(frame_contents(pre.slots@[j].queue@[k]).len() <= MAX_FRAME_SIZE);
                    } else {
                        assert(fq.push(f)[k] == f);
                    }
                }
            }
            let target = after_broadcast(pre@, f);
            assert forall|a: PeerAddr| #[trigger] self@.contains_key(a) <==> target.contains_key(a) by {
                if self@.contains_key(a) {
                    let j = self.lemma_view_index(a);
                    pre.lemma_view_at(j);
                }
                if pre@.contains_key(a) {
                    let j = pre.lemma_view_index(a);
                    self.lemma_view_at(j);
                }
            }
            assert forall|a: PeerAddr| #[trigger] self@.contains_key(a) implies self@[a] == target[a]
                && self.owners()[a] == pre.owners()[a] by {
                let j = self.lemma_view_index(a);
                self.lemma_view_at(j);
                pre.lemma_view_at(j);
            }
            assert(self@ =~= target);
            self.lemma_owners_dom();
            pre.lemma_owners_dom();
            assert(self.owners() =~= pre.owners());
        }
    }
    /// Moves frames from the front of the queue of `addr` into the write
    /// buffer of `framer`, one whole frame at a time, for as long as the write
    /// buffer holds less than its per-turn budget. Returns how many frames
    /// moved; none where nothing is registered at `addr`.
    pub fn drain_into(&mut self, addr: PeerAddr, framer: &mut Framer) -> (k: usize)
        requires
            old(self).wf(),
            old(framer).wf(),
        ensures
            final(self).wf(),
            final(framer).wf(),
            final(framer).size() == old(framer).size(),
            final(framer).read_buffer() == old(framer).read_buffer(),
            final(self).owners() == old(self).owners(),
            final(self).issued() == old(self).issued(),
            !old(self)@.contains_key(addr) ==> k == 0 && final(self)@ == old(self)@
                && final(framer).write_buffer() == old(framer).write_buffer(),
            old(self)@.contains_key(addr) ==> drained(
                old(self)@[addr],
                old(framer).write_buffer().len(),
                old(framer).write_budget(),
                k as int,
            ) && final(self)@ == old(self)@.insert(addr, old(self)@[addr].skip(k as int))
                && final(framer).write_buffer() == old(framer).write_buffer() + old(
                self,
            )@[addr].take(k as int).flatten(),
    {
        let ghost pre = *self;
        let ghost wb0 = framer.write_buffer();
        let budget = framer.frame_size() * crate::framer::GROWTH_FRAMES;
        let i = match self.find(addr) {
            Some(i) => i,
            None => {
                return 0;
            },
        };
        proof {
            pre.lemma_view_at(i as int);
        }
        let ghost q0 = pre.slots@[i as int].queue@;
        let ghost fq = frames_of(q0);
        let mut k: usize = 0;
        proof {
            assert(pre.slots@[i as int].queue.len() == q0.len());
        }
        while self.slots[i].queue.len() > 0 && framer.write_pending() < budget
            invariant
                pre.wf(),
                framer.wf(),
                framer.size() == old(framer).size(),
                framer.read_buffer() == old(framer).read_buffer(),
                budget == framer.write_budget(),
                i < pre.slots@.len(),
                self.slots@.len() == pre.slots@.len(),
                q0 == pre.slots@[i as int].queue@,
                fq == frames_of(q0),
                k <= q0.len(),
                q0.len() <= usize::MAX,
                self.next_token == pre.next_token,
                self.slots@[i as int].token == pre.slots@[i as int].token,
                self.slots@[i as int].addr == addr,
                self.slots@[i as int].queue@ == q0.skip(k as int),
                forall|j: int| 0 <= j < self.slots@.len() && j != i ==> #[trigger] self.slots@[j] == pre.slots@[j],
                framer.write_buffer() == wb0 + fq.take(k as int).flatten(),
                forall|j: int| 0 <= j < k ==> wb0.len() + (#[trigger] fq.take(j)).flatten().len() < budget,
            decreases q0.len() - k,
        {
            let ghost before = framer.write_buffer();
            if let Some(frame) = self.slots[i].queue.pop_front() {
                proof {
                    assert(q0.skip(k as int)[0] == q0[k as int]);
                    assert(fq[k as int] == frame_contents(frame));
                    assert(frame_contents(frame).len() <= MAX_FRAME_SIZE);
                }
                framer.buffer(frame_slice(&frame));
                proof {
                    assert(self.slots@[i as int].queue@ =~= q0.skip(k as int + 1));
                    assert(fq.take(k as int + 1) =~= fq.take(k as int) + seq![fq[k as int]]);
                    vstd::seq_lib::lemma_flatten_concat(fq.take(k as int), seq![fq[k as int]]);
                    seq![fq[k as int]].lemma_flatten_one_element();
                    assert(framer.write_buffer() == before + fq[k as int]);
                    assert(framer.write_buffer() =~= wb0 + fq.take(k as int + 1).flatten());
                }
                k = k + 1;
            }
        }
        proof {
            assert(drained(fq, wb0.len(), budget as nat, k as int));
            assert(self.wf()) by {
                assert forall|j: int, l: int| 0 <= j < self.slots@.len() && 0 <= l < self.slots@[j].queue@.len()
                    implies frame_contents(#[trigger] self.slots@[j].queue@[l]).len() <= MAX_FRAME_SIZE by {
                    if j == i {
                        assert(self.slots@[j].queue@[l] == q0[l + k]);
                    } else {
                        assert(self.slots@[j] == pre.slots@[j]);
                    }
                }
                assert forall|j: int, l: int| 0 <= j < self.slots@.len() && 0 <= l < self.slots@.len() && j != l
                    implies #[trigger] self.slots@[j].addr != #[trigger] self.slots@[l].addr by {
                    assert(pre.slots@[j].addr != pre.slots@[l].addr);
                }
                assert forall|j: int| 0 <= j < self.slots@.len() implies #[trigger] self.slots@[j].token < self.next_token by {
                    assert(pre.slots@[j].token < pre.next_token);
                }
            }
            let target = pre@.insert(addr, fq.skip(k as int));
            assert forall|a: PeerAddr| #[trigger] self@.contains_key(a) <==> target.contains_key(a) by {
                if self@.contains_key(a) {
                    let j = self.lemma_view_index(a);
                    pre.lemma_view_at(j);
                }
                if pre@.contains_key(a) {
                    let j = pre.lemma_view_index(a);
                    self.lemma_view_at(j);
                }
            }
            assert forall|a: PeerAddr| #[trigger] self@.contains_key(a) implies self@[a] == target[a]
                && self.owners()[a] == pre.owners()[a] by {
                let j = self.lemma_view_index(a);
                self.lemma_view_at(j);
                pre.lemma_view_at(j);
                if j == i {
                    assert(frames_of(q0.skip(k as int)) =~= fq.skip(k as int));
                }
            }
            assert(self@ =~= target);
            self.lemma_owners_dom();
            pre.lemma_owners_dom();
            assert(self.owners() =~= pre.owners());
        }
        k
    }
}

/// Whether taking the first `k` frames of `q` into a write buffer that
/// already held `held` bytes is what draining under `budget` does: each of
/// them was taken while the buffer was under budget, and the draining stopped
/// because the queue ran out or the budget was reached.
pub open spec fn drained(q: Seq<Seq<u8>>, held: nat, budget: nat, k: int) -> bool {
    &&& 0 <= k <= q.len()
    &&& forall|j: int| 0 <= j < k ==> held + (#[trigger] q.take(j)).flatten().len() < budget
    &&& k == q.len() || held + q.take(k).flatten().len() >= budget
}

/// The table after each of `frames` has been broadcast, in order.
pub open spec fn after_broadcasts(m: Map<PeerAddr, Seq<Seq<u8>>>, frames: Seq<Seq<u8>>) -> Map<
    PeerAddr,
    Seq<Seq<u8>>,
>
    decreases frames.len(),
{
    if frames.len() == 0 {
        m
    } else {
        after_broadcast(after_broadcasts(m, frames.drop_last()), frames.last())
    }
}

/// Fan-out: every consumer registered before a run of broadcasts finds all
/// of the broadcast frames in its queue, in the order they were sent, behind
/// what it already held; no consumer is added or lost on the way.
pub proof fn lemma_fan_out(m: Map<PeerAddr, Seq<Seq<u8>>>, frames: Seq<Seq<u8>>)
    ensures
        after_broadcasts(m, frames).dom() == m.dom(),
        forall|a: PeerAddr| #[trigger] m.contains_key(a) ==> after_broadcasts(m, frames)[a] == m[a] + frames,
    decreases frames.len(),
{
    if frames.len() == 0 {
        assert forall|a: PeerAddr| #[trigger] m.contains_key(a) implies after_broadcasts(m, frames)[a] == m[a] + frames by {
            assert(m[a] + frames =~= m[a]);
        }
    } else {
        let init = frames.drop_last();
        lemma_fan_out(m, init);
        let mid = after_broadcasts(m, init);
        assert(after_broadcast(mid, frames.last()).dom() =~= mid.dom());
        assert forall|a: PeerAddr| #[trigger] m.contains_key(a) implies after_broadcasts(m, frames)[a] == m[a] + frames by {
            assert(mid[a] == m[a] + init);
            assert((m[a] + init).push(frames.last()) =~= m[a] + frames);
        }
    }
}

/// Isolation: a consumer that leaves changes no other consumer's delivery;
/// broadcasting after it left gives every other consumer what it would have
/// got had it stayed.
pub proof fn lemma_isolation(m: Map<PeerAddr, Seq<Seq<u8>>>, gone: PeerAddr, frame: Seq<u8>)
    ensures
        after_broadcast(m.remove(gone), frame) == after_broadcast(m, frame).remove(gone),
{
    assert(after_broadcast(m.remove(gone), frame) =~= after_broadcast(m, frame).remove(gone));
}

/// Broadcasting one run of frames and then another is broadcasting the two
/// runs joined.
pub proof fn lemma_broadcasts_concat(m: Map<PeerAddr, Seq<Seq<u8>>>, x: Seq<Seq<u8>>, y: Seq<Seq<u8>>)
    ensures
        after_broadcasts(after_broadcasts(m, x), y) == after_broadcasts(m, x + y),
    decreases y.len(),
{
    if y.len() == 0 {
        assert(x + y =~= x);
    } else {
        lemma_broadcasts_concat(m, x, y.drop_last());
        assert((x + y).drop_last() =~= x + y.drop_last());
        assert((x + y).last() == y.last());
    }
}

} // verus!
