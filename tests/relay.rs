use ts_relay::framer::{Framer, RelayError, MAX_FRAME_SIZE};
use ts_relay::peer::{FlushStep, Peer, Role, WriteEvent};
use ts_relay::registry::{PeerAddr, PeerRegistry};

fn addr(port: u16) -> PeerAddr {
    PeerAddr { ip: 0xffff_7f00_0001, port }
}

fn producer(reg: &mut PeerRegistry, size: usize) -> Peer {
    Peer::new(reg, addr(12345), Role::Producer, size).unwrap()
}

fn consumer(reg: &mut PeerRegistry, port: u16, size: usize) -> Peer {
    Peer::new(reg, addr(port), Role::Consumer, size).unwrap()
}

/// Drains everything queued for `c` and returns the bytes it would write.
fn delivered(c: &mut Peer, reg: &mut PeerRegistry) -> Vec<u8> {
    let mut out = Vec::new();
    loop {
        let again = c.fill_outbound(reg);
        out.extend_from_slice(c.pending_output());
        let n = c.pending_output().len();
        if n > 0 {
            assert_eq!(c.after_write(WriteEvent::Wrote(n)), Ok(FlushStep::Flushed));
        }
        if !again {
            return out;
        }
    }
}

#[test]
fn eight_bytes_give_two_frames() {
    let mut reg = PeerRegistry::new();
    let mut a = consumer(&mut reg, 40001, 4);
    let mut b = consumer(&mut reg, 40002, 4);
    let mut p = producer(&mut reg, 4);
    assert_eq!(p.on_data(&mut reg, b"ABCDEFGH"), 2);
    assert_eq!(p.on_end_of_stream(), 0);
    assert_eq!(reg.queued(addr(40001)), 2);
    assert_eq!(delivered(&mut a, &mut reg), b"ABCDEFGH".to_vec());
    assert_eq!(delivered(&mut b, &mut reg), b"ABCDEFGH".to_vec());
}

#[test]
fn five_bytes_give_one_frame_and_drop_the_tail() {
    let mut reg = PeerRegistry::new();
    let mut a = consumer(&mut reg, 40001, 4);
    let mut p = producer(&mut reg, 4);
    assert_eq!(p.on_data(&mut reg, b"ABCDE"), 1);
    assert_eq!(p.framer().read_pending(), 1);
    assert_eq!(p.on_end_of_stream(), 1);
    assert_eq!(p.framer().read_pending(), 0);
    assert_eq!(delivered(&mut a, &mut reg), b"ABCD".to_vec());
}

#[test]
fn consumer_gone_before_data_is_skipped() {
    let mut reg = PeerRegistry::new();
    let c = consumer(&mut reg, 40001, 4);
    assert!(reg.contains(addr(40001)));
    assert!(c.close(&mut reg));
    assert!(!reg.contains(addr(40001)));
    let mut p = producer(&mut reg, 4);
    assert_eq!(p.on_data(&mut reg, b"ABCDX"), 1);
    assert_eq!(reg.len(), 0);
    assert_eq!(reg.queued(addr(40001)), 0);
}

#[test]
fn frames_do_not_depend_on_read_boundaries() {
    let stream = b"0123456789abcdefghij";
    let mut reg = PeerRegistry::new();
    let mut whole = consumer(&mut reg, 40001, 3);
    let mut p = producer(&mut reg, 3);
    let mut sent = 0;
    for piece in [&stream[..2], &stream[2..7], &stream[7..8], &stream[8..]] {
        sent += p.on_data(&mut reg, piece);
    }
    assert_eq!(sent, 6);
    assert_eq!(p.on_end_of_stream(), 2);
    assert_eq!(delivered(&mut whole, &mut reg), stream[..18].to_vec());
}

#[test]
fn exact_multiple_drops_nothing() {
    let mut reg = PeerRegistry::new();
    let mut a = consumer(&mut reg, 40001, 4);
    let mut p = producer(&mut reg, 4);
    assert_eq!(p.on_data(&mut reg, b"ABCDEFGHIJKL"), 3);
    assert_eq!(p.on_end_of_stream(), 0);
    assert_eq!(delivered(&mut a, &mut reg), b"ABCDEFGHIJKL".to_vec());
}

#[test]
fn every_consumer_gets_every_frame_in_order() {
    let mut reg = PeerRegistry::new();
    let mut cs: Vec<Peer> = (0..3).map(|i| consumer(&mut reg, 41000 + i, 2)).collect();
    let mut p = producer(&mut reg, 2);
    assert_eq!(p.on_data(&mut reg, b"aabb"), 2);
    assert_eq!(p.on_data(&mut reg, b"c"), 0);
    assert_eq!(p.on_data(&mut reg, b"cdd"), 2);
    for c in cs.iter_mut() {
        assert_eq!(delivered(c, &mut reg), b"aabbccdd".to_vec());
    }
}

#[test]
fn late_consumer_sees_only_later_frames() {
    let mut reg = PeerRegistry::new();
    let mut early = consumer(&mut reg, 40001, 2);
    let mut p = producer(&mut reg, 2);
    p.on_data(&mut reg, b"xy");
    let mut late = consumer(&mut reg, 40002, 2);
    p.on_data(&mut reg, b"zw");
    assert_eq!(delivered(&mut early, &mut reg), b"xyzw".to_vec());
    assert_eq!(delivered(&mut late, &mut reg), b"zw".to_vec());
}

#[test]
fn registry_tracks_live_consumers() {
    let mut reg = PeerRegistry::new();
    assert_eq!(reg.len(), 0);
    let a = consumer(&mut reg, 40001, 4);
    let b = consumer(&mut reg, 40002, 4);
    let _p = producer(&mut reg, 4);
    assert_eq!(reg.len(), 2);
    assert!(reg.contains(addr(40001)) && reg.contains(addr(40002)));
    assert!(!reg.contains(addr(12345)));
    assert!(a.close(&mut reg));
    assert_eq!(reg.len(), 1);
    assert!(!reg.contains(addr(40001)));
    assert!(b.close(&mut reg));
    assert_eq!(reg.len(), 0);
    assert!(!reg.deregister(addr(40002)));
}

#[test]
fn reconnect_replaces_the_entry() {
    let mut reg = PeerRegistry::new();
    let _a = consumer(&mut reg, 40001, 2);
    let mut p = producer(&mut reg, 2);
    p.on_data(&mut reg, b"aabb");
    assert_eq!(reg.queued(addr(40001)), 2);
    let mut again = consumer(&mut reg, 40001, 2);
    assert_eq!(reg.len(), 1);
    assert_eq!(reg.queued(addr(40001)), 0);
    p.on_data(&mut reg, b"cc");
    assert_eq!(delivered(&mut again, &mut reg), b"cc".to_vec());
}

#[test]
fn one_consumer_leaving_does_not_affect_others() {
    let mut reg = PeerRegistry::new();
    let a = consumer(&mut reg, 40001, 2);
    let mut b = consumer(&mut reg, 40002, 2);
    let mut p = producer(&mut reg, 2);
    assert_eq!(p.on_data(&mut reg, b"11"), 1);
    assert!(a.close(&mut reg));
    assert_eq!(p.on_data(&mut reg, b"22"), 1);
    assert_eq!(delivered(&mut b, &mut reg), b"1122".to_vec());
    assert_eq!(p.framer().read_pending(), 0);
}

#[test]
fn producer_close_leaves_registry_alone() {
    let mut reg = PeerRegistry::new();
    let _c = consumer(&mut reg, 40001, 2);
    let p = producer(&mut reg, 2);
    assert!(!p.close(&mut reg));
    assert_eq!(reg.len(), 1);
}

#[test]
fn draining_stops_at_the_budget() {
    let mut reg = PeerRegistry::new();
    let mut c = consumer(&mut reg, 40001, 2);
    let mut p = producer(&mut reg, 2);
    assert_eq!(p.on_data(&mut reg, b"aabbccddeeff"), 6);
    // The budget is four frames of two bytes.
    assert!(c.fill_outbound(&mut reg));
    assert_eq!(c.pending_output(), b"aabbccdd");
    assert_eq!(reg.queued(addr(40001)), 2);
    assert_eq!(c.after_write(WriteEvent::Wrote(8)), Ok(FlushStep::Flushed));
    assert!(!c.fill_outbound(&mut reg));
    assert_eq!(c.pending_output(), b"eeff");
    assert_eq!(reg.queued(addr(40001)), 0);
}

#[test]
fn draining_an_unregistered_address_does_nothing() {
    let mut reg = PeerRegistry::new();
    let mut c = consumer(&mut reg, 40001, 2);
    reg.deregister(addr(40001));
    assert!(!c.fill_outbound(&mut reg));
    assert_eq!(c.pending_output().len(), 0);
}

#[test]
fn frame_size_is_checked() {
    let mut reg = PeerRegistry::new();
    assert!(matches!(Framer::new(0), Err(RelayError::InvalidFrameSize)));
    assert!(matches!(Framer::new(MAX_FRAME_SIZE + 1), Err(RelayError::InvalidFrameSize)));
    assert!(Framer::new(MAX_FRAME_SIZE).is_ok());
    assert!(matches!(Framer::new(1316), Ok(ref f) if f.frame_size() == 1316));
    assert!(matches!(
        Peer::new(&mut reg, addr(40001), Role::Consumer, 0),
        Err(RelayError::InvalidFrameSize)
    ));
    assert_eq!(reg.len(), 0);
}

#[test]
fn framer_cuts_frames_front_first() {
    let mut f = Framer::new(3).unwrap();
    assert!(f.next_frame().is_none());
    f.absorb(b"abcdefg");
    let first = f.next_frame().unwrap();
    assert_eq!(&first[..], b"abc");
    assert_eq!(f.read_pending(), 4);
    let rest = f.take_frames();
    assert_eq!(rest.len(), 1);
    assert_eq!(&rest[0][..], b"def");
    assert_eq!(f.read_pending(), 1);
    assert_eq!(f.discard_partial(), 1);
}

#[test]
fn exact_frame_is_cut_at_once() {
    let mut f = Framer::new(4).unwrap();
    f.absorb(b"ABCD");
    assert_eq!(&f.next_frame().unwrap()[..], b"ABCD");
    assert_eq!(f.read_pending(), 0);
}

#[test]
fn write_side_keeps_unwritten_bytes() {
    let mut f = Framer::new(4).unwrap();
    f.buffer(b"hello");
    f.buffer(b" world");
    assert_eq!(f.pending_output(), b"hello world");
    assert_eq!(f.on_written(6), Ok(()));
    assert_eq!(f.pending_output(), b"world");
    assert_eq!(f.write_pending(), 5);
    assert_eq!(f.on_written(0), Err(RelayError::WriteZero));
    assert_eq!(f.write_pending(), 5);
}

#[test]
fn write_events_decide_the_next_step() {
    let mut reg = PeerRegistry::new();
    let mut c = consumer(&mut reg, 40001, 2);
    let mut p = producer(&mut reg, 2);
    p.on_data(&mut reg, b"abcd");
    c.fill_outbound(&mut reg);
    assert_eq!(c.after_write(WriteEvent::WouldBlock), Ok(FlushStep::Suspend));
    assert_eq!(c.after_write(WriteEvent::Wrote(1)), Ok(FlushStep::Continue));
    assert_eq!(c.pending_output(), b"bcd");
    assert_eq!(c.after_write(WriteEvent::Wrote(0)), Err(RelayError::WriteZero));
    assert_eq!(c.after_write(WriteEvent::HangUp), Ok(FlushStep::Closed));
    assert_eq!(c.pending_output(), b"bcd");
    assert_eq!(c.after_write(WriteEvent::Wrote(3)), Ok(FlushStep::Flushed));
    assert_eq!(c.after_write(WriteEvent::Wrote(0)), Ok(FlushStep::Flushed));
    assert_eq!(c.role(), Role::Consumer);
    assert_eq!(c.addr(), addr(40001));
}

#[test]
fn closing_a_replaced_consumer_keeps_its_successor() {
    let mut reg = PeerRegistry::new();
    let mut first = consumer(&mut reg, 40001, 2);
    let mut second = consumer(&mut reg, 40001, 2);
    assert_ne!(first.token(), second.token());
    assert_eq!(reg.owner(addr(40001)), Some(second.token()));
    let mut p = producer(&mut reg, 2);
    assert_eq!(p.on_data(&mut reg, b"aa"), 1);
    assert!(!first.fill_outbound(&mut reg));
    assert_eq!(first.pending_output().len(), 0);
    assert_eq!(reg.queued(addr(40001)), 1);
    assert!(!first.close(&mut reg));
    assert!(reg.contains(addr(40001)));
    assert_eq!(p.on_data(&mut reg, b"bb"), 1);
    assert_eq!(delivered(&mut second, &mut reg), b"aabb".to_vec());
    assert!(second.close(&mut reg));
    assert!(!reg.contains(addr(40001)));
}

#[test]
fn deregister_owned_checks_the_token() {
    let mut reg = PeerRegistry::new();
    let t = reg.register(addr(40001)).unwrap();
    assert_eq!(t, 0);
    assert!(!reg.deregister_owned(addr(40001), t + 1));
    assert!(reg.contains(addr(40001)));
    assert!(!reg.deregister_owned(addr(40002), t));
    assert!(reg.deregister_owned(addr(40001), t));
    assert!(!reg.contains(addr(40001)));
    assert_eq!(reg.register(addr(40001)), Some(1));
}

#[test]
fn large_frame_sizes_are_accepted() {
    let mut f = Framer::new(1 << 25).unwrap();
    assert_eq!(f.frame_size(), 1 << 25);
    f.absorb(b"abc");
    assert!(f.next_frame().is_none());
    assert_eq!(f.read_pending(), 3);
}
