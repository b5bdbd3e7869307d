use kcp::{Config, Header, Kcp, KcpError, Message};

fn config() -> Config {
    Config {
        mss: 1400,
        mtu: 1428,
        cwnd: 32,
        rcv_wnd: 128,
        rto_min: 100,
        rto_max: 60000,
        fast_resend: 2,
        congestion: true,
        snd_queue: usize::MAX,
    }
}

fn engine(conv: u32) -> Kcp {
    Kcp::new(conv, config()).unwrap()
}

fn decode_all(datagrams: &[Vec<u8>]) -> Vec<Message> {
    let mut out = Vec::new();
    for d in datagrams {
        let mut start = 0;
        loop {
            let len = Message::check(&d[start..]);
            if len == 0 {
                break;
            }
            out.push(Message::parse(&d[start..]).unwrap());
            start += len;
        }
        assert_eq!(start, d.len());
    }
    out
}

fn ack(conv: u32, sn: u32, ts: u32, una: u32) -> Vec<u8> {
    Message::Ack(Header { conv, cmd: 1, frg: 0, wnd: 128, ts, sn, una, len: 0, opt: 0 }).encode()
}

fn push(conv: u32, sn: u32, frg: u8, data: &[u8]) -> Vec<u8> {
    let h = Header { conv, cmd: 2, frg, wnd: 128, ts: 0, sn, una: 0, len: data.len() as u32, opt: 0 };
    Message::Psh(h, data.to_vec()).encode()
}

fn deliver(to: &mut Kcp, datagram: &[u8]) {
    let mut bytes = datagram.to_vec();
    to.input(&mut bytes);
    assert_eq!(bytes, datagram);
    assert!(to.is_well_formed());
}

fn pattern(len: usize) -> Vec<u8> {
    (0..len).map(|i| (i % 253) as u8).collect()
}

#[test]
fn new_engine_starts_empty() {
    let k = engine(5);
    assert_eq!(k.conv(), 5);
    assert_eq!(k.config(), config());
    assert_eq!(k.snd_nxt(), 0);
    assert_eq!(k.snd_una(), 0);
    assert_eq!(k.rcv_nxt(), 0);
    assert_eq!(k.cwnd(), 32);
    assert_eq!(k.ssthresh(), 2);
    assert_eq!(k.rmt_wnd(), 128);
    assert_eq!(k.rto(), 100);
    assert_eq!(k.wait_snd(), 0);
    assert_eq!(k.wait_rcv(), 0);
    assert_eq!(k.free_window(), 128);
    assert_eq!(k.flights(), Vec::<u32>::new());
    assert!(k.is_well_formed());
}

#[test]
fn new_engine_needs_a_valid_config() {
    assert!(Config::default().is_valid());
    assert_eq!(Config::default(), config());
    let bad = [
        Config { mss: 0, ..config() },
        Config { mss: 1501, mtu: 2000, ..config() },
        Config { mtu: 1427, ..config() },
        Config { cwnd: 0, ..config() },
        Config { rcv_wnd: 0, ..config() },
        Config { rto_min: 0, ..config() },
        Config { rto_min: 200, rto_max: 199, ..config() },
    ];
    for c in bad {
        assert!(!c.is_valid());
        assert!(Kcp::new(1, c).is_none());
    }
    assert!(Kcp::new(1, Config { mss: 1500, mtu: 1528, ..config() }).is_some());
}

#[test]
fn send_cuts_a_message_into_counted_segments() {
    let mut a = engine(1);
    let data = pattern(3000);
    assert_eq!(a.send(&data), Ok(()));
    assert_eq!(a.wait_snd(), 3);
    assert!(a.flights().is_empty());
    let out = a.update(0);
    assert_eq!(out.len(), 3);
    let segs = decode_all(&out);
    let mut frgs = Vec::new();
    let mut sizes = Vec::new();
    let mut sns = Vec::new();
    let mut joined = Vec::new();
    for m in &segs {
        match m {
            Message::Psh(h, d) => {
                frgs.push(h.frg);
                sizes.push(d.len());
                sns.push(h.sn);
                assert_eq!(h.conv, 1);
                assert_eq!(h.len as usize, d.len());
                joined.extend_from_slice(d);
            }
            other => panic!("not a data segment: {:?}", other),
        }
    }
    assert_eq!(frgs, vec![2, 1, 0]);
    assert_eq!(sizes, vec![1400, 1400, 200]);
    assert_eq!(sns, vec![0, 1, 2]);
    assert_eq!(joined, data);
    assert_eq!(a.flights(), vec![0, 1, 2]);
    assert_eq!(a.wait_snd(), 0);
}

#[test]
fn scenario_fragments_out_of_order() {
    let mut a = engine(1);
    let mut b = engine(1);
    let data = pattern(3000);
    assert_eq!(a.send(&data), Ok(()));
    let out = a.update(0);
    assert_eq!(out.len(), 3);
    assert_eq!(b.recv(), Err(KcpError::NotAvailable));
    deliver(&mut b, &out[2]);
    assert_eq!(b.recv(), Err(KcpError::NotAvailable));
    assert_eq!(b.wait_rcv(), 0);
    deliver(&mut b, &out[0]);
    assert_eq!(b.recv(), Err(KcpError::NotAvailable));
    assert_eq!(b.wait_rcv(), 1);
    deliver(&mut b, &out[1]);
    assert_eq!(b.wait_rcv(), 3);
    assert_eq!(b.rcv_nxt(), 3);
    assert_eq!(b.recv(), Ok(data));
    assert_eq!(b.recv(), Err(KcpError::NotAvailable));
    assert_eq!(b.wait_rcv(), 0);
}

#[test]
fn scenario_lost_ack_is_retransmitted() {
    let mut a = engine(1);
    for i in 0..6u8 {
        assert_eq!(a.send(&[i]), Ok(()));
    }
    let first = decode_all(&a.update(0));
    assert_eq!(first.len(), 6);
    assert_eq!(a.flights(), vec![0, 1, 2, 3, 4, 5]);
    assert_eq!(a.transmissions(5), Some(1));
    // Every acknowledgment arrives but the one for segment 5.
    for sn in 0..5 {
        deliver(&mut a, &ack(1, sn, 0, sn + 1));
    }
    assert_eq!(a.flights(), vec![5]);
    assert_eq!(a.snd_una(), 5);
    // Before the timeout nothing is sent again.
    assert!(a.update(99).is_empty());
    assert_eq!(a.transmissions(5), Some(1));
    // At the timeout segment 5 goes out again.
    let again = decode_all(&a.update(100));
    assert_eq!(again.len(), 1);
    match &again[0] {
        Message::Psh(h, d) => {
            assert_eq!(h.cmd, 2);
            assert_eq!(h.sn, 5);
            assert_eq!(h.ts, 100);
            assert_eq!(d, &vec![5u8]);
        }
        other => panic!("not a data segment: {:?}", other),
    }
    assert_eq!(a.transmissions(5), Some(2));
    assert_eq!(a.flights(), vec![5]);
    // The timeout has doubled: the next transmission comes 200 ticks later.
    assert!(a.update(299).is_empty());
    assert_eq!(decode_all(&a.update(300)).len(), 1);
    assert_eq!(a.transmissions(5), Some(3));
    // An acknowledgment ends it.
    deliver(&mut a, &ack(1, 5, 300, 6));
    assert!(a.flights().is_empty());
    assert_eq!(a.transmissions(5), None);
    assert!(a.update(100000).is_empty());
}

#[test]
fn scenario_cumulative_ack() {
    let mut a = engine(1);
    for i in 0..10u8 {
        assert_eq!(a.send(&[i]), Ok(()));
    }
    assert_eq!(decode_all(&a.update(0)).len(), 10);
    assert_eq!(a.flights(), vec![0, 1, 2, 3, 4, 5, 6, 7, 8, 9]);
    let mut both = ack(1, 5, 0, 8);
    both.extend_from_slice(&ack(1, 7, 0, 8));
    deliver(&mut a, &both);
    assert_eq!(a.flights(), vec![8, 9]);
    assert!(a.flights().iter().all(|sn| *sn >= 8));
    assert_eq!(a.snd_una(), 8);
    assert_eq!(a.snd_nxt(), 10);
}

#[test]
fn selective_ack_leaves_the_others() {
    let mut a = engine(1);
    for i in 0..4u8 {
        assert_eq!(a.send(&[i]), Ok(()));
    }
    a.update(0);
    deliver(&mut a, &ack(1, 2, 0, 0));
    assert_eq!(a.flights(), vec![0, 1, 3]);
    assert_eq!(a.snd_una(), 0);
    // An acknowledgment of a segment that is not in flight changes nothing.
    deliver(&mut a, &ack(1, 2, 0, 0));
    deliver(&mut a, &ack(1, 77, 0, 0));
    assert_eq!(a.flights(), vec![0, 1, 3]);
    deliver(&mut a, &ack(1, 0, 0, 0));
    assert_eq!(a.flights(), vec![1, 3]);
    assert_eq!(a.snd_una(), 1);
}

#[test]
fn any_segment_carries_the_cumulative_ack() {
    let mut a = engine(1);
    for i in 0..5u8 {
        assert_eq!(a.send(&[i]), Ok(()));
    }
    a.update(0);
    let h = Header { conv: 1, cmd: 2, frg: 0, wnd: 128, ts: 0, sn: 0, una: 2, len: 1, opt: 0 };
    deliver(&mut a, &Message::Psh(h, vec![1]).encode());
    assert_eq!(a.flights(), vec![2, 3, 4]);
    let w = Header { conv: 1, cmd: 3, frg: 0, wnd: 128, ts: 0, sn: 0, una: 3, len: 0, opt: 0 };
    deliver(&mut a, &Message::Wack(w).encode());
    assert_eq!(a.flights(), vec![3, 4]);
    let i = Header { conv: 1, cmd: 4, frg: 0, wnd: 128, ts: 0, sn: 0, una: 4, len: 0, opt: 0 };
    deliver(&mut a, &Message::Wins(i).encode());
    assert_eq!(a.flights(), vec![4]);
    // A cumulative acknowledgment that looks back removes nothing.
    deliver(&mut a, &ack(1, 100, 0, 1));
    assert_eq!(a.flights(), vec![4]);
}

#[test]
fn segments_of_another_connection_are_rejected() {
    let mut a = engine(1);
    assert_eq!(a.send(&[1]), Ok(()));
    a.update(0);
    deliver(&mut a, &ack(2, 0, 0, 1));
    assert_eq!(a.flights(), vec![0]);
    deliver(&mut a, &push(2, 0, 0, &[9]));
    assert_eq!(a.rcv_nxt(), 0);
    assert_eq!(a.recv(), Err(KcpError::NotAvailable));
    assert!(a.update(1).is_empty());
}

#[test]
fn delivery_is_in_order_whatever_the_arrival_order() {
    let order = [3u32, 1, 4, 0, 2, 6, 5];
    let mut b = engine(1);
    for sn in order {
        deliver(&mut b, &push(1, sn, 0, &[sn as u8]));
    }
    assert_eq!(b.rcv_nxt(), 7);
    for sn in 0..7u8 {
        assert_eq!(b.recv(), Ok(vec![sn]));
    }
    assert_eq!(b.recv(), Err(KcpError::NotAvailable));
}

#[test]
fn delivery_stops_at_a_gap() {
    let mut b = engine(1);
    deliver(&mut b, &push(1, 0, 0, &[0]));
    deliver(&mut b, &push(1, 2, 0, &[2]));
    deliver(&mut b, &push(1, 3, 0, &[3]));
    assert_eq!(b.rcv_nxt(), 1);
    assert_eq!(b.wait_rcv(), 1);
    assert_eq!(b.free_window(), 125);
    deliver(&mut b, &push(1, 1, 0, &[1]));
    assert_eq!(b.rcv_nxt(), 4);
    assert_eq!(b.wait_rcv(), 4);
    assert_eq!(b.free_window(), 124);
}

#[test]
fn duplicate_segment_changes_nothing() {
    let mut once = engine(1);
    let mut twice = engine(1);
    for sn in [2u32, 0, 5] {
        let d = push(1, sn, 0, &[sn as u8, 1]);
        deliver(&mut once, &d);
        deliver(&mut twice, &d);
        deliver(&mut twice, &d);
        assert_eq!(once.rcv_nxt(), twice.rcv_nxt());
        assert_eq!(once.wait_rcv(), twice.wait_rcv());
        assert_eq!(once.free_window(), twice.free_window());
    }
    // A later copy with other data does not replace what was kept.
    deliver(&mut twice, &push(1, 2, 0, &[99]));
    deliver(&mut twice, &push(1, 0, 0, &[99]));
    deliver(&mut once, &push(1, 1, 0, &[7]));
    deliver(&mut twice, &push(1, 1, 0, &[7]));
    for k in [&mut once, &mut twice] {
        assert_eq!(k.recv(), Ok(vec![0, 1]));
        assert_eq!(k.recv(), Ok(vec![7]));
        assert_eq!(k.recv(), Ok(vec![2, 1]));
        assert_eq!(k.recv(), Err(KcpError::NotAvailable));
        assert_eq!(k.rcv_nxt(), 3);
    }
}

#[test]
fn every_push_is_acknowledged() {
    let mut b = engine(1);
    let mut first = push(1, 1, 0, &[1]);
    first.extend_from_slice(&push(1, 0, 0, &[0]));
    deliver(&mut b, &first);
    deliver(&mut b, &push(1, 0, 0, &[0]));
    let out = decode_all(&b.update(10));
    assert_eq!(out.len(), 3);
    let mut sns = Vec::new();
    for m in &out {
        match m {
            Message::Ack(h) => {
                assert_eq!(h.conv, 1);
                assert_eq!(h.una, 2);
                assert_eq!(h.wnd, 126);
                assert_eq!(h.len, 0);
                sns.push(h.sn);
            }
            other => panic!("not an acknowledgment: {:?}", other),
        }
    }
    assert_eq!(sns, vec![1, 0, 0]);
    assert!(b.update(11).is_empty());
}

#[test]
fn acknowledgment_echoes_the_timestamp() {
    let mut b = engine(1);
    let h = Header { conv: 1, cmd: 2, frg: 0, wnd: 1, ts: 4242, sn: 0, una: 0, len: 1, opt: 0 };
    deliver(&mut b, &Message::Psh(h, vec![1]).encode());
    match &decode_all(&b.flush())[0] {
        Message::Ack(a) => {
            assert_eq!(a.ts, 4242);
            assert_eq!(a.sn, 0);
            assert_eq!(a.una, 1);
        }
        other => panic!("not an acknowledgment: {:?}", other),
    }
}

#[test]
fn segments_outside_the_window_are_dropped() {
    let mut b = Kcp::new(1, Config { rcv_wnd: 4, ..config() }).unwrap();
    deliver(&mut b, &push(1, 4, 0, &[4]));
    deliver(&mut b, &push(1, u32::MAX, 0, &[4]));
    assert_eq!(b.free_window(), 4);
    deliver(&mut b, &push(1, 3, 0, &[3]));
    assert_eq!(b.free_window(), 3);
    deliver(&mut b, &push(1, 0, 0, &[0]));
    assert_eq!(b.rcv_nxt(), 1);
    // The window has moved: 4 is inside now.
    deliver(&mut b, &push(1, 4, 0, &[4]));
    assert_eq!(b.free_window(), 1);
    deliver(&mut b, &push(1, 1, 0, &[1]));
    deliver(&mut b, &push(1, 2, 0, &[2]));
    assert_eq!(b.rcv_nxt(), 5);
    assert_eq!(b.free_window(), 0);
    assert_eq!(b.wait_rcv(), 5);
}

#[test]
fn window_ask_is_answered() {
    let mut b = engine(1);
    deliver(&mut b, &push(1, 0, 1, &[0]));
    deliver(&mut b, &push(1, 5, 0, &[0]));
    b.flush();
    let w = Header { conv: 1, cmd: 3, frg: 0, wnd: 0, ts: 0, sn: 0, una: 0, len: 0, opt: 0 };
    deliver(&mut b, &Message::Wack(w).encode());
    let out = decode_all(&b.update(7));
    assert_eq!(out.len(), 1);
    match &out[0] {
        Message::Wins(h) => {
            assert_eq!(h.cmd, 4);
            assert_eq!(h.wnd, 126);
            assert_eq!(h.una, 1);
            assert_eq!(h.ts, 7);
        }
        other => panic!("not a window announcement: {:?}", other),
    }
    assert!(b.update(8).is_empty());
}

#[test]
fn window_probe_is_sent_once() {
    let mut a = engine(1);
    a.probe();
    let out = decode_all(&a.update(3));
    assert_eq!(out.len(), 1);
    match &out[0] {
        Message::Wack(h) => {
            assert_eq!(h.cmd, 3);
            assert_eq!(h.conv, 1);
            assert_eq!(h.wnd, 128);
        }
        other => panic!("not a window probe: {:?}", other),
    }
    assert!(a.update(4).is_empty());
}

#[test]
fn window_announcement_sets_the_remote_window() {
    let mut a = engine(1);
    for i in 0..10u8 {
        assert_eq!(a.send(&[i]), Ok(()));
    }
    let w = Header { conv: 1, cmd: 4, frg: 0, wnd: 3, ts: 0, sn: 0, una: 0, len: 0, opt: 0 };
    deliver(&mut a, &Message::Wins(w).encode());
    assert_eq!(a.rmt_wnd(), 3);
    assert_eq!(decode_all(&a.update(0)).len(), 3);
    assert_eq!(a.flights(), vec![0, 1, 2]);
    assert_eq!(a.wait_snd(), 7);
    // A data segment does not change the remote window.
    let h = Header { conv: 1, cmd: 2, frg: 0, wnd: 50, ts: 0, sn: 0, una: 0, len: 0, opt: 0 };
    deliver(&mut a, &Message::Psh(h, vec![]).encode());
    assert_eq!(a.rmt_wnd(), 3);
}

#[test]
fn window_bounds_what_is_in_flight() {
    let mut a = Kcp::new(1, Config { cwnd: 4, congestion: false, ..config() }).unwrap();
    for i in 0..10u8 {
        assert_eq!(a.send(&[i]), Ok(()));
    }
    assert_eq!(decode_all(&a.update(0)).len(), 4);
    assert_eq!(a.snd_nxt() - a.snd_una(), 4);
    assert!(a.update(1).is_empty());
    assert_eq!(a.snd_nxt() - a.snd_una(), 4);
    // One acknowledgment makes room for one more segment.
    deliver(&mut a, &ack(1, 0, 0, 1));
    let out = decode_all(&a.update(2));
    assert_eq!(out.len(), 1);
    assert_eq!(a.flights(), vec![1, 2, 3, 4]);
    // An acknowledgment out of order makes none: the oldest is still out.
    deliver(&mut a, &ack(1, 3, 0, 1));
    assert!(a.update(3).is_empty());
    assert_eq!(a.flights(), vec![1, 2, 4]);
    assert_eq!(a.snd_nxt() - a.snd_una(), 4);
    assert_eq!(a.cwnd(), 4);
}

#[test]
fn zero_remote_window_sends_nothing() {
    let mut a = engine(1);
    let w = Header { conv: 1, cmd: 4, frg: 0, wnd: 0, ts: 0, sn: 0, una: 0, len: 0, opt: 0 };
    deliver(&mut a, &Message::Wins(w).encode());
    assert_eq!(a.send(&[1, 2, 3]), Ok(()));
    assert!(a.update(0).is_empty());
    assert_eq!(a.wait_snd(), 1);
    let w = Header { wnd: 1, ..w };
    deliver(&mut a, &Message::Wins(w).encode());
    assert_eq!(decode_all(&a.update(1)).len(), 1);
}

#[test]
fn send_queue_capacity() {
    let mut a = Kcp::new(1, Config { snd_queue: 3, ..config() }).unwrap();
    assert_eq!(a.send(&pattern(2801)), Ok(()));
    assert_eq!(a.wait_snd(), 3);
    assert_eq!(a.send(&[1]), Err(KcpError::QueueFull));
    assert_eq!(a.send(&[]), Err(KcpError::QueueFull));
    assert_eq!(a.wait_snd(), 3);
    a.update(0);
    assert_eq!(a.wait_snd(), 0);
    assert_eq!(a.send(&pattern(4201)), Err(KcpError::QueueFull));
    assert_eq!(a.wait_snd(), 0);
    assert_eq!(a.send(&pattern(4200)), Ok(()));
    assert_eq!(a.wait_snd(), 3);
}

#[test]
fn send_refuses_more_than_256_segments() {
    let mut a = Kcp::new(1, Config { mss: 1, mtu: 29, ..config() }).unwrap();
    assert_eq!(a.send(&pattern(257)), Err(KcpError::MessageTooLong));
    assert_eq!(a.wait_snd(), 0);
    assert_eq!(a.send(&pattern(256)), Ok(()));
    assert_eq!(a.wait_snd(), 256);
    let out = decode_all(&a.update(0));
    assert_eq!(out.len(), 32);
    match &out[0] {
        Message::Psh(h, d) => {
            assert_eq!(h.frg, 255);
            assert_eq!(d, &vec![0u8]);
        }
        other => panic!("not a data segment: {:?}", other),
    }
}

#[test]
fn empty_message_is_one_empty_segment() {
    let mut a = engine(1);
    let mut b = engine(1);
    assert_eq!(a.send(&[]), Ok(()));
    let out = a.update(0);
    assert_eq!(out.len(), 1);
    assert_eq!(out[0].len(), 28);
    deliver(&mut b, &out[0]);
    assert_eq!(b.recv(), Ok(vec![]));
}

#[test]
fn message_of_exactly_one_segment() {
    let mut a = engine(1);
    assert_eq!(a.send(&pattern(1400)), Ok(()));
    assert_eq!(a.wait_snd(), 1);
    assert_eq!(a.send(&pattern(1401)), Ok(()));
    assert_eq!(a.wait_snd(), 3);
    assert_eq!(a.send(&pattern(2800)), Ok(()));
    assert_eq!(a.wait_snd(), 5);
}

#[test]
fn datagrams_are_packed_up_to_the_mtu() {
    let mut a = Kcp::new(1, Config { mss: 100, mtu: 300, ..config() }).unwrap();
    // Segments of 128 bytes: two fit into 300 bytes, three do not.
    assert_eq!(a.send(&pattern(500)), Ok(()));
    let out = a.update(0);
    let sizes: Vec<usize> = out.iter().map(|d| d.len()).collect();
    assert_eq!(sizes, vec![256, 256, 128]);
    assert!(out.iter().all(|d| !d.is_empty() && d.len() <= 300));
    assert_eq!(decode_all(&out).len(), 5);
}

#[test]
fn control_segments_come_first() {
    let mut a = engine(1);
    assert_eq!(a.send(&[1, 2]), Ok(()));
    deliver(&mut a, &push(1, 0, 0, &[5]));
    let w = Header { conv: 1, cmd: 3, frg: 0, wnd: 0, ts: 0, sn: 0, una: 0, len: 0, opt: 0 };
    deliver(&mut a, &Message::Wack(w).encode());
    a.probe();
    let out = a.update(0);
    assert_eq!(out.len(), 1);
    let kinds: Vec<u8> = decode_all(&out)
        .iter()
        .map(|m| match m {
            Message::Ack(h) | Message::Psh(h, _) | Message::Wack(h) | Message::Wins(h) => h.cmd,
        })
        .collect();
    assert_eq!(kinds, vec![1, 4, 3, 2]);
}

#[test]
fn round_trip_time_sets_the_timeout() {
    let mut a = engine(1);
    assert_eq!(a.send(&[1]), Ok(()));
    assert_eq!(a.send(&[2]), Ok(()));
    a.update(0);
    a.update(50);
    deliver(&mut a, &ack(1, 0, 0, 1));
    // First sample of 50: smoothed 50, variation 25, timeout 50 + 4 * 25.
    assert_eq!(a.rto(), 150);
    a.update(60);
    deliver(&mut a, &ack(1, 1, 0, 2));
    // Second sample of 60: variation (3 * 25 + 10) / 4 = 21, smoothed
    // (7 * 50 + 60) / 8 = 51, timeout 51 + 84.
    assert_eq!(a.rto(), 135);
}

#[test]
fn timeout_stays_within_its_bounds() {
    let mut a = Kcp::new(1, Config { rto_min: 100, rto_max: 105, ..config() }).unwrap();
    assert_eq!(a.send(&[1]), Ok(()));
    assert_eq!(a.send(&[2]), Ok(()));
    a.update(0);
    a.update(1);
    // A sample of 1 gives 1 + 1, which is held at the lower bound.
    deliver(&mut a, &ack(1, 0, 0, 0));
    assert_eq!(a.rto(), 100);
    a.update(99);
    // A sample of 99 gives 13 + 4 * 24, which is held at the upper bound.
    deliver(&mut a, &ack(1, 1, 0, 0));
    assert_eq!(a.rto(), 105);
}

#[test]
fn retransmitted_segment_gives_no_sample() {
    let mut a = engine(1);
    assert_eq!(a.send(&[1]), Ok(()));
    a.update(0);
    assert_eq!(decode_all(&a.update(100)).len(), 1);
    a.update(150);
    deliver(&mut a, &ack(1, 0, 100, 1));
    assert_eq!(a.rto(), 100);
    assert!(a.flights().is_empty());
}

#[test]
fn timestamp_from_the_future_gives_no_sample() {
    let mut a = engine(1);
    assert_eq!(a.send(&[1]), Ok(()));
    a.update(10);
    deliver(&mut a, &ack(1, 0, 5000, 1));
    assert_eq!(a.rto(), 100);
    assert!(a.flights().is_empty());
}

#[test]
fn fast_retransmit_after_skipped_acks() {
    let mut a = engine(1);
    for i in 0..5u8 {
        assert_eq!(a.send(&[i]), Ok(()));
    }
    a.update(0);
    // Three later segments are acknowledged ahead of segment 0.
    deliver(&mut a, &ack(1, 1, 0, 0));
    deliver(&mut a, &ack(1, 2, 0, 0));
    assert!(a.update(10).is_empty());
    deliver(&mut a, &ack(1, 3, 0, 0));
    assert_eq!(a.flights(), vec![0, 4]);
    let out = decode_all(&a.update(20));
    assert_eq!(out.len(), 1);
    match &out[0] {
        Message::Psh(h, _) => assert_eq!(h.sn, 0),
        other => panic!("not a data segment: {:?}", other),
    }
    assert_eq!(a.transmissions(0), Some(2));
    assert_eq!(a.transmissions(4), Some(1));
    // Segment 4 waits for its deadline, which was set at 0 + 100.
    assert!(a.update(99).is_empty());
    assert_eq!(decode_all(&a.update(100)).len(), 1);
    assert_eq!(a.transmissions(4), Some(2));
    assert_eq!(a.transmissions(0), Some(2));
    // For segment 0 the count started again, and the deadline was set anew
    // at 20 + 100.
    assert!(a.update(119).is_empty());
    assert_eq!(decode_all(&a.update(120)).len(), 1);
    assert_eq!(a.transmissions(0), Some(3));
    assert_eq!(a.transmissions(4), Some(2));
}

#[test]
fn congestion_window_grows_and_shrinks() {
    let mut a = Kcp::new(1, Config { cwnd: 1, ..config() }).unwrap();
    for i in 0..20u8 {
        assert_eq!(a.send(&[i]), Ok(()));
    }
    assert_eq!(decode_all(&a.update(0)).len(), 1);
    assert_eq!(a.cwnd(), 1);
    // Below the threshold of 2 the window doubles.
    deliver(&mut a, &ack(1, 0, 0, 1));
    assert_eq!(decode_all(&a.update(1)).len(), 2);
    assert_eq!(a.cwnd(), 2);
    // From the threshold on it grows by one.
    deliver(&mut a, &ack(1, 1, 1, 2));
    deliver(&mut a, &ack(1, 2, 1, 3));
    assert_eq!(decode_all(&a.update(2)).len(), 3);
    assert_eq!(a.cwnd(), 3);
    // Without an acknowledgment it stays.
    assert!(a.update(3).is_empty());
    assert_eq!(a.cwnd(), 3);
    assert_eq!(a.ssthresh(), 2);
    // A timeout halves it.
    let out = decode_all(&a.update(1000));
    assert_eq!(out.len(), 3);
    assert_eq!(a.cwnd(), 1);
    assert_eq!(a.ssthresh(), 2);
    assert_eq!(a.flights(), vec![3, 4, 5]);
}

#[test]
fn congestion_window_halves_to_the_threshold() {
    let mut a = engine(1);
    assert_eq!(a.send(&[1]), Ok(()));
    a.update(0);
    a.update(100);
    assert_eq!(a.cwnd(), 16);
    assert_eq!(a.ssthresh(), 16);
}

#[test]
fn congestion_control_can_be_switched_off() {
    let mut a = Kcp::new(1, Config { congestion: false, ..config() }).unwrap();
    assert_eq!(a.send(&[1]), Ok(()));
    assert_eq!(a.send(&[2]), Ok(()));
    a.update(0);
    deliver(&mut a, &ack(1, 0, 0, 1));
    a.update(1);
    assert_eq!(a.cwnd(), 32);
    a.update(100);
    assert_eq!(a.cwnd(), 32);
    assert_eq!(a.ssthresh(), 2);
    assert_eq!(a.transmissions(1), Some(2));
}

#[test]
fn input_steps_over_an_unknown_command() {
    let mut b = engine(1);
    let unknown = Header { conv: 1, cmd: 9, frg: 0, wnd: 0, ts: 0, sn: 0, una: 0, len: 3, opt: 0 };
    let mut bytes = Message::Ack(unknown).encode();
    bytes.extend_from_slice(&[1, 2, 3]);
    bytes.extend_from_slice(&push(1, 0, 0, &[42]));
    deliver(&mut b, &bytes);
    assert_eq!(b.recv(), Ok(vec![42]));
}

#[test]
fn input_stops_at_an_invalid_header() {
    let mut b = engine(1);
    let mut bytes = push(1, 0, 0, &[1]);
    let bad = Header { conv: 1, cmd: 1, frg: 0, wnd: 0, ts: 0, sn: 0, una: 0, len: 2, opt: 0 };
    bytes.extend_from_slice(&Message::Ack(bad).encode());
    bytes.extend_from_slice(&[0, 0]);
    bytes.extend_from_slice(&push(1, 1, 0, &[2]));
    deliver(&mut b, &bytes);
    assert_eq!(b.rcv_nxt(), 1);
    assert_eq!(b.recv(), Ok(vec![1]));
    assert_eq!(b.recv(), Err(KcpError::NotAvailable));
}

#[test]
fn input_leaves_a_partial_segment() {
    let mut b = engine(1);
    let mut bytes = push(1, 0, 0, &[1]);
    let next = push(1, 1, 0, &[2, 3, 4]);
    bytes.extend_from_slice(&next[..30]);
    deliver(&mut b, &bytes);
    assert_eq!(b.rcv_nxt(), 1);
    deliver(&mut b, &[]);
    deliver(&mut b, &[1, 2, 3]);
    assert_eq!(b.rcv_nxt(), 1);
}

#[test]
fn recv_returns_one_message_at_a_time() {
    let mut b = engine(1);
    deliver(&mut b, &push(1, 0, 1, &[1, 2]));
    deliver(&mut b, &push(1, 1, 0, &[3]));
    deliver(&mut b, &push(1, 2, 0, &[4, 5]));
    deliver(&mut b, &push(1, 3, 2, &[6]));
    assert_eq!(b.recv(), Ok(vec![1, 2, 3]));
    assert_eq!(b.wait_rcv(), 2);
    assert_eq!(b.recv(), Ok(vec![4, 5]));
    assert_eq!(b.recv(), Err(KcpError::NotAvailable));
    assert_eq!(b.wait_rcv(), 1);
    assert_eq!(b.rcv_nxt(), 4);
}

#[test]
fn two_engines_carry_messages_both_ways() {
    let mut a = engine(7);
    let mut b = engine(7);
    let first = pattern(5000);
    let second = pattern(10);
    assert_eq!(a.send(&first), Ok(()));
    assert_eq!(a.send(&second), Ok(()));
    assert_eq!(b.send(&[9, 9]), Ok(()));
    for now in 0..5u32 {
        for d in a.update(now) {
            deliver(&mut b, &d);
        }
        for d in b.update(now) {
            deliver(&mut a, &d);
        }
    }
    assert_eq!(b.recv(), Ok(first));
    assert_eq!(b.recv(), Ok(second));
    assert_eq!(a.recv(), Ok(vec![9, 9]));
    assert!(a.flights().is_empty());
    assert!(b.flights().is_empty());
    assert_eq!(a.snd_una(), 5);
    assert_eq!(a.snd_nxt(), 5);
    assert!(a.update(100000).is_empty());
    assert!(b.update(100000).is_empty());
}

fn next_random(state: &mut u32) -> u32 {
    *state = state.wrapping_mul(1103515245).wrapping_add(12345);
    (*state >> 16) & 0x7fff
}

#[test]
fn lossy_link_delivers_in_the_end() {
    let mut a = engine(7);
    let mut b = engine(7);
    let mut sent = Vec::new();
    for i in 0..40u32 {
        let m = pattern(100 + 70 * i as usize);
        assert_eq!(a.send(&m), Ok(()));
        sent.push(m);
    }
    let mut got = Vec::new();
    let mut random = 2024u32;
    let mut now = 0u32;
    while got.len() < sent.len() && now < 2_000_000 {
        for d in a.update(now) {
            // About one datagram in four is lost, one in eight arrives twice.
            if next_random(&mut random) % 4 != 0 {
                deliver(&mut b, &d);
            }
            if next_random(&mut random) % 8 == 0 {
                deliver(&mut b, &d);
            }
        }
        for d in b.update(now) {
            if next_random(&mut random) % 4 != 0 {
                deliver(&mut a, &d);
            }
        }
        while let Ok(m) = b.recv() {
            got.push(m);
        }
        assert!(a.is_well_formed());
        assert!(b.is_well_formed());
        assert!(a.snd_una() <= a.snd_nxt());
        let budget = std::cmp::min(a.rmt_wnd() as u32, a.cwnd());
        assert!(a.snd_nxt() - a.snd_una() <= std::cmp::max(budget, 32));
        now += 10;
    }
    assert_eq!(got.len(), sent.len(), "at {} with {:?} in flight", now, a.flights());
    assert!(got == sent);
}
