//! What holds of every connection: the order of what is delivered, the
//! treatment of duplicates, the cumulative acknowledgment and the window.
use crate::config::Config;
use crate::message::{
    lemma_round_trip, segments_in, MessageCmd, Segment, CMD_ACK, CMD_PSH, CMD_WINS,
};
use crate::preserve::{
    lemma_acknowledge, lemma_boundary_is, lemma_chunk_bounds, lemma_deliver, lemma_dispatch,
    lemma_on_segment, lemma_on_segments, lemma_prune, lemma_rank, lemma_run, lemma_store,
    lemma_ticked,
};
use crate::seqs::lemma_filter_order;
use crate::state::{
    below, chunk, fragments, from_una, held, joined, run, AckNote, PieceView, State,
    FRAGMENTS_MAX,
};
use vstd::prelude::*;

verus! {

/// Ordering: whatever segments arrive, and in whatever order, any two pieces
/// in the receive queue are as far apart in sequence number as they are in
/// the queue. So the queue runs through the sequence numbers in rising order
/// and leaves none out.
pub proof fn lemma_queue_in_order(s: State, segs: Seq<Segment>, i: int, j: int)
    requires
        s.wf(),
        0 <= i <= j < s.on_segments(segs).recv_queue.len(),
    ensures
        s.on_segments(segs).recv_queue[j].sn == s.on_segments(segs).recv_queue[i].sn + (j - i),
        s.on_segments(segs).recv_queue[j].sn < s.on_segments(segs).rcv_nxt,
{
    lemma_on_segments(s, segs);
}

/// Ordering, for a datagram: the same holds after `input` of any bytes.
pub proof fn lemma_input_in_order(s: State, bytes: Seq<u8>, i: int, j: int)
    requires
        s.wf(),
        0 <= i <= j < s.input(bytes).recv_queue.len(),
    ensures
        s.input(bytes).wf(),
        s.input(bytes).recv_queue[j].sn == s.input(bytes).recv_queue[i].sn + (j - i),
{
    lemma_on_segments(s, segments_in(bytes));
}

/// What has been delivered stays as it is: a segment that arrives only adds
/// to the end of the receive queue.
pub proof fn lemma_queue_grows(s: State, seg: Segment)
    requires
        s.wf(),
    ensures
        s.recv_queue.len() <= s.on_segment(seg).recv_queue.len(),
        s.on_segment(seg).recv_queue.take(s.recv_queue.len() as int) == s.recv_queue,
        s.rcv_nxt <= s.on_segment(seg).rcv_nxt,
{
    let t = s.on_segment(seg);
    let h = seg.header;
    if h.conv == s.conv && h.cmd == CMD_PSH {
        let p = s.prune(h.una);
        let q = (State { acks: p.acks.push(AckNote { sn: h.sn, ts: h.ts }), ..p }).store(
            PieceView { sn: h.sn, frg: h.frg, data: seg.data },
        );
        assert(q.recv_queue == s.recv_queue);
        assert(t == q.deliver());
        lemma_run(q.recv_buf, q.rcv_nxt as int);
        lemma_prune(s, h.una);
        lemma_store(
            State { acks: p.acks.push(AckNote { sn: h.sn, ts: h.ts }), ..p },
            PieceView { sn: h.sn, frg: h.frg, data: seg.data },
        );
        lemma_deliver(q);
        assert(t.recv_queue.take(s.recv_queue.len() as int) =~= s.recv_queue);
    } else {
        assert(t.recv_queue == s.recv_queue);
        assert(t.recv_queue.take(s.recv_queue.len() as int) =~= s.recv_queue);
    }
}

/// Delivery: the data segment that the receiver waits for is delivered as
/// soon as it arrives. It goes to the end of what the receive queue held, and
/// the next number to deliver moves past it.
pub proof fn lemma_expected_is_delivered(r: State, seg: Segment)
    requires
        r.wf(),
        seg.header.conv == r.conv,
        seg.header.cmd == CMD_PSH,
        seg.header.sn == r.rcv_nxt,
        r.rcv_nxt < u32::MAX,
    ensures
        r.on_segment(seg).rcv_nxt > r.rcv_nxt,
        r.on_segment(seg).recv_queue.len() > r.recv_queue.len(),
        r.on_segment(seg).recv_queue[r.recv_queue.len() as int] == (PieceView {
            sn: seg.header.sn,
            frg: seg.header.frg,
            data: seg.data,
        }),
{
    let h = seg.header;
    let p = r.prune(h.una);
    lemma_prune(r, h.una);
    let a = State { acks: p.acks.push(AckNote { sn: h.sn, ts: h.ts }), ..p };
    let piece = PieceView { sn: h.sn, frg: h.frg, data: seg.data };
    assert(a.wf());
    assert(a.accepts(h.sn));
    assert(!held(a.recv_buf, h.sn));
    lemma_rank(a.recv_buf, a.rcv_nxt, a.cfg.rcv_wnd, h.sn);
    let at = a.recv_buf.filter(below(h.sn)).len() as int;
    if at > 0 {
        assert(a.recv_buf[0].sn < h.sn);
    }
    let q = a.store(piece);
    assert(q.recv_buf[0] == piece);
    lemma_store(a, piece);
    lemma_run(q.recv_buf, q.rcv_nxt as int);
    lemma_deliver(q);
    assert(run(q.recv_buf, q.rcv_nxt as int) >= 1);
    assert(q.deliver().recv_queue[r.recv_queue.len() as int] == q.recv_buf[0]);
}

/// What was received stays received, and what lies in the window stays there
/// until it is received, whatever arrives.
pub proof fn lemma_received_lasts(r: State, seg: Segment, sn: u32)
    requires
        r.wf(),
        r.received(sn) || r.accepts(sn),
    ensures
        r.received(sn) ==> r.on_segment(seg).received(sn),
        r.on_segment(seg).received(sn) || r.on_segment(seg).accepts(sn),
{
    let h = seg.header;
    if h.conv == r.conv && h.cmd == CMD_PSH {
        let p = r.prune(h.una);
        lemma_prune(r, h.una);
        let a = State { acks: p.acks.push(AckNote { sn: h.sn, ts: h.ts }), ..p };
        let piece = PieceView { sn: h.sn, frg: h.frg, data: seg.data };
        let q = a.store(piece);
        lemma_store(a, piece);
        let t = q.deliver();
        lemma_deliver(q);
        lemma_run(q.recv_buf, q.rcv_nxt as int);
        let k = run(q.recv_buf, q.rcv_nxt as int) as int;
        assert(t == r.on_segment(seg));
        if held(a.recv_buf, sn) {
            let at = choose|i: int| 0 <= i < a.recv_buf.len() && (#[trigger] a.recv_buf[i]).sn == sn;
            lemma_rank(a.recv_buf, a.rcv_nxt, a.cfg.rcv_wnd, h.sn);
            let at2 = if q == a {
                at
            } else if at < a.recv_buf.filter(below(h.sn)).len() {
                at
            } else {
                at + 1
            };
            assert(0 <= at2 < q.recv_buf.len() && q.recv_buf[at2].sn == sn);
            if at2 < k {
                assert(q.recv_buf[at2].sn == q.rcv_nxt + at2);
            } else {
                assert(t.recv_buf[at2 - k] == q.recv_buf[at2]);
            }
        }
    } else if h.conv == r.conv {
        lemma_prune(r, h.una);
        if h.cmd == CMD_ACK {
            lemma_acknowledge(r, h.sn, h.ts);
            lemma_prune(r.acknowledge(h.sn, h.ts), h.una);
        }
    }
}

/// A data segment of this connection whose number lies in the window is
/// received when it arrives.
pub proof fn lemma_push_is_received(r: State, seg: Segment)
    requires
        r.wf(),
        seg.header.conv == r.conv,
        seg.header.cmd == CMD_PSH,
        r.received(seg.header.sn) || r.accepts(seg.header.sn),
    ensures
        r.on_segment(seg).received(seg.header.sn),
{
    lemma_received_lasts(r, seg, seg.header.sn);
    let h = seg.header;
    if !r.received(h.sn) {
        let p = r.prune(h.una);
        lemma_prune(r, h.una);
        let a = State { acks: p.acks.push(AckNote { sn: h.sn, ts: h.ts }), ..p };
        let piece = PieceView { sn: h.sn, frg: h.frg, data: seg.data };
        let q = a.store(piece);
        lemma_store(a, piece);
        let t = q.deliver();
        lemma_deliver(q);
        lemma_run(q.recv_buf, q.rcv_nxt as int);
        let k = run(q.recv_buf, q.rcv_nxt as int) as int;
        lemma_rank(a.recv_buf, a.rcv_nxt, a.cfg.rcv_wnd, h.sn);
        let at = a.recv_buf.filter(below(h.sn)).len() as int;
        assert(q.recv_buf[at].sn == h.sn);
        if at < k {
            assert(q.recv_buf[at].sn == q.rcv_nxt + at);
        } else {
            assert(t.recv_buf[at - k] == q.recv_buf[at]);
        }
    }
}

/// What was received stays received while segments arrive.
pub proof fn lemma_stays_received(r: State, segs: Seq<Segment>, sn: u32)
    requires
        r.wf(),
        r.received(sn),
    ensures
        r.on_segments(segs).received(sn),
    decreases segs.len(),
{
    if segs.len() > 0 {
        lemma_on_segment(r, segs[0]);
        lemma_received_lasts(r, segs[0], sn);
        lemma_stays_received(r.on_segment(segs[0]), segs.skip(1), sn);
    }
}

/// Where a data segment of this connection is among the segments that
/// arrive, and its number lies in the window when they start to arrive, its
/// piece is received when they have arrived.
pub proof fn lemma_arrival_is_received(r: State, segs: Seq<Segment>, k: int)
    requires
        r.wf(),
        0 <= k < segs.len(),
        segs[k].header.conv == r.conv,
        segs[k].header.cmd == CMD_PSH,
        r.received(segs[k].header.sn) || r.accepts(segs[k].header.sn),
    ensures
        r.on_segments(segs).received(segs[k].header.sn),
    decreases segs.len(),
{
    let sn = segs[k].header.sn;
    let t = r.on_segment(segs[0]);
    lemma_on_segment(r, segs[0]);
    if k == 0 {
        lemma_push_is_received(r, segs[0]);
        lemma_stays_received(t, segs.skip(1), sn);
    } else {
        lemma_received_lasts(r, segs[0], sn);
        assert(segs.skip(1)[k - 1] == segs[k]);
        lemma_arrival_is_received(t, segs.skip(1), k - 1);
    }
}

/// Whether the first pieces of `queue` carry the message `data`, cut into
/// pieces of `mss` bytes.
pub open spec fn carries(queue: Seq<PieceView>, data: Seq<u8>, mss: int) -> bool {
    &&& fragments(data.len() as int, mss) <= queue.len()
    &&& forall|j: int|
        0 <= j < fragments(data.len() as int, mss) ==> (#[trigger] queue[j]).frg == chunk(
            data,
            mss,
            j,
        ).frg && queue[j].data == chunk(data, mss, j).data
}

/// The first `j` pieces of a message, joined, are its first bytes.
proof fn lemma_joined_prefix(queue: Seq<PieceView>, data: Seq<u8>, mss: int, j: int)
    requires
        mss > 0,
        carries(queue, data, mss),
        0 <= j <= fragments(data.len() as int, mss),
    ensures
        j < fragments(data.len() as int, mss) ==> joined(queue.take(j)) == data.take(j * mss),
        j == fragments(data.len() as int, mss) ==> joined(queue.take(j)) == data,
    decreases j,
{
    let n = fragments(data.len() as int, mss);
    if j == 0 {
        assert(0 * mss == 0) by (nonlinear_arith);
        assert(queue.take(0) =~= Seq::<PieceView>::empty());
        assert(data.take(0) =~= Seq::<u8>::empty());
    } else {
        lemma_joined_prefix(queue, data, mss, j - 1);
        lemma_chunk_bounds(data.len() as int, mss, j - 1);
        let front = queue.take(j);
        assert(front.drop_last() =~= queue.take(j - 1));
        assert(front.last() == queue[j - 1]);
        assert(queue[j - 1].data == chunk(data, mss, j - 1).data);
        if j < n {
            assert(data.take((j - 1) * mss) + data.subrange((j - 1) * mss, j * mss) =~= data.take(
                j * mss,
            ));
        } else {
            assert(data.take((j - 1) * mss) + data.subrange(
                (j - 1) * mss,
                data.len() as int,
            ) =~= data);
        }
    }
}

/// Message integrity: where the receive queue opens with the pieces that a
/// message was cut into, the next read returns that message, byte for byte,
/// and takes exactly those pieces out.
pub proof fn lemma_message_intact(s: State, data: Seq<u8>, mss: int)
    requires
        mss > 0,
        fragments(data.len() as int, mss) <= FRAGMENTS_MAX,
        carries(s.recv_queue, data, mss),
    ensures
        s.readable(),
        s.message() == data,
        s.taken().recv_queue == s.recv_queue.skip(fragments(data.len() as int, mss)),
{
    let n = fragments(data.len() as int, mss);
    let q = s.recv_queue;
    assert(n >= 1) by {
        if data.len() > 0 {
            assert((data.len() - 1) / mss >= 0) by (nonlinear_arith)
                requires
                    data.len() >= 1,
                    mss > 0,
            ;
        }
    }
    assert forall|j: int| 0 <= j < n - 1 implies (#[trigger] q[j]).frg != 0 by {
        assert(q[j].frg == chunk(data, mss, j).frg);
    }
    assert(q[n - 1].frg == chunk(data, mss, n - 1).frg);
    lemma_boundary_is(q, n - 1);
    lemma_joined_prefix(q, data, mss, n);
}

/// Whether a data segment numbered `sn` can add nothing to what was
/// received: its piece was received already, or its number lies outside the
/// window.
pub open spec fn seen(s: State, sn: u32) -> bool {
    s.received(sn) || !s.accepts(sn)
}

/// A data segment whose number was seen changes nothing on the receiving
/// side, whenever it arrives.
pub proof fn lemma_seen_changes_nothing(s: State, seg: Segment)
    requires
        s.wf(),
        seg.header.conv == s.conv,
        seg.header.cmd == CMD_PSH,
        seen(s, seg.header.sn),
    ensures
        s.on_segment(seg).recv_queue == s.recv_queue,
        s.on_segment(seg).recv_buf == s.recv_buf,
        s.on_segment(seg).rcv_nxt == s.rcv_nxt,
{
    let h = seg.header;
    let p = s.prune(h.una);
    lemma_prune(s, h.una);
    let a = State { acks: p.acks.push(AckNote { sn: h.sn, ts: h.ts }), ..p };
    let q = a.store(PieceView { sn: h.sn, frg: h.frg, data: seg.data });
    assert(a.wf());
    assert(q == a);
    lemma_deliver(a);
}

/// The arrival of a data segment of this connection is a cumulative
/// acknowledgment followed by the arrival of its piece.
proof fn lemma_push_arrives(s: State, seg: Segment)
    requires
        s.wf(),
        seg.header.conv == s.conv,
        seg.header.cmd == CMD_PSH,
    ensures
        s.on_segment(seg) == s.prune(seg.header.una).on_push(
            seg.header.sn,
            seg.header.frg,
            seg.header.ts,
            seg.data,
        ),
{
}

/// Once a data segment has arrived, its number is seen.
pub proof fn lemma_push_is_seen(s: State, seg: Segment)
    requires
        s.wf(),
        seg.header.conv == s.conv,
        seg.header.cmd == CMD_PSH,
    ensures
        seen(s.on_segment(seg), seg.header.sn),
{
    if s.received(seg.header.sn) || s.accepts(seg.header.sn) {
        lemma_push_is_received(s, seg);
    } else {
        lemma_seen_changes_nothing(s, seg);
    }
}

/// Deduplication: a segment that arrives a second time, right after the
/// first, changes nothing on the receiving side: not the receive queue, not
/// the pieces that wait behind a gap, not the next number to deliver.
pub proof fn lemma_duplicate_segment(s: State, seg: Segment)
    requires
        s.wf(),
    ensures
        s.on_segment(seg).on_segment(seg).recv_queue == s.on_segment(seg).recv_queue,
        s.on_segment(seg).on_segment(seg).recv_buf == s.on_segment(seg).recv_buf,
        s.on_segment(seg).on_segment(seg).rcv_nxt == s.on_segment(seg).rcv_nxt,
{
    let once = s.on_segment(seg);
    lemma_on_segment(s, seg);
    let h = seg.header;
    if h.conv == s.conv && h.cmd == CMD_PSH {
        lemma_push_arrives(s, seg);
        lemma_push_is_seen(s, seg);
        lemma_seen_changes_nothing(once, seg);
    }
}

/// A datagram that holds one valid segment is that segment arriving.
pub proof fn lemma_input_one(s: State, seg: Segment)
    requires
        seg.valid(),
    ensures
        s.input(seg.bytes()) == s.on_segment(seg),
{
    lemma_round_trip(seg, Seq::empty());
    assert(seg.bytes() + Seq::<u8>::empty() =~= seg.bytes());
    let segs = segments_in(seg.bytes());
    assert(segments_in(Seq::<u8>::empty()) =~= Seq::<Segment>::empty());
    assert(segs =~= seq![seg]);
    assert(segs.skip(1) =~= Seq::<Segment>::empty());
    assert(s.on_segment(seg).on_segments(segs.skip(1)) == s.on_segment(seg));
}

/// Deduplication, for datagrams: a datagram that holds one valid segment and
/// arrives twice in a row leaves the receive queue as it was after the first
/// arrival.
pub proof fn lemma_duplicate_datagram(s: State, seg: Segment)
    requires
        s.wf(),
        seg.valid(),
    ensures
        s.input(seg.bytes()).input(seg.bytes()).recv_queue == s.input(seg.bytes()).recv_queue,
        s.input(seg.bytes()).input(seg.bytes()).recv_buf == s.input(seg.bytes()).recv_buf,
        s.input(seg.bytes()).input(seg.bytes()).rcv_nxt == s.input(seg.bytes()).rcv_nxt,
{
    lemma_input_one(s, seg);
    lemma_input_one(s.on_segment(seg), seg);
    lemma_duplicate_segment(s, seg);
}

/// Cumulative acknowledgment: after a segment of this connection has arrived
/// that says every number below `una` was received, no flight numbered below
/// `una` is left in the send buffer.
pub proof fn lemma_cumulative_ack(s: State, seg: Segment, i: int)
    requires
        s.wf(),
        seg.header.conv == s.conv,
        MessageCmd::of(seg.header.cmd) != MessageCmd::Inv,
        0 <= i < s.on_segment(seg).send_buf.len(),
    ensures
        s.on_segment(seg).send_buf[i].sn >= seg.header.una,
{
    let h = seg.header;
    if h.cmd == CMD_ACK {
        lemma_acknowledge(s, h.sn, h.ts);
        lemma_prune(s.acknowledge(h.sn, h.ts), h.una);
        let p = s.acknowledge(h.sn, h.ts).prune(h.una);
        assert(s.on_segment(seg).send_buf[i].sn == p.send_buf[i].sn);
    } else {
        lemma_prune(s, h.una);
    }
}

/// No segment that arrives brings a flight back: the oldest number in flight
/// never goes down.
pub proof fn lemma_una_rises(s: State, seg: Segment)
    requires
        s.wf(),
    ensures
        s.snd_una <= s.on_segment(seg).snd_una,
        s.on_segment(seg).snd_nxt == s.snd_nxt,
{
    let h = seg.header;
    if h.conv != s.conv {
    } else if h.cmd == CMD_ACK {
        lemma_acknowledge(s, h.sn, h.ts);
        lemma_prune(s.acknowledge(h.sn, h.ts), h.una);
    } else {
        lemma_prune(s, h.una);
    }
}

/// The connection identifier never changes.
pub proof fn lemma_conv_stays(s: State, seg: Segment)
    ensures
        s.on_segment(seg).conv == s.conv,
        s.on_segment(seg).cfg == s.cfg,
{
}

/// Nothing that arrives puts a segment in flight.
pub proof fn lemma_none_returns(s: State, seg: Segment)
    requires
        s.wf(),
        s.send_buf.len() == 0,
    ensures
        s.on_segment(seg).send_buf.len() == 0,
{
    let h = seg.header;
    if h.conv != s.conv {
    } else if h.cmd == CMD_ACK {
        lemma_acknowledge(s, h.sn, h.ts);
        let a = s.acknowledge(h.sn, h.ts);
        assert(a == s);
        lemma_prune(a, h.una);
        lemma_filter_order(a.send_buf, from_una(h.una));
    } else {
        lemma_filter_order(s.send_buf, from_una(h.una));
    }
}

/// A bound below which no flight is numbered stays one while segments
/// arrive.
pub proof fn lemma_floor_lasts(s: State, segs: Seq<Segment>, floor: u32, i: int)
    requires
        s.wf(),
        forall|j: int| 0 <= j < s.send_buf.len() ==> (#[trigger] s.send_buf[j]).sn >= floor,
        0 <= i < s.on_segments(segs).send_buf.len(),
    ensures
        s.on_segments(segs).send_buf[i].sn >= floor,
    decreases segs.len(),
{
    if segs.len() > 0 {
        let t = s.on_segment(segs[0]);
        lemma_on_segment(s, segs[0]);
        lemma_una_rises(s, segs[0]);
        assert forall|j: int| 0 <= j < t.send_buf.len() implies (#[trigger] t.send_buf[j]).sn
            >= floor by {
            // Every flight left is numbered from the oldest on, and the
            // oldest was numbered from the bound on or nothing was in flight.
            assert(t.send_buf[j].sn >= t.snd_una);
            if s.send_buf.len() > 0 {
                assert(s.send_buf[0].sn >= floor);
            } else {
                assert(t.snd_una >= s.snd_una);
                lemma_none_returns(s, segs[0]);
            }
        }
        lemma_floor_lasts(t, segs.skip(1), floor, i);
    }
}

/// Cumulative acknowledgment, for all that arrives together: once some
/// segment of this connection among `segs` has said that every number below
/// `una` was received, no flight numbered below `una` is left, whatever
/// arrived after it.
pub proof fn lemma_cumulative_ack_lasts(s: State, segs: Seq<Segment>, k: int, i: int)
    requires
        s.wf(),
        0 <= k < segs.len(),
        segs[k].header.conv == s.conv,
        MessageCmd::of(segs[k].header.cmd) != MessageCmd::Inv,
        0 <= i < s.on_segments(segs).send_buf.len(),
    ensures
        s.on_segments(segs).send_buf[i].sn >= segs[k].header.una,
    decreases segs.len(),
{
    let t = s.on_segment(segs[0]);
    lemma_on_segment(s, segs[0]);
    if k == 0 {
        lemma_floor_lasts(t, segs.skip(1), segs[0].header.una, i);
        assert forall|j: int| 0 <= j < t.send_buf.len() implies (#[trigger] t.send_buf[j]).sn
            >= segs[0].header.una by {
            lemma_cumulative_ack(s, segs[0], j);
        }
    } else {
        assert(t.conv == s.conv) by {
            lemma_conv_stays(s, segs[0]);
        }
        assert(segs.skip(1)[k - 1] == segs[k]);
        lemma_cumulative_ack_lasts(t, segs.skip(1), k - 1, i);
    }
}

/// Whether no more is in flight than the peer's window and the congestion
/// window allow.
pub open spec fn window_safe(s: State) -> bool {
    s.in_flight() <= s.budget()
}

/// Window safety, at the start: a new connection has nothing in flight.
pub proof fn lemma_start_window_safe(conv: u32, cfg: Config)
    requires
        cfg.valid(),
    ensures
        State::start(conv, cfg).wf(),
        window_safe(State::start(conv, cfg)),
{
}

/// Window safety, when sending: a flush puts a segment in flight only while
/// fewer are in flight than the budget allows. So it never takes the
/// connection beyond its budget, and where the connection is beyond it, it
/// puts nothing in flight.
pub proof fn lemma_flush_window_safe(s: State)
    requires
        s.wf(),
    ensures
        window_safe(s) ==> window_safe(s.flushed()),
        s.flushed().budget() == s.budget(),
        s.flushed().in_flight() <= s.budget() || s.flushed().in_flight() == s.in_flight(),
{
    lemma_dispatch(s);
}

/// Window safety, when a segment arrives: nothing goes into flight, so the
/// connection stays within its budget unless the budget goes down, which
/// only a window announcement does. The one arrival left out is an
/// announcement of a window smaller than what is then in flight.
pub proof fn lemma_segment_window_safe(s: State, seg: Segment)
    requires
        s.wf(),
        window_safe(s),
        seg.header.conv == s.conv && seg.header.cmd == CMD_WINS ==> s.prune(
            seg.header.una,
        ).in_flight() <= seg.header.wnd,
    ensures
        window_safe(s.on_segment(seg)),
        s.on_segment(seg).in_flight() <= s.in_flight(),
{
    lemma_una_rises(s, seg);
    let h = seg.header;
    if h.conv == s.conv && h.cmd == CMD_WINS {
        lemma_prune(s, h.una);
    }
}

/// Window safety, when the clock moves: an update stays within the budget
/// unless a loss has just halved the congestion window below what is in
/// flight. That case is the one left out.
pub proof fn lemma_update_window_safe(s: State, now: u32)
    requires
        s.wf(),
        window_safe(s),
        s.cfg.congestion && s.lost(now) ==> s.in_flight() <= s.cwnd / 2 || s.in_flight() <= 1,
    ensures
        window_safe(s.ticked(now)),
        window_safe(s.updated(now)),
{
    lemma_ticked(s, now);
    lemma_flush_window_safe(s.ticked(now));
}

/// Window safety, for the application's calls: queueing a message, taking
/// one out and asking for a probe put nothing in flight and change no
/// window.
pub proof fn lemma_calls_window_safe(s: State, data: Seq<u8>)
    requires
        window_safe(s),
    ensures
        window_safe(s.queued(data)),
        window_safe(s.taken()),
        window_safe(s.probing()),
{
}

} // verus!
