//! Whatever the order in which the segments of a message arrive, the message
//! is read as it was sent.
use crate::laws::{
    carries, lemma_arrival_is_received, lemma_conv_stays, lemma_message_intact, lemma_queue_grows,
};
use crate::message::{Segment, CMD_PSH};
use crate::preserve::{lemma_deliver, lemma_on_segment, lemma_on_segments, lemma_prune, lemma_store};
use crate::config::Config;
use crate::link::{lemma_output_read_back, reads};
use crate::preserve::{lemma_queued, lemma_ticked};
use crate::seqs::lemma_filter_keeps_all;
use crate::state::{
    chunk, chunks, fragments, is_due, run, AckNote, PieceView, State, FRAGMENTS_MAX,
};
use vstd::prelude::*;

verus! {

/// Whether `seg` is a data segment of connection `conv` numbered `sn`.
pub open spec fn push_for(seg: Segment, conv: u32, sn: int) -> bool {
    &&& seg.header.conv == conv
    &&& seg.header.cmd == CMD_PSH
    &&& seg.header.sn == sn
}

/// The piece that a data segment carries.
pub open spec fn piece_of(seg: Segment) -> PieceView {
    PieceView { sn: seg.header.sn, frg: seg.header.frg, data: seg.data }
}

/// Whether the piece `p` is what some data segment of connection `conv`
/// among `segs` carries.
pub open spec fn came(p: PieceView, segs: Seq<Segment>, conv: u32) -> bool {
    exists|k: int|
        0 <= k < segs.len() && push_for(#[trigger] segs[k], conv, p.sn as int) && piece_of(segs[k])
            == p
}

/// Whether a data segment of connection `conv` numbered `sn` is among `segs`.
pub open spec fn arrives(segs: Seq<Segment>, conv: u32, sn: int) -> bool {
    exists|k: int| 0 <= k < segs.len() && push_for(#[trigger] segs[k], conv, sn)
}

/// The next number to deliver never goes down, and the receive queue only
/// grows at its end, whatever arrives.
pub proof fn lemma_delivery_rises(r: State, segs: Seq<Segment>)
    requires
        r.wf(),
    ensures
        r.rcv_nxt <= r.on_segments(segs).rcv_nxt,
        r.recv_queue.len() <= r.on_segments(segs).recv_queue.len(),
        r.on_segments(segs).recv_queue.take(r.recv_queue.len() as int) == r.recv_queue,
        r.on_segments(segs).conv == r.conv,
        r.on_segments(segs).cfg == r.cfg,
    decreases segs.len(),
{
    if segs.len() > 0 {
        let t = r.on_segment(segs[0]);
        lemma_on_segment(r, segs[0]);
        lemma_queue_grows(r, segs[0]);
        lemma_conv_stays(r, segs[0]);
        lemma_delivery_rises(t, segs.skip(1));
        let u = t.on_segments(segs.skip(1));
        assert(u.recv_queue.take(r.recv_queue.len() as int) =~= u.recv_queue.take(
            t.recv_queue.len() as int,
        ).take(r.recv_queue.len() as int));
    } else {
        assert(r.recv_queue.take(r.recv_queue.len() as int) =~= r.recv_queue);
    }
}

/// Any order: once a data segment has arrived for each of the next `n`
/// sequence numbers, in whatever order and among whatever else, all `n` are
/// delivered.
pub proof fn lemma_any_order_delivers(r: State, segs: Seq<Segment>, n: int)
    requires
        r.wf(),
        0 <= n <= r.cfg.rcv_wnd,
        r.rcv_nxt + n < u32::MAX,
        forall|sn: int| r.rcv_nxt <= sn < r.rcv_nxt + n ==> #[trigger] arrives(segs, r.conv, sn),
    ensures
        r.on_segments(segs).rcv_nxt >= r.rcv_nxt + n,
        r.on_segments(segs).recv_queue.len() >= r.recv_queue.len() + n,
{
    let t = r.on_segments(segs);
    lemma_on_segments(r, segs);
    lemma_delivery_rises(r, segs);
    if t.rcv_nxt < r.rcv_nxt + n {
        assert(arrives(segs, r.conv, t.rcv_nxt as int));
        let k = choose|k: int|
            0 <= k < segs.len() && push_for(#[trigger] segs[k], r.conv, t.rcv_nxt as int);
        assert(r.accepts(segs[k].header.sn));
        lemma_arrival_is_received(r, segs, k);
        assert(t.received(t.rcv_nxt));
        let i = choose|i: int| 0 <= i < t.recv_buf.len() && (#[trigger] t.recv_buf[i]).sn == t.rcv_nxt;
        assert(t.recv_buf[i].sn != t.rcv_nxt);
    }
    // The queue ends just before the next number to deliver, and it began
    // that way.
    assert(t.recv_queue.len() >= r.recv_queue.len() + n) by {
        if r.recv_queue.len() > 0 {
            let m = r.recv_queue.len() as int;
            assert(t.recv_queue.take(m)[0] == t.recv_queue[0]);
            assert(r.recv_queue[0].sn == r.rcv_nxt - m);
            assert(t.recv_queue[0].sn == t.rcv_nxt - t.recv_queue.len());
        } else if t.recv_queue.len() < n {
            // Nothing was delivered before: the first piece is the first
            // number.
            lemma_first_delivered(r, segs);
        }
    }
}

/// Where the receive queue was empty, what is delivered starts with the
/// number that was next.
proof fn lemma_first_delivered(r: State, segs: Seq<Segment>)
    requires
        r.wf(),
        r.recv_queue.len() == 0,
    ensures
        r.on_segments(segs).recv_queue.len() == r.on_segments(segs).rcv_nxt - r.rcv_nxt,
    decreases segs.len(),
{
    if segs.len() > 0 {
        let t = r.on_segment(segs[0]);
        lemma_on_segment(r, segs[0]);
        lemma_queue_grows(r, segs[0]);
        lemma_step_count(r, segs[0]);
        lemma_counts(t, segs.skip(1));
    }
}

/// One arrival lengthens the receive queue by as much as it moves the next
/// number to deliver.
proof fn lemma_step_count(r: State, seg: Segment)
    requires
        r.wf(),
    ensures
        r.on_segment(seg).recv_queue.len() - r.recv_queue.len() == r.on_segment(seg).rcv_nxt
            - r.rcv_nxt,
{
    let h = seg.header;
    if h.conv == r.conv && h.cmd == CMD_PSH {
        let p = r.prune(h.una);
        lemma_prune(r, h.una);
        let a = State { acks: p.acks.push(AckNote { sn: h.sn, ts: h.ts }), ..p };
        let q = a.store(piece_of(seg));
        lemma_store(a, piece_of(seg));
        lemma_deliver(q);
        crate::preserve::lemma_run(q.recv_buf, q.rcv_nxt as int);
    }
}

/// Arrivals lengthen the receive queue by as much as they move the next
/// number to deliver.
proof fn lemma_counts(r: State, segs: Seq<Segment>)
    requires
        r.wf(),
    ensures
        r.on_segments(segs).recv_queue.len() - r.recv_queue.len() == r.on_segments(segs).rcv_nxt
            - r.rcv_nxt,
    decreases segs.len(),
{
    if segs.len() > 0 {
        lemma_on_segment(r, segs[0]);
        lemma_step_count(r, segs[0]);
        lemma_counts(r.on_segment(segs[0]), segs.skip(1));
    }
}

/// Where a piece comes from: after one arrival, every piece behind a gap was
/// there before or is the piece that arrived, and so is every piece that was
/// delivered by the arrival.
pub proof fn lemma_step_origin(r: State, seg: Segment)
    requires
        r.wf(),
    ensures
        forall|i: int|
            0 <= i < r.on_segment(seg).recv_buf.len() ==> r.recv_buf.contains(
                #[trigger] r.on_segment(seg).recv_buf[i],
            ) || (push_for(seg, r.conv, r.on_segment(seg).recv_buf[i].sn as int) && piece_of(seg)
                == r.on_segment(seg).recv_buf[i]),
        forall|i: int|
            r.recv_queue.len() <= i < r.on_segment(seg).recv_queue.len() ==> r.recv_buf.contains(
                #[trigger] r.on_segment(seg).recv_queue[i],
            ) || (push_for(seg, r.conv, r.on_segment(seg).recv_queue[i].sn as int) && piece_of(
                seg,
            ) == r.on_segment(seg).recv_queue[i]),
{
    let t = r.on_segment(seg);
    let h = seg.header;
    if h.conv == r.conv && h.cmd == CMD_PSH {
        let p = r.prune(h.una);
        lemma_prune(r, h.una);
        let a = State { acks: p.acks.push(AckNote { sn: h.sn, ts: h.ts }), ..p };
        let piece = piece_of(seg);
        let q = a.store(piece);
        lemma_store(a, piece);
        lemma_deliver(q);
        crate::preserve::lemma_run(q.recv_buf, q.rcv_nxt as int);
        let k = run(q.recv_buf, q.rcv_nxt as int) as int;
        assert forall|i: int| 0 <= i < q.recv_buf.len() implies r.recv_buf.contains(
            #[trigger] q.recv_buf[i],
        ) || q.recv_buf[i] == piece by {
            if q != a {
                let at = a.recv_buf.filter(crate::state::below(h.sn)).len() as int;
                crate::preserve::lemma_rank(a.recv_buf, a.rcv_nxt, a.cfg.rcv_wnd, h.sn);
                if i < at {
                    assert(q.recv_buf[i] == r.recv_buf[i]);
                } else if i > at {
                    assert(q.recv_buf[i] == r.recv_buf[i - 1]);
                }
            } else {
                assert(q.recv_buf[i] == r.recv_buf[i]);
            }
        }
        assert forall|i: int| 0 <= i < t.recv_buf.len() implies r.recv_buf.contains(
            #[trigger] t.recv_buf[i],
        ) || (push_for(seg, r.conv, t.recv_buf[i].sn as int) && piece == t.recv_buf[i]) by {
            assert(t.recv_buf[i] == q.recv_buf[i + k]);
        }
        assert forall|i: int| r.recv_queue.len() <= i < t.recv_queue.len() implies r.recv_buf.contains(
            #[trigger] t.recv_queue[i],
        ) || (push_for(seg, r.conv, t.recv_queue[i].sn as int) && piece == t.recv_queue[i]) by {
            assert(t.recv_queue[i] == q.recv_buf[i - r.recv_queue.len()]);
        }
    } else {
        if h.conv == r.conv {
            lemma_prune(r, h.una);
            if h.cmd == crate::message::CMD_ACK {
                crate::preserve::lemma_acknowledge(r, h.sn, h.ts);
                lemma_prune(r.acknowledge(h.sn, h.ts), h.una);
            }
        }
        assert(t.recv_buf == r.recv_buf);
        assert(t.recv_queue == r.recv_queue);
        assert forall|i: int| 0 <= i < t.recv_buf.len() implies r.recv_buf.contains(
            #[trigger] t.recv_buf[i],
        ) by {
            assert(r.recv_buf[i] == t.recv_buf[i]);
        }
    }
}

/// Where a piece comes from: after any arrivals, every piece behind a gap
/// was there before or came with one of the segments, and so did every piece
/// that the arrivals delivered.
pub proof fn lemma_origin(r: State, segs: Seq<Segment>)
    requires
        r.wf(),
    ensures
        forall|i: int|
            0 <= i < r.on_segments(segs).recv_buf.len() ==> r.recv_buf.contains(
                #[trigger] r.on_segments(segs).recv_buf[i],
            ) || came(r.on_segments(segs).recv_buf[i], segs, r.conv),
        forall|i: int|
            r.recv_queue.len() <= i < r.on_segments(segs).recv_queue.len() ==> r.recv_buf.contains(
                #[trigger] r.on_segments(segs).recv_queue[i],
            ) || came(r.on_segments(segs).recv_queue[i], segs, r.conv),
    decreases segs.len(),
{
    let u = r.on_segments(segs);
    if segs.len() == 0 {
        assert forall|i: int| 0 <= i < u.recv_buf.len() implies r.recv_buf.contains(
            #[trigger] u.recv_buf[i],
        ) by {
            assert(r.recv_buf[i] == u.recv_buf[i]);
        }
    } else {
        let t = r.on_segment(segs[0]);
        let rest = segs.skip(1);
        lemma_on_segment(r, segs[0]);
        lemma_conv_stays(r, segs[0]);
        lemma_queue_grows(r, segs[0]);
        lemma_step_origin(r, segs[0]);
        lemma_origin(t, rest);
        let v = t.on_segments(rest);
        assert(u == v);
        assert forall|p: PieceView| came(p, rest, r.conv) implies came(p, segs, r.conv) by {
            let k = choose|k: int|
                0 <= k < rest.len() && push_for(#[trigger] rest[k], r.conv, p.sn as int)
                    && piece_of(rest[k]) == p;
            assert(segs[k + 1] == rest[k]);
        }
        assert forall|p: PieceView| t.recv_buf.contains(p) implies r.recv_buf.contains(p) || came(
            p,
            segs,
            r.conv,
        ) by {
            let i = choose|i: int| 0 <= i < t.recv_buf.len() && t.recv_buf[i] == p;
            assert(r.recv_buf.contains(t.recv_buf[i]) || (push_for(segs[0], r.conv, p.sn as int)
                && piece_of(segs[0]) == p));
            if !r.recv_buf.contains(p) {
                assert(push_for(segs[0], r.conv, p.sn as int) && piece_of(segs[0]) == p);
            }
        }
        assert forall|i: int| 0 <= i < u.recv_buf.len() implies r.recv_buf.contains(
            #[trigger] u.recv_buf[i],
        ) || came(u.recv_buf[i], segs, r.conv) by {
            let p = u.recv_buf[i];
            assert(p == v.recv_buf[i]);
            assert(t.recv_buf.contains(p) || came(p, rest, r.conv));
        }
        assert forall|i: int| r.recv_queue.len() <= i < u.recv_queue.len() implies r.recv_buf.contains(
            #[trigger] u.recv_queue[i],
        ) || came(u.recv_queue[i], segs, r.conv) by {
            let p = u.recv_queue[i];
            if i < t.recv_queue.len() {
                lemma_delivery_rises(t, rest);
                assert(u.recv_queue.take(t.recv_queue.len() as int)[i] == u.recv_queue[i]);
                assert(p == t.recv_queue[i]);
                assert(r.recv_buf.contains(t.recv_queue[i]) || (push_for(
                    segs[0],
                    r.conv,
                    t.recv_queue[i].sn as int,
                ) && piece_of(segs[0]) == t.recv_queue[i]));
                if !r.recv_buf.contains(p) {
                    assert(push_for(segs[0], r.conv, p.sn as int) && piece_of(segs[0]) == p);
                    assert(came(p, segs, r.conv));
                }
            } else {
                assert(p == v.recv_queue[i]);
                assert(t.recv_buf.contains(p) || came(p, rest, r.conv));
            }
        }
    }
}

/// Reassembly: a receiver with nothing waiting gets, in whatever order, with
/// whatever repetitions and among whatever else, a data segment for each
/// piece of a message, numbered from the next number to deliver, and no
/// data segment with one of those numbers and other contents. Then its next
/// read returns the message as it was sent.
pub proof fn lemma_reassembly(r: State, segs: Seq<Segment>, data: Seq<u8>, mss: int)
    requires
        r.wf(),
        r.recv_queue.len() == 0,
        r.recv_buf.len() == 0,
        mss > 0,
        fragments(data.len() as int, mss) <= FRAGMENTS_MAX,
        fragments(data.len() as int, mss) <= r.cfg.rcv_wnd,
        r.rcv_nxt + fragments(data.len() as int, mss) < u32::MAX,
        forall|sn: int|
            r.rcv_nxt <= sn < r.rcv_nxt + fragments(data.len() as int, mss) ==> #[trigger] arrives(
                segs,
                r.conv,
                sn,
            ),
        forall|k: int, j: int|
            0 <= k < segs.len() && 0 <= j < fragments(data.len() as int, mss) && push_for(
                #[trigger] segs[k],
                r.conv,
                r.rcv_nxt + j,
            ) ==> segs[k].header.frg == (#[trigger] chunk(data, mss, j)).frg && segs[k].data
                == chunk(data, mss, j).data,
    ensures
        r.on_segments(segs).readable(),
        r.on_segments(segs).message() == data,
{
    let n = fragments(data.len() as int, mss);
    let u = r.on_segments(segs);
    lemma_on_segments(r, segs);
    lemma_any_order_delivers(r, segs, n);
    lemma_first_delivered(r, segs);
    lemma_origin(r, segs);
    assert forall|j: int| 0 <= j < n implies (#[trigger] u.recv_queue[j]).frg == chunk(
        data,
        mss,
        j,
    ).frg && u.recv_queue[j].data == chunk(data, mss, j).data by {
        let p = u.recv_queue[j];
        assert(p.sn == r.rcv_nxt + j);
        assert(!r.recv_buf.contains(p));
        assert(came(p, segs, r.conv));
        let k = choose|k: int|
            0 <= k < segs.len() && push_for(#[trigger] segs[k], r.conv, p.sn as int) && piece_of(
                segs[k],
            ) == p;
        assert(push_for(segs[k], r.conv, r.rcv_nxt + j));
        assert(segs[k].header.frg == chunk(data, mss, j).frg);
    }
    assert(carries(u.recv_queue, data, mss));
    lemma_message_intact(u, data, mss);
}

/// A connection that has nothing in flight and no control segment waiting
/// hands out one data segment for each piece that goes into flight, numbered
/// from the next number to send, and nothing else.
pub proof fn lemma_fresh_flights_out(t: State, j: int)
    requires
        t.wf(),
        t.send_buf.len() == 0,
        t.acks.len() == 0,
        !t.wins_due,
        !t.wask_due,
        0 <= j < t.room(),
    ensures
        t.outgoing().len() == t.room(),
        push_for(t.outgoing()[j], t.conv, t.snd_nxt + j),
        t.outgoing()[j].header.frg == t.send_queue[j].frg,
        t.outgoing()[j].data == t.send_queue[j].data,
{
    crate::preserve::lemma_dispatch(t);
    let d = t.dispatch();
    assert(d.send_buf.len() == t.room());
    assert forall|i: int| 0 <= i < d.send_buf.len() implies is_due()(#[trigger] d.send_buf[i]) by {}
    lemma_filter_keeps_all(d.send_buf, is_due());
    assert(d.control() =~= Seq::empty());
    assert(t.outgoing() =~= d.pushes());
    assert(t.outgoing()[j] == d.pushing()(d.send_buf[j]));
    assert(d.send_buf[j] == t.launch(t.send_queue[j], (t.snd_nxt + j) as u32));
}

/// A new connection after its first message was queued and the clock has
/// moved: the pieces of the message wait, nothing else does, and all of them
/// may go into flight where the windows are wide enough.
pub proof fn lemma_first_tick(conv: u32, cfg: Config, data: Seq<u8>, now: u32)
    requires
        cfg.valid(),
        fragments(data.len() as int, cfg.mss as int) <= FRAGMENTS_MAX,
        fragments(data.len() as int, cfg.mss as int) <= cfg.snd_queue,
        fragments(data.len() as int, cfg.mss as int) <= cfg.cwnd,
        fragments(data.len() as int, cfg.mss as int) <= cfg.rcv_wnd,
    ensures
        State::start(conv, cfg).refusal(data) is None,
        State::start(conv, cfg).queued(data).wf(),
        State::start(conv, cfg).queued(data).ticked(now) == (State {
            now,
            send_queue: chunks(data, cfg.mss as int),
            ..State::start(conv, cfg)
        }),
        State::start(conv, cfg).queued(data).ticked(now).wf(),
        State::start(conv, cfg).queued(data).ticked(now).room() == fragments(
            data.len() as int,
            cfg.mss as int,
        ),
{
    let mss = cfg.mss as int;
    let s0 = State::start(conv, cfg);
    let s1 = s0.queued(data);
    assert(fragments(data.len() as int, mss) >= 1) by {
        if data.len() > 0 {
            assert((data.len() - 1) / mss >= 0) by (nonlinear_arith)
                requires
                    data.len() >= 1,
                    mss > 0,
            ;
        }
    }
    lemma_queued(s0, data);
    lemma_ticked(s1, now);
    assert(s1.send_queue =~= chunks(data, mss));
    assert(s1.retransmit(now).send_buf =~= Seq::empty());
    assert(!s1.lost(now));
}

/// What a new connection hands out for its first message: one data segment
/// for each piece, numbered from 0, and nothing else.
pub proof fn lemma_first_message(conv: u32, cfg: Config, data: Seq<u8>, now: u32)
    requires
        cfg.valid(),
        fragments(data.len() as int, cfg.mss as int) <= FRAGMENTS_MAX,
        fragments(data.len() as int, cfg.mss as int) <= cfg.snd_queue,
        fragments(data.len() as int, cfg.mss as int) <= cfg.cwnd,
        fragments(data.len() as int, cfg.mss as int) <= cfg.rcv_wnd,
    ensures
        State::start(conv, cfg).queued(data).ticked(now).wf(),
        State::start(conv, cfg).queued(data).ticked(now).outgoing().len() == fragments(
            data.len() as int,
            cfg.mss as int,
        ),
        forall|j: int|
            0 <= j < fragments(data.len() as int, cfg.mss as int) ==> {
                let out = #[trigger] State::start(conv, cfg).queued(data).ticked(now).outgoing()[j];
                &&& push_for(out, conv, j)
                &&& out.header.frg == chunk(data, cfg.mss as int, j).frg
                &&& out.data == chunk(data, cfg.mss as int, j).data
            },
{
    let mss = cfg.mss as int;
    let n = fragments(data.len() as int, mss);
    let t = State::start(conv, cfg).queued(data).ticked(now);
    lemma_first_tick(conv, cfg, data, now);
    assert forall|j: int| 0 <= j < n implies {
        let out = #[trigger] t.outgoing()[j];
        &&& push_for(out, conv, j)
        &&& out.header.frg == chunk(data, mss, j).frg
        &&& out.data == chunk(data, mss, j).data
    } by {
        lemma_fresh_flights_out(t, j);
    }
    lemma_fresh_flights_out(t, 0);
}

/// End to end: a message that fits the windows of two new connections with
/// the same identifier goes from `send` and `update` at one end, through
/// `input` of the datagrams at the other, to `recv` there, which returns it
/// as it was sent.
pub proof fn lemma_end_to_end(conv: u32, sender: Config, receiver: Config, data: Seq<u8>, now: u32)
    requires
        sender.valid(),
        receiver.valid(),
        fragments(data.len() as int, sender.mss as int) <= FRAGMENTS_MAX,
        fragments(data.len() as int, sender.mss as int) <= sender.snd_queue,
        fragments(data.len() as int, sender.mss as int) <= sender.cwnd,
        fragments(data.len() as int, sender.mss as int) <= sender.rcv_wnd,
        fragments(data.len() as int, sender.mss as int) <= receiver.rcv_wnd,
    ensures
        reads(
            State::start(conv, receiver),
            State::start(conv, sender).queued(data).ticked(now).output(),
        ).readable(),
        reads(
            State::start(conv, receiver),
            State::start(conv, sender).queued(data).ticked(now).output(),
        ).message() == data,
{
    let mss = sender.mss as int;
    let n = fragments(data.len() as int, mss);
    let t = State::start(conv, sender).queued(data).ticked(now);
    let r = State::start(conv, receiver);
    let segs = t.outgoing();
    lemma_first_message(conv, sender, data, now);
    lemma_output_read_back(t, r);
    assert forall|sn: int| r.rcv_nxt <= sn < r.rcv_nxt + n implies #[trigger] arrives(
        segs,
        r.conv,
        sn,
    ) by {
        assert(push_for(segs[sn], conv, sn));
    }
    assert forall|k: int, j: int|
        0 <= k < segs.len() && 0 <= j < n && push_for(
            #[trigger] segs[k],
            r.conv,
            r.rcv_nxt + j,
        ) implies segs[k].header.frg == (#[trigger] chunk(data, mss, j)).frg && segs[k].data
        == chunk(data, mss, j).data by {
        assert(push_for(segs[k], conv, k));
        assert(k == j);
    }
    lemma_reassembly(r, segs, data, mss);
}

} // verus!
