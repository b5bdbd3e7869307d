//! What one end of a connection hands out is what the other end reads, and
//! what is not acknowledged in time is handed out again.
use crate::batch::{lemma_pack_fits, pack_from};
use crate::laws::lemma_arrival_is_received;
use crate::message::{
    lemma_round_trip, lemma_stream_recovered, segments_in, stream, Segment, CMD_PSH,
    MSG_OVERHEAD,
};
use crate::preserve::{lemma_dispatch, lemma_ticked, lemma_updated};
use crate::seqs::lemma_filter_order;
use crate::state::{backoff, bumped, deadline, is_due, wire, State};
use vstd::prelude::*;

verus! {

/// The connection after several datagrams have arrived, one after the other.
pub open spec fn reads(s: State, datagrams: Seq<Seq<u8>>) -> State
    decreases datagrams.len(),
{
    if datagrams.len() == 0 {
        s
    } else {
        reads(s.input(datagrams[0]), datagrams.skip(1))
    }
}

/// Segments that arrive in two lots arrive one lot after the other.
pub proof fn lemma_on_segments_add(s: State, a: Seq<Segment>, b: Seq<Segment>)
    ensures
        s.on_segments(a + b) == s.on_segments(a).on_segments(b),
    decreases a.len(),
{
    if a.len() == 0 {
        assert(a + b =~= b);
    } else {
        assert((a + b)[0] == a[0]);
        assert((a + b).skip(1) =~= a.skip(1) + b);
        lemma_on_segments_add(s.on_segment(a[0]), a.skip(1), b);
    }
}

/// The bytes of two lots of segments are the bytes of the one followed by
/// the bytes of the other.
pub proof fn lemma_stream_add(a: Seq<Segment>, b: Seq<Segment>)
    ensures
        stream(a + b) == stream(a) + stream(b),
    decreases a.len(),
{
    if a.len() == 0 {
        assert(a + b =~= b);
        assert(stream(a) + stream(b) =~= stream(b));
    } else {
        assert((a + b)[0] == a[0]);
        assert((a + b).skip(1) =~= a.skip(1) + b);
        lemma_stream_add(a.skip(1), b);
        assert(a[0].bytes() + (stream(a.skip(1)) + stream(b)) =~= (a[0].bytes() + stream(
            a.skip(1),
        )) + stream(b));
    }
}

/// The bytes of one segment.
pub proof fn lemma_stream_one(x: Segment)
    ensures
        stream(seq![x]) == x.bytes(),
{
    assert(seq![x].skip(1) =~= Seq::<Segment>::empty());
    assert(stream(seq![x].skip(1)) =~= Seq::<u8>::empty());
    assert(x.bytes() + Seq::<u8>::empty() =~= x.bytes());
}

/// Valid segments take up bytes as soon as there is one of them.
pub proof fn lemma_stream_len(a: Seq<Segment>)
    requires
        forall|i: int| 0 <= i < a.len() ==> (#[trigger] a[i]).valid(),
    ensures
        a.len() > 0 ==> stream(a).len() > 0,
        a.len() == 0 ==> stream(a).len() == 0,
{
    if a.len() > 0 {
        lemma_round_trip(a[0], Seq::empty());
    }
}

/// The segments that reading each of several datagrams yields, in order.
pub open spec fn gathered(datagrams: Seq<Seq<u8>>) -> Seq<Segment>
    decreases datagrams.len(),
{
    if datagrams.len() == 0 {
        Seq::empty()
    } else {
        segments_in(datagrams[0]) + gathered(datagrams.skip(1))
    }
}

/// Datagrams that arrive one after the other are the arrival of the segments
/// in them.
pub proof fn lemma_reads_gathered(r: State, datagrams: Seq<Seq<u8>>)
    ensures
        reads(r, datagrams) == r.on_segments(gathered(datagrams)),
    decreases datagrams.len(),
{
    if datagrams.len() > 0 {
        lemma_reads_gathered(r.input(datagrams[0]), datagrams.skip(1));
        lemma_on_segments_add(r, segments_in(datagrams[0]), gathered(datagrams.skip(1)));
    }
}

/// The segments in one datagram followed by others.
pub proof fn lemma_gathered_first(d: Seq<u8>, others: Seq<Seq<u8>>)
    ensures
        gathered(seq![d] + others) == segments_in(d) + gathered(others),
{
    let all = seq![d] + others;
    assert(all[0] == d);
    assert(all.skip(1) =~= others);
}

/// The bytes of each segment, the first apart.
pub proof fn lemma_wire_first(segs: Seq<Segment>)
    requires
        segs.len() > 0,
    ensures
        wire(segs)[0] == segs[0].bytes(),
        wire(segs).skip(1) == wire(segs.skip(1)),
{
    assert(wire(segs).skip(1) =~= wire(segs.skip(1)));
}

/// The datagram that is being filled holds the segments that went into it.
proof fn lemma_group_read(group: Seq<Segment>)
    requires
        forall|i: int| 0 <= i < group.len() ==> (#[trigger] group[i]).valid(),
    ensures
        segments_in(stream(group)) == group,
        group.len() > 0 <==> stream(group).len() > 0,
{
    lemma_stream_len(group);
    lemma_stream_recovered(group);
}

/// Adding a segment to the datagram that is being filled.
proof fn lemma_group_grows(group: Seq<Segment>, x: Segment)
    requires
        forall|i: int| 0 <= i < group.len() ==> (#[trigger] group[i]).valid(),
        x.valid(),
    ensures
        stream(group.push(x)) == stream(group) + x.bytes(),
        stream(seq![x]) == x.bytes(),
        forall|i: int| 0 <= i < group.push(x).len() ==> (#[trigger] group.push(x)[i]).valid(),
        seq![x][0].valid(),
{
    lemma_stream_one(x);
    lemma_stream_add(group, seq![x]);
    assert(group.push(x) =~= group + seq![x]);
    assert forall|i: int| 0 <= i < group.push(x).len() implies (#[trigger] group.push(x)[i]).valid() by {
        if i < group.len() {
            assert(group.push(x)[i] == group[i]);
        }
    }
}

/// The datagrams that valid segments were packed into hold those segments,
/// in order, however they were shared out.
pub proof fn lemma_pack_gathered(group: Seq<Segment>, rest: Seq<Segment>, mtu: int)
    requires
        forall|i: int| 0 <= i < group.len() ==> (#[trigger] group[i]).valid(),
        forall|i: int| 0 <= i < rest.len() ==> (#[trigger] rest[i]).valid(),
    ensures
        gathered(pack_from(wire(rest), stream(group), mtu)) == group + rest,
    decreases rest.len(),
{
    let cur = stream(group);
    let packed = pack_from(wire(rest), cur, mtu);
    lemma_group_read(group);
    if rest.len() == 0 {
        assert(group + rest =~= group);
        assert(wire(rest).len() == 0);
        if cur.len() > 0 {
            assert(packed == seq![cur]);
            lemma_gathered_first(cur, Seq::empty());
            assert(seq![cur] + Seq::<Seq<u8>>::empty() =~= seq![cur]);
            assert(gathered(Seq::<Seq<u8>>::empty()) =~= Seq::<Segment>::empty());
            assert(group + Seq::<Segment>::empty() =~= group);
        } else {
            assert(packed =~= Seq::<Seq<u8>>::empty());
            assert(gathered(packed) =~= Seq::<Segment>::empty());
            assert(group =~= Seq::<Segment>::empty());
        }
    } else {
        let tail = rest.skip(1);
        let x = rest[0];
        lemma_wire_first(rest);
        lemma_group_grows(group, x);
        assert forall|i: int| 0 <= i < tail.len() implies (#[trigger] tail[i]).valid() by {
            assert(tail[i] == rest[i + 1]);
        }
        if cur.len() > 0 && cur.len() + x.bytes().len() > mtu {
            let next = pack_from(wire(tail), x.bytes(), mtu);
            assert(packed == seq![cur] + next);
            lemma_pack_gathered(seq![x], tail, mtu);
            lemma_gathered_first(cur, next);
            assert(seq![x] + tail =~= rest);
        } else {
            assert(packed == pack_from(wire(tail), cur + x.bytes(), mtu));
            lemma_pack_gathered(group.push(x), tail, mtu);
            assert(group.push(x) + tail =~= group + rest);
        }
    }
}

/// Every segment that a flush hands out is valid.
pub proof fn lemma_outgoing_valid(s: State, k: int)
    requires
        s.wf(),
        0 <= k < s.outgoing().len(),
    ensures
        s.outgoing()[k].valid(),
        s.outgoing()[k].header.conv == s.conv,
{
    lemma_dispatch(s);
    let d = s.dispatch();
    let c = d.control();
    if k < c.len() {
        assert(s.outgoing()[k] == c[k]);
        if k < d.acks.len() {
            assert(c[k] == d.acking()(d.acks[k]));
        }
    } else {
        let j = k - c.len();
        let due = d.send_buf.filter(is_due());
        assert(s.outgoing()[k] == d.pushes()[j]);
        assert(d.pushes()[j] == d.pushing()(due[j]));
        lemma_filter_order(d.send_buf, is_due());
        assert(d.send_buf.contains(due[j]));
        let a = choose|a: int| 0 <= a < d.send_buf.len() && d.send_buf[a] == due[j];
        assert(d.send_buf[a].data.len() <= d.cfg.mss);
    }
}

/// No segment that a flush hands out takes more bytes than a header and a
/// full payload.
pub proof fn lemma_outgoing_size(s: State, k: int)
    requires
        s.wf(),
        0 <= k < s.outgoing().len(),
    ensures
        MSG_OVERHEAD <= s.outgoing()[k].bytes().len() <= MSG_OVERHEAD + s.cfg.mss,
{
    lemma_outgoing_valid(s, k);
    lemma_round_trip(s.outgoing()[k], Seq::empty());
    lemma_dispatch(s);
    let d = s.dispatch();
    let c = d.control();
    if k < c.len() {
        assert(s.outgoing()[k] == c[k]);
        if k < d.acks.len() {
            assert(c[k] == d.acking()(d.acks[k]));
        }
    } else {
        let j = k - c.len();
        let due = d.send_buf.filter(is_due());
        assert(s.outgoing()[k] == d.pushes()[j]);
        assert(d.pushes()[j] == d.pushing()(due[j]));
        lemma_filter_order(d.send_buf, is_due());
        assert(d.send_buf.contains(due[j]));
        let a = choose|a: int| 0 <= a < d.send_buf.len() && d.send_buf[a] == due[j];
        assert(d.send_buf[a].data.len() <= d.cfg.mss);
    }
}

/// What a flush hands out, the peer reads: the datagrams hold exactly the
/// segments that were transmitted, in order, and reading them, one after
/// the other, is the arrival of those segments.
pub proof fn lemma_output_read_back(s: State, r: State)
    requires
        s.wf(),
    ensures
        gathered(s.output()) == s.outgoing(),
        reads(r, s.output()) == r.on_segments(s.outgoing()),
{
    let out = s.outgoing();
    assert forall|k: int| 0 <= k < out.len() implies (#[trigger] out[k]).valid() by {
        lemma_outgoing_valid(s, k);
    }
    let none = Seq::<Segment>::empty();
    assert(stream(none) =~= Seq::<u8>::empty());
    lemma_pack_gathered(none, out, s.cfg.mtu as int);
    assert(none + out =~= out);
    lemma_reads_gathered(r, s.output());
}

/// No datagram that a flush hands out is empty, and none is longer than the
/// configured size.
pub proof fn lemma_output_fits(s: State, i: int)
    requires
        s.wf(),
        0 <= i < s.output().len(),
    ensures
        0 < s.output()[i].len() <= s.cfg.mtu,
{
    let out = s.outgoing();
    let segs = wire(out);
    assert forall|k: int| 0 <= k < segs.len() implies 0 < (#[trigger] segs[k]).len()
        <= s.cfg.mtu by {
        lemma_outgoing_size(s, k);
        assert(segs[k] == out[k].bytes());
    }
    lemma_pack_fits(segs, Seq::empty(), s.cfg.mtu as int, i);
}

/// A flight that is due is among the segments that the next flush hands out,
/// and stays in flight, in its place.
pub proof fn lemma_due_is_sent(s: State, i: int)
    requires
        s.wf(),
        0 <= i < s.send_buf.len(),
        s.send_buf[i].due,
    ensures
        exists|k: int|
            0 <= k < s.outgoing().len() && {
                let out = #[trigger] s.outgoing()[k];
                &&& out.header.conv == s.conv
                &&& out.header.cmd == CMD_PSH
                &&& out.header.sn == s.send_buf[i].sn
                &&& out.header.ts == s.send_buf[i].ts
                &&& out.data == s.send_buf[i].data
            },
        i < s.flushed().send_buf.len(),
        s.flushed().send_buf[i] == s.send_buf[i].sent(),
{
    lemma_dispatch(s);
    let d = s.dispatch();
    assert(d.send_buf[i] == s.send_buf[i]);
    let due = d.send_buf.filter(is_due());
    d.send_buf.lemma_filter_contains(is_due(), i);
    assert(due.contains(d.send_buf[i]));
    let j = choose|j: int| 0 <= j < due.len() && due[j] == d.send_buf[i];
    let k = d.control().len() + j;
    assert(d.pushes()[j] == d.pushing()(due[j]));
    assert(s.outgoing()[k] == d.pushes()[j]);
}

/// Retransmission: a flight whose deadline has come when the clock moves to
/// `now` is transmitted by that update. A data segment with its number and
/// its payload is among the segments handed out, its count of transmissions
/// goes up by one, its timeout doubles up to the upper bound, and its next
/// deadline lies that timeout after `now`.
pub proof fn lemma_retransmitted(s: State, now: u32, i: int)
    requires
        s.wf(),
        0 <= i < s.send_buf.len(),
        s.send_buf[i].timed_out(now),
    ensures
        exists|k: int|
            0 <= k < s.ticked(now).outgoing().len() && {
                let out = #[trigger] s.ticked(now).outgoing()[k];
                &&& out.header.conv == s.conv
                &&& out.header.cmd == CMD_PSH
                &&& out.header.sn == s.send_buf[i].sn
                &&& out.header.ts == now
                &&& out.data == s.send_buf[i].data
            },
        s.updated(now).wf(),
        i < s.updated(now).send_buf.len(),
        s.updated(now).send_buf[i].sn == s.send_buf[i].sn,
        s.updated(now).send_buf[i].xmit == bumped(s.send_buf[i].xmit),
        s.updated(now).send_buf[i].rto == backoff(s.send_buf[i].rto, s.cfg.rto_max),
        s.updated(now).send_buf[i].resend_at == deadline(
            now,
            backoff(s.send_buf[i].rto, s.cfg.rto_max),
        ),
{
    lemma_ticked(s, now);
    lemma_updated(s, now);
    let t = s.ticked(now);
    lemma_due_is_sent(t, i);
}

/// Fast retransmission: a flight that more acknowledgments have passed over
/// than the threshold allows is transmitted by the next update, before its
/// deadline, with its timeout unchanged.
pub proof fn lemma_fast_retransmitted(s: State, now: u32, i: int)
    requires
        s.wf(),
        0 <= i < s.send_buf.len(),
        !s.send_buf[i].timed_out(now),
        s.send_buf[i].skip > s.cfg.fast_resend,
    ensures
        exists|k: int|
            0 <= k < s.ticked(now).outgoing().len() && {
                let out = #[trigger] s.ticked(now).outgoing()[k];
                &&& out.header.conv == s.conv
                &&& out.header.cmd == CMD_PSH
                &&& out.header.sn == s.send_buf[i].sn
                &&& out.data == s.send_buf[i].data
            },
        i < s.updated(now).send_buf.len(),
        s.updated(now).send_buf[i].xmit == bumped(s.send_buf[i].xmit),
        s.updated(now).send_buf[i].rto == s.send_buf[i].rto,
{
    lemma_ticked(s, now);
    let t = s.ticked(now);
    lemma_due_is_sent(t, i);
}

/// Retransmission reaches the peer: when a flight is past its deadline, the
/// datagrams that the update hands out carry its segment, and a peer of the
/// same connection that reads them, with the number in its window, has
/// received the piece afterwards.
pub proof fn lemma_retransmission_arrives(s: State, r: State, now: u32, i: int)
    requires
        s.wf(),
        r.wf(),
        r.conv == s.conv,
        0 <= i < s.send_buf.len(),
        s.send_buf[i].timed_out(now),
        r.received(s.send_buf[i].sn) || r.accepts(s.send_buf[i].sn),
    ensures
        reads(r, s.ticked(now).output()).received(s.send_buf[i].sn),
{
    lemma_ticked(s, now);
    let t = s.ticked(now);
    lemma_retransmitted(s, now, i);
    let k = choose|k: int|
        0 <= k < t.outgoing().len() && {
            let out = #[trigger] t.outgoing()[k];
            &&& out.header.conv == s.conv
            &&& out.header.cmd == CMD_PSH
            &&& out.header.sn == s.send_buf[i].sn
            &&& out.header.ts == now
            &&& out.data == s.send_buf[i].data
        };
    lemma_output_read_back(t, r);
    lemma_arrival_is_received(r, t.outgoing(), k);
}

} // verus!
