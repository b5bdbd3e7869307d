//! Every event leaves a well-formed connection well-formed.
use crate::message::{Segment, CMD_ACK, CMD_PSH, CMD_WASK, CMD_WINS};
use crate::seqs::{lemma_filter_leading, lemma_filter_order};
use crate::state::{
    below, boundary, chunk, from_una, held, lined_up, oldest, other_than, fragments, run, waiting,
    FlightView, PieceView, State,
};
use vstd::prelude::*;

verus! {

/// Flights stay lined up when some of them leave, and the oldest number does
/// not go down.
pub proof fn lemma_filter_lined_up(
    buf: Seq<FlightView>,
    pred: spec_fn(FlightView) -> bool,
    una: u32,
    nxt: u32,
)
    requires
        lined_up(buf, una, nxt),
    ensures
        lined_up(buf.filter(pred), oldest(buf.filter(pred), nxt), nxt),
        una <= oldest(buf.filter(pred), nxt),
        forall|i: int|
            0 <= i < buf.filter(pred).len() ==> pred(#[trigger] buf.filter(pred)[i])
                && buf.contains(buf.filter(pred)[i]),
{
    let kept = buf.filter(pred);
    lemma_filter_order(buf, pred);
    assert forall|i: int| 0 <= i < kept.len() implies una <= (#[trigger] kept[i]).sn < nxt by {
        assert(buf.contains(kept[i]));
        let a = choose|a: int| 0 <= a < buf.len() && buf[a] == kept[i];
        assert(una <= buf[a].sn < nxt);
    }
    assert forall|i: int, j: int| 0 <= i < j < kept.len() implies (#[trigger] kept[i]).sn < (
    #[trigger] kept[j]).sn by {
        let (a, b) = choose|a: int, b: int|
            0 <= a < b < buf.len() && buf[a] == kept[i] && buf[b] == kept[j];
        assert(buf[a].sn < buf[b].sn);
    }
    if kept.len() > 0 {
        assert(una <= kept[0].sn < nxt);
        assert forall|i: int| 0 <= i < kept.len() implies kept[0].sn <= (#[trigger] kept[i]).sn by {
            if i > 0 {
                assert(kept[0].sn < kept[i].sn);
            }
        }
    }
}

/// A cumulative acknowledgment keeps the connection sound and leaves no
/// flight below its number.
pub proof fn lemma_prune(s: State, una: u32)
    requires
        s.sound(),
    ensures
        s.prune(una).sound(),
        s.wf() ==> s.prune(una).wf(),
        s.snd_una <= s.prune(una).snd_una,
        forall|i: int|
            0 <= i < s.prune(una).send_buf.len() ==> (#[trigger] s.prune(una).send_buf[i]).sn
                >= una,
{
    lemma_filter_lined_up(s.send_buf, from_una(una), s.snd_una, s.snd_nxt);
    let kept = s.send_buf.filter(from_una(una));
    assert forall|i: int| 0 <= i < kept.len() implies (#[trigger] kept[i]).data.len()
        <= s.cfg.mss by {
        assert(s.send_buf.contains(kept[i]));
    }
}

/// An acknowledgment keeps the connection sound.
pub proof fn lemma_acknowledge(s: State, sn: u32, ts: u32)
    requires
        s.sound(),
    ensures
        s.acknowledge(sn, ts).sound(),
        s.wf() ==> s.acknowledge(sn, ts).wf(),
        s.snd_una <= s.acknowledge(sn, ts).snd_una,
{
    lemma_filter_lined_up(s.send_buf, other_than(sn), s.snd_una, s.snd_nxt);
    let kept = s.send_buf.filter(other_than(sn));
    assert forall|i: int| 0 <= i < kept.len() implies (#[trigger] kept[i]).data.len()
        <= s.cfg.mss by {
        assert(s.send_buf.contains(kept[i]));
    }
}

/// Counting an acknowledgment against the flights before it keeps the
/// connection sound.
pub proof fn lemma_pass_over(s: State, sn: u32)
    requires
        s.sound(),
    ensures
        s.pass_over(sn).sound(),
        s.wf() ==> s.pass_over(sn).wf(),
{
}

/// Where the pieces are ordered, those below a number are a prefix.
pub proof fn lemma_rank(buf: Seq<PieceView>, nxt: u32, wnd: u16, sn: u32)
    requires
        waiting(buf, nxt, wnd),
    ensures
        buf.filter(below(sn)).len() <= buf.len(),
        forall|i: int| 0 <= i < buf.filter(below(sn)).len() ==> (#[trigger] buf[i]).sn < sn,
        forall|i: int| buf.filter(below(sn)).len() <= i < buf.len() ==> (#[trigger] buf[i]).sn >= sn,
{
    assert forall|i: int, j: int| 0 <= i < j < buf.len() && below(sn)(#[trigger] buf[j]) implies below(
        sn,
    )(#[trigger] buf[i]) by {
        assert(buf[i].sn < buf[j].sn);
    }
    lemma_filter_leading(buf, below(sn));
    assert forall|i: int| 0 <= i < buf.filter(below(sn)).len() implies (#[trigger] buf[i]).sn
        < sn by {
        assert(below(sn)(buf[i]));
    }
    assert forall|i: int| buf.filter(below(sn)).len() <= i < buf.len() implies (
    #[trigger] buf[i]).sn >= sn by {
        assert(!below(sn)(buf[i]));
    }
}

/// Keeping a piece keeps the connection sound.
pub proof fn lemma_store(s: State, p: PieceView)
    requires
        s.sound(),
    ensures
        s.store(p).sound(),
{
    if s.accepts(p.sn) && !held(s.recv_buf, p.sn) {
        lemma_rank(s.recv_buf, s.rcv_nxt, s.cfg.rcv_wnd, p.sn);
        let k = s.recv_buf.filter(below(p.sn)).len() as int;
        let buf = s.recv_buf.insert(k, p);
        assert forall|i: int| k <= i < s.recv_buf.len() implies (#[trigger] s.recv_buf[i]).sn
            > p.sn by {
            assert(s.recv_buf[i].sn >= p.sn);
        }
        assert forall|i: int, j: int| 0 <= i < j < buf.len() implies (#[trigger] buf[i]).sn < (
        #[trigger] buf[j]).sn by {
            if i < k {
                assert(buf[i] == s.recv_buf[i]);
            } else if i > k {
                assert(buf[i] == s.recv_buf[i - 1]);
            }
            if j < k {
                assert(buf[j] == s.recv_buf[j]);
            } else if j > k {
                assert(buf[j] == s.recv_buf[j - 1]);
            }
        }
        assert forall|i: int| 0 <= i < buf.len() implies s.rcv_nxt <= (#[trigger] buf[i]).sn
            < s.rcv_nxt + s.cfg.rcv_wnd && buf[i].sn < u32::MAX by {
            if i < k {
                assert(buf[i] == s.recv_buf[i]);
            } else if i > k {
                assert(buf[i] == s.recv_buf[i - 1]);
            }
        }
    }
}

/// What the length of the run says: the first `run` pieces continue `nxt`
/// one by one, and the piece after them does not.
pub proof fn lemma_run(buf: Seq<PieceView>, nxt: int)
    ensures
        run(buf, nxt) <= buf.len(),
        forall|i: int| 0 <= i < run(buf, nxt) ==> (#[trigger] buf[i]).sn == nxt + i,
        run(buf, nxt) < buf.len() ==> buf[run(buf, nxt) as int].sn != nxt + run(buf, nxt),
    decreases buf.len(),
{
    if buf.len() > 0 && buf[0].sn == nxt {
        let rest = buf.skip(1);
        lemma_run(rest, nxt + 1);
        assert forall|i: int| 0 <= i < run(buf, nxt) implies (#[trigger] buf[i]).sn == nxt + i by {
            if i > 0 {
                assert(rest[i - 1] == buf[i]);
            }
        }
        if run(buf, nxt) < buf.len() {
            assert(rest[run(rest, nxt + 1) as int] == buf[run(buf, nxt) as int]);
        }
    }
}

/// The run is the one number of which [`lemma_run`] holds.
pub proof fn lemma_run_is(buf: Seq<PieceView>, nxt: int, k: int)
    requires
        0 <= k <= buf.len(),
        forall|i: int| 0 <= i < k ==> (#[trigger] buf[i]).sn == nxt + i,
        k < buf.len() ==> buf[k].sn != nxt + k,
    ensures
        run(buf, nxt) == k,
{
    lemma_run(buf, nxt);
    let r = run(buf, nxt) as int;
    if r < k {
        assert(buf[r].sn == nxt + r);
    } else if r > k {
        assert(buf[k].sn == nxt + k);
    }
}

/// Delivery makes a sound connection well-formed.
pub proof fn lemma_deliver(s: State)
    requires
        s.sound(),
    ensures
        s.deliver().wf(),
        s.deliver().rcv_nxt == s.rcv_nxt + run(s.recv_buf, s.rcv_nxt as int),
        s.wf() ==> s.deliver() == s,
{
    lemma_run(s.recv_buf, s.rcv_nxt as int);
    let k = run(s.recv_buf, s.rcv_nxt as int) as int;
    let t = s.deliver();
    if k > 0 {
        assert(s.recv_buf[k - 1].sn == s.rcv_nxt + k - 1);
    }
    assert(t.rcv_nxt == s.rcv_nxt + k);
    assert forall|i: int| 0 <= i < t.recv_buf.len() implies t.rcv_nxt < (#[trigger] t.recv_buf[i]).sn
        < t.rcv_nxt + t.cfg.rcv_wnd && t.recv_buf[i].sn < u32::MAX by {
        assert(t.recv_buf[i] == s.recv_buf[i + k]);
        assert(t.recv_buf[0] == s.recv_buf[k]);
        if k > 0 {
            assert(s.recv_buf[k - 1].sn < s.recv_buf[i + k].sn);
        }
        if i > 0 {
            assert(s.recv_buf[k].sn < s.recv_buf[i + k].sn);
        }
    }
    assert forall|i: int, j: int| 0 <= i < j < t.recv_buf.len() implies (
    #[trigger] t.recv_buf[i]).sn < (#[trigger] t.recv_buf[j]).sn by {
        assert(t.recv_buf[i] == s.recv_buf[i + k]);
        assert(t.recv_buf[j] == s.recv_buf[j + k]);
    }
    assert forall|i: int| 0 <= i < t.recv_queue.len() implies (#[trigger] t.recv_queue[i]).sn
        == t.rcv_nxt - t.recv_queue.len() + i by {
        if i < s.recv_queue.len() {
            assert(t.recv_queue[i] == s.recv_queue[i]);
        } else {
            assert(t.recv_queue[i] == s.recv_buf[i - s.recv_queue.len()]);
        }
    }
    if s.wf() {
        if s.recv_buf.len() > 0 {
            assert(s.recv_buf[0].sn != s.rcv_nxt);
        }
        assert(k == 0);
        assert(t.recv_queue =~= s.recv_queue);
        assert(t.recv_buf =~= s.recv_buf);
    }
}

/// A data segment leaves a well-formed connection well-formed.
pub proof fn lemma_on_push(s: State, sn: u32, frg: u8, ts: u32, data: Seq<u8>)
    requires
        s.wf(),
    ensures
        s.on_push(sn, frg, ts, data).wf(),
{
    let t = State { acks: s.acks.push(crate::state::AckNote { sn, ts }), ..s };
    lemma_store(t, PieceView { sn, frg, data });
    lemma_deliver(t.store(PieceView { sn, frg, data }));
}

/// One segment leaves a well-formed connection well-formed.
pub proof fn lemma_on_segment(s: State, seg: Segment)
    requires
        s.wf(),
    ensures
        s.on_segment(seg).wf(),
{
    let h = seg.header;
    if h.conv != s.conv {
    } else if h.cmd == CMD_ACK {
        lemma_acknowledge(s, h.sn, h.ts);
        lemma_prune(s.acknowledge(h.sn, h.ts), h.una);
        lemma_pass_over(s.acknowledge(h.sn, h.ts).prune(h.una), h.sn);
    } else if h.cmd == CMD_PSH {
        lemma_prune(s, h.una);
        lemma_on_push(s.prune(h.una), h.sn, h.frg, h.ts, seg.data);
    } else if h.cmd == CMD_WASK {
        lemma_prune(s, h.una);
    } else if h.cmd == CMD_WINS {
        lemma_prune(s, h.una);
    }
}

/// Any segments, in any order, leave a well-formed connection well-formed.
pub proof fn lemma_on_segments(s: State, segs: Seq<Segment>)
    requires
        s.wf(),
    ensures
        s.on_segments(segs).wf(),
    decreases segs.len(),
{
    if segs.len() > 0 {
        lemma_on_segment(s, segs[0]);
        lemma_on_segments(s.on_segment(segs[0]), segs.skip(1));
    }
}

/// A flush moves no more pieces than wait and than the budget leaves room
/// for, and leaves the connection well-formed.
pub proof fn lemma_dispatch(s: State)
    requires
        s.wf(),
    ensures
        s.dispatch().wf(),
        0 <= s.room() <= s.send_queue.len(),
        s.snd_nxt + s.room() <= u32::MAX,
        s.room() > 0 ==> s.in_flight() + s.room() <= s.budget(),
        s.dispatch().snd_una == s.snd_una,
        s.dispatch().snd_nxt == s.snd_nxt + s.room(),
{
    let n = s.room();
    let t = s.dispatch();
    assert forall|i: int| 0 <= i < t.send_buf.len() implies s.snd_una <= (#[trigger] t.send_buf[i]).sn
        < t.snd_nxt && t.send_buf[i].data.len() <= s.cfg.mss by {
        if i < s.send_buf.len() {
            assert(t.send_buf[i] == s.send_buf[i]);
        } else {
            assert(t.send_buf[i].sn == s.snd_nxt + (i - s.send_buf.len()));
            assert(t.send_buf[i].data == s.send_queue[i - s.send_buf.len()].data);
        }
    }
    assert forall|i: int, j: int| 0 <= i < j < t.send_buf.len() implies (#[trigger] t.send_buf[i]).sn
        < (#[trigger] t.send_buf[j]).sn by {
        if j < s.send_buf.len() {
            assert(t.send_buf[i] == s.send_buf[i] && t.send_buf[j] == s.send_buf[j]);
        } else if i < s.send_buf.len() {
            assert(t.send_buf[i] == s.send_buf[i]);
            assert(t.send_buf[j].sn == s.snd_nxt + (j - s.send_buf.len()));
        } else {
            assert(t.send_buf[i].sn == s.snd_nxt + (i - s.send_buf.len()));
            assert(t.send_buf[j].sn == s.snd_nxt + (j - s.send_buf.len()));
        }
    }
    if t.send_buf.len() > 0 {
        if s.send_buf.len() > 0 {
            assert(t.send_buf[0] == s.send_buf[0]);
        } else {
            assert(t.send_buf[0].sn == s.snd_nxt);
        }
    }
    assert forall|i: int| 0 <= i < t.send_queue.len() implies (#[trigger] t.send_queue[i]).data.len()
        <= s.cfg.mss by {
        assert(t.send_queue[i] == s.send_queue[i + n]);
    }
}

/// Transmitting what waits leaves the connection well-formed.
pub proof fn lemma_settled(s: State)
    requires
        s.wf(),
    ensures
        s.settled().wf(),
{
}

/// A flush leaves the connection well-formed.
pub proof fn lemma_flushed(s: State)
    requires
        s.wf(),
    ensures
        s.flushed().wf(),
{
    lemma_dispatch(s);
    lemma_settled(s.dispatch());
}

/// A tick leaves the connection well-formed.
pub proof fn lemma_ticked(s: State, now: u32)
    requires
        s.wf(),
    ensures
        s.retransmit(now).wf(),
        s.ticked(now).wf(),
{
}

/// An update leaves the connection well-formed.
pub proof fn lemma_updated(s: State, now: u32)
    requires
        s.wf(),
    ensures
        s.updated(now).wf(),
{
    lemma_ticked(s, now);
    lemma_flushed(s.ticked(now));
}

/// Where in a message its `j`-th piece starts and ends.
pub proof fn lemma_chunk_bounds(len: int, mss: int, j: int)
    requires
        mss > 0,
        len >= 0,
        0 <= j < fragments(len, mss),
    ensures
        0 <= j * mss <= len,
        (j + 1) * mss == j * mss + mss,
        j < fragments(len, mss) - 1 ==> (j + 1) * mss < len,
        j == fragments(len, mss) - 1 ==> (j + 1) * mss >= len,
{
    assert((j + 1) * mss == j * mss + mss) by (nonlinear_arith);
    assert(0 <= j * mss) by (nonlinear_arith)
        requires
            0 <= j,
            mss > 0,
    ;
    if len > 0 {
        let q = (len - 1) / mss;
        assert(q * mss <= len - 1 < (q + 1) * mss) by (nonlinear_arith)
            requires
                q == (len - 1) / mss,
                mss > 0,
                len >= 1,
        ;
        assert(j * mss <= q * mss) by (nonlinear_arith)
            requires
                0 <= j <= q,
                mss > 0,
        ;
        if j < q {
            assert((j + 1) * mss <= q * mss) by (nonlinear_arith)
                requires
                    0 <= j + 1 <= q,
                    mss > 0,
            ;
        }
    }
}

/// A message that is queued leaves the connection well-formed.
pub proof fn lemma_queued(s: State, data: Seq<u8>)
    requires
        s.wf(),
    ensures
        s.queued(data).wf(),
{
    let t = s.queued(data);
    let mss = s.cfg.mss as int;
    assert forall|i: int| 0 <= i < t.send_queue.len() implies (#[trigger] t.send_queue[i]).data.len()
        <= s.cfg.mss by {
        if i < s.send_queue.len() {
            assert(t.send_queue[i] == s.send_queue[i]);
        } else {
            let j = i - s.send_queue.len();
            assert(t.send_queue[i] == chunk(data, mss, j));
            lemma_chunk_bounds(data.len() as int, mss, j);
        }
    }
}

/// What the boundary says: no piece before it ends a message, and the piece
/// at it does.
pub proof fn lemma_boundary(queue: Seq<PieceView>)
    ensures
        0 <= boundary(queue) <= queue.len(),
        forall|i: int| 0 <= i < boundary(queue) ==> (#[trigger] queue[i]).frg != 0,
        boundary(queue) < queue.len() ==> queue[boundary(queue)].frg == 0,
    decreases queue.len(),
{
    if queue.len() > 0 && queue[0].frg != 0 {
        let rest = queue.skip(1);
        lemma_boundary(rest);
        assert forall|i: int| 0 <= i < boundary(queue) implies (#[trigger] queue[i]).frg != 0 by {
            if i > 0 {
                assert(rest[i - 1] == queue[i]);
            }
        }
        if boundary(queue) < queue.len() {
            assert(rest[boundary(rest)] == queue[boundary(queue)]);
        }
    }
}

/// The boundary is the one position of which [`lemma_boundary`] holds.
pub proof fn lemma_boundary_is(queue: Seq<PieceView>, k: int)
    requires
        0 <= k <= queue.len(),
        forall|i: int| 0 <= i < k ==> (#[trigger] queue[i]).frg != 0,
        k < queue.len() ==> queue[k].frg == 0,
    ensures
        boundary(queue) == k,
{
    lemma_boundary(queue);
    let b = boundary(queue);
    if b < k {
        assert(queue[b].frg != 0);
    } else if b > k {
        assert(queue[k].frg != 0);
    }
}

/// Taking a message out leaves the connection well-formed.
pub proof fn lemma_taken(s: State)
    requires
        s.wf(),
        s.readable(),
    ensures
        s.taken().wf(),
{
    lemma_boundary(s.recv_queue);
    let k = boundary(s.recv_queue) + 1;
    let t = s.taken();
    assert forall|i: int| 0 <= i < t.recv_queue.len() implies (#[trigger] t.recv_queue[i]).sn
        == t.rcv_nxt - t.recv_queue.len() + i by {
        assert(t.recv_queue[i] == s.recv_queue[i + k]);
    }
}

} // verus!
