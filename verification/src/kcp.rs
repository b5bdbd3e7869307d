//! The engine: one connection, driven by `send`, `recv`, `input` and `update`.
use crate::batch::{byte_views, pack_segments};
use crate::config::Config;
use crate::message::{
    append_bytes, frame, segments_in, Header, Message, ParseError, CMD_ACK, CMD_PSH, CMD_WASK,
    CMD_WINS,
};
use crate::preserve::{
    lemma_acknowledge, lemma_boundary_is, lemma_chunk_bounds, lemma_deliver, lemma_dispatch,
    lemma_flushed, lemma_on_segment, lemma_prune, lemma_queued, lemma_run_is, lemma_store,
    lemma_taken, lemma_ticked,
};
use crate::rtt::Rtt;
use crate::seqs::{lemma_filter_one_out, lemma_filter_prefix, lemma_filter_suffix};
use crate::state::{
    ack_of, below, boundary, chunk, chunks, consecutive, deadline, flying, flying_once, fragments,
    from_una, held, is_due, joined, launched, lined_up, numbers, other_than, passing, push_of,
    retrying, run, sending, stamp, waiting, wire, AckNote, ChunkView, FlightView, KcpError,
    PieceView, State, FRAGMENTS_MAX, SSTHRESH_MIN,
};
use std::collections::VecDeque;
use vstd::prelude::*;

verus! {

/// A piece of a message in the send queue.
pub(crate) struct Chunk {
    pub(crate) frg: u8,
    pub(crate) data: Vec<u8>,
}

/// A data segment that was received.
pub(crate) struct Piece {
    pub(crate) sn: u32,
    pub(crate) frg: u8,
    pub(crate) data: Vec<u8>,
}

/// A data segment in flight, with what its retransmission goes by.
pub(crate) struct Flight {
    pub(crate) sn: u32,
    pub(crate) frg: u8,
    pub(crate) ts: u32,
    pub(crate) data: Vec<u8>,
    pub(crate) resend_at: u32,
    pub(crate) rto: u32,
    pub(crate) xmit: u32,
    pub(crate) skip: u32,
    pub(crate) due: bool,
}

impl View for Chunk {
    type V = ChunkView;

    closed spec fn view(&self) -> ChunkView {
        ChunkView { frg: self.frg, data: self.data@ }
    }
}

impl View for Piece {
    type V = PieceView;

    closed spec fn view(&self) -> PieceView {
        PieceView { sn: self.sn, frg: self.frg, data: self.data@ }
    }
}

impl View for Flight {
    type V = FlightView;

    closed spec fn view(&self) -> FlightView {
        FlightView {
            sn: self.sn,
            frg: self.frg,
            ts: self.ts,
            data: self.data@,
            resend_at: self.resend_at,
            rto: self.rto,
            xmit: self.xmit,
            skip: self.skip,
            due: self.due,
        }
    }
}

/// The send queue as a mathematical value.
pub(crate) closed spec fn chunk_views(s: Seq<Chunk>) -> Seq<ChunkView> {
    s.map_values(|c: Chunk| c@)
}

/// A receive buffer as a mathematical value.
pub(crate) closed spec fn piece_views(s: Seq<Piece>) -> Seq<PieceView> {
    s.map_values(|p: Piece| p@)
}

/// The send buffer as a mathematical value.
pub(crate) closed spec fn flight_views(s: Seq<Flight>) -> Seq<FlightView> {
    s.map_values(|f: Flight| f@)
}

/// One connection.
///
/// Sequence numbers and the clock are 32-bit values that do not wrap: the
/// clock is whatever the caller passes to [`Kcp::update`], and a connection
/// stops sending new data once it has used the sequence numbers below
/// `u32::MAX`.
pub struct Kcp {
    conv: u32,
    cfg: Config,
    now: u32,
    snd_queue: VecDeque<Chunk>,
    snd_buf: Vec<Flight>,
    recv_queue: Vec<Piece>,
    recv_buf: Vec<Piece>,
    snd_nxt: u32,
    snd_una: u32,
    rcv_nxt: u32,
    rmt_wnd: u16,
    cwnd: u32,
    ssthresh: u32,
    rtt: Rtt,
    acks: Vec<AckNote>,
    wins_due: bool,
    wask_due: bool,
    acked: bool,
}

impl View for Kcp {
    type V = State;

    closed spec fn view(&self) -> State {
        State {
            conv: self.conv,
            cfg: self.cfg,
            now: self.now,
            send_queue: chunk_views(self.snd_queue@),
            send_buf: flight_views(self.snd_buf@),
            recv_buf: piece_views(self.recv_buf@),
            recv_queue: piece_views(self.recv_queue@),
            snd_nxt: self.snd_nxt,
            snd_una: self.snd_una,
            rcv_nxt: self.rcv_nxt,
            rmt_wnd: self.rmt_wnd,
            cwnd: self.cwnd,
            ssthresh: self.ssthresh,
            rtt: self.rtt,
            acks: self.acks@,
            wins_due: self.wins_due,
            wask_due: self.wask_due,
            acked: self.acked,
        }
    }
}

/// Position of the first flight numbered `una` or above.
fn first_from(buf: &Vec<Flight>, una: u32) -> (k: usize)
    ensures
        k <= buf.len(),
        forall|i: int| 0 <= i < k ==> (#[trigger] buf[i]).sn < una,
        k < buf.len() ==> buf[k as int].sn >= una,
{
    let mut k: usize = 0;
    while k < buf.len() && buf[k].sn < una
        invariant
            k <= buf.len(),
            forall|i: int| 0 <= i < k ==> (#[trigger] buf[i]).sn < una,
        decreases buf.len() - k,
    {
        k += 1;
    }
    k
}

/// Position of the flight numbered `sn`, or the length of `buf`.
fn position_of(buf: &Vec<Flight>, sn: u32) -> (k: usize)
    ensures
        k <= buf.len(),
        forall|i: int| 0 <= i < k ==> (#[trigger] buf[i]).sn != sn,
        k < buf.len() ==> buf[k as int].sn == sn,
{
    let mut k: usize = 0;
    while k < buf.len() && buf[k].sn != sn
        invariant
            k <= buf.len(),
            forall|i: int| 0 <= i < k ==> (#[trigger] buf[i]).sn != sn,
        decreases buf.len() - k,
    {
        k += 1;
    }
    k
}

/// Counts an acknowledgment of `sn` against every flight before it.
fn pass_over_flights(buf: &mut Vec<Flight>, sn: u32, threshold: u32)
    ensures
        flight_views(final(buf)@) == flight_views(old(buf)@).map_values(passing(sn, threshold)),
{
    let ghost before = flight_views(buf@);
    let ghost step = passing(sn, threshold);
    let mut i: usize = 0;
    while i < buf.len()
        invariant
            i <= buf.len(),
            buf.len() == before.len(),
            step == passing(sn, threshold),
            forall|j: int| 0 <= j < i ==> (#[trigger] buf[j])@ == step(before[j]),
            forall|j: int| i <= j < buf.len() ==> (#[trigger] buf[j])@ == before[j],
        decreases buf.len() - i,
    {
        let ghost was = buf@;
        if buf[i].sn < sn {
            if buf[i].skip < u32::MAX {
                buf[i].skip = buf[i].skip + 1;
            }
            if buf[i].skip > threshold {
                buf[i].due = true;
            }
        }
        proof {
            assert(was[i as int]@ == before[i as int]);
            assert(buf[i as int]@ == step(before[i as int]));
            assert forall|j: int| 0 <= j < buf.len() && j != i implies buf[j] == was[j] by {}
        }
        i += 1;
    }
    assert(flight_views(buf@) =~= before.map_values(step));
}

/// Number of leading pieces that continue `nxt` without a gap.
fn run_length(buf: &Vec<Piece>, nxt: u32) -> (k: usize)
    ensures
        k == run(piece_views(buf@), nxt as int),
        k <= buf.len(),
{
    let mut k: usize = 0;
    while k < buf.len() && buf[k].sn >= nxt && (buf[k].sn - nxt) as usize == k
        invariant
            k <= buf.len(),
            forall|i: int| 0 <= i < k ==> (#[trigger] buf[i]).sn == nxt + i,
        decreases buf.len() - k,
    {
        k += 1;
    }
    proof {
        let views = piece_views(buf@);
        assert forall|i: int| 0 <= i < k implies (#[trigger] views[i]).sn == nxt + i by {
            assert(buf[i].sn == nxt + i);
        }
        lemma_run_is(views, nxt as int, k as int);
    }
    k
}

/// Place of a piece numbered `sn` among the pieces kept, and whether one so
/// numbered is kept already.
fn place_of(buf: &Vec<Piece>, sn: u32) -> (r: (usize, bool))
    requires
        forall|i: int, j: int|
            0 <= i < j < buf.len() ==> (#[trigger] buf[i]).sn < (#[trigger] buf[j]).sn,
    ensures
        r.0 == piece_views(buf@).filter(below(sn)).len(),
        r.0 <= buf.len(),
        r.1 == held(piece_views(buf@), sn),
{
    let mut i: usize = buf.len();
    while i > 0 && buf[i - 1].sn >= sn
        invariant
            i <= buf.len(),
            forall|j: int| i <= j < buf.len() ==> (#[trigger] buf[j]).sn >= sn,
        decreases i,
    {
        i -= 1;
    }
    let found = i < buf.len() && buf[i].sn == sn;
    proof {
        let views = piece_views(buf@);
        assert forall|j: int| 0 <= j < i implies below(sn)(#[trigger] views[j]) by {
            assert(buf[i - 1].sn < sn);
            if j < i - 1 {
                assert(buf[j].sn < buf[i - 1].sn);
            }
        }
        assert forall|j: int| i <= j < views.len() implies !below(sn)(#[trigger] views[j]) by {
            assert(buf[j].sn >= sn);
        }
        lemma_filter_prefix(views, below(sn), i as int);
        if found {
            assert(views[i as int].sn == sn);
        } else {
            assert forall|j: int| 0 <= j < views.len() implies (#[trigger] views[j]).sn != sn by {
                if j < i {
                    assert(below(sn)(views[j]));
                } else if j > i {
                    assert(buf[i as int].sn < buf[j].sn);
                    assert(buf[i as int].sn >= sn);
                } else {
                    assert(buf[j].sn >= sn);
                }
            }
        }
    }
    (i, found)
}

/// `now + rto`, held at the largest clock value.
fn deadline_at(now: u32, rto: u32) -> (r: u32)
    ensures
        r == deadline(now, rto),
{
    if rto > u32::MAX - now {
        u32::MAX
    } else {
        now + rto
    }
}

/// Moves the first `n` pieces of `queue` into flight, numbered from `first`.
fn launch_chunks(
    queue: &mut VecDeque<Chunk>,
    buf: &mut Vec<Flight>,
    n: u32,
    first: u32,
    now: u32,
    rto: u32,
)
    requires
        n <= old(queue).len(),
        first + n <= u32::MAX,
    ensures
        chunk_views(final(queue)@) == chunk_views(old(queue)@).skip(n as int),
        flight_views(final(buf)@) == flight_views(old(buf)@) + Seq::new(
            n as nat,
            |j: int| launched(chunk_views(old(queue)@)[j], (first + j) as u32, now, rto),
        ),
{
    let ghost ahead = chunk_views(queue@);
    let ghost aloft = flight_views(buf@);
    let resend_at = deadline_at(now, rto);
    let mut j: u32 = 0;
    assert(chunk_views(queue@) =~= ahead.skip(0));
    while j < n
        invariant
            j <= n,
            n <= ahead.len(),
            first + n <= u32::MAX,
            resend_at == deadline(now, rto),
            chunk_views(queue@) == ahead.skip(j as int),
            buf.len() == aloft.len() + j,
            forall|i: int| 0 <= i < aloft.len() ==> (#[trigger] buf[i])@ == aloft[i],
            forall|i: int|
                aloft.len() <= i < buf.len() ==> (#[trigger] buf[i])@ == launched(
                    ahead[i - aloft.len()],
                    (first + (i - aloft.len())) as u32,
                    now,
                    rto,
                ),
        decreases n - j,
    {
        let ghost left = queue@;
        assert(chunk_views(left).len() == ahead.len() - j);
        assert(left.len() == chunk_views(left).len());
        match queue.pop_front() {
            Some(chunk) => {
                assert(chunk@ == chunk_views(left)[0]);
                buf.push(
                    Flight {
                        sn: first + j,
                        frg: chunk.frg,
                        ts: now,
                        data: chunk.data,
                        resend_at,
                        rto,
                        xmit: 1,
                        skip: 0,
                        due: true,
                    },
                );
            },
            None => {},
        }
        assert(queue@ =~= left.skip(1));
        assert forall|i: int| 0 <= i < queue@.len() implies chunk_views(queue@)[i]
            == ahead.skip(j + 1)[i] by {
            assert(queue@[i] == left[i + 1]);
            assert(chunk_views(left)[i + 1] == ahead.skip(j as int)[i + 1]);
        }
        assert(chunk_views(queue@) =~= ahead.skip(j + 1));
        j += 1;
    }
    assert(flight_views(buf@) =~= aloft + Seq::new(
        n as nat,
        |j: int| launched(ahead[j], (first + j) as u32, now, rto),
    ));
}

/// Encodes the acknowledgments that wait.
fn encode_acks(acks: &Vec<AckNote>, conv: u32, wnd: u16, una: u32, out: &mut Vec<Vec<u8>>)
    ensures
        byte_views(final(out)@) == byte_views(old(out)@) + wire(
            acks@.map_values(ack_of(conv, wnd, una)),
        ),
{
    let ghost done = byte_views(out@);
    let mut i: usize = 0;
    assert(byte_views(out@) =~= done + wire(acks@.take(0).map_values(ack_of(conv, wnd, una))));
    while i < acks.len()
        invariant
            i <= acks.len(),
            byte_views(out@) == done + wire(
                acks@.take(i as int).map_values(ack_of(conv, wnd, una)),
            ),
        decreases acks.len() - i,
    {
        let header = Header {
            conv,
            cmd: CMD_ACK,
            frg: 0,
            wnd,
            ts: acks[i].ts,
            sn: acks[i].sn,
            una,
            len: 0,
            opt: 0,
        };
        let ghost so_far = byte_views(out@);
        let bytes = Message::Ack(header).encode();
        out.push(bytes);
        proof {
            let f = ack_of(conv, wnd, una);
            assert(header == stamp(conv, wnd, una, CMD_ACK, 0, acks[i as int].ts, acks[i as int].sn, 0));
            assert(Message::Ack(header)@ == f(acks[i as int]));
            assert(acks@.take(i + 1) =~= acks@.take(i as int).push(acks[i as int]));
            assert(byte_views(out@) =~= so_far.push(f(acks[i as int]).bytes()));
            assert(wire(acks@.take(i + 1).map_values(f)) =~= wire(
                acks@.take(i as int).map_values(f),
            ).push(f(acks[i as int]).bytes()));
            assert(byte_views(out@) =~= done + wire(acks@.take(i + 1).map_values(f)));
        }
        i += 1;
    }
    assert(acks@.take(i as int) =~= acks@);
}

/// Encodes the flights that are due, and marks them as sent.
fn encode_due(buf: &mut Vec<Flight>, conv: u32, wnd: u16, una: u32, out: &mut Vec<Vec<u8>>)
    requires
        forall|i: int| 0 <= i < old(buf).len() ==> (#[trigger] old(buf)[i]).data.len() <= u32::MAX,
    ensures
        byte_views(final(out)@) == byte_views(old(out)@) + wire(
            flight_views(old(buf)@).filter(is_due()).map_values(push_of(conv, wnd, una)),
        ),
        flight_views(final(buf)@) == flight_views(old(buf)@).map_values(sending()),
{
    let ghost done = byte_views(out@);
    let ghost before = flight_views(buf@);
    let mut i: usize = 0;
    proof {
        assert(before.take(0) =~= Seq::<FlightView>::empty());
        crate::seqs::lemma_filter_drops_all(before.take(0), is_due());
        assert(byte_views(out@) =~= done + wire(
            before.take(0).filter(is_due()).map_values(push_of(conv, wnd, una)),
        ));
    }
    while i < buf.len()
        invariant
            i <= buf.len(),
            buf.len() == before.len(),
            forall|j: int| 0 <= j < i ==> (#[trigger] buf[j])@ == sending()(before[j]),
            forall|j: int| i <= j < buf.len() ==> (#[trigger] buf[j])@ == before[j],
            forall|j: int| 0 <= j < buf.len() ==> (#[trigger] buf[j]).data.len() <= u32::MAX,
            byte_views(out@) == done + wire(
                before.take(i as int).filter(is_due()).map_values(push_of(conv, wnd, una)),
            ),
        decreases buf.len() - i,
    {
        let ghost was = buf@;
        let ghost so_far = byte_views(out@);
        let ghost f = push_of(conv, wnd, una);
        proof {
            assert(before.take(i + 1) =~= before.take(i as int).push(before[i as int]));
            before.take(i as int).lemma_filter_push(before[i as int], is_due());
        }
        if buf[i].due {
            let header = Header {
                conv,
                cmd: CMD_PSH,
                frg: buf[i].frg,
                wnd,
                ts: buf[i].ts,
                sn: buf[i].sn,
                una,
                len: buf[i].data.len() as u32,
                opt: 0,
            };
            let bytes = frame(&header, buf[i].data.as_slice());
            out.push(bytes);
            buf[i].due = false;
            proof {
                assert(was[i as int]@ == before[i as int]);
                assert(f(before[i as int]).bytes() == bytes@);
                assert(byte_views(out@) =~= so_far.push(f(before[i as int]).bytes()));
                assert(wire(before.take(i + 1).filter(is_due()).map_values(f)) =~= wire(
                    before.take(i as int).filter(is_due()).map_values(f),
                ).push(f(before[i as int]).bytes()));
                assert(byte_views(out@) =~= done + wire(
                    before.take(i + 1).filter(is_due()).map_values(f),
                ));
            }
        }
        proof {
            assert(was[i as int]@ == before[i as int]);
            assert(buf[i as int]@ == sending()(before[i as int]));
            assert forall|j: int| 0 <= j < buf.len() && j != i implies buf[j] == was[j] by {}
        }
        i += 1;
    }
    assert(before.take(i as int) =~= before);
    assert(flight_views(buf@) =~= before.map_values(sending()));
}

/// Looks at every flight when the clock shows `now`, and tells whether one
/// was past its deadline.
fn retry_flights(buf: &mut Vec<Flight>, now: u32, cfg: &Config) -> (lost: bool)
    ensures
        flight_views(final(buf)@) == flight_views(old(buf)@).map_values(retrying(now, *cfg)),
        lost <==> exists|i: int|
            0 <= i < old(buf).len() && (#[trigger] flight_views(old(buf)@)[i]).timed_out(now),
{
    let ghost before = flight_views(buf@);
    let mut lost = false;
    let mut i: usize = 0;
    while i < buf.len()
        invariant
            i <= buf.len(),
            buf.len() == before.len(),
            forall|j: int| 0 <= j < i ==> (#[trigger] buf[j])@ == retrying(now, *cfg)(before[j]),
            forall|j: int| i <= j < buf.len() ==> (#[trigger] buf[j])@ == before[j],
            lost <==> exists|j: int| 0 <= j < i && (#[trigger] before[j]).timed_out(now),
        decreases buf.len() - i,
    {
        let ghost was = buf@;
        assert(was[i as int]@ == before[i as int]);
        if buf[i].resend_at <= now {
            lost = true;
            let rto: u32 = if 2 * (buf[i].rto as u64) > cfg.rto_max as u64 {
                cfg.rto_max
            } else {
                2 * buf[i].rto
            };
            buf[i].ts = now;
            if buf[i].xmit < u32::MAX {
                buf[i].xmit = buf[i].xmit + 1;
            }
            buf[i].rto = rto;
            buf[i].resend_at = deadline_at(now, rto);
            buf[i].skip = 0;
            buf[i].due = true;
        } else if buf[i].skip > cfg.fast_resend {
            buf[i].ts = now;
            if buf[i].xmit < u32::MAX {
                buf[i].xmit = buf[i].xmit + 1;
            }
            buf[i].resend_at = deadline_at(now, buf[i].rto);
            buf[i].skip = 0;
            buf[i].due = true;
        }
        proof {
            assert(buf[i as int]@ == before[i as int].retry(now, *cfg));
            assert forall|j: int| 0 <= j < buf.len() && j != i implies buf[j] == was[j] by {}
            if before[i as int].timed_out(now) {
                assert(lost);
            }
        }
        i += 1;
    }
    assert(flight_views(buf@) =~= before.map_values(retrying(now, *cfg)));
    lost
}

/// Cuts `data` into `n` pieces of `mss` bytes (fewer at the end) and appends
/// them to `queue`.
fn cut(data: &[u8], mss: usize, n: usize, queue: &mut VecDeque<Chunk>)
    requires
        mss > 0,
        n == fragments(data@.len() as int, mss as int),
        n <= FRAGMENTS_MAX,
    ensures
        chunk_views(final(queue)@) == chunk_views(old(queue)@) + chunks(data@, mss as int),
{
    let ghost before = chunk_views(queue@);
    let ghost all = chunks(data@, mss as int);
    let mut j: usize = 0;
    let mut start: usize = 0;
    assert(chunk_views(queue@) =~= before + all.take(0));
    assert(0 * mss == 0) by (nonlinear_arith);
    while j < n
        invariant
            j <= n,
            mss > 0,
            n == fragments(data@.len() as int, mss as int),
            n <= FRAGMENTS_MAX,
            all == chunks(data@, mss as int),
            j < n ==> start == j * mss,
            chunk_views(queue@) == before + all.take(j as int),
        decreases n - j,
    {
        proof {
            lemma_chunk_bounds(data@.len() as int, mss as int, j as int);
        }
        let end: usize = if data.len() - start > mss {
            start + mss
        } else {
            data.len()
        };
        let piece = vstd::slice::slice_to_vec(vstd::slice::slice_subrange(data, start, end));
        let ghost so_far = chunk_views(queue@);
        let made = Chunk { frg: (n - 1 - j) as u8, data: piece };
        proof {
            assert(made@ == chunk(data@, mss as int, j as int));
            assert(all.take(j + 1) =~= all.take(j as int).push(all[j as int]));
        }
        queue.push_back(made);
        assert(chunk_views(queue@) =~= so_far.push(chunk(data@, mss as int, j as int)));
        assert(chunk_views(queue@) =~= before + all.take(j + 1));
        start = end;
        j += 1;
    }
    assert(all.take(j as int) =~= all);
}

/// Position of the first piece that ends a message, or the length of
/// `queue`.
fn boundary_of(queue: &Vec<Piece>) -> (k: usize)
    ensures
        k == boundary(piece_views(queue@)),
        k <= queue.len(),
{
    let mut k: usize = 0;
    while k < queue.len() && queue[k].frg != 0
        invariant
            k <= queue.len(),
            forall|i: int| 0 <= i < k ==> (#[trigger] queue[i]).frg != 0,
        decreases queue.len() - k,
    {
        k += 1;
    }
    proof {
        let views = piece_views(queue@);
        assert forall|i: int| 0 <= i < k implies (#[trigger] views[i]).frg != 0 by {
            assert(queue[i].frg != 0);
        }
        lemma_boundary_is(views, k as int);
    }
    k
}

/// The payloads of `pieces`, one after the other.
fn join(pieces: &Vec<Piece>) -> (out: Vec<u8>)
    ensures
        out@ == joined(piece_views(pieces@)),
{
    let ghost views = piece_views(pieces@);
    let mut out: Vec<u8> = Vec::new();
    let mut i: usize = 0;
    assert(views.take(0) =~= Seq::<PieceView>::empty());
    while i < pieces.len()
        invariant
            i <= pieces.len(),
            views == piece_views(pieces@),
            out@ == joined(views.take(i as int)),
        decreases pieces.len() - i,
    {
        append_bytes(&mut out, pieces[i].data.as_slice());
        proof {
            let next = views.take(i + 1);
            assert(next.drop_last() =~= views.take(i as int));
            assert(next.last() == pieces[i as int]@);
        }
        i += 1;
    }
    assert(views.take(i as int) =~= views);
    out
}

/// Tells whether the flights are lined up between `una` and `nxt` and none
/// carries more than `mss` bytes.
fn flights_in_order(buf: &Vec<Flight>, una: u32, nxt: u32, mss: u32) -> (r: bool)
    ensures
        r == (lined_up(flight_views(buf@), una, nxt) && forall|i: int|
            0 <= i < buf.len() ==> (#[trigger] flight_views(buf@)[i]).data.len() <= mss),
{
    let ghost views = flight_views(buf@);
    if una > nxt {
        return false;
    }
    if buf.len() == 0 {
        return una == nxt;
    }
    if buf[0].sn != una {
        assert(views[0].sn != una);
        return false;
    }
    let mut i: usize = 0;
    while i < buf.len()
        invariant
            i <= buf.len(),
            views == flight_views(buf@),
            forall|j: int| 0 <= j < i ==> una <= (#[trigger] views[j]).sn < nxt,
            forall|j: int| 0 <= j < i ==> (#[trigger] views[j]).data.len() <= mss,
            forall|j: int, k: int|
                0 <= j < k < i ==> (#[trigger] views[j]).sn < (#[trigger] views[k]).sn,
        decreases buf.len() - i,
    {
        if buf[i].sn < una || buf[i].sn >= nxt {
            assert(!(una <= views[i as int].sn < nxt));
            return false;
        }
        if buf[i].data.len() > mss as usize {
            assert(views[i as int].data.len() > mss);
            return false;
        }
        if i > 0 && buf[i - 1].sn >= buf[i].sn {
            assert(!(views[i - 1].sn < views[i as int].sn));
            return false;
        }
        proof {
            assert forall|j: int| 0 <= j < i implies (#[trigger] views[j]).sn < views[i as int].sn by {
                assert(views[i - 1].sn < views[i as int].sn);
                if j < i - 1 {
                    assert(views[j].sn < views[i - 1].sn);
                }
            }
        }
        i += 1;
    }
    true
}

/// Tells whether no piece in the send queue carries more than `mss` bytes.
fn chunks_fit(queue: &VecDeque<Chunk>, mss: u32) -> (r: bool)
    ensures
        r == (forall|i: int|
            0 <= i < queue.len() ==> (#[trigger] chunk_views(queue@)[i]).data.len() <= mss),
{
    let ghost views = chunk_views(queue@);
    let mut i: usize = 0;
    while i < queue.len()
        invariant
            i <= queue.len(),
            views == chunk_views(queue@),
            forall|j: int| 0 <= j < i ==> (#[trigger] views[j]).data.len() <= mss,
        decreases queue.len() - i,
    {
        if queue[i].data.len() > mss as usize {
            assert(views[i as int].data.len() > mss);
            return false;
        }
        i += 1;
    }
    true
}

/// Tells whether the pieces wait in order inside the window that starts at
/// `nxt`, none of them numbered `nxt`.
fn pieces_behind_gap(buf: &Vec<Piece>, nxt: u32, wnd: u16) -> (r: bool)
    ensures
        r == (waiting(piece_views(buf@), nxt, wnd) && forall|i: int|
            0 <= i < buf.len() ==> (#[trigger] piece_views(buf@)[i]).sn != nxt),
{
    let ghost views = piece_views(buf@);
    let mut i: usize = 0;
    while i < buf.len()
        invariant
            i <= buf.len(),
            views == piece_views(buf@),
            forall|j: int|
                0 <= j < i ==> nxt < (#[trigger] views[j]).sn < nxt + wnd && views[j].sn
                    < u32::MAX,
            forall|j: int, k: int|
                0 <= j < k < i ==> (#[trigger] views[j]).sn < (#[trigger] views[k]).sn,
        decreases buf.len() - i,
    {
        if buf[i].sn <= nxt || buf[i].sn as u64 >= nxt as u64 + wnd as u64 || buf[i].sn
            == u32::MAX {
            assert(!(nxt < views[i as int].sn < nxt + wnd && views[i as int].sn < u32::MAX));
            return false;
        }
        if i > 0 && buf[i - 1].sn >= buf[i].sn {
            assert(!(views[i - 1].sn < views[i as int].sn));
            return false;
        }
        proof {
            assert forall|j: int| 0 <= j < i implies (#[trigger] views[j]).sn < views[i as int].sn by {
                assert(views[i - 1].sn < views[i as int].sn);
                if j < i - 1 {
                    assert(views[j].sn < views[i - 1].sn);
                }
            }
        }
        i += 1;
    }
    true
}

/// Tells whether the pieces carry consecutive numbers that end before `nxt`.
fn pieces_in_a_row(queue: &Vec<Piece>, nxt: u32) -> (r: bool)
    ensures
        r == consecutive(piece_views(queue@), nxt),
{
    let ghost views = piece_views(queue@);
    if queue.len() > nxt as usize {
        return false;
    }
    let base: u32 = nxt - queue.len() as u32;
    let mut i: usize = 0;
    while i < queue.len()
        invariant
            i <= queue.len(),
            queue.len() <= nxt,
            base == nxt - queue.len(),
            views == piece_views(queue@),
            forall|j: int| 0 <= j < i ==> (#[trigger] views[j]).sn == base + j,
        decreases queue.len() - i,
    {
        if queue[i].sn as u64 != base as u64 + i as u64 {
            assert(views[i as int].sn != nxt - views.len() + i);
            return false;
        }
        i += 1;
    }
    true
}

impl Kcp {
    /// What holds of the connection between calls.
    pub open spec fn wf(&self) -> bool {
        self@.wf()
    }

    /// A connection with the identifier `conv`, where `cfg` is valid.
    pub fn new(conv: u32, cfg: Config) -> (r: Option<Kcp>)
        ensures
            r is Some <==> cfg.valid(),
            r is Some ==> r->0@ == State::start(conv, cfg) && r->0.wf(),
    {
        if !cfg.is_valid() {
            return None;
        }
        let kcp = Kcp {
            conv,
            cfg,
            now: 0,
            snd_queue: VecDeque::new(),
            snd_buf: Vec::new(),
            recv_queue: Vec::new(),
            recv_buf: Vec::new(),
            snd_nxt: 0,
            snd_una: 0,
            rcv_nxt: 0,
            rmt_wnd: cfg.rcv_wnd,
            cwnd: cfg.cwnd,
            ssthresh: SSTHRESH_MIN,
            rtt: Rtt::new(cfg.rto_min),
            acks: Vec::new(),
            wins_due: false,
            wask_due: false,
            acked: false,
        };
        assert(kcp@ =~= State::start(conv, cfg)) by {
            assert(kcp@.send_queue =~= Seq::empty());
            assert(kcp@.send_buf =~= Seq::empty());
            assert(kcp@.recv_buf =~= Seq::empty());
            assert(kcp@.recv_queue =~= Seq::empty());
        }
        Some(kcp)
    }

    /// The oldest sequence number in flight, or the next to send.
    fn oldest(&self) -> (r: u32)
        ensures
            r == crate::state::oldest(flight_views(self.snd_buf@), self.snd_nxt),
    {
        if self.snd_buf.len() == 0 {
            self.snd_nxt
        } else {
            self.snd_buf[0].sn
        }
    }

    /// Drops every flight numbered below `una`. They are at the front.
    fn prune(&mut self, una: u32)
        requires
            old(self)@.sound(),
        ensures
            final(self)@ == old(self)@.prune(una),
    {
        let k = first_from(&self.snd_buf, una);
        let ghost before = flight_views(self.snd_buf@);
        proof {
            assert forall|i: int| 0 <= i < k implies !from_una(una)(#[trigger] before[i]) by {
                assert(self.snd_buf[i].sn < una);
            }
            assert forall|i: int| k <= i < before.len() implies from_una(una)(#[trigger] before[i]) by {
                assert(before[k as int].sn >= una);
                if i > k {
                    assert(before[k as int].sn < before[i].sn);
                }
            }
            lemma_filter_suffix(before, from_una(una), k as int);
        }
        let rest = self.snd_buf.split_off(k);
        self.snd_buf = rest;
        if k > 0 {
            self.acked = true;
        }
        self.snd_una = self.oldest();
        proof {
            assert(flight_views(self.snd_buf@) =~= before.skip(k as int));
            assert(self@.send_buf == old(self)@.prune(una).send_buf);
        }
    }

    /// Drops the flight numbered `sn`, and takes the time since `ts` as a
    /// round-trip sample where the flight was sent only once.
    fn acknowledge(&mut self, sn: u32, ts: u32)
        requires
            old(self)@.sound(),
        ensures
            final(self)@ == old(self)@.acknowledge(sn, ts),
    {
        let k = position_of(&self.snd_buf, sn);
        let ghost before = flight_views(self.snd_buf@);
        if k < self.snd_buf.len() {
            proof {
                assert(before[k as int].sn == sn);
                assert forall|i: int| 0 <= i < before.len() && i != k implies other_than(sn)(
                    #[trigger] before[i],
                ) by {
                    if i < k {
                        assert(before[i].sn < before[k as int].sn);
                    } else {
                        assert(before[k as int].sn < before[i].sn);
                    }
                }
                lemma_filter_one_out(before, other_than(sn), k as int);
                if flying_once(before, sn) {
                    let i = choose|i: int|
                        0 <= i < before.len() && (#[trigger] before[i]).sn == sn && before[i].xmit
                            == 1;
                    assert(i == k);
                }
            }
            let flight = self.snd_buf.remove(k);
            if flight.xmit == 1 && ts <= self.now {
                self.rtt.sample(self.now - ts, self.cfg.rto_min, self.cfg.rto_max);
            }
            self.acked = true;
            self.snd_una = self.oldest();
            proof {
                assert(flight_views(self.snd_buf@) =~= before.remove(k as int));
                assert(flight@ == before[k as int]);
                assert(self@.send_buf == old(self)@.acknowledge(sn, ts).send_buf);
            }
        } else {
            proof {
                assert forall|i: int| 0 <= i < before.len() implies (#[trigger] before[i]).sn
                    != sn by {
                    assert(self.snd_buf[i].sn != sn);
                }
            }
        }
    }

    /// Counts an acknowledgment of `sn` against every flight before it.
    fn pass_over(&mut self, sn: u32)
        ensures
            final(self)@ == old(self)@.pass_over(sn),
    {
        let threshold = self.cfg.fast_resend;
        pass_over_flights(&mut self.snd_buf, sn, threshold);
    }

    /// Keeps a piece that lies in the window, unless one with its number is
    /// kept already.
    fn store(&mut self, piece: Piece)
        requires
            old(self)@.sound(),
        ensures
            final(self)@ == old(self)@.store(piece@),
    {
        if piece.sn < self.rcv_nxt || piece.sn as u64 >= self.rcv_nxt as u64
            + self.cfg.rcv_wnd as u64 || piece.sn == u32::MAX {
            return ;
        }
        let ghost before = piece_views(self.recv_buf@);
        proof {
            assert forall|i: int, j: int| 0 <= i < j < self.recv_buf.len() implies (
            #[trigger] self.recv_buf[i]).sn < (#[trigger] self.recv_buf[j]).sn by {
                assert(before[i].sn < before[j].sn);
            }
        }
        let (at, found) = place_of(&self.recv_buf, piece.sn);
        if !found {
            let ghost p = piece@;
            self.recv_buf.insert(at, piece);
            proof {
                assert(piece_views(self.recv_buf@) =~= before.insert(at as int, p));
            }
        }
    }

    /// Moves the pieces that continue the receive queue into it.
    fn deliver(&mut self)
        requires
            old(self)@.sound(),
        ensures
            final(self)@ == old(self)@.deliver(),
    {
        let k = run_length(&self.recv_buf, self.rcv_nxt);
        let ghost before = piece_views(self.recv_buf@);
        let ghost queue = piece_views(self.recv_queue@);
        proof {
            lemma_deliver(self@);
        }
        let mut rest = self.recv_buf.split_off(k);
        self.recv_queue.append(&mut self.recv_buf);
        self.recv_buf = rest;
        self.rcv_nxt = (self.rcv_nxt as u64 + k as u64) as u32;
        proof {
            assert(piece_views(self.recv_buf@) =~= before.skip(k as int));
            assert(piece_views(self.recv_queue@) =~= queue + before.take(k as int));
        }
    }

    /// Takes a data segment: schedules its acknowledgment, keeps its piece
    /// and delivers what has become deliverable.
    fn on_push(&mut self, sn: u32, frg: u8, ts: u32, data: Vec<u8>)
        requires
            old(self)@.sound(),
        ensures
            final(self)@ == old(self)@.on_push(sn, frg, ts, data@),
    {
        self.acks.push(AckNote { sn, ts });
        proof {
            assert(self@ == State { acks: old(self)@.acks.push(AckNote { sn, ts }), ..old(self)@ });
            lemma_store(self@, PieceView { sn, frg, data: data@ });
        }
        self.store(Piece { sn, frg, data });
        self.deliver();
    }

    /// Tells whether the connection is as every call leaves it. It is, for
    /// every connection that `new` has made.
    pub fn is_well_formed(&self) -> (r: bool)
        ensures
            r == self.wf(),
    {
        let basics = self.cfg.is_valid() && self.cwnd >= 1 && self.cfg.rto_min <= self.rtt.rto
            && self.rtt.rto <= self.cfg.rto_max;
        let flights = flights_in_order(&self.snd_buf, self.snd_una, self.snd_nxt, self.cfg.mss);
        let chunks = chunks_fit(&self.snd_queue, self.cfg.mss);
        let behind = pieces_behind_gap(&self.recv_buf, self.rcv_nxt, self.cfg.rcv_wnd);
        let row = pieces_in_a_row(&self.recv_queue, self.rcv_nxt);
        proof {
            let s = self@;
            assert(s.send_buf.len() == self.snd_buf.len());
            assert(s.send_queue.len() == self.snd_queue.len());
            assert(s.recv_buf.len() == self.recv_buf.len());
            if s.wf() {
                assert forall|i: int| 0 <= i < s.recv_buf.len() implies (
                #[trigger] s.recv_buf[i]).sn != s.rcv_nxt by {}
            }
            if behind {
                assert forall|i: int| 0 <= i < s.recv_buf.len() implies (
                #[trigger] s.recv_buf[i]).sn != s.rcv_nxt by {}
            }
        }
        basics && flights && chunks && behind && row
    }

    /// The connection identifier.
    pub fn conv(&self) -> (r: u32)
        ensures
            r == self@.conv,
    {
        self.conv
    }

    /// The parameters that the connection was made with.
    pub fn config(&self) -> (r: Config)
        ensures
            r == self@.cfg,
    {
        self.cfg
    }

    /// The next sequence number to send.
    pub fn snd_nxt(&self) -> (r: u32)
        ensures
            r == self@.snd_nxt,
    {
        self.snd_nxt
    }

    /// The oldest sequence number in flight.
    pub fn snd_una(&self) -> (r: u32)
        ensures
            r == self@.snd_una,
    {
        self.snd_una
    }

    /// The next sequence number to deliver.
    pub fn rcv_nxt(&self) -> (r: u32)
        ensures
            r == self@.rcv_nxt,
    {
        self.rcv_nxt
    }

    /// The window that the peer announced.
    pub fn rmt_wnd(&self) -> (r: u16)
        ensures
            r == self@.rmt_wnd,
    {
        self.rmt_wnd
    }

    /// The congestion window.
    pub fn cwnd(&self) -> (r: u32)
        ensures
            r == self@.cwnd,
    {
        self.cwnd
    }

    /// The slow-start threshold.
    pub fn ssthresh(&self) -> (r: u32)
        ensures
            r == self@.ssthresh,
    {
        self.ssthresh
    }

    /// The retransmission timeout that the next segment is sent with.
    pub fn rto(&self) -> (r: u32)
        ensures
            r == self@.rtt.rto,
    {
        self.rtt.rto
    }

    /// Number of pieces that wait in the send queue.
    pub fn wait_snd(&self) -> (r: usize)
        ensures
            r == self@.send_queue.len(),
    {
        self.snd_queue.len()
    }

    /// Number of pieces that wait in the receive queue.
    pub fn wait_rcv(&self) -> (r: usize)
        ensures
            r == self@.recv_queue.len(),
    {
        self.recv_queue.len()
    }

    /// The sequence numbers in flight, in order.
    pub fn flights(&self) -> (r: Vec<u32>)
        ensures
            r@ == numbers(self@.send_buf),
    {
        let mut out: Vec<u32> = Vec::new();
        let mut i: usize = 0;
        while i < self.snd_buf.len()
            invariant
                i <= self.snd_buf.len(),
                out@ == numbers(flight_views(self.snd_buf@)).take(i as int),
            decreases self.snd_buf.len() - i,
        {
            out.push(self.snd_buf[i].sn);
            proof {
                let all = numbers(flight_views(self.snd_buf@));
                assert(all.take(i + 1) =~= all.take(i as int).push(all[i as int]));
            }
            i += 1;
        }
        assert(numbers(flight_views(self.snd_buf@)).take(i as int) =~= numbers(
            flight_views(self.snd_buf@),
        ));
        out
    }

    /// How often the flight numbered `sn` was transmitted, if it is in
    /// flight.
    pub fn transmissions(&self, sn: u32) -> (r: Option<u32>)
        ensures
            match r {
                Some(n) => exists|i: int|
                    0 <= i < self@.send_buf.len() && (#[trigger] self@.send_buf[i]).sn == sn
                        && self@.send_buf[i].xmit == n,
                None => !flying(self@.send_buf, sn),
            },
    {
        let k = position_of(&self.snd_buf, sn);
        if k < self.snd_buf.len() {
            assert(self@.send_buf[k as int].sn == sn);
            Some(self.snd_buf[k].xmit)
        } else {
            proof {
                assert forall|i: int| 0 <= i < self@.send_buf.len() implies (
                #[trigger] self@.send_buf[i]).sn != sn by {
                    assert(self.snd_buf[i].sn != sn);
                }
            }
            None
        }
    }

    /// Room left in the receive window, in segments.
    pub fn free_window(&self) -> (r: u16)
        ensures
            r == self@.free_window(),
    {
        let wnd: usize = self.cfg.rcv_wnd as usize;
        if self.recv_buf.len() >= wnd {
            0
        } else if self.recv_queue.len() >= wnd - self.recv_buf.len() {
            0
        } else {
            (wnd - self.recv_buf.len() - self.recv_queue.len()) as u16
        }
    }

    /// Number of pieces that may go into flight now.
    fn room(&self) -> (n: u32)
        requires
            self.wf(),
        ensures
            n == self@.room(),
    {
        let budget: u32 = if (self.rmt_wnd as u32) < self.cwnd {
            self.rmt_wnd as u32
        } else {
            self.cwnd
        };
        let in_flight: u32 = self.snd_nxt - self.snd_una;
        let by_window: u32 = if budget > in_flight {
            budget - in_flight
        } else {
            0
        };
        let by_numbers: u32 = u32::MAX - self.snd_nxt;
        let by_queue: usize = self.snd_queue.len();
        if by_queue <= by_window as usize && by_queue <= by_numbers as usize {
            by_queue as u32
        } else if by_window <= by_numbers {
            by_window
        } else {
            by_numbers
        }
    }

    /// Moves as many pieces from the send queue into flight as there is
    /// room for.
    fn dispatch(&mut self)
        requires
            old(self).wf(),
        ensures
            final(self)@ == old(self)@.dispatch(),
    {
        proof {
            lemma_dispatch(self@);
        }
        let n = self.room();
        let first = self.snd_nxt;
        let now = self.now;
        let rto = self.rtt.rto;
        launch_chunks(&mut self.snd_queue, &mut self.snd_buf, n, first, now, rto);
        self.snd_nxt = first + n;
        proof {
            let s = old(self)@;
            assert(self@.send_buf =~= s.dispatch().send_buf);
        }
    }

    /// Transmits what waits: the control segments first; then as many pieces
    /// from the send queue as the window allows go into flight; then every
    /// data segment that is due goes out, which are those sent for the first
    /// time and those that an update or an acknowledgment has marked.
    /// Returns the datagrams to transmit, each filled up to the configured
    /// size.
    pub fn flush(&mut self) -> (out: Vec<Vec<u8>>)
        requires
            old(self).wf(),
        ensures
            final(self).wf(),
            final(self)@ == old(self)@.flushed(),
            byte_views(out@) == old(self)@.output(),
    {
        proof {
            lemma_dispatch(self@);
            lemma_flushed(self@);
        }
        self.dispatch();
        let ghost mid = self@;
        let wnd = self.free_window();
        let conv = self.conv;
        let una = self.rcv_nxt;
        let mut segs: Vec<Vec<u8>> = Vec::new();
        assert(byte_views(segs@) =~= Seq::<Seq<u8>>::empty());
        encode_acks(&self.acks, conv, wnd, una, &mut segs);
        self.acks.clear();
        if self.wins_due {
            let header = Header {
                conv,
                cmd: CMD_WINS,
                frg: 0,
                wnd,
                ts: self.now,
                sn: 0,
                una,
                len: 0,
                opt: 0,
            };
            let ghost so_far = byte_views(segs@);
            segs.push(Message::Wins(header).encode());
            assert(byte_views(segs@) =~= so_far.push(mid.probe_segment(CMD_WINS).bytes()));
            self.wins_due = false;
        }
        if self.wask_due {
            let header = Header {
                conv,
                cmd: CMD_WASK,
                frg: 0,
                wnd,
                ts: self.now,
                sn: 0,
                una,
                len: 0,
                opt: 0,
            };
            let ghost so_far = byte_views(segs@);
            segs.push(Message::Wack(header).encode());
            assert(byte_views(segs@) =~= so_far.push(mid.probe_segment(CMD_WASK).bytes()));
            self.wask_due = false;
        }
        proof {
            assert(byte_views(segs@) =~= wire(mid.control()));
            assert forall|i: int| 0 <= i < self.snd_buf.len() implies (
            #[trigger] self.snd_buf[i]).data.len() <= u32::MAX by {
                assert(mid.send_buf[i].data.len() <= mid.cfg.mss);
            }
        }
        encode_due(&mut self.snd_buf, conv, wnd, una, &mut segs);
        proof {
            assert(byte_views(segs@) =~= wire(mid.control() + mid.pushes()));
            assert(self@.acks =~= Seq::<AckNote>::empty());
        }
        pack_segments(&segs, self.cfg.mtu as usize)
    }

    /// Lets the congestion window follow a loss or an acknowledgment.
    fn adjust(&mut self, lost: bool)
        ensures
            final(self)@ == old(self)@.adjust(lost),
    {
        if self.cfg.congestion {
            if lost {
                let half: u32 = self.cwnd / 2;
                self.ssthresh = if half < SSTHRESH_MIN {
                    SSTHRESH_MIN
                } else {
                    half
                };
                self.cwnd = if half < 1 {
                    1
                } else {
                    half
                };
                self.acked = false;
            } else if self.acked {
                if self.cwnd < self.ssthresh {
                    self.cwnd = if self.cwnd > u32::MAX / 2 {
                        u32::MAX
                    } else {
                        2 * self.cwnd
                    };
                } else if self.cwnd < u32::MAX {
                    self.cwnd = self.cwnd + 1;
                }
                self.acked = false;
            }
        } else {
            self.acked = false;
        }
    }

    /// Moves the clock to `now`: flights past their deadline, or with too
    /// many acknowledgments ahead of them, are marked for retransmission, the
    /// congestion window follows, and a flush ends the call. Returns the
    /// datagrams to transmit.
    pub fn update(&mut self, now: u32) -> (out: Vec<Vec<u8>>)
        requires
            old(self).wf(),
        ensures
            final(self).wf(),
            final(self)@ == old(self)@.updated(now),
            byte_views(out@) == old(self)@.ticked(now).output(),
    {
        proof {
            lemma_ticked(self@, now);
        }
        self.now = now;
        let cfg = self.cfg;
        let lost = retry_flights(&mut self.snd_buf, now, &cfg);
        assert(self@ == old(self)@.retransmit(now));
        assert(lost == old(self)@.lost(now));
        self.adjust(lost);
        self.flush()
    }

    /// Queues a message for sending, cut into segments. Nothing is
    /// transmitted before the next flush.
    pub fn send(&mut self, data: &[u8]) -> (r: Result<(), KcpError>)
        requires
            old(self).wf(),
        ensures
            final(self).wf(),
            match r {
                Ok(_) => {
                    &&& old(self)@.refusal(data@) is None
                    &&& final(self)@ == old(self)@.queued(data@)
                },
                Err(e) => {
                    &&& old(self)@.refusal(data@) == Some(e)
                    &&& final(self)@ == old(self)@
                },
            },
    {
        let mss: usize = self.cfg.mss as usize;
        let n: usize = if data.len() == 0 {
            1
        } else {
            (data.len() - 1) / mss + 1
        };
        if n > FRAGMENTS_MAX {
            return Err(KcpError::MessageTooLong);
        }
        if self.snd_queue.len() > self.cfg.snd_queue || n > self.cfg.snd_queue
            - self.snd_queue.len() {
            return Err(KcpError::QueueFull);
        }
        proof {
            lemma_queued(self@, data@);
        }
        cut(data, mss, n, &mut self.snd_queue);
        Ok(())
    }

    /// Takes the next complete message out of the receive queue.
    pub fn recv(&mut self) -> (r: Result<Vec<u8>, KcpError>)
        requires
            old(self).wf(),
        ensures
            final(self).wf(),
            match r {
                Ok(data) => {
                    &&& old(self)@.readable()
                    &&& data@ == old(self)@.message()
                    &&& final(self)@ == old(self)@.taken()
                },
                Err(e) => {
                    &&& e == KcpError::NotAvailable
                    &&& !old(self)@.readable()
                    &&& final(self)@ == old(self)@
                },
            },
    {
        let k = boundary_of(&self.recv_queue);
        if k >= self.recv_queue.len() {
            return Err(KcpError::NotAvailable);
        }
        proof {
            lemma_taken(self@);
        }
        let ghost queue = piece_views(self.recv_queue@);
        let rest = self.recv_queue.split_off(k + 1);
        let data = join(&self.recv_queue);
        self.recv_queue = rest;
        proof {
            assert(piece_views(old(self).recv_queue@.subrange(0, k + 1)) =~= queue.take(k + 1));
            assert(piece_views(self.recv_queue@) =~= queue.skip(k + 1));
        }
        Ok(data)
    }

    /// Asks for the peer's window with the next flush.
    pub fn probe(&mut self)
        requires
            old(self).wf(),
        ensures
            final(self).wf(),
            final(self)@ == old(self)@.probing(),
    {
        self.wask_due = true;
        assert(self@ == old(self)@.probing());
    }

    /// Takes one decoded segment into the connection.
    fn on_message(&mut self, message: Message)
        requires
            old(self).wf(),
            message.valid(),
        ensures
            final(self).wf(),
            final(self)@ == old(self)@.on_segment(message@),
    {
        proof {
            lemma_on_segment(self@, message@);
        }
        match message {
            Message::Ack(header) => {
                if header.conv == self.conv {
                    proof {
                        lemma_acknowledge(self@, header.sn, header.ts);
                    }
                    self.acknowledge(header.sn, header.ts);
                    proof {
                        lemma_prune(self@, header.una);
                    }
                    self.prune(header.una);
                    self.pass_over(header.sn);
                }
            },
            Message::Psh(header, data) => {
                if header.conv == self.conv {
                    proof {
                        lemma_prune(self@, header.una);
                    }
                    self.prune(header.una);
                    self.on_push(header.sn, header.frg, header.ts, data);
                }
            },
            Message::Wack(header) => {
                if header.conv == self.conv {
                    self.prune(header.una);
                    self.wins_due = true;
                }
            },
            Message::Wins(header) => {
                if header.conv == self.conv {
                    self.prune(header.una);
                    self.rmt_wnd = header.wnd;
                }
            },
        }
    }

    /// Takes a datagram into the connection: the segments in it are read
    /// front to back and applied one by one. The bytes are left as they were.
    pub fn input(&mut self, buf: &mut [u8])
        requires
            old(self).wf(),
        ensures
            final(self).wf(),
            final(self)@ == old(self)@.input(old(buf)@),
            final(buf)@ == old(buf)@,
    {
        let ghost bytes = buf@;
        let ghost goal = self@.input(bytes);
        let mut start: usize = 0;
        assert(bytes.skip(0) =~= bytes);
        loop
            invariant
                start <= buf.len(),
                buf@ == bytes,
                self.wf(),
                self@.input(bytes.skip(start as int)) == goal,
            ensures
                buf@ == bytes,
                self.wf(),
                self@ == goal,
            decreases buf.len() - start,
        {
            let rest = vstd::slice::slice_subrange(buf, start, buf.len());
            assert(rest@ =~= bytes.skip(start as int));
            let len = Message::check(rest);
            if len == 0 {
                break ;
            }
            let ghost tail = segments_in(rest@.skip(len as int));
            assert(rest@.skip(len as int) =~= bytes.skip(start + len));
            match Message::parse(rest) {
                Ok(message) => {
                    proof {
                        let segs = segments_in(rest@);
                        assert(segs == seq![message@] + tail);
                        assert(segs[0] == message@);
                        assert(segs.skip(1) =~= tail);
                    }
                    self.on_message(message);
                },
                Err(ParseError::InvalidCmd) => {},
                Err(_) => {
                    break ;
                },
            }
            start += len;
        }
    }
}

} // verus!
