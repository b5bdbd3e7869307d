//! The connection as a mathematical value, and what each event makes of it.
//!
//! Everything here is specification: the engine's functions promise, in terms
//! of these definitions, what they do to a connection.
use crate::batch::pack;
use crate::config::Config;
use crate::message::{segments_in, Header, Segment, CMD_ACK, CMD_PSH, CMD_WASK, CMD_WINS};
use crate::rtt::Rtt;
use vstd::prelude::*;

verus! {

/// Why the engine turns a call down.
#[derive(Debug, PartialEq, Eq, Clone, Copy, Structural)]
pub enum KcpError {
    /// The send queue has no room for the message.
    QueueFull,
    /// The message needs more segments than the fragment countdown can count.
    MessageTooLong,
    /// No complete message has arrived yet.
    NotAvailable,
}

/// Most segments that one message may be cut into: the countdown is a byte.
pub const FRAGMENTS_MAX: usize = 256;

/// Floor of the slow-start threshold, in segments.
pub const SSTHRESH_MIN: u32 = 2;

/// A piece of a message that waits in the send queue.
pub struct ChunkView {
    /// How many pieces of the same message follow this one.
    pub frg: u8,
    pub data: Seq<u8>,
}

/// A data segment that was received.
pub struct PieceView {
    pub sn: u32,
    pub frg: u8,
    pub data: Seq<u8>,
}

/// A data segment that was sent and is not acknowledged yet.
pub struct FlightView {
    pub sn: u32,
    pub frg: u8,
    /// Clock at the latest transmission.
    pub ts: u32,
    pub data: Seq<u8>,
    /// Clock at which the segment is resent if it is still here.
    pub resend_at: u32,
    /// Timeout that the next deadline is set with.
    pub rto: u32,
    /// Number of transmissions so far.
    pub xmit: u32,
    /// Number of acknowledgments seen for later segments.
    pub skip: u32,
    /// Whether the next flush transmits the segment.
    pub due: bool,
}

/// An acknowledgment that the next flush sends: the sequence number received
/// and the timestamp to echo.
#[derive(Debug, PartialEq, Eq, Clone, Copy, Structural)]
pub struct AckNote {
    pub sn: u32,
    pub ts: u32,
}

/// `now + rto`, held at the largest clock value.
pub open spec fn deadline(now: u32, rto: u32) -> u32 {
    if now + rto > u32::MAX {
        u32::MAX
    } else {
        (now + rto) as u32
    }
}

/// `x + 1`, held at the largest value.
pub open spec fn bumped(x: u32) -> u32 {
    if x < u32::MAX {
        (x + 1) as u32
    } else {
        x
    }
}

/// Twice `rto`, held at `cap`.
pub open spec fn backoff(rto: u32, cap: u32) -> u32 {
    if 2 * rto > cap {
        cap
    } else {
        (2 * rto) as u32
    }
}

/// Holds of the flights that a cumulative acknowledgment `una` leaves.
pub open spec fn from_una(una: u32) -> spec_fn(FlightView) -> bool {
    |f: FlightView| f.sn >= una
}

/// Holds of the flights that an acknowledgment of `sn` leaves.
pub open spec fn other_than(sn: u32) -> spec_fn(FlightView) -> bool {
    |f: FlightView| f.sn != sn
}

/// Holds of the flights that the next flush transmits.
pub open spec fn is_due() -> spec_fn(FlightView) -> bool {
    |f: FlightView| f.due
}

/// What an acknowledgment of `sn` does to a flight: it counts against the
/// flights numbered below it.
pub open spec fn passing(sn: u32, threshold: u32) -> spec_fn(FlightView) -> FlightView {
    |f: FlightView|
        if f.sn < sn {
            f.passed(threshold)
        } else {
            f
        }
}

/// The header of a segment of connection `conv` that advertises a receive
/// window of `wnd` segments and says that every number below `una` was
/// received.
pub open spec fn stamp(
    conv: u32,
    wnd: u16,
    una: u32,
    cmd: u8,
    frg: u8,
    ts: u32,
    sn: u32,
    len: u32,
) -> Header {
    Header { conv, cmd, frg, wnd, ts, sn, una, len, opt: 0 }
}

/// The flight that a piece becomes when it is first sent, as `sn`, at `now`.
pub open spec fn launched(c: ChunkView, sn: u32, now: u32, rto: u32) -> FlightView {
    FlightView {
        sn,
        frg: c.frg,
        ts: now,
        data: c.data,
        resend_at: deadline(now, rto),
        rto,
        xmit: 1,
        skip: 0,
        due: true,
    }
}

/// The acknowledgment sent for a note: it repeats the number received and
/// the timestamp that came with it.
pub open spec fn ack_of(conv: u32, wnd: u16, una: u32) -> spec_fn(AckNote) -> Segment {
    |a: AckNote|
        Segment { header: stamp(conv, wnd, una, CMD_ACK, 0, a.ts, a.sn, 0), data: Seq::empty() }
}

/// The data segment sent for a flight.
pub open spec fn push_of(conv: u32, wnd: u16, una: u32) -> spec_fn(FlightView) -> Segment {
    |f: FlightView|
        Segment {
            header: stamp(conv, wnd, una, CMD_PSH, f.frg, f.ts, f.sn, f.data.len() as u32),
            data: f.data,
        }
}

/// The bytes of each segment.
pub open spec fn wire(segs: Seq<Segment>) -> Seq<Seq<u8>> {
    segs.map_values(|s: Segment| s.bytes())
}

/// What a tick at `now` does to a flight.
pub open spec fn retrying(now: u32, cfg: Config) -> spec_fn(FlightView) -> FlightView {
    |f: FlightView| f.retry(now, cfg)
}

/// What a transmission does to a flight.
pub open spec fn sending() -> spec_fn(FlightView) -> FlightView {
    |f: FlightView| f.sent()
}

/// Holds of the pieces that come before `sn`.
pub open spec fn below(sn: u32) -> spec_fn(PieceView) -> bool {
    |p: PieceView| p.sn < sn
}

/// The oldest sequence number in flight, or `nxt` where nothing is in flight.
pub open spec fn oldest(buf: Seq<FlightView>, nxt: u32) -> u32 {
    if buf.len() == 0 {
        nxt
    } else {
        buf[0].sn
    }
}

/// The sequence numbers of the flights, in order.
pub open spec fn numbers(buf: Seq<FlightView>) -> Seq<u32> {
    buf.map_values(|f: FlightView| f.sn)
}

/// Whether `buf` holds a flight numbered `sn`.
pub open spec fn flying(buf: Seq<FlightView>, sn: u32) -> bool {
    exists|i: int| 0 <= i < buf.len() && (#[trigger] buf[i]).sn == sn
}

/// Whether `buf` holds a flight numbered `sn` that was transmitted only once.
pub open spec fn flying_once(buf: Seq<FlightView>, sn: u32) -> bool {
    exists|i: int| 0 <= i < buf.len() && (#[trigger] buf[i]).sn == sn && buf[i].xmit == 1
}

/// Whether `buf` holds a piece numbered `sn`.
pub open spec fn held(buf: Seq<PieceView>, sn: u32) -> bool {
    exists|i: int| 0 <= i < buf.len() && (#[trigger] buf[i]).sn == sn
}

/// The flights are ordered by sequence number, without repetition, between
/// `una` and `nxt`, and `una` is the oldest of them.
pub open spec fn lined_up(buf: Seq<FlightView>, una: u32, nxt: u32) -> bool {
    &&& una <= nxt
    &&& una == oldest(buf, nxt)
    &&& forall|i: int, j: int|
        0 <= i < j < buf.len() ==> (#[trigger] buf[i]).sn < (#[trigger] buf[j]).sn
    &&& forall|i: int| 0 <= i < buf.len() ==> una <= (#[trigger] buf[i]).sn < nxt
}

/// The pieces are ordered by sequence number, without repetition, inside the
/// window of `wnd` numbers that starts at `nxt`.
pub open spec fn waiting(buf: Seq<PieceView>, nxt: u32, wnd: u16) -> bool {
    &&& forall|i: int, j: int|
        0 <= i < j < buf.len() ==> (#[trigger] buf[i]).sn < (#[trigger] buf[j]).sn
    &&& forall|i: int|
        0 <= i < buf.len() ==> nxt <= (#[trigger] buf[i]).sn < nxt + wnd && buf[i].sn
            < u32::MAX
}

/// The pieces carry consecutive sequence numbers, the last of them the one
/// before `nxt`.
pub open spec fn consecutive(queue: Seq<PieceView>, nxt: u32) -> bool {
    &&& queue.len() <= nxt
    &&& forall|i: int|
        0 <= i < queue.len() ==> (#[trigger] queue[i]).sn == nxt - queue.len() + i
}

/// Length of the longest prefix of `buf` that continues `nxt` without a gap.
pub open spec fn run(buf: Seq<PieceView>, nxt: int) -> nat
    decreases buf.len(),
{
    if buf.len() > 0 && buf[0].sn == nxt {
        1 + run(buf.skip(1), nxt + 1)
    } else {
        0
    }
}

/// Position of the first piece that ends a message, or the length of `queue`
/// where no piece does.
pub open spec fn boundary(queue: Seq<PieceView>) -> int
    decreases queue.len(),
{
    if queue.len() == 0 {
        0
    } else if queue[0].frg == 0 {
        0
    } else {
        1 + boundary(queue.skip(1))
    }
}

/// The payloads of `pieces`, one after the other.
pub open spec fn joined(pieces: Seq<PieceView>) -> Seq<u8>
    decreases pieces.len(),
{
    if pieces.len() == 0 {
        Seq::empty()
    } else {
        joined(pieces.drop_last()) + pieces.last().data
    }
}

/// Number of segments that a message of `len` bytes is cut into.
pub open spec fn fragments(len: int, mss: int) -> int {
    if len == 0 {
        1
    } else {
        (len - 1) / mss + 1
    }
}

/// The `j`-th piece of `data`: `mss` bytes (fewer at the end), counted down
/// to 0 on the last piece.
pub open spec fn chunk(data: Seq<u8>, mss: int, j: int) -> ChunkView {
    ChunkView {
        frg: (fragments(data.len() as int, mss) - 1 - j) as u8,
        data: data.subrange(
            j * mss,
            if (j + 1) * mss < data.len() {
                (j + 1) * mss
            } else {
                data.len() as int
            },
        ),
    }
}

/// The pieces that `data` is cut into, in order.
pub open spec fn chunks(data: Seq<u8>, mss: int) -> Seq<ChunkView> {
    Seq::new(fragments(data.len() as int, mss) as nat, |j: int| chunk(data, mss, j))
}

impl FlightView {
    /// The flight after an acknowledgment of a later segment: the count goes
    /// up, and beyond `threshold` the flight is due at once.
    pub open spec fn passed(self, threshold: u32) -> FlightView {
        FlightView {
            skip: bumped(self.skip),
            due: self.due || bumped(self.skip) > threshold,
            ..self
        }
    }

    /// Whether the deadline has come at `now`.
    pub open spec fn timed_out(self, now: u32) -> bool {
        self.resend_at <= now
    }

    /// The flight after a tick at `now`. Past its deadline it is resent with
    /// twice the timeout, held at the upper bound; with too many
    /// acknowledgments ahead of it it is resent with the timeout unchanged;
    /// otherwise nothing happens to it.
    pub open spec fn retry(self, now: u32, cfg: Config) -> FlightView {
        if self.timed_out(now) {
            FlightView {
                ts: now,
                xmit: bumped(self.xmit),
                rto: backoff(self.rto, cfg.rto_max),
                resend_at: deadline(now, backoff(self.rto, cfg.rto_max)),
                skip: 0,
                due: true,
                ..self
            }
        } else if self.skip > cfg.fast_resend {
            FlightView {
                ts: now,
                xmit: bumped(self.xmit),
                resend_at: deadline(now, self.rto),
                skip: 0,
                due: true,
                ..self
            }
        } else {
            self
        }
    }

    /// The flight once it has been transmitted.
    pub open spec fn sent(self) -> FlightView {
        FlightView { due: false, ..self }
    }
}

/// A connection.
pub struct State {
    /// Connection identifier, carried by every segment.
    pub conv: u32,
    pub cfg: Config,
    /// Clock at the latest tick.
    pub now: u32,
    /// Pieces of messages that were accepted and not sent yet.
    pub send_queue: Seq<ChunkView>,
    /// Segments that were sent and not acknowledged, by sequence number.
    pub send_buf: Seq<FlightView>,
    /// Segments that arrived ahead of a gap, by sequence number.
    pub recv_buf: Seq<PieceView>,
    /// Segments that arrived and wait to be read, in order.
    pub recv_queue: Seq<PieceView>,
    /// Next sequence number to send.
    pub snd_nxt: u32,
    /// Oldest sequence number in flight.
    pub snd_una: u32,
    /// Next sequence number to deliver.
    pub rcv_nxt: u32,
    /// Window that the peer announced.
    pub rmt_wnd: u16,
    /// Congestion window.
    pub cwnd: u32,
    /// Slow-start threshold.
    pub ssthresh: u32,
    pub rtt: Rtt,
    /// Acknowledgments that the next flush sends.
    pub acks: Seq<AckNote>,
    /// Whether the next flush announces the window.
    pub wins_due: bool,
    /// Whether the next flush asks for the peer's window.
    pub wask_due: bool,
    /// Whether a flight was acknowledged since the latest tick.
    pub acked: bool,
}

impl State {
    /// The connection before anything happened.
    pub open spec fn start(conv: u32, cfg: Config) -> State {
        State {
            conv,
            cfg,
            now: 0,
            send_queue: Seq::empty(),
            send_buf: Seq::empty(),
            recv_buf: Seq::empty(),
            recv_queue: Seq::empty(),
            snd_nxt: 0,
            snd_una: 0,
            rcv_nxt: 0,
            rmt_wnd: cfg.rcv_wnd,
            cwnd: cfg.cwnd,
            ssthresh: SSTHRESH_MIN,
            rtt: Rtt { srtt: 0, rttvar: 0, rto: cfg.rto_min },
            acks: Seq::empty(),
            wins_due: false,
            wask_due: false,
            acked: false,
        }
    }

    /// What holds of a connection at every moment, also between the steps of
    /// one call.
    pub open spec fn sound(self) -> bool {
        &&& self.cfg.valid()
        &&& lined_up(self.send_buf, self.snd_una, self.snd_nxt)
        &&& forall|i: int|
            0 <= i < self.send_buf.len() ==> (#[trigger] self.send_buf[i]).data.len()
                <= self.cfg.mss
        &&& forall|i: int|
            0 <= i < self.send_queue.len() ==> (#[trigger] self.send_queue[i]).data.len()
                <= self.cfg.mss
        &&& waiting(self.recv_buf, self.rcv_nxt, self.cfg.rcv_wnd)
        &&& consecutive(self.recv_queue, self.rcv_nxt)
        &&& self.cwnd >= 1
        &&& self.cfg.rto_min <= self.rtt.rto <= self.cfg.rto_max
    }

    /// What holds of a connection between calls: it is sound, and the piece
    /// that would continue the receive queue is not waiting behind a gap.
    pub open spec fn wf(self) -> bool {
        &&& self.sound()
        &&& forall|i: int|
            0 <= i < self.recv_buf.len() ==> (#[trigger] self.recv_buf[i]).sn != self.rcv_nxt
    }

    /// Number of sequence numbers between the oldest in flight and the next.
    pub open spec fn in_flight(self) -> int {
        self.snd_nxt - self.snd_una
    }

    /// Most segments that may be in flight: the smaller of the peer's window
    /// and the congestion window.
    pub open spec fn budget(self) -> int {
        if self.rmt_wnd < self.cwnd {
            self.rmt_wnd as int
        } else {
            self.cwnd as int
        }
    }

    /// Room left in the receive window, in segments.
    pub open spec fn free_window(self) -> u16 {
        if self.recv_buf.len() + self.recv_queue.len() >= self.cfg.rcv_wnd {
            0
        } else {
            (self.cfg.rcv_wnd - (self.recv_buf.len() + self.recv_queue.len())) as u16
        }
    }

    /// Cumulative acknowledgment: every flight numbered below `una` leaves.
    pub open spec fn prune(self, una: u32) -> State {
        let kept = self.send_buf.filter(from_una(una));
        State {
            send_buf: kept,
            snd_una: oldest(kept, self.snd_nxt),
            acked: self.acked || kept.len() < self.send_buf.len(),
            ..self
        }
    }

    /// Acknowledgment of `sn`: the flight so numbered leaves, and where it was
    /// transmitted only once and `ts` is not in the future, the time since
    /// `ts` is a round-trip sample.
    pub open spec fn acknowledge(self, sn: u32, ts: u32) -> State {
        if flying(self.send_buf, sn) {
            let kept = self.send_buf.filter(other_than(sn));
            State {
                send_buf: kept,
                snd_una: oldest(kept, self.snd_nxt),
                acked: true,
                rtt: if flying_once(self.send_buf, sn) && ts <= self.now {
                    self.rtt.sampled(
                        (self.now - ts) as u32,
                        self.cfg.rto_min,
                        self.cfg.rto_max,
                    )
                } else {
                    self.rtt
                },
                ..self
            }
        } else {
            self
        }
    }

    /// An acknowledgment of `sn` passes over every flight numbered below it.
    pub open spec fn pass_over(self, sn: u32) -> State {
        State { send_buf: self.send_buf.map_values(passing(sn, self.cfg.fast_resend)), ..self }
    }

    /// Whether `sn` lies in the receive window.
    pub open spec fn accepts(self, sn: u32) -> bool {
        &&& self.rcv_nxt <= sn < self.rcv_nxt + self.cfg.rcv_wnd
        &&& sn < u32::MAX
    }

    /// Whether the piece numbered `sn` was received: delivered, or kept behind
    /// a gap.
    pub open spec fn received(self, sn: u32) -> bool {
        sn < self.rcv_nxt || held(self.recv_buf, sn)
    }

    /// A piece is kept, in its place by sequence number, where it lies in the
    /// window and no piece with its number is kept already.
    pub open spec fn store(self, p: PieceView) -> State {
        if self.accepts(p.sn) && !held(self.recv_buf, p.sn) {
            State {
                recv_buf: self.recv_buf.insert(
                    self.recv_buf.filter(below(p.sn)).len() as int,
                    p,
                ),
                ..self
            }
        } else {
            self
        }
    }

    /// The pieces that continue the delivered data without a gap move to the
    /// receive queue.
    pub open spec fn deliver(self) -> State {
        let k = run(self.recv_buf, self.rcv_nxt as int) as int;
        State {
            recv_queue: self.recv_queue + self.recv_buf.take(k),
            recv_buf: self.recv_buf.skip(k),
            rcv_nxt: (self.rcv_nxt + k) as u32,
            ..self
        }
    }

    /// A data segment arrives: an acknowledgment is scheduled in every case,
    /// and the piece is kept and delivered as far as the window and the gaps
    /// allow.
    pub open spec fn on_push(self, sn: u32, frg: u8, ts: u32, data: Seq<u8>) -> State {
        (State { acks: self.acks.push(AckNote { sn, ts }), ..self }).store(
            PieceView { sn, frg, data },
        ).deliver()
    }

    /// One segment arrives. A segment of another connection changes nothing.
    pub open spec fn on_segment(self, seg: Segment) -> State {
        let h = seg.header;
        if h.conv != self.conv {
            self
        } else if h.cmd == CMD_ACK {
            self.acknowledge(h.sn, h.ts).prune(h.una).pass_over(h.sn)
        } else if h.cmd == CMD_PSH {
            self.prune(h.una).on_push(h.sn, h.frg, h.ts, seg.data)
        } else if h.cmd == CMD_WASK {
            State { wins_due: true, ..self.prune(h.una) }
        } else if h.cmd == CMD_WINS {
            State { rmt_wnd: h.wnd, ..self.prune(h.una) }
        } else {
            self
        }
    }

    /// Several segments arrive, one after the other.
    pub open spec fn on_segments(self, segs: Seq<Segment>) -> State
        decreases segs.len(),
    {
        if segs.len() == 0 {
            self
        } else {
            self.on_segment(segs[0]).on_segments(segs.skip(1))
        }
    }

    /// A datagram arrives.
    pub open spec fn input(self, bytes: Seq<u8>) -> State {
        self.on_segments(segments_in(bytes))
    }

    /// Number of pieces that the next flush takes from the send queue: as
    /// many as wait, as the budget leaves room for, and as there are sequence
    /// numbers left.
    pub open spec fn room(self) -> int {
        let by_window = if self.budget() > self.in_flight() {
            self.budget() - self.in_flight()
        } else {
            0
        };
        let by_numbers = u32::MAX - self.snd_nxt;
        let by_queue = self.send_queue.len() as int;
        if by_queue <= by_window && by_queue <= by_numbers {
            by_queue
        } else if by_window <= by_numbers {
            by_window
        } else {
            by_numbers
        }
    }

    /// The flight that a piece becomes when it is first sent as `sn`.
    pub open spec fn launch(self, c: ChunkView, sn: u32) -> FlightView {
        launched(c, sn, self.now, self.rtt.rto)
    }

    /// Pieces move from the send queue into flight, numbered from `snd_nxt`.
    pub open spec fn dispatch(self) -> State {
        let n = self.room();
        State {
            send_buf: self.send_buf + Seq::new(
                n as nat,
                |j: int| self.launch(self.send_queue[j], (self.snd_nxt + j) as u32),
            ),
            send_queue: self.send_queue.skip(n),
            snd_nxt: (self.snd_nxt + n) as u32,
            ..self
        }
    }

    /// The acknowledgment sent for each note. Like every segment sent, it
    /// carries the connection, the room in the receive window and the next
    /// sequence number to deliver.
    pub open spec fn acking(self) -> spec_fn(AckNote) -> Segment {
        ack_of(self.conv, self.free_window(), self.rcv_nxt)
    }

    /// The data segment sent for each flight.
    pub open spec fn pushing(self) -> spec_fn(FlightView) -> Segment {
        push_of(self.conv, self.free_window(), self.rcv_nxt)
    }

    /// A segment without payload or number, stamped with the clock.
    pub open spec fn probe_segment(self, cmd: u8) -> Segment {
        Segment {
            header: stamp(self.conv, self.free_window(), self.rcv_nxt, cmd, 0, self.now, 0, 0),
            data: Seq::empty(),
        }
    }

    /// The control segments that wait: the acknowledgments in the order in
    /// which they were scheduled, then the window announcement, then the
    /// window probe.
    pub open spec fn control(self) -> Seq<Segment> {
        self.acks.map_values(self.acking()) + (if self.wins_due {
            seq![self.probe_segment(CMD_WINS)]
        } else {
            Seq::empty()
        }) + (if self.wask_due {
            seq![self.probe_segment(CMD_WASK)]
        } else {
            Seq::empty()
        })
    }

    /// The data segments that are due, by sequence number.
    pub open spec fn pushes(self) -> Seq<Segment> {
        self.send_buf.filter(is_due()).map_values(self.pushing())
    }

    /// The connection once everything that waited has been transmitted.
    pub open spec fn settled(self) -> State {
        State {
            acks: Seq::empty(),
            wins_due: false,
            wask_due: false,
            send_buf: self.send_buf.map_values(sending()),
            ..self
        }
    }

    /// The segments that a flush transmits: the control segments, then the
    /// data segments that are due, those just dispatched among them.
    pub open spec fn outgoing(self) -> Seq<Segment> {
        self.dispatch().control() + self.dispatch().pushes()
    }

    /// The datagrams that a flush hands out: the segments it transmits,
    /// packed in order.
    pub open spec fn output(self) -> Seq<Seq<u8>> {
        pack(wire(self.outgoing()), self.cfg.mtu as int)
    }

    /// The connection after a flush.
    pub open spec fn flushed(self) -> State {
        self.dispatch().settled()
    }

    /// Whether some flight is past its deadline at `now`.
    pub open spec fn lost(self, now: u32) -> bool {
        exists|i: int| 0 <= i < self.send_buf.len() && (#[trigger] self.send_buf[i]).timed_out(now)
    }

    /// Every flight is looked at when the clock shows `now`.
    pub open spec fn retransmit(self, now: u32) -> State {
        State {
            now,
            send_buf: self.send_buf.map_values(retrying(now, self.cfg)),
            ..self
        }
    }

    /// The congestion window after a tick. After a loss it is halved, and the
    /// threshold is set to that half (at least its floor); after an
    /// acknowledgment without loss it doubles below the threshold and grows
    /// by one from there on. With congestion control off it stays.
    pub open spec fn adjust(self, lost: bool) -> State {
        if !self.cfg.congestion {
            State { acked: false, ..self }
        } else if lost {
            State {
                acked: false,
                ssthresh: if self.cwnd / 2 < SSTHRESH_MIN {
                    SSTHRESH_MIN
                } else {
                    self.cwnd / 2
                },
                cwnd: if self.cwnd / 2 < 1 {
                    1
                } else {
                    self.cwnd / 2
                },
                ..self
            }
        } else if self.acked {
            State {
                acked: false,
                cwnd: if self.cwnd < self.ssthresh {
                    if 2 * self.cwnd > u32::MAX {
                        u32::MAX
                    } else {
                        (2 * self.cwnd) as u32
                    }
                } else {
                    bumped(self.cwnd)
                },
                ..self
            }
        } else {
            self
        }
    }

    /// The connection after a tick at `now`, before the flush that ends it.
    pub open spec fn ticked(self, now: u32) -> State {
        self.retransmit(now).adjust(self.lost(now))
    }

    /// The connection after `update(now)`.
    pub open spec fn updated(self, now: u32) -> State {
        self.ticked(now).flushed()
    }

    /// Why a message cannot be queued, if it cannot.
    pub open spec fn refusal(self, data: Seq<u8>) -> Option<KcpError> {
        let n = fragments(data.len() as int, self.cfg.mss as int);
        if n > FRAGMENTS_MAX {
            Some(KcpError::MessageTooLong)
        } else if self.send_queue.len() + n > self.cfg.snd_queue {
            Some(KcpError::QueueFull)
        } else {
            None
        }
    }

    /// The connection with a message added to the send queue.
    pub open spec fn queued(self, data: Seq<u8>) -> State {
        State { send_queue: self.send_queue + chunks(data, self.cfg.mss as int), ..self }
    }

    /// The connection once a window probe has been asked for.
    pub open spec fn probing(self) -> State {
        State { wask_due: true, ..self }
    }

    /// Whether a complete message waits in the receive queue.
    pub open spec fn readable(self) -> bool {
        boundary(self.recv_queue) < self.recv_queue.len()
    }

    /// The first complete message in the receive queue.
    pub open spec fn message(self) -> Seq<u8> {
        joined(self.recv_queue.take(boundary(self.recv_queue) + 1))
    }

    /// The connection with the first complete message taken out.
    pub open spec fn taken(self) -> State {
        State { recv_queue: self.recv_queue.skip(boundary(self.recv_queue) + 1), ..self }
    }
}

} // verus!
