//! The life of a connection as a sequence of calls, and what holds at every
//! moment of it.
use crate::config::Config;
use crate::laws::{
    lemma_calls_window_safe, lemma_flush_window_safe, lemma_segment_window_safe,
    lemma_update_window_safe, window_safe,
};
use crate::message::{segments_in, Segment, CMD_WINS};
use crate::preserve::{
    lemma_flushed, lemma_on_segment, lemma_on_segments, lemma_queued, lemma_taken, lemma_updated,
};
use crate::state::State;
use vstd::prelude::*;

verus! {

/// One call on a connection.
pub enum Event {
    /// `send` with a message.
    Send(Seq<u8>),
    /// `recv`.
    Recv,
    /// `input` with a datagram.
    Input(Seq<u8>),
    /// `update` with the clock.
    Update(u32),
    /// `flush`.
    Flush,
    /// `probe`.
    Probe,
}

impl State {
    /// The connection after one call. A message that is refused and a read
    /// that finds no message change nothing.
    pub open spec fn step(self, e: Event) -> State {
        match e {
            Event::Send(data) => if self.refusal(data) is None {
                self.queued(data)
            } else {
                self
            },
            Event::Recv => if self.readable() {
                self.taken()
            } else {
                self
            },
            Event::Input(bytes) => self.input(bytes),
            Event::Update(now) => self.updated(now),
            Event::Flush => self.flushed(),
            Event::Probe => self.probing(),
        }
    }

    /// The connection after several calls, one after the other.
    pub open spec fn after(self, events: Seq<Event>) -> State
        decreases events.len(),
    {
        if events.len() == 0 {
            self
        } else {
            self.step(events[0]).after(events.skip(1))
        }
    }

    /// Whether the arrival of `seg` leaves the budget at least as large as
    /// what is in flight: a window announcement is the one segment that may
    /// not.
    pub open spec fn calm_segment(self, seg: Segment) -> bool {
        seg.header.conv == self.conv && seg.header.cmd == CMD_WINS ==> self.prune(
            seg.header.una,
        ).in_flight() <= seg.header.wnd
    }

    /// Whether each of the segments, arriving in order, is calm.
    pub open spec fn calm_segments(self, segs: Seq<Segment>) -> bool
        decreases segs.len(),
    {
        segs.len() == 0 || (self.calm_segment(segs[0]) && self.on_segment(segs[0]).calm_segments(
            segs.skip(1),
        ))
    }

    /// Whether a call leaves the budget at least as large as what is in
    /// flight. Two kinds of call may not: a datagram with a window
    /// announcement below what is in flight, and an update that finds a loss
    /// and halves the congestion window below what is in flight.
    pub open spec fn calm(self, e: Event) -> bool {
        match e {
            Event::Input(bytes) => self.calm_segments(segments_in(bytes)),
            Event::Update(now) => self.cfg.congestion && self.lost(now) ==> self.in_flight()
                <= self.cwnd / 2 || self.in_flight() <= 1,
            _ => true,
        }
    }

    /// Whether each of the calls, made in order, is calm.
    pub open spec fn calm_all(self, events: Seq<Event>) -> bool
        decreases events.len(),
    {
        events.len() == 0 || (self.calm(events[0]) && self.step(events[0]).calm_all(
            events.skip(1),
        ))
    }
}

/// Every call leaves a well-formed connection well-formed.
pub proof fn lemma_step_wf(s: State, e: Event)
    requires
        s.wf(),
    ensures
        s.step(e).wf(),
{
    match e {
        Event::Send(data) => {
            lemma_queued(s, data);
        },
        Event::Recv => {
            if s.readable() {
                lemma_taken(s);
            }
        },
        Event::Input(bytes) => {
            lemma_on_segments(s, segments_in(bytes));
        },
        Event::Update(now) => {
            lemma_updated(s, now);
        },
        Event::Flush => {
            lemma_flushed(s);
        },
        Event::Probe => {},
    }
}

/// At all times: whatever calls are made on a new connection, in whatever
/// order, the connection is well-formed. So the receive queue runs through
/// consecutive sequence numbers up to the next one to deliver, the buffers
/// are ordered and hold no number twice, and what is in flight lies between
/// the oldest unacknowledged number and the next to send.
pub proof fn lemma_always_wf(conv: u32, cfg: Config, events: Seq<Event>)
    requires
        cfg.valid(),
    ensures
        State::start(conv, cfg).after(events).wf(),
{
    lemma_after_wf(State::start(conv, cfg), events);
}

/// Calls leave a well-formed connection well-formed.
pub proof fn lemma_after_wf(s: State, events: Seq<Event>)
    requires
        s.wf(),
    ensures
        s.after(events).wf(),
    decreases events.len(),
{
    if events.len() > 0 {
        lemma_step_wf(s, events[0]);
        lemma_after_wf(s.step(events[0]), events.skip(1));
    }
}

/// Calm segments leave a connection within its budget.
pub proof fn lemma_segments_window_safe(s: State, segs: Seq<Segment>)
    requires
        s.wf(),
        window_safe(s),
        s.calm_segments(segs),
    ensures
        window_safe(s.on_segments(segs)),
    decreases segs.len(),
{
    if segs.len() > 0 {
        lemma_on_segment(s, segs[0]);
        lemma_segment_window_safe(s, segs[0]);
        lemma_segments_window_safe(s.on_segment(segs[0]), segs.skip(1));
    }
}

/// A calm call leaves a connection within its budget.
pub proof fn lemma_step_window_safe(s: State, e: Event)
    requires
        s.wf(),
        window_safe(s),
        s.calm(e),
    ensures
        window_safe(s.step(e)),
{
    match e {
        Event::Send(data) => {
            lemma_calls_window_safe(s, data);
        },
        Event::Recv => {
            lemma_calls_window_safe(s, Seq::empty());
        },
        Event::Input(bytes) => {
            lemma_segments_window_safe(s, segments_in(bytes));
        },
        Event::Update(now) => {
            lemma_update_window_safe(s, now);
        },
        Event::Flush => {
            lemma_flush_window_safe(s);
        },
        Event::Probe => {
            lemma_calls_window_safe(s, Seq::empty());
        },
    }
}

/// Window safety, at all times: whatever calm calls are made on a new
/// connection, in whatever order, no more sequence numbers lie between the
/// oldest unacknowledged and the next to send than the smaller of the peer's
/// window and the congestion window.
pub proof fn lemma_always_window_safe(conv: u32, cfg: Config, events: Seq<Event>)
    requires
        cfg.valid(),
        State::start(conv, cfg).calm_all(events),
    ensures
        window_safe(State::start(conv, cfg).after(events)),
{
    lemma_after_window_safe(State::start(conv, cfg), events);
}

/// Calm calls leave a connection within its budget.
pub proof fn lemma_after_window_safe(s: State, events: Seq<Event>)
    requires
        s.wf(),
        window_safe(s),
        s.calm_all(events),
    ensures
        window_safe(s.after(events)),
    decreases events.len(),
{
    if events.len() > 0 {
        lemma_step_wf(s, events[0]);
        lemma_step_window_safe(s, events[0]);
        lemma_after_window_safe(s.step(events[0]), events.skip(1));
    }
}

} // verus!
