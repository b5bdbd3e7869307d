//! What is fixed when a connection is made.
use crate::message::{MSG_OVERHEAD, MSS_MAX};
use vstd::prelude::*;

verus! {

/// The parameters of a connection.
#[derive(Debug, PartialEq, Eq, Clone, Copy, Structural)]
pub struct Config {
    /// Largest payload of one segment, in bytes.
    pub mss: u32,
    /// Largest datagram handed out for transmission, in bytes.
    pub mtu: u32,
    /// Congestion window at the start, in segments.
    pub cwnd: u32,
    /// Capacity of the receive window, in segments.
    pub rcv_wnd: u16,
    /// Lower bound of the retransmission timeout.
    pub rto_min: u32,
    /// Upper bound of the retransmission timeout.
    pub rto_max: u32,
    /// A segment is resent early once more than this many later segments have
    /// been acknowledged ahead of it.
    pub fast_resend: u32,
    /// Whether the congestion window follows acknowledgments and losses.
    pub congestion: bool,
    /// Capacity of the send queue, in segments.
    pub snd_queue: usize,
}

impl Config {
    /// A segment holds at least one byte of payload and at most the framing
    /// bound, a datagram has room for a full segment, both windows are open,
    /// and the timeout bounds are positive and in order.
    pub open spec fn valid(self) -> bool {
        &&& 1 <= self.mss <= MSS_MAX
        &&& self.mtu >= MSG_OVERHEAD + self.mss
        &&& self.cwnd >= 1
        &&& self.rcv_wnd >= 1
        &&& 1 <= self.rto_min <= self.rto_max
    }

    /// Tells whether a connection can be made with these parameters.
    pub fn is_valid(&self) -> (r: bool)
        ensures
            r == self.valid(),
    {
        1 <= self.mss && self.mss <= MSS_MAX && self.mtu as usize >= MSG_OVERHEAD
            + self.mss as usize && self.cwnd >= 1 && self.rcv_wnd >= 1 && 1 <= self.rto_min
            && self.rto_min <= self.rto_max
    }
}

impl Default for Config {
    /// Segments of 1400 bytes, windows of 32 and 128 segments, a timeout
    /// between 100 and 60000 ticks, and an unbounded send queue.
    fn default() -> (r: Self)
        ensures
            r.valid(),
            r == (Config {
                mss: 1400,
                mtu: 1428,
                cwnd: 32,
                rcv_wnd: 128,
                rto_min: 100,
                rto_max: 60000,
                fast_resend: 2,
                congestion: true,
                snd_queue: usize::MAX,
            }),
    {
        Config {
            mss: 1400,
            mtu: 1428,
            cwnd: 32,
            rcv_wnd: 128,
            rto_min: 100,
            rto_max: 60000,
            fast_resend: 2,
            congestion: true,
            snd_queue: usize::MAX,
        }
    }
}

} // verus!
