//! The round-trip estimator and the retransmission timeout derived from it.
use vstd::prelude::*;

verus! {

/// Smoothed round-trip time, its variation, and the timeout that follows.
///
/// `srtt` is 0 until the first sample and at least 1 afterwards.
#[derive(Debug, PartialEq, Eq, Clone, Copy, Structural)]
pub struct Rtt {
    pub srtt: u32,
    pub rttvar: u32,
    pub rto: u32,
}

/// `x` held between `lo` and `hi`.
pub open spec fn clamp(x: int, lo: int, hi: int) -> int {
    if x < lo {
        lo
    } else if x > hi {
        hi
    } else {
        x
    }
}

impl Rtt {
    /// The smoothed time after a sample: the sample itself the first time,
    /// afterwards seven parts of the old value and one of the sample.
    pub open spec fn next_srtt(self, rtt: u32) -> int {
        let s: int = if self.srtt == 0 {
            rtt as int
        } else {
            (7 * self.srtt + rtt) / 8
        };
        if s < 1 {
            1
        } else {
            s
        }
    }

    /// The variation after a sample: half the sample the first time,
    /// afterwards three parts of the old value and one of the distance
    /// between sample and smoothed time.
    pub open spec fn next_rttvar(self, rtt: u32) -> int {
        if self.srtt == 0 {
            rtt as int / 2
        } else if rtt >= self.srtt {
            (3 * self.rttvar + (rtt - self.srtt)) / 4
        } else {
            (3 * self.rttvar + (self.srtt - rtt)) / 4
        }
    }

    /// The estimator after a sample: the timeout is the smoothed time plus
    /// four times the variation (at least one tick), held between `lo` and
    /// `hi`.
    pub open spec fn sampled(self, rtt: u32, lo: u32, hi: u32) -> Rtt {
        let s = self.next_srtt(rtt);
        let v = self.next_rttvar(rtt);
        let span = if 4 * v < 1 {
            1
        } else {
            4 * v
        };
        Rtt { srtt: s as u32, rttvar: v as u32, rto: clamp(s + span, lo as int, hi as int) as u32 }
    }

    /// An estimator without samples, with the given timeout.
    pub fn new(rto: u32) -> (r: Rtt)
        ensures
            r == (Rtt { srtt: 0, rttvar: 0, rto }),
    {
        Rtt { srtt: 0, rttvar: 0, rto }
    }

    /// Takes one round-trip sample into the estimate.
    pub fn sample(&mut self, rtt: u32, lo: u32, hi: u32)
        requires
            lo <= hi,
        ensures
            *final(self) == old(self).sampled(rtt, lo, hi),
            lo <= final(self).rto <= hi,
    {
        let sample: u64 = rtt as u64;
        let srtt: u64 = self.srtt as u64;
        let rttvar: u64 = self.rttvar as u64;
        let mut s: u64 = if srtt == 0 {
            sample
        } else {
            (7 * srtt + sample) / 8
        };
        if s < 1 {
            s = 1;
        }
        let v: u64 = if srtt == 0 {
            sample / 2
        } else if sample >= srtt {
            (3 * rttvar + (sample - srtt)) / 4
        } else {
            (3 * rttvar + (srtt - sample)) / 4
        };
        let span: u64 = if 4 * v < 1 {
            1
        } else {
            4 * v
        };
        let mut rto: u64 = s + span;
        if rto < lo as u64 {
            rto = lo as u64;
        } else if rto > hi as u64 {
            rto = hi as u64;
        }
        self.srtt = s as u32;
        self.rttvar = v as u32;
        self.rto = rto as u32;
    }
}

} // verus!
