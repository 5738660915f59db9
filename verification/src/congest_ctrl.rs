//! The default congestion controller: window-doubling slow start, then
//! steady additive growth; every loss report slows the pacing by an eighth.
//!
//! The sender asks two things of a controller at any moment: how long to
//! wait between packet sends (`send_interval_us`) and how many packets may
//! be in flight (`congestion_window`); the sender then enforces the smaller
//! of the congestion window and the peer's flow window. All arithmetic is
//! on integers; the pacing interval never goes below one microsecond nor
//! above one second.

use vstd::prelude::*;

verus! {

/// Floor of the pacing interval: one microsecond.
pub const MIN_SEND_INTERVAL_US: u64 = 1;

/// Ceiling of the pacing interval: one second.
pub const MAX_SEND_INTERVAL_US: u64 = 1_000_000;

/// The default, UDT-like congestion controller.
#[derive(Debug, Clone, Copy, PartialEq, Eq)]
pub struct DefaultCongestCtrl {
    window: u32,
    send_interval_us: u64,
    slow_start: bool,
    max_window: u32,
}

impl DefaultCongestCtrl {
    pub closed spec fn spec_window(self) -> u32 {
        self.window
    }

    pub closed spec fn spec_interval(self) -> u64 {
        self.send_interval_us
    }

    pub closed spec fn spec_in_slow_start(self) -> bool {
        self.slow_start
    }

    pub closed spec fn spec_max_window(self) -> u32 {
        self.max_window
    }

    pub open spec fn wf(self) -> bool {
        &&& 2 <= self.spec_max_window()
        &&& 1 <= self.spec_window() <= self.spec_max_window()
        &&& MIN_SEND_INTERVAL_US <= self.spec_interval() <= MAX_SEND_INTERVAL_US
    }

    /// A fresh controller: a window of two packets in slow start, pacing
    /// ten microseconds apart.
    pub fn new(max_window: u32) -> (r: DefaultCongestCtrl)
        requires
            max_window >= 2,
        ensures
            r.wf(),
            r.spec_window() == 2,
            r.spec_interval() == 10,
            r.spec_in_slow_start(),
            r.spec_max_window() == max_window,
    {
        DefaultCongestCtrl { window: 2, send_interval_us: 10, slow_start: true, max_window }
    }

    /// The pacing interval, microseconds between sends.
    pub fn send_interval_us(&self) -> (r: u64)
        ensures
            r == self.spec_interval(),
    {
        self.send_interval_us
    }

    /// How many packets this controller lets stand in flight.
    pub fn congestion_window(&self) -> (r: u32)
        ensures
            r == self.spec_window(),
    {
        self.window
    }

    /// An acknowledgment arrived: in slow start the window doubles, and
    /// slow start ends once the window hits its bound; afterwards the
    /// window grows by one packet per acknowledgment, never past the bound.
    pub fn on_ack(&mut self)
        requires
            old(self).wf(),
        ensures
            final(self).wf(),
            final(self).spec_interval() == old(self).spec_interval(),
            final(self).spec_max_window() == old(self).spec_max_window(),
            final(self).spec_window() == (if old(self).spec_in_slow_start() {
                if 2 * old(self).spec_window() <= old(self).spec_max_window() {
                    2 * old(self).spec_window()
                } else {
                    old(self).spec_max_window() as int
                }
            } else {
                if old(self).spec_window() < old(self).spec_max_window() {
                    old(self).spec_window() + 1
                } else {
                    old(self).spec_max_window() as int
                }
            }),
            final(self).spec_in_slow_start() == (old(self).spec_in_slow_start() && 2 * old(
                self,
            ).spec_window() < old(self).spec_max_window() as int),
    {
        if self.slow_start {
            if self.window <= self.max_window / 2 {
                self.window = self.window * 2;
                if self.window >= self.max_window {
                    self.slow_start = false;
                }
            } else {
                self.window = self.max_window;
                self.slow_start = false;
            }
        } else {
            if self.window < self.max_window {
                self.window = self.window + 1;
            }
        }
    }

    /// An acknowledgment arrived, with the receiver's measurements: slow
    /// start doubles as in `on_ack`; in avoidance the window grows by what
    /// the spare rate covers in one round trip, plus sixteen packets —
    /// `(link capacity − receive rate) · rtt + 16` — never past the bound.
    pub fn on_ack_rates(&mut self, rtt_us: i64, recv_rate_pps: i64, link_cap_pps: i64)
        requires
            old(self).wf(),
            0 <= rtt_us < 0x8000_0000,
            0 <= recv_rate_pps < 0x4000_0000,
            0 <= link_cap_pps < 0x4000_0000,
        ensures
            final(self).wf(),
            final(self).spec_interval() == old(self).spec_interval(),
            final(self).spec_max_window() == old(self).spec_max_window(),
            final(self).spec_window() as int == (if old(self).spec_in_slow_start() {
                if 2 * old(self).spec_window() <= old(self).spec_max_window() {
                    2 * old(self).spec_window()
                } else {
                    old(self).spec_max_window() as int
                }
            } else {
                ({
                    let spare = (if link_cap_pps > recv_rate_pps {
                        link_cap_pps - recv_rate_pps
                    } else {
                        0
                    });
                    let growth = spare * rtt_us / 1_000_000 + 16;
                    if old(self).spec_window() + growth <= old(self).spec_max_window() {
                        old(self).spec_window() + growth
                    } else {
                        old(self).spec_max_window() as int
                    }
                })
            }),
            final(self).spec_in_slow_start() == (old(self).spec_in_slow_start() && 2 * old(
                self,
            ).spec_window() < old(self).spec_max_window() as int),
    {
        if self.slow_start {
            self.on_ack();
        } else {
            let spare: i64 = if link_cap_pps > recv_rate_pps {
                link_cap_pps - recv_rate_pps
            } else {
                0
            };
            proof {
                assert(0 <= spare * rtt_us < 0x2000_0000_0000_0000) by (nonlinear_arith)
                    requires
                        0 <= spare < 0x4000_0000,
                        0 <= rtt_us < 0x8000_0000,
                ;
            }
            let growth: i64 = spare * rtt_us / 1_000_000 + 16;
            if growth <= (self.max_window - self.window) as i64 {
                self.window = self.window + growth as u32;
            } else {
                self.window = self.max_window;
            }
        }
    }

    /// A loss report arrived: slow start is over, and the pacing interval
    /// grows by an eighth of itself, within its ceiling.
    pub fn on_nak(&mut self)
        requires
            old(self).wf(),
        ensures
            final(self).wf(),
            final(self).spec_window() == old(self).spec_window(),
            final(self).spec_max_window() == old(self).spec_max_window(),
            !final(self).spec_in_slow_start(),
            final(self).spec_interval() == (if old(self).spec_interval() + old(
                self,
            ).spec_interval() / 8 <= MAX_SEND_INTERVAL_US {
                old(self).spec_interval() + old(self).spec_interval() / 8
            } else {
                MAX_SEND_INTERVAL_US as int
            }),
    {
        self.slow_start = false;
        let grown = self.send_interval_us + self.send_interval_us / 8;
        self.send_interval_us = if grown <= MAX_SEND_INTERVAL_US {
            grown
        } else {
            MAX_SEND_INTERVAL_US
        };
    }

    /// The peer went quiet past its deadline: start over gently — back to
    /// slow start with the smallest window.
    pub fn on_timeout(&mut self)
        requires
            old(self).wf(),
        ensures
            final(self).wf(),
            final(self).spec_window() == 2,
            final(self).spec_in_slow_start(),
            final(self).spec_interval() == old(self).spec_interval(),
            final(self).spec_max_window() == old(self).spec_max_window(),
    {
        self.window = 2;
        self.slow_start = true;
    }
}

} // verus!
