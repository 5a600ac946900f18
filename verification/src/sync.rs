//! Ping/pong bookkeeping and the client's tick synchronization.
//!
//! The ping manager stamps outgoing pings, matches pongs back to their
//! send times, and keeps an exponentially weighted round-trip estimate
//! (an eighth of each new sample, a quarter for the deviation, the
//! classic transport weights). The sync manager decides, from those
//! estimates, when the client counts as synced and whether its tick
//! must snap to the server's; in unified mode (client and server in one
//! process) sync is bypassed and only the interpolation clock advances.

use vstd::prelude::*;
use crate::senders::wrap_add;
use crate::wrapping::{wrap_diff, wrapping_diff};

verus! {

/// One in-flight ping: its sequence number and when it left.
pub struct PingRecord {
    pub seq: u8,
    pub sent_at: u64,
}

/// Sends pings, matches pongs, and estimates round-trip time.
pub struct PingManager {
    /// Exponentially weighted round-trip mean, milliseconds.
    pub rtt_millis: u64,
    /// Exponentially weighted round-trip deviation, milliseconds.
    pub jitter_millis: u64,
    /// Newest server tick learned from any pong.
    pub latest_received_server_tick: u16,
    /// Whether any pong has arrived yet.
    pub any_server_tick: bool,
    /// Pings waiting for their pong.
    pub pending: Vec<PingRecord>,
    /// Sequence number of the next ping.
    pub next_seq: u8,
}

/// The round-trip mean after one sample: an eighth of the gap to the
/// sample, rounded toward the old mean.
pub open spec fn ewma_mean(mean: u64, sample: u64) -> int {
    if sample >= mean {
        mean + (sample - mean) / 8
    } else {
        mean - (mean - sample) / 8
    }
}

/// The deviation after one sample: a quarter of the gap between the
/// sample's distance from the mean and the old deviation, rounded
/// toward the old deviation.
pub open spec fn ewma_dev(dev: u64, mean: u64, sample: u64) -> int {
    let d: int = if sample >= mean {
        sample - mean
    } else {
        mean - sample
    };
    if d >= dev {
        dev + (d - dev) / 4
    } else {
        dev - (dev - d) / 4
    }
}

/// The sample a matched ping record yields, saturated into the clock's
/// range.
pub open spec fn sample_of(
    rec: PingRecord,
    server_recv_tick: u16,
    server_send_tick: u16,
    now: u64,
    tick_duration_millis: u64,
) -> u64 {
    pong_sample(rec.sent_at, server_recv_tick, server_send_tick, now, tick_duration_millis) as u64
}

/// The round-trip sample a pong yields: the time since its ping left,
/// less the hold the server reports (its answer tick minus its receive
/// tick, in ticks, saturating); never negative.
pub open spec fn pong_sample(
    sent_at: u64,
    server_recv_tick: u16,
    server_send_tick: u16,
    now: u64,
    tick_duration_millis: u64,
) -> int {
    let elapsed: int = if now >= sent_at {
        now - sent_at
    } else {
        0
    };
    let hold_ticks = wrap_diff(server_send_tick, server_recv_tick);
    let hold: int = if hold_ticks > 0 {
        if hold_ticks * tick_duration_millis > 0xffffffffffffffff {
            0xffffffffffffffff
        } else {
            hold_ticks * tick_duration_millis
        }
    } else {
        0
    };
    if elapsed >= hold {
        elapsed - hold
    } else {
        0
    }
}

impl PingManager {
    /// Pending sequence numbers never repeat.
    pub open spec fn wf(self) -> bool {
        forall|i: int, j: int|
            0 <= i < j < self.pending@.len() ==> self.pending@[i].seq != self.pending@[j].seq
    }

    /// A fresh manager bootstrapped with an initial estimate.
    pub fn new(initial_rtt_millis: u64) -> (r: PingManager)
        ensures
            r.wf(),
            r.rtt_millis == initial_rtt_millis,
            r.jitter_millis == 0,
            r.pending@.len() == 0,
            r.next_seq == 0,
            !r.any_server_tick,
    {
        PingManager {
            rtt_millis: initial_rtt_millis,
            jitter_millis: 0,
            latest_received_server_tick: 0,
            any_server_tick: false,
            pending: Vec::new(),
            next_seq: 0,
        }
    }

    /// Stamp a new ping: its sequence number is returned and its send
    /// time remembered. A sequence number still in flight is reused
    /// only after 256 unanswered pings; the stale record is dropped
    /// first.
    pub fn make_ping(&mut self, now: u64) -> (r: u8)
        requires
            old(self).wf(),
        ensures
            final(self).wf(),
            r == old(self).next_seq,
            final(self).next_seq == (if old(self).next_seq == 255 {
                0u8
            } else {
                (old(self).next_seq + 1) as u8
            }),
            final(self).pending@.len() > 0,
            final(self).pending@.last() == (PingRecord { seq: r, sent_at: now }),
            final(self).rtt_millis == old(self).rtt_millis,
            final(self).jitter_millis == old(self).jitter_millis,
    {
        let seq = self.next_seq;
        self.drop_pending(seq);
        let ghost p0 = self.pending@;
        self.pending.push(PingRecord { seq, sent_at: now });
        proof {
            assert(forall|i: int| 0 <= i < p0.len() ==> p0[i].seq != seq);
            assert(self.pending@ =~= p0.push(PingRecord { seq, sent_at: now }));
        }
        self.next_seq = if self.next_seq == 255 {
            0
        } else {
            self.next_seq + 1
        };
        seq
    }

    /// Drop every pending record with the given sequence number.
    fn drop_pending(&mut self, seq: u8)
        requires
            old(self).wf(),
        ensures
            final(self).wf(),
            forall|i: int| 0 <= i < final(self).pending@.len() ==> final(self).pending@[i].seq != seq,
            final(self).rtt_millis == old(self).rtt_millis,
            final(self).jitter_millis == old(self).jitter_millis,
            final(self).next_seq == old(self).next_seq,
            final(self).latest_received_server_tick == old(self).latest_received_server_tick,
            final(self).any_server_tick == old(self).any_server_tick,
    {
        let mut keep: Vec<PingRecord> = Vec::new();
        while self.pending.len() > 0
            invariant
                forall|i: int| 0 <= i < keep@.len() ==> keep@[i].seq != seq,
                forall|i: int, j: int| 0 <= i < j < keep@.len() ==> keep@[i].seq != keep@[j].seq,
                forall|i: int, j: int|
                    0 <= i < keep@.len() && 0 <= j < self.pending@.len() ==> keep@[i].seq
                        != self.pending@[j].seq,
                forall|i: int, j: int|
                    0 <= i < j < self.pending@.len() ==> self.pending@[i].seq
                        != self.pending@[j].seq,
                self.rtt_millis == old(self).rtt_millis,
                self.jitter_millis == old(self).jitter_millis,
                self.next_seq == old(self).next_seq,
                self.latest_received_server_tick == old(self).latest_received_server_tick,
                self.any_server_tick == old(self).any_server_tick,
            decreases self.pending@.len(),
        {
            let ghost pre = self.pending@;
            let rec = self.pending.remove(0);
            proof {
                assert(self.pending@ =~= pre.drop_first());
                assert(rec == pre[0]);
            }
            if rec.seq != seq {
                keep.push(rec);
            }
        }
        self.pending = keep;
    }

    /// Match a pong to its ping and fold the sample into the round-trip
    /// estimates: the time in flight is the elapsed time minus the hold
    /// the server reports between receiving the ping and answering it
    /// (its answer tick minus its receive tick, in ticks). An unknown
    /// sequence number changes nothing.
    #[verifier::loop_isolation(false)]
    pub fn process_pong(
        &mut self,
        seq: u8,
        server_recv_tick: u16,
        server_send_tick: u16,
        now: u64,
        tick_duration_millis: u64,
    ) -> (r: bool)
        requires
            old(self).wf(),
            tick_duration_millis > 0,
        ensures
            final(self).wf(),
            r == (exists|i: int|
                0 <= i < old(self).pending@.len() && (#[trigger] old(self).pending@[i]).seq == seq),
            !r ==> *final(self) == *old(self),
            r ==> final(self).latest_received_server_tick == server_send_tick
                && final(self).any_server_tick,
            r ==> exists|i: int|
                {
                    &&& 0 <= i < old(self).pending@.len()
                    &&& (#[trigger] old(self).pending@[i]).seq == seq
                    &&& final(self).rtt_millis == ewma_mean(
                        old(self).rtt_millis,
                        sample_of(old(self).pending@[i], server_recv_tick, server_send_tick, now, tick_duration_millis),
                    )
                    &&& final(self).jitter_millis == ewma_dev(
                        old(self).jitter_millis,
                        old(self).rtt_millis,
                        sample_of(old(self).pending@[i], server_recv_tick, server_send_tick, now, tick_duration_millis),
                    )
                    &&& final(self).pending@ == old(self).pending@.remove(i)
                },
            final(self).next_seq == old(self).next_seq,
    {
        let n = self.pending.len();
        let mut i: usize = 0;
        while i < n
            invariant
                n == self.pending@.len(),
                i <= n,
                *self == *old(self),
                forall|j: int| 0 <= j < i ==> self.pending@[j].seq != seq,
            decreases n - i,
        {
            if self.pending[i].seq == seq {
                let rec = self.pending.remove(i);
                proof {
                    assert(old(self).pending@[i as int].seq == seq);
                    assert forall|a: int, b: int|
                        0 <= a < b < self.pending@.len() implies self.pending@[a].seq
                        != self.pending@[b].seq by {
                        if b < i {
                            assert(self.pending@[a] == old(self).pending@[a]);
                            assert(self.pending@[b] == old(self).pending@[b]);
                        } else if a < i {
                            assert(self.pending@[a] == old(self).pending@[a]);
                            assert(self.pending@[b] == old(self).pending@[b + 1]);
                        } else {
                            assert(self.pending@[a] == old(self).pending@[a + 1]);
                            assert(self.pending@[b] == old(self).pending@[b + 1]);
                        }
                    }
                }
                let elapsed = if now >= rec.sent_at {
                    now - rec.sent_at
                } else {
                    0
                };
                let hold_ticks = crate::wrapping::wrapping_diff(server_send_tick, server_recv_tick);
                let hold_millis: u64 = if hold_ticks > 0 {
                    proof {
                        assert((hold_ticks as int) * (tick_duration_millis as int)
                            < 0x100000000000000000000000000000000) by (nonlinear_arith)
                            requires
                                0 < hold_ticks <= 0x8000,
                                tick_duration_millis < 0x10000000000000000,
                        ;
                    }
                    let prod: u128 = hold_ticks as u128 * tick_duration_millis as u128;
                    if prod > 0xffffffffffffffff {
                        0xffffffffffffffff
                    } else {
                        prod as u64
                    }
                } else {
                    0
                };
                let sample = if elapsed >= hold_millis {
                    elapsed - hold_millis
                } else {
                    0
                };
                let mean = self.rtt_millis;
                self.rtt_millis = if sample >= mean {
                    mean + (sample - mean) / 8
                } else {
                    mean - (mean - sample) / 8
                };
                let dev = if sample >= mean {
                    sample - mean
                } else {
                    mean - sample
                };
                let old_jitter = self.jitter_millis;
                self.jitter_millis = if dev >= old_jitter {
                    old_jitter + (dev - old_jitter) / 4
                } else {
                    old_jitter - (old_jitter - dev) / 4
                };
                self.latest_received_server_tick = server_send_tick;
                self.any_server_tick = true;
                proof {
                    assert(old(self).pending@[i as int].seq == seq);
                    assert(rec == old(self).pending@[i as int]);
                    assert(sample == sample_of(
                        old(self).pending@[i as int],
                        server_recv_tick,
                        server_send_tick,
                        now,
                        tick_duration_millis,
                    ));
                    assert(self.rtt_millis == ewma_mean(old(self).rtt_millis, sample));
                    assert(self.jitter_millis == ewma_dev(
                        old(self).jitter_millis,
                        old(self).rtt_millis,
                        sample,
                    ));
                    assert(self.pending@ == old(self).pending@.remove(i as int));
                }
                return true;
            }
            i += 1;
        }
        false
    }
}

/// A warp of the local tick clock, reported to the application.
#[derive(Clone, Copy, Debug, PartialEq, Eq, Structural)]
pub enum TickEvent {
    /// The local tick must jump to `new_tick` at once.
    SnapBack { new_tick: u16 },
}

/// The client tick the estimates call for: the newest server tick plus
/// the round-trip time in ticks (one-way delay plus an equal input
/// buffer), rounded, and capped at half the id space.
pub open spec fn target_tick(server_tick: u16, rtt_millis: u64, tick_duration_millis: u64) -> u16 {
    let ticks = (rtt_millis + tick_duration_millis / 2) as int / tick_duration_millis as int;
    wrap_add(server_tick, if ticks > 0x7fff {
        0x7fff
    } else {
        ticks
    })
}

/// Drives the client's tick alignment and the interpolation clock.
pub struct SyncManager {
    /// Whether enough consistent pongs have arrived to trust the
    /// estimates.
    pub synced: bool,
    /// How many pongs have been folded in.
    pub sample_count: u64,
    /// The clock the interpolation reads, milliseconds; trails the
    /// server by the interpolation delay.
    pub interpolation_time: i64,
    /// Wall time since the newest server tick was learned.
    pub duration_since_latest_received_server_tick: u64,
}

impl SyncManager {
    /// A fresh, unsynced manager.
    pub fn new() -> (r: SyncManager)
        ensures
            !r.synced,
            r.sample_count == 0,
            r.interpolation_time == 0,
            r.duration_since_latest_received_server_tick == 0,
    {
        SyncManager {
            synced: false,
            sample_count: 0,
            interpolation_time: 0,
            duration_since_latest_received_server_tick: 0,
        }
    }

    /// Whether the client is synced.
    pub fn is_synced(&self) -> (r: bool)
        ensures
            r == self.synced,
    {
        self.synced
    }

    /// Fold in one pong and decide whether the local tick must warp:
    /// after three samples with the deviation within the given bound
    /// the client counts as synced, and from then on a local tick more
    /// than `snap_threshold_ticks` away from the target snaps straight
    /// to it. Within the threshold nothing warps.
    pub fn sync_update(
        &mut self,
        current_tick: u16,
        latest_server_tick: u16,
        rtt_millis: u64,
        jitter_millis: u64,
        jitter_bound_millis: u64,
        tick_duration_millis: u64,
        snap_threshold_ticks: u16,
    ) -> (r: Option<TickEvent>)
        requires
            tick_duration_millis > 0,
            tick_duration_millis < 0x8000000000000000,
            rtt_millis < 0x8000000000000000,
            old(self).sample_count < 0xffffffffffffffff,
        ensures
            final(self).sample_count == old(self).sample_count + 1,
            final(self).synced == (old(self).synced || (old(self).sample_count + 1 >= 3
                && jitter_millis <= jitter_bound_millis)),
            final(self).interpolation_time == old(self).interpolation_time,
            final(self).duration_since_latest_received_server_tick == old(
                self,
            ).duration_since_latest_received_server_tick,
            ({
                let target = target_tick(latest_server_tick, rtt_millis, tick_duration_millis);
                let d = wrap_diff(target, current_tick);
                if final(self).synced && (d > snap_threshold_ticks || d < -(snap_threshold_ticks as int)) {
                    r == Some(TickEvent::SnapBack { new_tick: target })
                } else {
                    r is None
                }
            }),
    {
        self.sample_count = self.sample_count + 1;
        if !self.synced && self.sample_count >= 3 && jitter_millis <= jitter_bound_millis {
            self.synced = true;
        }
        if !self.synced {
            return None;
        }
        let half = tick_duration_millis / 2;
        let sum = rtt_millis + half;
        let ticks: u64 = sum / tick_duration_millis;
        let offset: u16 = if ticks > 0x7fff {
            0x7fff
        } else {
            ticks as u16
        };
        let base = latest_server_tick;
        let target: u16 = ((base as u32 + offset as u32) % 0x10000) as u16;
        proof {
            assert(target == wrap_add(base, offset as int));
            assert(target == target_tick(latest_server_tick, rtt_millis, tick_duration_millis));
        }
        let d = wrapping_diff(target, current_tick);
        if d > snap_threshold_ticks as i32 || d < -(snap_threshold_ticks as i32) {
            Some(TickEvent::SnapBack { new_tick: target })
        } else {
            None
        }
    }

    /// The relative speed the local clock should run at while the tick
    /// gap stays within the snap threshold (the soft warp): nominal
    /// 1000 per mille at the target, one percent faster per tick the
    /// client is behind, one percent slower per tick it is ahead.
    pub fn relative_speed_permille(
        &self,
        current_tick: u16,
        latest_server_tick: u16,
        rtt_millis: u64,
        tick_duration_millis: u64,
        snap_threshold_ticks: u16,
    ) -> (r: u32)
        requires
            tick_duration_millis > 0,
            tick_duration_millis < 0x8000000000000000,
            rtt_millis < 0x8000000000000000,
            snap_threshold_ticks <= 100,
        ensures
            ({
                let d = wrap_diff(
                    target_tick(latest_server_tick, rtt_millis, tick_duration_millis),
                    current_tick,
                );
                if !self.synced || d > snap_threshold_ticks || d < -(snap_threshold_ticks as int) {
                    r == 1000
                } else {
                    r == 1000 + 10 * d
                }
            }),
    {
        if !self.synced {
            return 1000;
        }
        let half = tick_duration_millis / 2;
        let ticks: u64 = (rtt_millis + half) / tick_duration_millis;
        let offset: u16 = if ticks > 0x7fff {
            0x7fff
        } else {
            ticks as u16
        };
        let target: u16 = ((latest_server_tick as u32 + offset as u32) % 0x10000) as u16;
        proof {
            assert(target == wrap_add(latest_server_tick, offset as int));
            assert(target == target_tick(latest_server_tick, rtt_millis, tick_duration_millis));
        }
        let d = wrapping_diff(target, current_tick);
        if d > snap_threshold_ticks as i32 || d < -(snap_threshold_ticks as i32) {
            1000
        } else {
            (1000 + 10 * d) as u32
        }
    }

    /// Unified mode: client and server share a process, so sync is a
    /// given from the start and the interpolation clock is set straight
    /// from shared wall time minus the interpolation delay.
    pub fn unified_sync_init(&mut self, now_millis: i64, interpolation_delay_millis: i64)
        requires
            -0x4000000000000000 < now_millis < 0x4000000000000000,
            0 <= interpolation_delay_millis < 0x4000000000000000,
        ensures
            final(self).synced,
            final(self).interpolation_time == now_millis - interpolation_delay_millis,
            final(self).sample_count == old(self).sample_count,
            final(self).duration_since_latest_received_server_tick == old(
                self,
            ).duration_since_latest_received_server_tick,
    {
        self.synced = true;
        self.interpolation_time = now_millis - interpolation_delay_millis;
    }

    /// Unified mode, every tick including the first: both the
    /// interpolation clock and the time since the newest server tick
    /// advance by the frame delta.
    pub fn unified_sync_update(&mut self, delta_millis: u64)
        requires
            delta_millis < 0x4000000000000000,
            -0x4000000000000000 < old(self).interpolation_time < 0x4000000000000000,
            old(self).duration_since_latest_received_server_tick + delta_millis
                <= 0xffffffffffffffff,
        ensures
            final(self).interpolation_time == old(self).interpolation_time + delta_millis,
            final(self).duration_since_latest_received_server_tick == old(
                self,
            ).duration_since_latest_received_server_tick + delta_millis,
            final(self).synced == old(self).synced,
            final(self).sample_count == old(self).sample_count,
    {
        self.duration_since_latest_received_server_tick =
            self.duration_since_latest_received_server_tick + delta_millis;
        self.interpolation_time = self.interpolation_time + delta_millis as i64;
    }
}

} // verus!
