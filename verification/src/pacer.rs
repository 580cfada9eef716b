//! Leaky-bucket pacing.
//!
//! What leaves the queue becomes debt, which drains at the pacing rate. While
//! the debt is within a burst's worth of bytes, more may leave. Audio does not
//! wait and makes no debt unless configured otherwise. When the queue would
//! take too long to send, the rate rises until it would not.

use crate::packet::Packet;
use crate::send_queue::{OutModel, OutgoingPacket, Priority, QueueModel, SendQueue, SendQueueStats};
use crate::time;
use crate::time::{cap_u64, Duration, Instant};
use vstd::prelude::*;

verus! {

/// Default length of a burst, in milliseconds.
pub const DEFAULT_BURST_INTERVAL_MS: u64 = 40;

/// Default bound on the debt, in milliseconds at the pacing rate.
pub const DEFAULT_MAX_DEBT_MS: u64 = 500;

/// Default time that the queue may take, in milliseconds.
pub const DEFAULT_QUEUE_TIME_LIMIT_MS: u64 = 2000;

/// Settings of a [`Pacer`].
#[derive(Debug, Clone, Copy, PartialEq, Eq, Structural)]
pub struct PacerConfig {
    /// Sending rate in bits per second.
    pub pacing_rate_bps: u64,
    /// How long a burst may be at the sending rate.
    pub burst_interval: Duration,
    /// How much debt may build up at the sending rate.
    pub max_debt: Duration,
    /// How long the queue may take before the rate rises.
    pub queue_time_limit: Duration,
    /// Whether audio waits and makes debt.
    pub account_for_audio: bool,
}

impl Default for PacerConfig {
    fn default() -> (c: Self)
        ensures
            c.pacing_rate_bps == 1_500_000,
            c.burst_interval == Duration::from_millis(DEFAULT_BURST_INTERVAL_MS),
            c.max_debt == Duration::from_millis(DEFAULT_MAX_DEBT_MS),
            c.queue_time_limit == Duration::from_millis(DEFAULT_QUEUE_TIME_LIMIT_MS),
            !c.account_for_audio,
    {
        PacerConfig {
            pacing_rate_bps: 1_500_000,
            burst_interval: Duration::from_millis(DEFAULT_BURST_INTERVAL_MS),
            max_debt: Duration::from_millis(DEFAULT_MAX_DEBT_MS),
            queue_time_limit: Duration::from_millis(DEFAULT_QUEUE_TIME_LIMIT_MS),
            account_for_audio: false,
        }
    }
}

/// The bytes that a rate in bits per second sends in a span of microseconds.
pub open spec fn rate_bytes(rate_bps: u64, us: u64) -> u64 {
    time::capped(rate_bps * us / 8_000_000)
}

/// The bytes that a rate sends in a window.
fn bytes_for_rate(rate_bps: u64, window: Duration) -> (n: u64)
    ensures
        n == rate_bytes(rate_bps, window.as_micros()),
{
    let us: u64 = window.as_micros();
    assert(rate_bps * us <= u64::MAX * u64::MAX) by (nonlinear_arith)
        requires
            rate_bps <= u64::MAX,
            us <= u64::MAX,
    ;
    cap_u64(rate_bps as u128 * us as u128 / 8_000_000)
}

/// The state of a [`Pacer`] as a value.
#[verifier::ext_equal]
pub struct PacerModel {
    /// What waits.
    pub queue: QueueModel,
    /// Settings.
    pub config: PacerConfig,
    /// Bytes sent ahead of the rate.
    pub debt: u64,
    /// Up to when the debt was drained.
    pub last_update: Option<Instant>,
}

impl PacerModel {
    /// A state where nothing waits.
    pub open spec fn empty(config: PacerConfig) -> PacerModel {
        PacerModel { queue: QueueModel::empty(), config, debt: 0, last_update: None }
    }

    /// The rate in force: the configured one, or the one at which the queue
    /// takes no longer than its limit.
    pub open spec fn rate(self) -> u64 {
        let base = self.config.pacing_rate_bps;
        match self.queue.queue_time(base) {
            Some(t) => if t.nanos > self.config.queue_time_limit.nanos {
                let us = self.config.queue_time_limit.as_micros();
                let divisor = if us == 0 {
                    1
                } else {
                    us as int
                };
                let boosted = time::capped(self.queue.load() as int * 8 * 1_000_000 / divisor);
                if boosted > base {
                    boosted
                } else {
                    base
                }
            } else {
                base
            },
            None => base,
        }
    }

    /// Bytes that may leave ahead of the rate.
    pub open spec fn budget(self) -> u64 {
        rate_bytes(self.rate(), self.config.burst_interval.as_micros())
    }

    /// Bound on the debt.
    pub open spec fn max_debt(self) -> u64 {
        let rate = if self.config.pacing_rate_bps == 0 {
            1
        } else {
            self.config.pacing_rate_bps
        };
        rate_bytes(rate, self.config.max_debt.as_micros())
    }

    /// The state with the debt cut to its bound.
    pub open spec fn clamped(self) -> PacerModel {
        PacerModel {
            debt: if self.debt > self.max_debt() {
                self.max_debt()
            } else {
                self.debt
            },
            ..self
        }
    }

    /// Whether the bucket lets a datagram leave.
    pub open spec fn open_gate(self) -> bool {
        self.rate() > 0 && self.debt <= self.budget()
    }

    /// Whether audio is next and does not wait.
    pub open spec fn audio_next(self) -> bool {
        !self.config.account_for_audio && self.queue.next_priority() == Some(Priority::Audio)
    }

    /// The state with the debt drained up to `now`.
    pub open spec fn advanced(self, now: Instant) -> PacerModel {
        match self.last_update {
            None => PacerModel { last_update: Some(now), ..self },
            Some(last) => if now.nanos <= last.nanos {
                self
            } else {
                let drained = rate_bytes(
                    self.rate(),
                    now.saturating_duration_since(last).as_micros(),
                );
                PacerModel {
                    last_update: Some(now),
                    debt: if drained > self.debt {
                        0
                    } else {
                        (self.debt - drained) as u64
                    },
                    ..self
                }
            },
        }
    }

    /// The state with the debt of a datagram that left.
    pub open spec fn charged(self, p: OutModel) -> PacerModel {
        if self.config.account_for_audio || p.priority != Priority::Audio {
            PacerModel { debt: time::capped(self.debt + p.wire.len()), ..self }.clamped()
        } else {
            self
        }
    }

    /// The state and the datagram that leaves at `now`, if one may.
    pub open spec fn poll(self, now: Instant) -> (PacerModel, Option<OutModel>) {
        let s = self.advanced(now);
        let (queue, out) = s.queue.pop(now);
        let popped = PacerModel { queue, ..s };
        if s.audio_next() {
            (popped, out)
        } else if !s.open_gate() {
            (s, None)
        } else {
            match out {
                Some(p) => (popped.charged(p), out),
                None => (popped, None),
            }
        }
    }

    /// The earliest instant at which a datagram may leave; none where nothing
    /// waits.
    pub open spec fn next_send_time(self, now: Instant) -> Option<Instant> {
        if self.queue.count() == 0 {
            None
        } else if self.audio_next() || self.open_gate() {
            Some(now)
        } else if self.rate() == 0 {
            Some(now.after(self.config.burst_interval))
        } else {
            let need = self.debt - self.budget();
            Some(
                now.after(
                    Duration::from_micros(
                        time::capped(need * 8 * 1_000_000 / (self.rate() as int)),
                    ),
                ),
            )
        }
    }

    /// What holds of every state.
    pub open spec fn wf(self) -> bool {
        self.queue.wf() && self.debt <= self.max_debt()
    }
}

/// Gives datagrams out at the pacing rate.
#[derive(Debug)]
pub struct Pacer {
    queue: SendQueue,
    config: PacerConfig,
    media_debt_bytes: u64,
    last_update: Option<Instant>,
}

impl View for Pacer {
    type V = PacerModel;

    closed spec fn view(&self) -> PacerModel {
        PacerModel {
            queue: self.queue@,
            config: self.config,
            debt: self.media_debt_bytes,
            last_update: self.last_update,
        }
    }
}

impl Pacer {
    /// What every pacer keeps.
    pub closed spec fn wf(&self) -> bool {
        self@.wf() && self.queue.wf()
    }

    /// The state of a well-formed pacer is well-formed.
    pub proof fn lemma_wf(&self)
        requires
            self.wf(),
        ensures
            self@.wf(),
    {
    }

    /// A pacer where nothing waits.
    pub fn new(config: PacerConfig) -> (p: Self)
        ensures
            p.wf(),
            p@ == PacerModel::empty(config),
    {
        let p = Pacer { queue: SendQueue::new(), config, media_debt_bytes: 0, last_update: None };
        proof {
            p.queue.lemma_wf();
        }
        p
    }

    /// The queue.
    pub fn queue(&self) -> (q: &SendQueue)
        requires
            self.wf(),
        ensures
            q.wf(),
            q@ == self@.queue,
    {
        &self.queue
    }

    /// What the queue has counted.
    pub fn queue_stats(&self) -> (s: SendQueueStats)
        ensures
            s == self@.queue.stats,
    {
        self.queue.stats()
    }

    /// Changes the settings; debt past the new bound is forgiven.
    pub fn set_config(&mut self, config: PacerConfig)
        requires
            old(self).wf(),
        ensures
            final(self).wf(),
            final(self)@ == (PacerModel { config, ..old(self)@ }).clamped(),
    {
        self.config = config;
        self.clamp_debt();
    }

    /// The configured rate in bits per second.
    pub fn pacing_rate_bps(&self) -> (r: u64)
        ensures
            r == self@.config.pacing_rate_bps,
    {
        self.config.pacing_rate_bps
    }

    /// Encodes and queues a packet. One whose lifetime is over is refused.
    pub fn enqueue_packet(&mut self, packet: &Packet<'_>, now: Instant) -> (taken: bool)
        requires
            old(self).wf(),
        ensures
            final(self).wf(),
            final(self)@ == (PacerModel {
                queue: old(self)@.queue.enqueue_packet(packet@, now).0,
                ..old(self)@
            }),
            taken == old(self)@.queue.enqueue_packet(packet@, now).1,
    {
        let r = self.queue.enqueue_packet(packet, now);
        proof {
            self.queue.lemma_wf();
        }
        r
    }

    /// Queues a datagram.
    pub fn enqueue(&mut self, packet: OutgoingPacket)
        requires
            old(self).wf(),
        ensures
            final(self).wf(),
            final(self)@ == (PacerModel {
                queue: old(self)@.queue.enqueue(packet@),
                ..old(self)@
            }),
    {
        self.queue.enqueue(packet);
        proof {
            self.queue.lemma_wf();
        }
    }

    /// Gives out a datagram that may leave now.
    pub fn poll(&mut self, now: Instant) -> (r: Option<OutgoingPacket>)
        requires
            old(self).wf(),
        ensures
            final(self).wf(),
            final(self)@ == old(self)@.poll(now).0,
            match r {
                Some(p) => old(self)@.poll(now).1 == Some(p@),
                None => old(self)@.poll(now).1 is None,
            },
    {
        self.advance_time(now);
        if !self.config.account_for_audio {
            if let Some(Priority::Audio) = self.queue.peek_priority() {
                let r = self.queue.pop(now);
                proof {
                    self.queue.lemma_wf();
                }
                return r;
            }
        }
        if !self.can_send_paced() {
            return None;
        }
        let packet = match self.queue.pop(now) {
            Some(p) => p,
            None => {
                proof {
                    self.queue.lemma_wf();
                }
                return None;
            },
        };
        proof {
            self.queue.lemma_wf();
        }
        if self.config.account_for_audio || packet.priority != Priority::Audio {
            self.media_debt_bytes =
            cap_u64(self.media_debt_bytes as u128 + packet.len() as u128);
            self.clamp_debt();
        }
        Some(packet)
    }

    /// The earliest instant at which a datagram may leave; none where nothing
    /// waits.
    pub fn next_send_time(&self, now: Instant) -> (r: Option<Instant>)
        requires
            self.wf(),
        ensures
            r == self@.next_send_time(now),
    {
        if self.queue.is_empty() {
            return None;
        }
        if !self.config.account_for_audio {
            if let Some(Priority::Audio) = self.queue.peek_priority() {
                return Some(now);
            }
        }
        if self.can_send_paced() {
            return Some(now);
        }
        let rate: u64 = self.effective_rate_bps();
        if rate == 0 {
            return Some(now.after(self.config.burst_interval));
        }
        let need: u64 = self.media_debt_bytes - self.burst_budget_bytes();
        let us: u128 = need as u128 * 8 * 1_000_000 / rate as u128;
        Some(now.after(Duration::from_micros(cap_u64(us))))
    }

    fn advance_time(&mut self, now: Instant)
        requires
            old(self).wf(),
        ensures
            final(self).wf(),
            final(self)@ == old(self)@.advanced(now),
    {
        let last = match self.last_update {
            Some(t) => t,
            None => {
                self.last_update = Some(now);
                return;
            },
        };
        if now.nanos <= last.nanos {
            return;
        }
        let drained: u64 = bytes_for_rate(
            self.effective_rate_bps(),
            now.saturating_duration_since(last),
        );
        self.last_update = Some(now);
        self.media_debt_bytes =
        if drained > self.media_debt_bytes {
            0
        } else {
            self.media_debt_bytes - drained
        };
    }

    fn can_send_paced(&self) -> (b: bool)
        requires
            self.wf(),
        ensures
            b == self@.open_gate(),
    {
        if self.effective_rate_bps() == 0 {
            return false;
        }
        self.media_debt_bytes <= self.burst_budget_bytes()
    }

    fn burst_budget_bytes(&self) -> (n: u64)
        requires
            self.wf(),
        ensures
            n == self@.budget(),
    {
        bytes_for_rate(self.effective_rate_bps(), self.config.burst_interval)
    }

    fn clamp_debt(&mut self)
        requires
            old(self).queue.wf(),
        ensures
            final(self).wf(),
            final(self)@ == old(self)@.clamped(),
    {
        proof {
            self.queue.lemma_wf();
        }
        let rate: u64 = if self.config.pacing_rate_bps == 0 {
            1
        } else {
            self.config.pacing_rate_bps
        };
        let max: u64 = bytes_for_rate(rate, self.config.max_debt);
        if self.media_debt_bytes > max {
            self.media_debt_bytes = max;
        }
    }

    fn effective_rate_bps(&self) -> (r: u64)
        requires
            self.wf(),
        ensures
            r == self@.rate(),
    {
        let base: u64 = self.config.pacing_rate_bps;
        match self.queue.expected_queue_time(base) {
            Some(t) => {
                if t.nanos > self.config.queue_time_limit.nanos {
                    let us: u64 = self.config.queue_time_limit.as_micros();
                    let divisor: u64 = if us == 0 {
                        1
                    } else {
                        us
                    };
                    let boosted: u64 = cap_u64(
                        self.queue.queued_bytes() as u128 * 8 * 1_000_000 / divisor as u128,
                    );
                    if boosted > base {
                        boosted
                    } else {
                        base
                    }
                } else {
                    base
                }
            },
            None => base,
        }
    }
}

/// No datagram leaves earlier than foretold: with the debt drained up to
/// `now`, polling before [`PacerModel::next_send_time`] gives nothing.
pub proof fn lemma_not_before(p: PacerModel, now: Instant, t: Instant)
    requires
        p.wf(),
        p.last_update == Some(now),
        p.next_send_time(now) is Some,
        now.nanos < t.nanos < p.next_send_time(now)->0.nanos,
    ensures
        p.poll(t).1 is None,
{
    let s = p.advanced(t);
    let rate = p.rate() as int;
    assert(s.rate() == p.rate());
    assert(s.budget() == p.budget());
    if rate > 0 {
        let need = p.debt - p.budget();
        let us = need * 8 * 1_000_000 / rate;
        let e = t.saturating_duration_since(now).as_micros() as int;
        assert(e < us);
        assert(rate * e < need * 8_000_000) by (nonlinear_arith)
            requires
                e < us,
                rate > 0,
                us == need * 8 * 1_000_000 / rate,
        {
            vstd::arithmetic::div_mod::lemma_fundamental_div_mod(need * 8 * 1_000_000, rate);
            vstd::arithmetic::div_mod::lemma_mod_bound(need * 8 * 1_000_000, rate);
            assert(rate * us <= need * 8 * 1_000_000);
            assert(rate * e < rate * us);
        }
        assert(rate * e / 8_000_000 < need);
        assert(s.debt > s.budget());
    }
}

/// Audio does not wait for the pacer, and does not make others wait: it leaves
/// whatever the debt, which it does not add to.
pub proof fn lemma_audio_unpaced(p: PacerModel, now: Instant)
    requires
        !p.config.account_for_audio,
        p.queue.next_priority() == Some(Priority::Audio),
    ensures
        p.poll(now).1 == p.queue.pop(now).1,
        p.poll(now).0.debt == p.advanced(now).debt,
{
}

/// Where audio that need not wait is not next, a datagram leaves only while the
/// debt is within the burst budget, and the debt never exceeds its bound.
pub proof fn lemma_paced(p: PacerModel, now: Instant)
    requires
        p.wf(),
        p.config.account_for_audio || p.queue.next_priority() != Some(Priority::Audio),
        p.poll(now).1 is Some,
    ensures
        p.advanced(now).debt <= p.advanced(now).budget(),
        p.poll(now).0.debt <= p.max_debt(),
{
}

/// A long queue raises the rate; nothing lowers it.
pub proof fn lemma_rate_floor(p: PacerModel)
    ensures
        p.rate() >= p.config.pacing_rate_bps,
{
}

} // verus!
