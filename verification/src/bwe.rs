//! Bandwidth estimation.
//!
//! Matched arrival reports drive an estimate of the rate that the path
//! carries. Delay between groups of datagrams tells whether queues build up;
//! the rate then falls, and otherwise climbs step by step. Heavy loss lowers
//! it further. Probe clusters let it climb faster.
//!
//! Smoothed values (throughput, loss, the delay trend, growth over time) are
//! worked out by the host, which hands them in at the step that needs them:
//!
//! 1. [`BandwidthEstimator::on_report`] takes the report in and gives the
//!    delay samples and the tally of the report.
//! 2. [`BandwidthEstimator::on_trend`] takes what each sample says of the
//!    trend.
//! 3. [`BandwidthEstimator::apply_aimd`] moves the target by the trend.
//! 4. [`BandwidthEstimator::apply_loss`] moves it by the loss and says whether
//!    it changed.

use crate::feedback::{PacketResult, TransportPacketsFeedback};
use crate::time;
use crate::time::{cap_u64, Duration, Instant};
use vstd::prelude::*;

verus! {

/// Datagrams sent within this many milliseconds form a group.
pub const INTER_ARRIVAL_GROUP_MS: u64 = 5;

/// Least datagrams of a probe cluster.
pub const PROBE_MIN_PACKETS: u32 = 5;

/// Least length of a probe cluster, in milliseconds.
pub const PROBE_MIN_DURATION_MS: u64 = 15;

/// Highest rate of a probe cluster, in bits per second.
pub const PROBE_MAX_BITRATE_BPS: u64 = 5_000_000;

/// Least time between probes of an idle sender, in milliseconds.
pub const ALR_PROBE_INTERVAL_MS: u64 = 5000;

/// Least time between two steps up, in milliseconds.
pub const INCREASE_INTERVAL_MS: u64 = 200;

/// Time between two cuts for loss, beside the round trip, in milliseconds.
pub const LOSS_INTERVAL_MS: u64 = 300;

/// A decision on rates.
#[derive(Debug, Clone, PartialEq, Eq)]
pub struct RateUpdate {
    /// Rate for the media source, in bits per second.
    pub target_bitrate_bps: u64,
    /// Rate for the pacer, in bits per second.
    pub pacing_rate_bps: u64,
    /// Round-trip time.
    pub rtt: Duration,
    /// Probe clusters to run.
    pub probe_clusters: Vec<ProbeCluster>,
}

/// A burst that probes what the path carries.
#[derive(Debug, Clone, Copy, PartialEq, Eq, Structural)]
pub struct ProbeCluster {
    /// Number of the cluster.
    pub id: u32,
    /// Rate of the burst, in bits per second.
    pub target_bps: u64,
    /// Least datagrams.
    pub min_packets: u32,
    /// Least length.
    pub min_duration: Duration,
}

/// Settings of a [`BandwidthEstimator`].
#[derive(Debug, Clone, Copy, PartialEq, Eq, Structural)]
pub struct BweConfig {
    /// Rate to begin with.
    pub start_bitrate_bps: u64,
    /// Least rate.
    pub min_bitrate_bps: u64,
    /// Highest rate.
    pub max_bitrate_bps: u64,
}

impl Default for BweConfig {
    fn default() -> (c: Self)
        ensures
            c.start_bitrate_bps == 300_000,
            c.min_bitrate_bps == 30_000,
            c.max_bitrate_bps == 2_500_000,
            c.bounded(),
            c.probes(),
    {
        BweConfig {
            start_bitrate_bps: 300_000,
            min_bitrate_bps: 30_000,
            max_bitrate_bps: 2_500_000,
        }
    }
}

impl BweConfig {
    /// Whether there is a rate between the bounds.
    pub open spec fn bounded(self) -> bool {
        self.min_bitrate_bps <= self.max_bitrate_bps
    }

    /// Whether a probe may go at the least rate.
    pub open spec fn probes(self) -> bool {
        self.min_bitrate_bps <= PROBE_MAX_BITRATE_BPS
    }
}

/// What delay says of the path.
#[derive(Debug, Clone, Copy, PartialEq, Eq, Structural)]
pub enum NetworkState {
    /// Queues build up.
    Overusing,
    /// Queues drain.
    Underusing,
    /// Neither.
    Normal,
}

/// Where the delay trend stands against its threshold.
#[derive(Debug, Clone, Copy, PartialEq, Eq, Structural)]
pub enum TrendSignal {
    /// Above it.
    Above,
    /// Below its negative.
    Below,
    /// In between.
    Within,
}

/// `n`, brought within `lo` and `hi`.
pub open spec fn clamp(n: u64, lo: u64, hi: u64) -> u64 {
    if n < lo {
        lo
    } else if n > hi {
        hi
    } else {
        n
    }
}

fn clamp_u64(n: u64, lo: u64, hi: u64) -> (r: u64)
    ensures
        r == clamp(n, lo, hi),
{
    if n < lo {
        lo
    } else if n > hi {
        hi
    } else {
        n
    }
}

/// The rate for the encoder when the send path is overloaded: three quarters
/// when the queue takes longer than half a second, nine tenths when it takes
/// longer than a quarter, and half of that when more is under way than the
/// window allows; one at least.
pub open spec fn pushed_back(
    target_bps: u64,
    queue_time: Duration,
    in_flight: int,
    window: Option<usize>,
) -> u64 {
    let a = if queue_time.nanos > 500_000_000 {
        target_bps * 3 / 4
    } else if queue_time.nanos > 250_000_000 {
        target_bps * 9 / 10
    } else {
        target_bps as int
    };
    let b = match window {
        Some(w) => if in_flight > w {
            a / 2
        } else {
            a
        },
        None => a,
    };
    if b == 0 {
        1
    } else {
        b as u64
    }
}

/// The rate for the encoder when the send path is overloaded.
pub fn send_side_pushback(
    target_bps: u64,
    queue_time: Duration,
    in_flight_bytes: usize,
    congestion_window_bytes: Option<usize>,
) -> (r: u64)
    ensures
        r == pushed_back(target_bps, queue_time, in_flight_bytes as int, congestion_window_bytes),
        1 <= r,
        r <= target_bps || r == 1,
{
    let mut rate: u64 = target_bps;
    if queue_time.nanos > 500_000_000 {
        rate = (rate as u128 * 3 / 4) as u64;
    } else if queue_time.nanos > 250_000_000 {
        rate = (rate as u128 * 9 / 10) as u64;
    }
    if let Some(w) = congestion_window_bytes {
        if in_flight_bytes > w {
            rate = rate / 2;
        }
    }
    if rate == 0 {
        1
    } else {
        rate
    }
}

/// An arrived datagram: when it was sent, and when it arrived.
#[derive(Debug, Clone, Copy, PartialEq, Eq, Structural)]
pub struct Arrival {
    /// When it was sent.
    pub send: Instant,
    /// When it arrived.
    pub recv: Instant,
}

/// Arrivals with one more, in the order of sending; it stands behind those
/// sent at the same time.
pub open spec fn insert_by_send(s: Seq<Arrival>, a: Arrival) -> Seq<Arrival>
    decreases s.len(),
{
    if s.len() == 0 || s.last().send.nanos <= a.send.nanos {
        s.push(a)
    } else {
        insert_by_send(s.drop_last(), a).push(s.last())
    }
}

/// The arrivals of a report, in the order of sending.
pub open spec fn arrivals(packets: Seq<PacketResult>) -> Seq<Arrival>
    decreases packets.len(),
{
    if packets.len() == 0 {
        Seq::empty()
    } else {
        let front = arrivals(packets.drop_last());
        let p = packets.last();
        match p.receive_time {
            Some(recv) => insert_by_send(front, Arrival { send: p.send_time, recv }),
            None => front,
        }
    }
}

/// The group that is gathered.
#[derive(Debug, Clone, Copy, PartialEq, Eq, Structural)]
pub struct ArrivalGroup {
    /// When its first datagram was sent.
    pub first_send: Instant,
    /// Its last datagram.
    pub last: Arrival,
}

/// Gathers arrivals into groups and measures from group to group.
#[derive(Debug, Clone, Copy, PartialEq, Eq, Structural)]
pub struct InterArrival {
    /// The group that is gathered.
    pub current: Option<ArrivalGroup>,
    /// The last datagram of the group before.
    pub prev_complete: Option<Arrival>,
}

/// How much later one group was sent, and arrived, than the one before.
pub type Delta = (Duration, Duration);

impl InterArrival {
    /// The state and the measurement once an arrival was taken in. A group is
    /// complete when a datagram was sent too late for it; groups whose last
    /// datagrams were sent together give no measurement.
    pub open spec fn step(self, a: Arrival) -> (InterArrival, Option<Delta>) {
        let fresh = Some(ArrivalGroup { first_send: a.send, last: a });
        match self.current {
            None => (InterArrival { current: fresh, ..self }, None),
            Some(g) => if a.send.saturating_duration_since(g.first_send).nanos
                <= INTER_ARRIVAL_GROUP_MS * 1_000_000 {
                (
                    InterArrival {
                        current: Some(ArrivalGroup { first_send: g.first_send, last: a }),
                        ..self
                    },
                    None,
                )
            } else {
                let out = match self.prev_complete {
                    Some(p) => {
                        let sd = g.last.send.saturating_duration_since(p.send);
                        let rd = g.last.recv.saturating_duration_since(p.recv);
                        if sd.nanos == 0 {
                            None
                        } else {
                            Some((sd, rd))
                        }
                    },
                    None => None,
                };
                (InterArrival { current: fresh, prev_complete: Some(g.last) }, out)
            },
        }
    }

    /// The state and the measurements once arrivals were taken in, in order.
    pub open spec fn steps(self, s: Seq<Arrival>) -> (InterArrival, Seq<Delta>)
        decreases s.len(),
    {
        if s.len() == 0 {
            (self, Seq::empty())
        } else {
            let (st, out) = self.steps(s.drop_last());
            let (next, d) = st.step(s.last());
            (
                next,
                match d {
                    Some(x) => out.push(x),
                    None => out,
                },
            )
        }
    }

    /// Nothing gathered.
    pub fn new() -> (i: Self)
        ensures
            i.current is None,
            i.prev_complete is None,
    {
        InterArrival { current: None, prev_complete: None }
    }

    /// Takes in the arrivals of a report, in the order of sending, and gives
    /// the measurements between groups.
    pub fn compute(&mut self, fb: &TransportPacketsFeedback) -> (out: Vec<Delta>)
        ensures
            *final(self) == old(self).steps(arrivals(fb@.packets)).0,
            out@ == old(self).steps(arrivals(fb@.packets)).1,
    {
        let ghost start = *self;
        let sorted = sort_arrivals(&fb.packets);
        let mut out: Vec<Delta> = Vec::new();
        let mut i: usize = 0;
        assert(sorted@.take(0).len() == 0);
        while i < sorted.len()
            invariant
                i <= sorted@.len(),
                *self == start.steps(sorted@.take(i as int)).0,
                out@ == start.steps(sorted@.take(i as int)).1,
            decreases sorted@.len() - i,
        {
            let a: Arrival = sorted[i];
            assert(sorted@.take(i + 1).drop_last() =~= sorted@.take(i as int));
            match self.current {
                None => {
                    self.current = Some(ArrivalGroup { first_send: a.send, last: a });
                },
                Some(g) => {
                    if a.send.saturating_duration_since(g.first_send).nanos
                        <= INTER_ARRIVAL_GROUP_MS * 1_000_000 {
                        self.current = Some(ArrivalGroup { first_send: g.first_send, last: a });
                    } else {
                        if let Some(p) = self.prev_complete {
                            let sd = g.last.send.saturating_duration_since(p.send);
                            let rd = g.last.recv.saturating_duration_since(p.recv);
                            if sd.nanos != 0 {
                                out.push((sd, rd));
                            }
                        }
                        self.prev_complete = Some(g.last);
                        self.current = Some(ArrivalGroup { first_send: a.send, last: a });
                    }
                },
            }
            i = i + 1;
        }
        assert(sorted@.take(sorted@.len() as int) =~= sorted@);
        out
    }
}

proof fn lemma_insert_by_send(s: Seq<Arrival>, a: Arrival, at: int)
    requires
        0 <= at <= s.len(),
        forall|i: int| at <= i < s.len() ==> (#[trigger] s[i]).send.nanos > a.send.nanos,
        at > 0 ==> s[at - 1].send.nanos <= a.send.nanos,
    ensures
        insert_by_send(s, a) == s.insert(at, a),
    decreases s.len(),
{
    if at == s.len() {
        assert(s.insert(at, a) =~= s.push(a));
    } else {
        let front = s.drop_last();
        assert(s[s.len() - 1].send.nanos > a.send.nanos);
        assert forall|i: int| at <= i < front.len() implies (#[trigger] front[i]).send.nanos
            > a.send.nanos by {
            assert(s[i].send.nanos > a.send.nanos);
        }
        lemma_insert_by_send(front, a, at);
        assert(front.insert(at, a).push(s.last()) =~= s.insert(at, a));
    }
}

/// The arrivals of a report, in the order of sending.
fn sort_arrivals(packets: &Vec<PacketResult>) -> (out: Vec<Arrival>)
    ensures
        out@ == arrivals(packets@),
{
    let mut out: Vec<Arrival> = Vec::new();
    let mut i: usize = 0;
    assert(packets@.take(0).len() == 0);
    while i < packets.len()
        invariant
            i <= packets@.len(),
            out@ == arrivals(packets@.take(i as int)),
        decreases packets@.len() - i,
    {
        let p: PacketResult = packets[i];
        assert(packets@.take(i + 1).drop_last() =~= packets@.take(i as int));
        if let Some(recv) = p.receive_time {
            let a = Arrival { send: p.send_time, recv };
            let mut at: usize = out.len();
            while at > 0 && out[at - 1].send.nanos > a.send.nanos
                invariant
                    at <= out@.len(),
                    forall|k: int|
                        at <= k < out@.len() ==> (#[trigger] out@[k]).send.nanos > a.send.nanos,
                decreases at,
            {
                at = at - 1;
            }
            proof {
                lemma_insert_by_send(out@, a, at as int);
            }
            out.insert(at, a);
        }
        i = i + 1;
    }
    assert(packets@.take(packets@.len() as int) =~= packets@);
    out
}

/// What a report counts.
#[derive(Debug, Clone, Copy, PartialEq, Eq, Structural)]
pub struct Tally {
    /// Datagrams that arrived.
    pub received: u64,
    /// Datagrams that were lost.
    pub lost: u64,
    /// Bytes that arrived.
    pub acked_bytes: u64,
    /// From the first to the last sending of what arrived; a tenth of a second
    /// at least. None where nothing arrived.
    pub span: Option<Duration>,
}

/// How many datagrams arrived, or were lost.
pub open spec fn count(packets: Seq<PacketResult>, arrived: bool) -> nat
    decreases packets.len(),
{
    if packets.len() == 0 {
        0
    } else {
        count(packets.drop_last(), arrived) + if (packets.last().receive_time is Some) == arrived {
            1nat
        } else {
            0nat
        }
    }
}

/// The bytes that arrived.
pub open spec fn arrived_bytes(packets: Seq<PacketResult>) -> nat
    decreases packets.len(),
{
    if packets.len() == 0 {
        0
    } else {
        arrived_bytes(packets.drop_last()) + if packets.last().receive_time is Some {
            packets.last().size_bytes as nat
        } else {
            0nat
        }
    }
}

/// The first and the last sending of what arrived.
pub open spec fn sending_range(packets: Seq<PacketResult>) -> Option<(Instant, Instant)>
    decreases packets.len(),
{
    if packets.len() == 0 {
        None
    } else {
        let front = sending_range(packets.drop_last());
        let p = packets.last();
        if p.receive_time is Some {
            match front {
                None => Some((p.send_time, p.send_time)),
                Some((a, b)) => Some(
                    (
                        if p.send_time.nanos < a.nanos {
                            p.send_time
                        } else {
                            a
                        },
                        if p.send_time.nanos > b.nanos {
                            p.send_time
                        } else {
                            b
                        },
                    ),
                ),
            }
        } else {
            front
        }
    }
}

/// What a report counts.
pub open spec fn tally_of(packets: Seq<PacketResult>) -> Tally {
    Tally {
        received: time::capped(count(packets, true) as int),
        lost: time::capped(count(packets, false) as int),
        acked_bytes: time::capped(arrived_bytes(packets) as int),
        span: match sending_range(packets) {
            Some((a, b)) => Some(
                b.saturating_duration_since(a).at_least(Duration::from_millis(100)),
            ),
            None => None,
        },
    }
}

/// Counts what a report says.
pub fn tally(packets: &Vec<PacketResult>) -> (t: Tally)
    ensures
        t == tally_of(packets@),
{
    let mut received: u64 = 0;
    let mut lost: u64 = 0;
    let mut acked_bytes: u64 = 0;
    let mut range: Option<(Instant, Instant)> = None;
    let mut i: usize = 0;
    assert(packets@.take(0).len() == 0);
    while i < packets.len()
        invariant
            i <= packets@.len(),
            received == time::capped(count(packets@.take(i as int), true) as int),
            lost == time::capped(count(packets@.take(i as int), false) as int),
            acked_bytes == time::capped(arrived_bytes(packets@.take(i as int)) as int),
            range == sending_range(packets@.take(i as int)),
        decreases packets@.len() - i,
    {
        let p: PacketResult = packets[i];
        assert(packets@.take(i + 1).drop_last() =~= packets@.take(i as int));
        if p.received() {
            received = cap_u64(received as u128 + 1);
            acked_bytes = cap_u64(acked_bytes as u128 + p.size_bytes as u128);
            range =
            match range {
                None => Some((p.send_time, p.send_time)),
                Some((a, b)) => Some(
                    (
                        if p.send_time.nanos < a.nanos {
                            p.send_time
                        } else {
                            a
                        },
                        if p.send_time.nanos > b.nanos {
                            p.send_time
                        } else {
                            b
                        },
                    ),
                ),
            };
        } else {
            lost = cap_u64(lost as u128 + 1);
        }
        i = i + 1;
    }
    assert(packets@.take(packets@.len() as int) =~= packets@);
    Tally {
        received,
        lost,
        acked_bytes,
        span: match range {
            Some((a, b)) => Some(
                b.saturating_duration_since(a).at_least(Duration::from_millis(100)),
            ),
            None => None,
        },
    }
}

/// Turns trend signals into a verdict on the path.
#[derive(Debug, Clone, Copy, PartialEq, Eq, Structural)]
pub struct OveruseDetector {
    /// How long the trend has been above its threshold.
    pub overuse_time: Duration,
    /// The verdict.
    pub state: NetworkState,
}

impl OveruseDetector {
    /// The detector after one more signal: overuse must last longer than ten
    /// milliseconds of sending.
    pub open spec fn after(self, signal: TrendSignal, send_delta: Duration) -> OveruseDetector {
        match signal {
            TrendSignal::Above => {
                let t = self.overuse_time.saturating_add(
                    send_delta.at_least(Duration::from_millis(1)),
                );
                OveruseDetector {
                    overuse_time: t,
                    state: if t.nanos > 10_000_000 {
                        NetworkState::Overusing
                    } else {
                        self.state
                    },
                }
            },
            TrendSignal::Below => OveruseDetector {
                overuse_time: Duration::from_millis(0),
                state: NetworkState::Underusing,
            },
            TrendSignal::Within => OveruseDetector {
                overuse_time: Duration::from_millis(0),
                state: NetworkState::Normal,
            },
        }
    }

    /// No signal yet.
    pub fn new() -> (d: Self)
        ensures
            d == (OveruseDetector {
                overuse_time: Duration::from_millis(0),
                state: NetworkState::Normal,
            }),
    {
        OveruseDetector { overuse_time: Duration::from_millis(0), state: NetworkState::Normal }
    }

    /// Takes in a signal.
    pub fn update(&mut self, signal: TrendSignal, send_delta: Duration) -> (s: NetworkState)
        ensures
            *final(self) == old(self).after(signal, send_delta),
            s == final(self).state,
    {
        match signal {
            TrendSignal::Above => {
                self.overuse_time =
                self.overuse_time.saturating_add(send_delta.at_least(Duration::from_millis(1)));
                if self.overuse_time.nanos > 10_000_000 {
                    self.state = NetworkState::Overusing;
                }
            },
            TrendSignal::Below => {
                self.overuse_time = Duration::from_millis(0);
                self.state = NetworkState::Underusing;
            },
            TrendSignal::Within => {
                self.overuse_time = Duration::from_millis(0);
                self.state = NetworkState::Normal;
            },
        }
        self.state
    }
}

/// Moves a rate up step by step, and down by a share of the throughput.
#[derive(Debug, Clone, Copy, PartialEq, Eq, Structural)]
pub struct AimdRateControl {
    /// The rate.
    pub estimate: u64,
    /// Least rate.
    pub min_bps: u64,
    /// Highest rate.
    pub max_bps: u64,
}

/// The rate after overuse: 85 percent of the throughput less 5 kbps, and no
/// more than before.
pub open spec fn decreased(acked_bps: u64, current: u64) -> u64 {
    let share = acked_bps * 85 / 100 - 5_000;
    if share < 0 {
        0
    } else if share > current {
        current
    } else {
        share as u64
    }
}

/// The rate after a step up: what growth gives but a kbps at least, and no
/// more than one and a half times the throughput and 10 kbps.
pub open spec fn increased(current: u64, acked_bps: u64, grown: u64) -> u64 {
    let up = if grown < current + 1_000 {
        current + 1_000
    } else {
        grown as int
    };
    let cap = acked_bps * 3 / 2 + 10_000;
    time::capped(
        if up > cap {
            cap
        } else {
            up
        },
    )
}

impl AimdRateControl {
    /// A control at `start`.
    pub fn new(start: u64, min_bps: u64, max_bps: u64) -> (a: Self)
        ensures
            a == (AimdRateControl { estimate: start, min_bps, max_bps }),
    {
        AimdRateControl { estimate: start, min_bps, max_bps }
    }

    /// Changes the bounds; the rate is brought within them.
    pub fn set_bounds(&mut self, min_bps: u64, max_bps: u64)
        requires
            min_bps <= max_bps,
        ensures
            *final(self) == (AimdRateControl {
                estimate: clamp(old(self).estimate, min_bps, max_bps),
                min_bps,
                max_bps,
            }),
    {
        self.min_bps = min_bps;
        self.max_bps = max_bps;
        self.estimate = clamp_u64(self.estimate, min_bps, max_bps);
    }

    /// Sets the rate, within the bounds.
    pub fn set_estimate(&mut self, bps: u64)
        requires
            old(self).min_bps <= old(self).max_bps,
        ensures
            *final(self) == (AimdRateControl {
                estimate: clamp(bps, old(self).min_bps, old(self).max_bps),
                ..*old(self)
            }),
    {
        self.estimate = clamp_u64(bps, self.min_bps, self.max_bps);
    }

    /// Lowers the rate after overuse.
    pub fn decrease(&mut self, acked_bps: u64, current: u64) -> (r: u64)
        requires
            old(self).min_bps <= old(self).max_bps,
        ensures
            *final(self) == (AimdRateControl {
                estimate: clamp(
                    decreased(acked_bps, current),
                    old(self).min_bps,
                    old(self).max_bps,
                ),
                ..*old(self)
            }),
            r == final(self).estimate,
    {
        let share: u64 = (acked_bps as u128 * 85 / 100) as u64;
        let less: u64 = if share < 5_000 {
            0
        } else {
            share - 5_000
        };
        let kept: u64 = if less > current {
            current
        } else {
            less
        };
        self.estimate = clamp_u64(kept, self.min_bps, self.max_bps);
        self.estimate
    }

    /// Raises the rate by a step. `grown` is `current` after growth over time.
    pub fn increase(&mut self, current: u64, acked_bps: u64, grown: u64) -> (r: u64)
        requires
            old(self).min_bps <= old(self).max_bps,
        ensures
            *final(self) == (AimdRateControl {
                estimate: clamp(
                    increased(current, acked_bps, grown),
                    old(self).min_bps,
                    old(self).max_bps,
                ),
                ..*old(self)
            }),
            r == final(self).estimate,
    {
        let step: u128 = current as u128 + 1_000;
        let up: u128 = if (grown as u128) < step {
            step
        } else {
            grown as u128
        };
        let cap: u128 = acked_bps as u128 * 3 / 2 + 10_000;
        let next: u64 = cap_u64(
            if up > cap {
                cap
            } else {
                up
            },
        );
        self.estimate = clamp_u64(next, self.min_bps, self.max_bps);
        self.estimate
    }
}

/// Hands out probe clusters.
#[derive(Debug, Clone, Copy, PartialEq, Eq, Structural)]
pub struct ProbeController {
    /// Least rate.
    pub min_bps: u64,
    /// Highest rate.
    pub max_bps: u64,
    /// Number of the next cluster.
    pub next_id: u32,
    /// When an idle sender was probed last.
    pub last_alr_probe: Option<Instant>,
}

/// The next number of a cluster.
pub open spec fn next_id(id: u32) -> u32 {
    ((id + 1) % 0x1_0000_0000) as u32
}

impl ProbeController {
    /// Highest rate of a cluster.
    pub open spec fn ceiling(self) -> u64 {
        if self.max_bps < PROBE_MAX_BITRATE_BPS {
            self.max_bps
        } else {
            PROBE_MAX_BITRATE_BPS
        }
    }

    /// The cluster with number `id` at a rate, within the bounds.
    pub open spec fn cluster_at(self, id: u32, target_bps: u64) -> ProbeCluster {
        ProbeCluster {
            id,
            target_bps: clamp(target_bps, self.min_bps, self.ceiling()),
            min_packets: PROBE_MIN_PACKETS,
            min_duration: Duration::from_millis(PROBE_MIN_DURATION_MS),
        }
    }

    /// Three and six times the rate to begin with.
    pub open spec fn startup(self, start_bps: u64) -> Seq<ProbeCluster> {
        seq![
            self.cluster_at(self.next_id, time::capped(start_bps * 3)),
            self.cluster_at(next_id(self.next_id), time::capped(start_bps * 6)),
        ]
    }

    /// Whether an idle sender is probed now.
    pub open spec fn alr_due(self, now: Instant, in_alr: bool) -> bool {
        in_alr && match self.last_alr_probe {
            None => true,
            Some(t) => now.saturating_duration_since(t).nanos >= ALR_PROBE_INTERVAL_MS * 1_000_000,
        }
    }

    /// Twice the estimate.
    pub open spec fn alr_cluster(self, estimate_bps: u64) -> ProbeCluster {
        self.cluster_at(self.next_id, time::capped(estimate_bps * 2))
    }

    /// A controller that has handed nothing out.
    pub fn new(min_bps: u64, max_bps: u64) -> (p: Self)
        ensures
            p == (ProbeController { min_bps, max_bps, next_id: 1, last_alr_probe: None }),
    {
        ProbeController { min_bps, max_bps, next_id: 1, last_alr_probe: None }
    }

    /// Changes the bounds.
    pub fn set_bounds(&mut self, min_bps: u64, max_bps: u64)
        ensures
            *final(self) == (ProbeController { min_bps, max_bps, ..*old(self) }),
    {
        self.min_bps = min_bps;
        self.max_bps = max_bps;
    }

    /// The clusters to begin with.
    pub fn startup_clusters(&mut self, start_bps: u64) -> (out: Vec<ProbeCluster>)
        ensures
            out@ == old(self).startup(start_bps),
            *final(self) == (ProbeController {
                next_id: next_id(next_id(old(self).next_id)),
                ..*old(self)
            }),
    {
        let mut out: Vec<ProbeCluster> = Vec::new();
        out.push(self.cluster(cap_u64(start_bps as u128 * 3)));
        out.push(self.cluster(cap_u64(start_bps as u128 * 6)));
        assert(out@ =~= old(self).startup(start_bps));
        out
    }

    /// Whether an idle sender is probed now.
    pub fn is_due(&self, now: Instant, in_alr: bool) -> (b: bool)
        ensures
            b == self.alr_due(now, in_alr),
    {
        in_alr && match self.last_alr_probe {
            None => true,
            Some(t) => now.saturating_duration_since(t).nanos >= ALR_PROBE_INTERVAL_MS * 1_000_000,
        }
    }

    /// The cluster for an idle sender, when one is due.
    pub fn maybe_alr_probe(&mut self, now: Instant, in_alr: bool, estimate_bps: u64) -> (out: Vec<
        ProbeCluster,
    >)
        ensures
            old(self).alr_due(now, in_alr) ==> out@ == seq![old(self).alr_cluster(estimate_bps)]
                && *final(self) == (ProbeController {
                next_id: next_id(old(self).next_id),
                last_alr_probe: Some(now),
                ..*old(self)
            }),
            !old(self).alr_due(now, in_alr) ==> out@.len() == 0 && *final(self) == *old(self),
    {
        let mut out: Vec<ProbeCluster> = Vec::new();
        if !self.is_due(now, in_alr) {
            return out;
        }
        self.last_alr_probe = Some(now);
        out.push(self.cluster(cap_u64(estimate_bps as u128 * 2)));
        assert(out@ =~= seq![old(self).alr_cluster(estimate_bps)]);
        out
    }

    fn cluster(&mut self, target_bps: u64) -> (c: ProbeCluster)
        ensures
            c == old(self).cluster_at(old(self).next_id, target_bps),
            *final(self) == (ProbeController {
                next_id: next_id(old(self).next_id),
                ..*old(self)
            }),
    {
        let id: u32 = self.next_id;
        self.next_id = id.wrapping_add(1);
        let ceiling: u64 = if self.max_bps < PROBE_MAX_BITRATE_BPS {
            self.max_bps
        } else {
            PROBE_MAX_BITRATE_BPS
        };
        ProbeCluster {
            id,
            target_bps: clamp_u64(target_bps, self.min_bps, ceiling),
            min_packets: PROBE_MIN_PACKETS,
            min_duration: Duration::from_millis(PROBE_MIN_DURATION_MS),
        }
    }
}

/// What a probe says of the path: 95 percent of what arrived when that is
/// less than nine tenths of what was sent, else the smaller of the two; with
/// one of them unknown, the other.
pub open spec fn probe_estimate(send_bps: u64, recv_bps: u64) -> u64 {
    if send_bps == 0 {
        recv_bps
    } else if recv_bps == 0 {
        send_bps
    } else if recv_bps * 10 < send_bps * 9 {
        (recv_bps * 95 / 100) as u64
    } else if send_bps < recv_bps {
        send_bps
    } else {
        recv_bps
    }
}

/// The state of a [`BandwidthEstimator`] as a value.
pub struct BweModel {
    /// Settings.
    pub config: BweConfig,
    /// The rate for the media source.
    pub target: u64,
    /// The rate when the last report came.
    pub target_before: u64,
    /// Round-trip time.
    pub rtt: Duration,
    /// The verdict on the path.
    pub detector: OveruseDetector,
    /// Steps up and down.
    pub aimd: AimdRateControl,
    /// Groups of arrivals.
    pub inter_arrival: InterArrival,
    /// Probe clusters.
    pub probe: ProbeController,
    /// When the rate was cut for loss last.
    pub last_loss_decrease: Option<Instant>,
    /// When the rate was raised last.
    pub last_increase: Option<Instant>,
    /// Whether the first probes are still to come.
    pub startup_pending: bool,
}

impl BweModel {
    /// A state at the rate to begin with.
    pub open spec fn start(config: BweConfig) -> BweModel {
        let start = clamp(
            config.start_bitrate_bps,
            config.min_bitrate_bps,
            config.max_bitrate_bps,
        );
        BweModel {
            config,
            target: start,
            target_before: start,
            rtt: Duration::from_millis(100),
            detector: OveruseDetector {
                overuse_time: Duration::from_millis(0),
                state: NetworkState::Normal,
            },
            aimd: AimdRateControl {
                estimate: start,
                min_bps: config.min_bitrate_bps,
                max_bps: config.max_bitrate_bps,
            },
            inter_arrival: InterArrival { current: None, prev_complete: None },
            probe: ProbeController {
                min_bps: config.min_bitrate_bps,
                max_bps: config.max_bitrate_bps,
                next_id: 1,
                last_alr_probe: None,
            },
            last_loss_decrease: None,
            last_increase: None,
            startup_pending: true,
        }
    }

    /// What holds of every state: the rate is within its bounds.
    pub open spec fn wf(self) -> bool {
        &&& self.config.bounded()
        &&& self.config.min_bitrate_bps <= self.target <= self.config.max_bitrate_bps
        &&& self.aimd.min_bps == self.config.min_bitrate_bps
        &&& self.aimd.max_bps == self.config.max_bitrate_bps
        &&& self.probe.min_bps == self.config.min_bitrate_bps
        &&& self.probe.max_bps == self.config.max_bitrate_bps
    }

    /// The state with other settings.
    pub open spec fn reconfigured(self, config: BweConfig) -> BweModel {
        BweModel {
            config,
            target: clamp(self.target, config.min_bitrate_bps, config.max_bitrate_bps),
            aimd: AimdRateControl {
                estimate: clamp(
                    self.aimd.estimate,
                    config.min_bitrate_bps,
                    config.max_bitrate_bps,
                ),
                min_bps: config.min_bitrate_bps,
                max_bps: config.max_bitrate_bps,
            },
            probe: ProbeController {
                min_bps: config.min_bitrate_bps,
                max_bps: config.max_bitrate_bps,
                ..self.probe
            },
            ..self
        }
    }

    /// The time since the last step up; a second before the first.
    pub open spec fn since_increase(self, now: Instant) -> Duration {
        match self.last_increase {
            Some(t) => now.saturating_duration_since(t),
            None => Duration::from_millis(1000),
        }
    }

    /// Whether a step up is due.
    pub open spec fn may_increase(self, now: Instant) -> bool {
        self.detector.state == NetworkState::Normal && self.since_increase(now).nanos
            >= INCREASE_INTERVAL_MS * 1_000_000
    }

    /// The state once the rate was moved by the trend.
    pub open spec fn aimd_applied(self, now: Instant, acked_bps: u64, grown: u64) -> BweModel {
        let acked = if acked_bps == 0 {
            1
        } else {
            acked_bps
        };
        if self.detector.state == NetworkState::Overusing {
            let t = clamp(decreased(acked, self.target), self.aimd.min_bps, self.aimd.max_bps);
            BweModel { target: t, aimd: AimdRateControl { estimate: t, ..self.aimd }, ..self }
        } else if self.may_increase(now) {
            let t = clamp(
                increased(self.target, acked, grown),
                self.aimd.min_bps,
                self.aimd.max_bps,
            );
            BweModel {
                target: t,
                aimd: AimdRateControl { estimate: t, ..self.aimd },
                last_increase: Some(now),
                ..self
            }
        } else {
            self
        }
    }

    /// Whether a cut for loss is due.
    pub open spec fn loss_due(self, now: Instant) -> bool {
        match self.last_loss_decrease {
            Some(t) => now.saturating_duration_since(t).nanos >= Duration::from_millis(
                LOSS_INTERVAL_MS,
            ).saturating_add(self.rtt).nanos,
            None => true,
        }
    }

    /// The state once the rate was moved by the loss. `reduced` is the rate
    /// that heavy loss leaves.
    pub open spec fn loss_applied(self, now: Instant, reduced: Option<u64>) -> BweModel {
        match reduced {
            Some(r) => if self.loss_due(now) {
                let t = clamp(r, self.config.min_bitrate_bps, self.config.max_bitrate_bps);
                BweModel {
                    target: t,
                    aimd: AimdRateControl { estimate: t, ..self.aimd },
                    last_loss_decrease: Some(now),
                    ..self
                }
            } else {
                self
            },
            None => self,
        }
    }

    /// The state once a probe was measured; a probe never lowers the rate.
    pub open spec fn probed(self, send_bps: u64, recv_bps: u64) -> BweModel {
        let e = clamp(
            probe_estimate(send_bps, recv_bps),
            self.config.min_bitrate_bps,
            self.config.max_bitrate_bps,
        );
        let t = if e > self.target {
            e
        } else {
            self.target
        };
        BweModel { target: t, aimd: AimdRateControl { estimate: t, ..self.aimd }, ..self }
    }

    /// The state and the clusters that begin now.
    pub open spec fn probes(self, now: Instant, in_alr: bool) -> (BweModel, Seq<ProbeCluster>) {
        let first = if self.startup_pending {
            self.probe.startup(self.config.start_bitrate_bps)
        } else {
            Seq::empty()
        };
        let p = if self.startup_pending {
            ProbeController { next_id: next_id(next_id(self.probe.next_id)), ..self.probe }
        } else {
            self.probe
        };
        if p.alr_due(now, in_alr) {
            (
                BweModel {
                    startup_pending: false,
                    probe: ProbeController {
                        next_id: next_id(p.next_id),
                        last_alr_probe: Some(now),
                        ..p
                    },
                    ..self
                },
                first.push(p.alr_cluster(self.target)),
            )
        } else {
            (BweModel { startup_pending: false, probe: p, ..self }, first)
        }
    }

    /// The rate for the pacer. `scaled` is the target times the pacing factor.
    pub open spec fn pacing(self, scaled: u64) -> u64 {
        let up = if scaled < self.target {
            self.target
        } else {
            scaled
        };
        let most = time::capped(self.config.max_bitrate_bps * 2);
        if up > most {
            most
        } else {
            up
        }
    }
}

/// Estimates what the path carries.
#[derive(Debug, Clone, Copy)]
pub struct BandwidthEstimator {
    config: BweConfig,
    target_bps: u64,
    target_before: u64,
    rtt: Duration,
    detector: OveruseDetector,
    aimd: AimdRateControl,
    inter_arrival: InterArrival,
    probe: ProbeController,
    last_loss_decrease: Option<Instant>,
    last_increase: Option<Instant>,
    startup_probes_pending: bool,
}

impl View for BandwidthEstimator {
    type V = BweModel;

    closed spec fn view(&self) -> BweModel {
        BweModel {
            config: self.config,
            target: self.target_bps,
            target_before: self.target_before,
            rtt: self.rtt,
            detector: self.detector,
            aimd: self.aimd,
            inter_arrival: self.inter_arrival,
            probe: self.probe,
            last_loss_decrease: self.last_loss_decrease,
            last_increase: self.last_increase,
            startup_pending: self.startup_probes_pending,
        }
    }
}

impl BandwidthEstimator {
    /// An estimator at the rate to begin with.
    pub fn new(config: BweConfig) -> (b: Self)
        requires
            config.bounded(),
        ensures
            b@ == BweModel::start(config),
            b@.wf(),
    {
        let start: u64 = clamp_u64(
            config.start_bitrate_bps,
            config.min_bitrate_bps,
            config.max_bitrate_bps,
        );
        BandwidthEstimator {
            config,
            target_bps: start,
            target_before: start,
            rtt: Duration::from_millis(100),
            detector: OveruseDetector::new(),
            aimd: AimdRateControl::new(start, config.min_bitrate_bps, config.max_bitrate_bps),
            inter_arrival: InterArrival::new(),
            probe: ProbeController::new(config.min_bitrate_bps, config.max_bitrate_bps),
            last_loss_decrease: None,
            last_increase: None,
            startup_probes_pending: true,
        }
    }

    /// The rate for the media source, in bits per second.
    pub fn target_bitrate_bps(&self) -> (r: u64)
        ensures
            r == self@.target,
    {
        self.target_bps
    }

    /// The verdict on the path.
    pub fn network_state(&self) -> (s: NetworkState)
        ensures
            s == self@.detector.state,
    {
        self.detector.state
    }

    /// Changes the settings; the rate is brought within the new bounds.
    pub fn set_config(&mut self, config: BweConfig)
        requires
            config.bounded(),
        ensures
            final(self)@ == old(self)@.reconfigured(config),
            old(self)@.wf() ==> final(self)@.wf(),
    {
        self.target_bps =
        clamp_u64(self.target_bps, config.min_bitrate_bps, config.max_bitrate_bps);
        self.aimd.set_bounds(config.min_bitrate_bps, config.max_bitrate_bps);
        self.probe.set_bounds(config.min_bitrate_bps, config.max_bitrate_bps);
        self.config = config;
    }

    /// Takes in a report: gives the delay samples and the tally.
    pub fn on_report(&mut self, fb: &TransportPacketsFeedback, rtt: Duration) -> (r: (
        Vec<Delta>,
        Tally,
    ))
        ensures
            ({
                let (inter_arrival, deltas) = old(self)@.inter_arrival.steps(
                    arrivals(fb@.packets),
                );
                &&& final(self)@ == (BweModel {
                    rtt: rtt.at_least(Duration::from_millis(1)),
                    target_before: old(self)@.target,
                    inter_arrival,
                    ..old(self)@
                })
                &&& r.0@ == deltas
                &&& r.1 == tally_of(fb@.packets)
            }),
    {
        self.rtt = rtt.at_least(Duration::from_millis(1));
        self.target_before = self.target_bps;
        let deltas = self.inter_arrival.compute(fb);
        (deltas, tally(&fb.packets))
    }

    /// Takes in what a delay sample says of the trend.
    pub fn on_trend(&mut self, signal: TrendSignal, send_delta: Duration) -> (s: NetworkState)
        ensures
            final(self)@ == (BweModel {
                detector: old(self)@.detector.after(signal, send_delta),
                ..old(self)@
            }),
            s == final(self)@.detector.state,
    {
        self.detector.update(signal, send_delta)
    }

    /// The time over which the rate has grown, when a step up is due.
    pub fn growth_span(&self, now: Instant) -> (r: Option<Duration>)
        ensures
            r == (if self@.may_increase(now) {
                Some(self@.since_increase(now))
            } else {
                None
            }),
    {
        if self.detector.state != NetworkState::Normal {
            return None;
        }
        let since = match self.last_increase {
            Some(t) => now.saturating_duration_since(t),
            None => Duration::from_millis(1000),
        };
        if since.nanos >= INCREASE_INTERVAL_MS * 1_000_000 {
            Some(since)
        } else {
            None
        }
    }

    /// Moves the rate by the trend. `acked_bps` is the smoothed throughput and
    /// `grown` the rate after growth over [`Self::growth_span`].
    pub fn apply_aimd(&mut self, now: Instant, acked_bps: u64, grown: u64)
        requires
            old(self)@.wf(),
        ensures
            final(self)@ == old(self)@.aimd_applied(now, acked_bps, grown),
            final(self)@.wf(),
    {
        let acked: u64 = if acked_bps == 0 {
            1
        } else {
            acked_bps
        };
        if self.detector.state == NetworkState::Overusing {
            self.target_bps = self.aimd.decrease(acked, self.target_bps);
        } else if self.growth_span(now).is_some() {
            self.target_bps = self.aimd.increase(self.target_bps, acked, grown);
            self.last_increase = Some(now);
        }
    }

    /// Moves the rate by the loss, and says whether it differs from what it
    /// was before the report. `reduced` is the rate that heavy loss leaves.
    pub fn apply_loss(&mut self, now: Instant, reduced: Option<u64>) -> (changed: bool)
        requires
            old(self)@.wf(),
        ensures
            final(self)@ == old(self)@.loss_applied(now, reduced),
            final(self)@.wf(),
            changed == (final(self)@.target != old(self)@.target_before),
    {
        if let Some(r) = reduced {
            let due = match self.last_loss_decrease {
                Some(t) => now.saturating_duration_since(t).nanos >= Duration::from_millis(
                    LOSS_INTERVAL_MS,
                ).saturating_add(self.rtt).nanos,
                None => true,
            };
            if due {
                self.aimd.set_estimate(r);
                self.target_bps =
                clamp_u64(r, self.config.min_bitrate_bps, self.config.max_bitrate_bps);
                self.last_loss_decrease = Some(now);
            }
        }
        self.target_bps != self.target_before
    }

    /// Applies what a probe cluster measured; the rate never falls.
    pub fn on_probe_result(&mut self, send_bps: u64, recv_bps: u64)
        requires
            old(self)@.wf(),
        ensures
            final(self)@ == old(self)@.probed(send_bps, recv_bps),
            final(self)@.wf(),
            final(self)@.target >= old(self)@.target,
    {
        let raw: u64 = if send_bps == 0 {
            recv_bps
        } else if recv_bps == 0 {
            send_bps
        } else if (recv_bps as u128) * 10 < (send_bps as u128) * 9 {
            (recv_bps as u128 * 95 / 100) as u64
        } else if send_bps < recv_bps {
            send_bps
        } else {
            recv_bps
        };
        let e: u64 = clamp_u64(raw, self.config.min_bitrate_bps, self.config.max_bitrate_bps);
        if e > self.target_bps {
            self.target_bps = e;
        }
        self.aimd.set_estimate(self.target_bps);
    }

    /// Whether probe clusters begin now.
    pub fn probes_due(&self, now: Instant, in_alr: bool) -> (b: bool)
        ensures
            b == (self@.probes(now, in_alr).1.len() > 0),
    {
        self.startup_probes_pending || self.probe.is_due(now, in_alr)
    }

    /// The probe clusters that begin now: the first call gives those to begin
    /// with; later an idle sender is probed now and then.
    pub fn poll_probes(&mut self, now: Instant, in_alr: bool) -> (out: Vec<ProbeCluster>)
        requires
            old(self)@.wf(),
            old(self)@.probes(now, in_alr).1.len() > 0 ==> old(self)@.config.probes(),
        ensures
            final(self)@ == old(self)@.probes(now, in_alr).0,
            out@ == old(self)@.probes(now, in_alr).1,
            final(self)@.wf(),
    {
        let mut out: Vec<ProbeCluster> = Vec::new();
        if self.startup_probes_pending {
            out = self.probe.startup_clusters(self.config.start_bitrate_bps);
            self.startup_probes_pending = false;
        }
        let mut more = self.probe.maybe_alr_probe(now, in_alr, self.target_bps);
        let ghost first = out@;
        out.append(&mut more);
        assert(out@ =~= old(self)@.probes(now, in_alr).1);
        out
    }

    /// The rates in force. `scaled_pacing_bps` is the target times the pacing
    /// factor.
    pub fn current_update(&self, scaled_pacing_bps: u64, probe_clusters: Vec<ProbeCluster>) -> (u:
        RateUpdate)
        ensures
            u.target_bitrate_bps == self@.target,
            u.pacing_rate_bps == self@.pacing(scaled_pacing_bps),
            u.rtt == self@.rtt,
            u.probe_clusters == probe_clusters,
    {
        let up: u64 = if scaled_pacing_bps < self.target_bps {
            self.target_bps
        } else {
            scaled_pacing_bps
        };
        let most: u64 = cap_u64(self.config.max_bitrate_bps as u128 * 2);
        RateUpdate {
            target_bitrate_bps: self.target_bps,
            pacing_rate_bps: if up > most {
                most
            } else {
                up
            },
            rtt: self.rtt,
            probe_clusters,
        }
    }
}

/// A probe never lowers the rate.
pub proof fn lemma_probe_keeps(m: BweModel, send_bps: u64, recv_bps: u64)
    ensures
        m.probed(send_bps, recv_bps).target >= m.target,
{
}

/// The pacer is never slower than the media source.
pub proof fn lemma_pacing_covers_target(m: BweModel, scaled: u64)
    requires
        m.wf(),
    ensures
        m.pacing(scaled) >= m.target,
{
}

/// Overuse never raises the rate.
pub proof fn lemma_overuse_lowers(m: BweModel, now: Instant, acked_bps: u64, grown: u64)
    requires
        m.wf(),
        m.detector.state == NetworkState::Overusing,
    ensures
        m.aimd_applied(now, acked_bps, grown).target <= m.target,
{
}

/// While queues drain the rate is held.
pub proof fn lemma_underuse_holds(m: BweModel, now: Instant, acked_bps: u64, grown: u64)
    requires
        m.detector.state == NetworkState::Underusing,
    ensures
        m.aimd_applied(now, acked_bps, grown) == m,
{
}

/// Probe clusters keep to their bounds.
pub proof fn lemma_probes_bounded(m: BweModel, now: Instant, in_alr: bool, i: int)
    requires
        m.wf(),
        m.config.probes(),
        0 <= i < m.probes(now, in_alr).1.len(),
    ensures
        ({
            let c = m.probes(now, in_alr).1[i];
            &&& m.config.min_bitrate_bps <= c.target_bps <= m.config.max_bitrate_bps
            &&& c.target_bps <= PROBE_MAX_BITRATE_BPS
            &&& c.min_packets >= PROBE_MIN_PACKETS
        }),
{
}

} // verus!
