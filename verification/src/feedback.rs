//! Arrival reports.
//!
//! The receiver notes when each datagram arrived, by its transport sequence
//! number, and reports windows of sixty-four numbers at a time. The sender
//! matches the reports with what it sent and when. Retransmissions and parity
//! count like any other datagram.

use crate::bits;
use crate::bits::{has_bit64, set_bit64};
use crate::octets;
use crate::octets::{as_slice, seal};
use crate::packet;
use crate::packet::{
    Flags, Header, Packet, PacketModel, PacketType, ARRIVAL_RECV_DELTA_TICK_MICROS, HEADER_SIZE,
};
use crate::seqs;
use crate::table;
use crate::table::SeqTable;
use crate::time::{Duration, Instant};
use bytes::Bytes;
use std::collections::VecDeque;
use vstd::prelude::*;

verus! {

/// Sequence numbers that one report covers.
pub const ARRIVAL_MASK_BITS: u16 = 64;

/// Default time between reports, in milliseconds.
pub const DEFAULT_FEEDBACK_INTERVAL_MS: u64 = 100;

/// Default time for which sent datagrams are remembered, in milliseconds.
pub const DEFAULT_HISTORY_RETENTION_MS: u64 = 500;

/// Settings of both ends.
#[derive(Debug, Clone, Copy, PartialEq, Eq, Structural)]
pub struct FeedbackConfig {
    /// Least time between reports.
    pub interval: Duration,
    /// How long arrivals and sent datagrams are remembered.
    pub retention: Duration,
    /// Lifetime that a report starts with.
    pub feedback_ttl_ms: u16,
}

impl Default for FeedbackConfig {
    fn default() -> (c: Self)
        ensures
            c.interval == Duration::from_millis(DEFAULT_FEEDBACK_INTERVAL_MS),
            c.retention == Duration::from_millis(DEFAULT_HISTORY_RETENTION_MS),
            c.feedback_ttl_ms == 100,
    {
        FeedbackConfig {
            interval: Duration::from_millis(DEFAULT_FEEDBACK_INTERVAL_MS),
            retention: Duration::from_millis(DEFAULT_HISTORY_RETENTION_MS),
            feedback_ttl_ms: 100,
        }
    }
}

/// An arrival report, ready to be encoded.
#[derive(Debug, Clone, PartialEq, Eq)]
pub struct ArrivalFeedbackOwned {
    /// Shared header.
    pub header: Header,
    /// First sequence number covered.
    pub first_seq: u16,
    /// Bit `i` set: `first_seq + i` arrived.
    pub received_mask: u64,
    /// Time since the arrival before, in ticks; one per set bit.
    pub recv_deltas_250us: Vec<u16>,
    /// The wire form of the deltas.
    pub recv_delta_bytes: Bytes,
}

/// An [`ArrivalFeedbackOwned`] as a value.
#[verifier::ext_equal]
pub struct ReportModel {
    pub header: Header,
    pub first_seq: u16,
    pub received_mask: u64,
    pub deltas: Seq<u16>,
    pub delta_bytes: Seq<u8>,
}

impl ReportModel {
    /// The datagram that carries the report.
    pub open spec fn packet(self) -> PacketModel {
        PacketModel::ArrivalFeedback {
            header: self.header,
            first_seq: self.first_seq,
            received_mask: self.received_mask,
            recv_delta_bytes: self.delta_bytes,
        }
    }
}

impl View for ArrivalFeedbackOwned {
    type V = ReportModel;

    open spec fn view(&self) -> ReportModel {
        ReportModel {
            header: self.header,
            first_seq: self.first_seq,
            received_mask: self.received_mask,
            deltas: self.recv_deltas_250us@,
            delta_bytes: octets::octets(self.recv_delta_bytes),
        }
    }
}

impl ArrivalFeedbackOwned {
    /// The report as a packet, borrowed.
    pub fn as_packet(&self) -> (p: Packet<'_>)
        ensures
            p@ == self@.packet(),
    {
        Packet::ArrivalFeedback {
            header: self.header,
            first_seq: self.first_seq,
            received_mask: self.received_mask,
            recv_delta_bytes: as_slice(&self.recv_delta_bytes),
        }
    }

    /// The encoded datagram.
    pub fn to_wire(&self) -> (b: Bytes)
        ensures
            octets::octets(b) == self@.packet().wire(),
    {
        seal(self.as_packet().to_vec())
    }
}

/// Arrivals that are not older than `retention`.
pub open spec fn fresh(
    received: Map<u16, Instant>,
    now: Instant,
    retention: Duration,
) -> Map<u16, Instant> {
    received.restrict(
        Set::new(
            |k: u16| now.saturating_duration_since(received[k]).nanos <= retention.nanos,
        ),
    )
}

/// Whether an arrival lies in the window that begins at `base`.
pub open spec fn window_hit(received: Map<u16, Instant>, base: u16) -> bool {
    exists|i: int|
        0 <= i < ARRIVAL_MASK_BITS && received.contains_key(#[trigger] seqs::seq_add(base, i))
}

/// Whether `k` is the least key.
pub open spec fn is_least(received: Map<u16, Instant>, k: u16) -> bool {
    received.contains_key(k) && forall|j: u16| #[trigger] received.contains_key(j) ==> k <= j
}

/// The arrivals at the first `k` positions of the window, in order.
pub open spec fn window_times(received: Map<u16, Instant>, base: u16, k: int) -> Seq<Instant>
    decreases k,
{
    if k <= 0 {
        Seq::empty()
    } else {
        let front = window_times(received, base, k - 1);
        let seq = seqs::seq_add(base, k - 1);
        if received.contains_key(seq) {
            front.push(received[seq])
        } else {
            front
        }
    }
}

/// The mask of the arrivals in the window.
pub open spec fn window_mask(received: Map<u16, Instant>, base: u16, k: int) -> u64 {
    bits::mask_where(|i: int| received.contains_key(seqs::seq_add(base, i)), k)
}

/// The arrivals outside of the first `k` positions of the window.
pub open spec fn outside_window(received: Map<u16, Instant>, base: u16, k: int) -> Map<u16, Instant>
    decreases k,
{
    if k <= 0 {
        received
    } else {
        outside_window(received, base, k - 1).remove(seqs::seq_add(base, k - 1))
    }
}

/// The time from one arrival to the next, in ticks; the largest number of
/// ticks stands for longer times too.
pub open spec fn ticks_between(before: Instant, t: Instant) -> u16 {
    let ticks = t.saturating_duration_since(before).as_micros() / 250;
    if ticks > u16::MAX {
        u16::MAX
    } else {
        ticks as u16
    }
}

/// The ticks between successive arrivals; none before the first.
pub open spec fn ticks_of(times: Seq<Instant>) -> Seq<u16> {
    Seq::new(
        times.len(),
        |i: int|
            if i == 0 {
                0
            } else {
                ticks_between(times[i - 1], times[i])
            },
    )
}

/// The header of a report.
pub open spec fn report_header(ttl_ms: u16) -> Header {
    Header {
        packet_type: PacketType::ArrivalFeedback,
        flags: Flags::none(),
        stream_id: 0,
        media_seq: 0,
        transport_seq: 0,
        frame_id: 0,
        frag_index: 0,
        frag_count: 1,
        timestamp: 0,
        ttl_ms,
    }
}

/// The state of an [`ArrivalRecorder`] as a value.
#[verifier::ext_equal]
pub struct RecorderModel {
    /// Settings.
    pub config: FeedbackConfig,
    /// Arrivals that were not reported yet.
    pub received: Map<u16, Instant>,
    /// Where the next window begins.
    pub next_base: Option<u16>,
    /// When the last report was made.
    pub last_emit: Option<Instant>,
}

impl RecorderModel {
    /// A state without arrivals.
    pub open spec fn empty(config: FeedbackConfig) -> RecorderModel {
        RecorderModel { config, received: Map::empty(), next_base: None, last_emit: None }
    }

    /// The state without arrivals that are too old.
    pub open spec fn pruned(self, now: Instant) -> RecorderModel {
        RecorderModel { received: fresh(self.received, now, self.config.retention), ..self }
    }

    /// The state once a datagram arrived; the first arrival of a number
    /// counts.
    pub open spec fn noted(self, transport_seq: u16, now: Instant) -> RecorderModel {
        RecorderModel {
            received: if self.received.contains_key(transport_seq) {
                self.received
            } else {
                self.received.insert(transport_seq, now)
            },
            next_base: match self.next_base {
                None => Some(transport_seq),
                Some(b) => Some(b),
            },
            ..self
        }.pruned(now)
    }

    /// Where the next report begins: at the window that is due, or at the
    /// least arrival when there is none in that window.
    pub open spec fn report_base(self) -> Option<u16> {
        match self.next_base {
            None => None,
            Some(b) => if window_hit(self.received, b) {
                Some(b)
            } else if self.received.dom() =~= Set::empty() {
                None
            } else {
                Some(choose|k: u16| is_least(self.received, k))
            },
        }
    }

    /// The state and the report of the window at `base`.
    pub open spec fn reported(self, base: u16, now: Instant) -> (RecorderModel, ReportModel) {
        let deltas = ticks_of(window_times(self.received, base, ARRIVAL_MASK_BITS as int));
        (
            RecorderModel {
                received: outside_window(self.received, base, ARRIVAL_MASK_BITS as int),
                next_base: Some(seqs::seq_add(base, ARRIVAL_MASK_BITS as int)),
                last_emit: Some(now),
                ..self
            },
            ReportModel {
                header: report_header(self.config.feedback_ttl_ms),
                first_seq: base,
                received_mask: window_mask(self.received, base, ARRIVAL_MASK_BITS as int),
                deltas,
                delta_bytes: packet::delta_bytes(deltas),
            },
        )
    }

    /// The state and the report when one is made now, if there is anything to
    /// report.
    pub open spec fn build(self, now: Instant) -> (RecorderModel, Option<ReportModel>) {
        let p = self.pruned(now);
        match p.report_base() {
            None => (p, None),
            Some(base) => {
                let (next, report) = p.reported(base, now);
                (next, Some(report))
            },
        }
    }

    /// Whether the time between reports is over.
    pub open spec fn due(self, now: Instant) -> bool {
        match self.last_emit {
            None => true,
            Some(last) => now.saturating_duration_since(last).nanos >= self.config.interval.nanos,
        }
    }

    /// The state and the report when one is due.
    pub open spec fn poll(self, now: Instant) -> (RecorderModel, Option<ReportModel>) {
        if self.due(now) {
            self.build(now)
        } else {
            (self, None)
        }
    }
}

/// Notes arrivals and reports them.
#[derive(Debug, Clone)]
pub struct ArrivalRecorder {
    config: FeedbackConfig,
    received: SeqTable<Instant>,
    next_base: Option<u16>,
    last_emit: Option<Instant>,
}

impl View for ArrivalRecorder {
    type V = RecorderModel;

    closed spec fn view(&self) -> RecorderModel {
        RecorderModel {
            config: self.config,
            received: self.received@,
            next_base: self.next_base,
            last_emit: self.last_emit,
        }
    }
}

/// A report, where there is one, as a value.
pub open spec fn report_model(r: Option<ArrivalFeedbackOwned>) -> Option<ReportModel> {
    match r {
        Some(f) => Some(f@),
        None => None,
    }
}

impl ArrivalRecorder {
    /// A recorder without arrivals.
    pub fn new(config: FeedbackConfig) -> (r: Self)
        ensures
            r@ == RecorderModel::empty(config),
    {
        ArrivalRecorder { config, received: SeqTable::new(), next_base: None, last_emit: None }
    }

    /// Number of arrivals that were not reported yet.
    pub fn pending_count(&self) -> (n: usize)
        ensures
            n == self@.received.len(),
    {
        self.received.len()
    }

    /// Changes the settings.
    pub fn set_config(&mut self, config: FeedbackConfig)
        ensures
            final(self)@ == (RecorderModel { config, ..old(self)@ }),
    {
        self.config = config;
    }

    /// Notes that a datagram arrived.
    pub fn on_packet(&mut self, transport_seq: u16, now: Instant, _size_bytes: usize)
        ensures
            final(self)@ == old(self)@.noted(transport_seq, now),
    {
        if !self.received.contains_key(transport_seq) {
            self.received.insert(transport_seq, now);
        }
        if self.next_base.is_none() {
            self.next_base = Some(transport_seq);
        }
        self.prune(now);
    }

    /// Makes a report when the time between reports is over and there is
    /// something to report.
    pub fn poll(&mut self, now: Instant) -> (r: Option<ArrivalFeedbackOwned>)
        ensures
            final(self)@ == old(self)@.poll(now).0,
            report_model(r) == old(self)@.poll(now).1,
    {
        if let Some(last) = self.last_emit {
            if now.saturating_duration_since(last).nanos < self.config.interval.nanos {
                return None;
            }
        }
        self.build_window(now)
    }

    /// Makes a report now, if there is something to report.
    pub fn force_build(&mut self, now: Instant) -> (r: Option<ArrivalFeedbackOwned>)
        ensures
            final(self)@ == old(self)@.build(now).0,
            report_model(r) == old(self)@.build(now).1,
    {
        self.build_window(now)
    }

    fn report_base(&self) -> (r: Option<u16>)
        ensures
            r == self@.report_base(),
    {
        let base = match self.next_base {
            None => return None,
            Some(b) => b,
        };
        let mut i: u16 = 0;
        while i < ARRIVAL_MASK_BITS
            invariant
                i <= ARRIVAL_MASK_BITS,
                self.next_base == Some(base),
                forall|j: int|
                    0 <= j < i ==> !self.received@.contains_key(#[trigger] seqs::seq_add(base, j)),
            decreases ARRIVAL_MASK_BITS - i,
        {
            let seq: u16 = base.wrapping_add(i);
            assert(seq == seqs::seq_add(base, i as int));
            if self.received.contains_key(seq) {
                return Some(base);
            }
            i = i + 1;
        }
        let keys = self.received.keys();
        if keys.len() == 0 {
            assert(keys@.to_set() =~= Set::<u16>::empty());
            return None;
        }
        proof {
            let k = keys@[0];
            assert(keys@.to_set().contains(k));
            assert forall|j: u16| #[trigger] self.received@.contains_key(j) implies k <= j by {
                assert(keys@.to_set().contains(j));
                let n = choose|n: int| 0 <= n < keys@.len() && keys@[n] == j;
            }
            assert(is_least(self.received@, k));
            let c = choose|k: u16| is_least(self.received@, k);
            assert(is_least(self.received@, c));
            assert(self.received@.dom().contains(k));
        }
        Some(keys[0])
    }

    fn build_window(&mut self, now: Instant) -> (r: Option<ArrivalFeedbackOwned>)
        ensures
            final(self)@ == old(self)@.build(now).0,
            report_model(r) == old(self)@.build(now).1,
    {
        self.prune(now);
        let base = match self.report_base() {
            Some(b) => b,
            None => return None,
        };
        let ghost p = self@;
        let ghost received = self.received@;
        let ghost hit = |i: int| received.contains_key(seqs::seq_add(base, i));
        let mut mask: u64 = 0;
        let mut times: Vec<Instant> = Vec::new();
        let mut i: u16 = 0;
        while i < ARRIVAL_MASK_BITS
            invariant
                i <= ARRIVAL_MASK_BITS,
                self@ == (RecorderModel { received: self@.received, ..p }),
                received == p.received,
                hit == (|i: int| received.contains_key(seqs::seq_add(base, i))),
                mask == bits::mask_where(hit, i as int),
                times@ == window_times(received, base, i as int),
                self.received@ == outside_window(received, base, i as int),
                forall|j: int|
                    i <= j < ARRIVAL_MASK_BITS ==> (self.received@.contains_key(
                        #[trigger] seqs::seq_add(base, j),
                    ) == received.contains_key(seqs::seq_add(base, j)) && (received.contains_key(
                        seqs::seq_add(base, j),
                    ) ==> self.received@[seqs::seq_add(base, j)] == received[seqs::seq_add(
                        base,
                        j,
                    )])),
            decreases ARRIVAL_MASK_BITS - i,
        {
            let seq: u16 = base.wrapping_add(i);
            assert(seq == seqs::seq_add(base, i as int));
            let ghost r0 = self.received@;
            let taken = self.received.remove(seq);
            proof {
                assert(hit(i as int) == received.contains_key(seq));
                assert forall|j: int| i + 1 <= j < ARRIVAL_MASK_BITS implies seqs::seq_add(
                    base,
                    j,
                ) != seq by {}
            }
            if let Some(t) = taken {
                mask = set_bit64(mask, i);
                times.push(t);
            }
            i = i + 1;
        }
        let mut deltas: Vec<u16> = Vec::new();
        let mut n: usize = 0;
        while n < times.len()
            invariant
                n <= times@.len(),
                deltas@ == ticks_of(times@).take(n as int),
            decreases times@.len() - n,
        {
            if n == 0 {
                deltas.push(0);
            } else {
                let ticks: u64 = times[n].saturating_duration_since(times[n - 1]).as_micros()
                    / ARRIVAL_RECV_DELTA_TICK_MICROS;
                if ticks > u16::MAX as u64 {
                    deltas.push(u16::MAX);
                } else {
                    deltas.push(ticks as u16);
                }
            }
            n = n + 1;
        }
        assert(deltas@ =~= ticks_of(times@));
        let delta_bytes = Packet::encode_arrival_recv_deltas(deltas.as_slice());
        let header = Header {
            packet_type: PacketType::ArrivalFeedback,
            flags: Flags::none(),
            stream_id: 0,
            media_seq: 0,
            transport_seq: 0,
            frame_id: 0,
            frag_index: 0,
            frag_count: 1,
            timestamp: 0,
            ttl_ms: self.config.feedback_ttl_ms,
        };
        self.next_base = Some(base.wrapping_add(ARRIVAL_MASK_BITS));
        self.last_emit = Some(now);
        Some(
            ArrivalFeedbackOwned {
                header,
                first_seq: base,
                received_mask: mask,
                recv_deltas_250us: deltas,
                recv_delta_bytes: seal(delta_bytes),
            },
        )
    }

    fn prune(&mut self, now: Instant)
        ensures
            final(self)@ == old(self)@.pruned(now),
    {
        let ghost p = self@;
        let retention = self.config.retention;
        let keys = self.received.keys();
        let ghost keep = Set::new(
            |k: u16| now.saturating_duration_since(p.received[k]).nanos <= retention.nanos,
        );
        let mut i: usize = 0;
        while i < keys.len()
            invariant
                i <= keys@.len(),
                table::ascending(keys@),
                keys@.to_set() == p.received.dom(),
                retention == p.config.retention,
                keep == Set::new(
                    |k: u16| now.saturating_duration_since(p.received[k]).nanos <= retention.nanos,
                ),
                self@ == (RecorderModel { received: self@.received, ..p }),
                forall|j: int|
                    0 <= j < i ==> self@.received.contains_key(#[trigger] keys@[j])
                        == keep.contains(keys@[j]),
                forall|j: int|
                    i <= j < keys@.len() ==> self@.received.contains_key(#[trigger] keys@[j]),
                self@.received.submap_of(p.received),
            decreases keys@.len() - i,
        {
            let k: u16 = keys[i];
            let ghost r0 = self@.received;
            let mut stale: bool = false;
            assert(self@.received.contains_key(keys@[i as int]));
            assert(self@.received.dom().contains(k));
            assert(keys@.to_set().contains(k));
            assert(p.received.dom().contains(k));
            assert(self@.received[k] == p.received[k]);
            if let Some(t) = self.received.get(k) {
                stale = now.saturating_duration_since(*t).nanos > retention.nanos;
            }
            assert(keep.contains(k) == !stale);
            if stale {
                let _ = self.received.remove(k);
                assert(self@.received == r0.remove(k));
            }
            i = i + 1;
        }
        proof {
            assert forall|k: u16| self@.received.contains_key(k) <==> p.received.contains_key(k)
                && keep.contains(k) by {
                if p.received.contains_key(k) {
                    assert(keys@.to_set().contains(k));
                    let j = choose|j: int| 0 <= j < keys@.len() && keys@[j] == k;
                    assert(self@.received.contains_key(keys@[j]) == keep.contains(keys@[j]));
                }
                if self@.received.contains_key(k) {
                    assert(self@.received.dom().contains(k));
                }
            }
            assert(self@.received =~= p.received.restrict(keep));
        }
    }
}

/// A sent datagram that is remembered.
#[derive(Debug, Clone, Copy, PartialEq, Eq, Structural)]
pub struct SentPacket {
    /// Its transport sequence number.
    pub transport_seq: u16,
    /// When it was sent.
    pub send_time: Instant,
    /// Its size in bytes.
    pub size_bytes: usize,
    /// Whether it carried audio.
    pub audio: bool,
}

/// What became of a sent datagram.
#[derive(Debug, Clone, Copy, PartialEq, Eq, Structural)]
pub struct PacketResult {
    /// Its transport sequence number.
    pub transport_seq: u16,
    /// When it was sent.
    pub send_time: Instant,
    /// Its size in bytes.
    pub size_bytes: usize,
    /// When it arrived, on a line that ends at the arrival of the report;
    /// `None` when it was lost.
    pub receive_time: Option<Instant>,
}

impl PacketResult {
    /// Whether the datagram arrived.
    pub fn received(&self) -> (b: bool)
        ensures
            b == self.receive_time is Some,
    {
        self.receive_time.is_some()
    }
}

/// A report matched with what was sent.
#[derive(Debug, Clone, PartialEq, Eq)]
pub struct TransportPacketsFeedback {
    /// When the report arrived.
    pub feedback_time: Instant,
    /// What became of the covered datagrams that are remembered.
    pub packets: Vec<PacketResult>,
    /// Bytes that are still under way.
    pub data_in_flight: usize,
}

/// A [`TransportPacketsFeedback`] as a value.
#[verifier::ext_equal]
pub struct MatchModel {
    pub feedback_time: Instant,
    pub packets: Seq<PacketResult>,
    pub data_in_flight: usize,
}

impl View for TransportPacketsFeedback {
    type V = MatchModel;

    open spec fn view(&self) -> MatchModel {
        MatchModel {
            feedback_time: self.feedback_time,
            packets: self.packets@,
            data_in_flight: self.data_in_flight,
        }
    }
}

/// The bytes of the datagrams that no report has covered.
pub open spec fn unacked_bytes(history: Seq<SentPacket>, acked: Set<u16>) -> nat
    decreases history.len(),
{
    if history.len() == 0 {
        0
    } else {
        unacked_bytes(history.drop_last(), acked) + if acked.contains(
            history.last().transport_seq,
        ) {
            0nat
        } else {
            history.last().size_bytes as nat
        }
    }
}

/// What is remembered once datagrams in front that are older than `retention`
/// are gone, with their acknowledgements.
pub open spec fn without_old(
    history: Seq<SentPacket>,
    acked: Set<u16>,
    now: Instant,
    retention: Duration,
) -> (Seq<SentPacket>, Set<u16>)
    decreases history.len(),
{
    if history.len() > 0 && now.saturating_duration_since(history.first().send_time).nanos
        > retention.nanos {
        without_old(
            history.drop_first(),
            acked.remove(history.first().transport_seq),
            now,
            retention,
        )
    } else {
        (history, acked)
    }
}

/// What is remembered once acknowledged datagrams in front that are older
/// than `age` are gone, with their acknowledgements.
pub open spec fn without_acked(
    history: Seq<SentPacket>,
    acked: Set<u16>,
    now: Instant,
    age: Duration,
) -> (Seq<SentPacket>, Set<u16>)
    decreases history.len(),
{
    if history.len() > 0 && acked.contains(history.first().transport_seq)
        && now.saturating_duration_since(history.first().send_time).nanos > age.nanos {
        without_acked(
            history.drop_first(),
            acked.remove(history.first().transport_seq),
            now,
            age,
        )
    } else {
        (history, acked)
    }
}

/// The time from the first arrival to arrival `r`, in nanoseconds.
pub open spec fn span(deltas: Seq<u16>, r: int) -> nat
    decreases r,
{
    if r <= 0 {
        0
    } else {
        span(deltas, r - 1) + deltas[r] as nat * 250_000
    }
}

/// When the datagram at position `i` of a report arrived. With a delta for
/// each arrival the last is put at the arrival of the report, and the others
/// before it; otherwise all are put there.
pub open spec fn receive_time(mask: u64, deltas: Seq<u16>, at: Instant, i: int) -> Option<Instant> {
    let n = bits::ones(mask, ARRIVAL_MASK_BITS as int);
    if !bits::bit64(mask, i) {
        None
    } else if deltas.len() != n {
        Some(at)
    } else {
        let back = span(deltas, n - 1) - span(deltas, bits::ones(mask, i) as int);
        match at.checked_sub(Duration { nanos: back as u64 }) {
            Some(t) => Some(t),
            None => Some(at),
        }
    }
}

/// The first remembered datagram with a sequence number.
pub open spec fn find_sent(history: Seq<SentPacket>, seq: u16) -> Option<SentPacket>
    decreases history.len(),
{
    if history.len() == 0 {
        None
    } else if history.first().transport_seq == seq {
        Some(history.first())
    } else {
        find_sent(history.drop_first(), seq)
    }
}

/// What became of the remembered datagrams at the first `k` positions of a
/// report.
pub open spec fn results(
    history: Seq<SentPacket>,
    first_seq: u16,
    mask: u64,
    deltas: Seq<u16>,
    at: Instant,
    k: int,
) -> Seq<PacketResult>
    decreases k,
{
    if k <= 0 {
        Seq::empty()
    } else {
        let front = results(history, first_seq, mask, deltas, at, k - 1);
        let seq = seqs::seq_add(first_seq, k - 1);
        match find_sent(history, seq) {
            Some(sent) => front.push(
                PacketResult {
                    transport_seq: seq,
                    send_time: sent.send_time,
                    size_bytes: sent.size_bytes,
                    receive_time: receive_time(mask, deltas, at, k - 1),
                },
            ),
            None => front,
        }
    }
}

/// The acknowledged numbers once the first `k` positions of a report were
/// looked at.
pub open spec fn covered(
    history: Seq<SentPacket>,
    acked: Set<u16>,
    first_seq: u16,
    k: int,
) -> Set<u16>
    decreases k,
{
    if k <= 0 {
        acked
    } else {
        let seq = seqs::seq_add(first_seq, k - 1);
        let c = covered(history, acked, first_seq, k - 1);
        if find_sent(history, seq) is Some {
            c.insert(seq)
        } else {
            c
        }
    }
}

/// The state of a [`FeedbackAdapter`] as a value.
#[verifier::ext_equal]
pub struct AdapterModel {
    /// Settings.
    pub config: FeedbackConfig,
    /// Sent datagrams, oldest first.
    pub history: Seq<SentPacket>,
    /// Sequence numbers that a report has covered.
    pub acked: Set<u16>,
}

impl AdapterModel {
    /// A state without datagrams.
    pub open spec fn empty(config: FeedbackConfig) -> AdapterModel {
        AdapterModel { config, history: Seq::empty(), acked: Set::empty() }
    }

    /// The state without datagrams that are too old.
    pub open spec fn culled(self, now: Instant) -> AdapterModel {
        let (h, a) = without_old(self.history, self.acked, now, self.config.retention);
        let (h2, a2) = without_acked(h, a, now, self.config.retention.half());
        AdapterModel { history: h2, acked: a2, ..self }
    }

    /// The state once a datagram was sent.
    pub open spec fn sent(self, p: SentPacket) -> AdapterModel {
        AdapterModel { history: self.history.push(p), ..self }.culled(p.send_time)
    }

    /// Bytes under way.
    pub open spec fn in_flight(self) -> usize {
        octets::size_capped(unacked_bytes(self.history, self.acked) as int)
    }

    /// The state and the match once a report arrived.
    pub open spec fn matched(self, first_seq: u16, mask: u64, deltas: Seq<u16>, at: Instant) -> (
        AdapterModel,
        MatchModel,
    ) {
        let c = self.culled(at);
        let n = ARRIVAL_MASK_BITS as int;
        let next = AdapterModel { acked: covered(c.history, c.acked, first_seq, n), ..c }.culled(
            at,
        );
        (
            next,
            MatchModel {
                feedback_time: at,
                packets: results(c.history, first_seq, mask, deltas, at, n),
                data_in_flight: next.in_flight(),
            },
        )
    }
}

/// Remembers sent datagrams and matches reports with them.
#[derive(Debug, Clone)]
pub struct FeedbackAdapter {
    config: FeedbackConfig,
    history: VecDeque<SentPacket>,
    acked: SeqTable<()>,
}

impl View for FeedbackAdapter {
    type V = AdapterModel;

    closed spec fn view(&self) -> AdapterModel {
        AdapterModel { config: self.config, history: self.history@, acked: self.acked@.dom() }
    }
}

proof fn lemma_span_grows(deltas: Seq<u16>, a: int, b: int)
    requires
        0 <= a <= b,
    ensures
        span(deltas, a) <= span(deltas, b) <= b * 16_383_750_000,
    decreases b,
{
    if a < b {
        lemma_span_grows(deltas, a, b - 1);
    } else if b > 0 {
        lemma_span_grows(deltas, b - 1, b - 1);
    }
}

proof fn lemma_ones_bound(m: u64, a: int, b: int)
    requires
        0 <= a <= b,
    ensures
        bits::ones(m, a) <= bits::ones(m, b),
        bits::ones(m, b) <= bits::ones(m, a) + (b - a),
        a < b && bits::bit64(m, a) ==> bits::ones(m, a) < bits::ones(m, b),
    decreases b - a,
{
    if a < b {
        lemma_ones_bound(m, a, b - 1);
    }
}

impl FeedbackAdapter {
    /// An adapter without datagrams.
    pub fn new(config: FeedbackConfig) -> (a: Self)
        ensures
            a@ == AdapterModel::empty(config),
    {
        let a = FeedbackAdapter { config, history: VecDeque::new(), acked: SeqTable::new() };
        assert(a@.acked =~= Set::<u16>::empty());
        a
    }

    /// Remembers a datagram that was just sent.
    pub fn on_sent(&mut self, transport_seq: u16, send_time: Instant, size_bytes: usize, audio: bool)
        ensures
            final(self)@ == old(self)@.sent(
                SentPacket { transport_seq, send_time, size_bytes, audio },
            ),
    {
        let p = SentPacket { transport_seq, send_time, size_bytes, audio };
        let ghost m = AdapterModel { history: self@.history.push(p), ..self@ };
        self.history.push_back(p);
        assert(self@ == m);
        self.cull(send_time);
    }

    /// Bytes of the datagrams that no report has covered.
    pub fn in_flight_bytes(&self) -> (n: usize)
        ensures
            n == self@.in_flight(),
    {
        let mut sum: u128 = 0;
        let mut i: usize = 0;
        while i < self.history.len()
            invariant
                i <= self.history@.len(),
                sum == unacked_bytes(self.history@.take(i as int), self.acked@.dom()),
                sum <= i * (usize::MAX as int),
            decreases self.history@.len() - i,
        {
            let p = self.history[i];
            assert(self.history@.take(i + 1).drop_last() =~= self.history@.take(i as int));
            assert(sum + p.size_bytes <= (i + 1) * (usize::MAX as int)) by (nonlinear_arith)
                requires
                    sum <= i * (usize::MAX as int),
                    p.size_bytes <= usize::MAX,
            ;
            assert((i + 1) * (usize::MAX as int) <= (usize::MAX as int) * (usize::MAX as int))
                by (nonlinear_arith)
                requires
                    i + 1 <= usize::MAX,
            ;
            assert((usize::MAX as int) * (usize::MAX as int) <= u128::MAX) by (nonlinear_arith)
                requires
                    0 <= usize::MAX <= 0xffff_ffff_ffff_ffff,
            ;
            if !self.acked.contains_key(p.transport_seq) {
                sum = sum + p.size_bytes as u128;
            }
            i = i + 1;
        }
        assert(self.history@.take(self.history@.len() as int) =~= self.history@);
        if sum > usize::MAX as u128 {
            usize::MAX
        } else {
            sum as usize
        }
    }

    /// Matches a report with what was sent.
    pub fn on_feedback(
        &mut self,
        first_seq: u16,
        received_mask: u64,
        recv_deltas_250us: &[u16],
        feedback_time: Instant,
    ) -> (r: TransportPacketsFeedback)
        ensures
            final(self)@ == old(self)@.matched(
                first_seq,
                received_mask,
                recv_deltas_250us@,
                feedback_time,
            ).0,
            r@ == old(self)@.matched(
                first_seq,
                received_mask,
                recv_deltas_250us@,
                feedback_time,
            ).1,
    {
        self.cull(feedback_time);
        let ghost c = self@;
        let ghost deltas = recv_deltas_250us@;
        let mut count: usize = 0;
        let mut i: u16 = 0;
        while i < ARRIVAL_MASK_BITS
            invariant
                i <= ARRIVAL_MASK_BITS,
                count == bits::ones(received_mask, i as int),
                count <= i,
            decreases ARRIVAL_MASK_BITS - i,
        {
            if has_bit64(received_mask, i) {
                count = count + 1;
            }
            i = i + 1;
        }
        let timed = recv_deltas_250us.len() == count;
        let mut total: u64 = 0;
        if timed {
            let mut n: usize = 1;
            while n < count
                invariant
                    count <= 64,
                    deltas == recv_deltas_250us@,
                    count == deltas.len(),
                    1 <= n,
                    count >= 1 ==> n <= count,
                    count == 0 ==> n == 1,
                    total == span(deltas, n - 1),
                decreases count - n,
            {
                proof {
                    lemma_span_grows(deltas, n - 1, n as int);
                }
                total = total + recv_deltas_250us[n] as u64 * 250_000;
                n = n + 1;
            }
            assert(total == span(deltas, count - 1));
        }
        let mut packets: Vec<PacketResult> = Vec::new();
        let mut rank: usize = 0;
        let mut acc: u64 = 0;
        let mut i: u16 = 0;
        while i < ARRIVAL_MASK_BITS
            invariant
                i <= ARRIVAL_MASK_BITS,
                deltas == recv_deltas_250us@,
                count == bits::ones(received_mask, ARRIVAL_MASK_BITS as int),
                count <= 64,
                timed == (deltas.len() == count),
                timed ==> total == span(deltas, count - 1),
                rank == bits::ones(received_mask, i as int),
                rank == 0 ==> acc == 0,
                timed && rank > 0 ==> acc == span(deltas, rank - 1),
                self@ == (AdapterModel { acked: self@.acked, ..c }),
                self@.acked == covered(c.history, c.acked, first_seq, i as int),
                packets@ == results(
                    c.history,
                    first_seq,
                    received_mask,
                    deltas,
                    feedback_time,
                    i as int,
                ),
            decreases ARRIVAL_MASK_BITS - i,
        {
            let seq: u16 = first_seq.wrapping_add(i);
            assert(seq == seqs::seq_add(first_seq, i as int));
            let mut receive_time: Option<Instant> = None;
            proof {
                lemma_ones_bound(received_mask, i as int, ARRIVAL_MASK_BITS as int);
            }
            if has_bit64(received_mask, i) {
                if timed {
                    proof {
                        lemma_span_grows(deltas, rank as int, count - 1);
                        if rank > 0 {
                            lemma_span_grows(deltas, rank - 1, rank as int);
                        }
                    }
                    if rank > 0 {
                        acc = acc + recv_deltas_250us[rank] as u64 * 250_000;
                    }
                    assert(acc == span(deltas, rank as int)) by {
                        if rank == 0 {
                            assert(span(deltas, 0) == 0);
                        }
                    }
                    receive_time =
                    match feedback_time.checked_sub(Duration { nanos: total - acc }) {
                        Some(t) => Some(t),
                        None => Some(feedback_time),
                    };
                } else {
                    receive_time = Some(feedback_time);
                }
                rank = rank + 1;
            }
            if let Some(sent) = self.find(seq) {
                let ghost a0 = self.acked@;
                self.acked.insert(seq, ());
                assert(self.acked@.dom() =~= a0.dom().insert(seq));
                packets.push(
                    PacketResult {
                        transport_seq: seq,
                        send_time: sent.send_time,
                        size_bytes: sent.size_bytes,
                        receive_time,
                    },
                );
            }
            i = i + 1;
        }
        self.cull(feedback_time);
        let data_in_flight: usize = self.in_flight_bytes();
        TransportPacketsFeedback { feedback_time, packets, data_in_flight }
    }

    fn find(&self, seq: u16) -> (r: Option<SentPacket>)
        ensures
            r == find_sent(self@.history, seq),
    {
        let mut i: usize = 0;
        assert(self.history@.skip(0) =~= self.history@);
        while i < self.history.len()
            invariant
                i <= self.history@.len(),
                find_sent(self@.history, seq) == find_sent(self.history@.skip(i as int), seq),
            decreases self.history@.len() - i,
        {
            let p = self.history[i];
            if p.transport_seq == seq {
                return Some(p);
            }
            assert(self.history@.skip(i as int).drop_first() =~= self.history@.skip(i + 1));
            i = i + 1;
        }
        None
    }

    /// Matches a decoded report; any other packet gives nothing.
    pub fn on_feedback_packet(&mut self, packet: &Packet<'_>, feedback_time: Instant) -> (r: Option<
        TransportPacketsFeedback,
    >)
        ensures
            match packet@ {
                PacketModel::ArrivalFeedback {
                    first_seq,
                    received_mask,
                    recv_delta_bytes,
                    ..
                } => {
                    let m = old(self)@.matched(
                        first_seq,
                        received_mask,
                        packet::parse_deltas(recv_delta_bytes),
                        feedback_time,
                    );
                    &&& final(self)@ == m.0
                    &&& r is Some
                    &&& r->0@ == m.1
                },
                _ => final(self)@ == old(self)@ && r is None,
            },
    {
        match packet {
            Packet::ArrivalFeedback { first_seq, received_mask, recv_delta_bytes, .. } => {
                let deltas = Packet::parse_arrival_recv_deltas(recv_delta_bytes);
                Some(
                    self.on_feedback(*first_seq, *received_mask, deltas.as_slice(), feedback_time),
                )
            },
            _ => None,
        }
    }

    fn cull(&mut self, now: Instant)
        ensures
            final(self)@ == old(self)@.culled(now),
    {
        let ghost m = self@;
        let retention = self.config.retention;
        let half = retention.half();
        let mut more: bool = true;
        while more
            invariant
                retention == m.config.retention,
                self@ == (AdapterModel { history: self@.history, acked: self@.acked, ..m }),
                without_old(m.history, m.acked, now, retention) == without_old(
                    self@.history,
                    self@.acked,
                    now,
                    retention,
                ),
                !more ==> (self@.history, self@.acked) == without_old(
                    self@.history,
                    self@.acked,
                    now,
                    retention,
                ),
            decreases self@.history.len(), (if more {
                    1int
                } else {
                    0
                }),
        {
            more = false;
            if self.history.len() > 0 && now.saturating_duration_since(
                self.history[0].send_time,
            ).nanos > retention.nanos {
                let ghost before = self@;
                if let Some(front) = self.history.pop_front() {
                    let _ = self.acked.remove(front.transport_seq);
                    more = true;
                    assert(self@.history =~= before.history.drop_first());
                    assert(self@.acked =~= before.acked.remove(front.transport_seq));
                }
            }
        }
        let ghost mid = self@;
        more = true;
        while more
            invariant
                half == m.config.retention.half(),
                self@ == (AdapterModel { history: self@.history, acked: self@.acked, ..m }),
                without_acked(mid.history, mid.acked, now, half) == without_acked(
                    self@.history,
                    self@.acked,
                    now,
                    half,
                ),
                !more ==> (self@.history, self@.acked) == without_acked(
                    self@.history,
                    self@.acked,
                    now,
                    half,
                ),
            decreases self@.history.len(), (if more {
                    1int
                } else {
                    0
                }),
        {
            more = false;
            if self.history.len() > 0 && self.acked.contains_key(self.history[0].transport_seq)
                && now.saturating_duration_since(self.history[0].send_time).nanos > half.nanos {
                let ghost before = self@;
                if let Some(front) = self.history.pop_front() {
                    let _ = self.acked.remove(front.transport_seq);
                    more = true;
                    assert(self@.history =~= before.history.drop_first());
                    assert(self@.acked =~= before.acked.remove(front.transport_seq));
                }
            }
        }
    }
}

/// Hands out transport sequence numbers, one after the other.
#[derive(Debug, Clone, Copy, PartialEq, Eq, Structural)]
pub struct TransportSeqAssigner {
    next: u16,
}

impl View for TransportSeqAssigner {
    type V = u16;

    closed spec fn view(&self) -> u16 {
        self.next
    }
}

impl Default for TransportSeqAssigner {
    fn default() -> (a: Self)
        ensures
            a@ == 0,
    {
        TransportSeqAssigner { next: 0 }
    }
}

/// The bytes of a datagram with another transport sequence number.
pub open spec fn stamped(wire: Seq<u8>, seq: u16) -> Seq<u8> {
    let h = packet::parse_header(wire)->Ok_0;
    packet::header_bytes(Header { transport_seq: seq, ..h }) + wire.skip(HEADER_SIZE as int)
}

impl TransportSeqAssigner {
    /// An assigner that begins at zero.
    pub fn new() -> (a: Self)
        ensures
            a@ == 0,
    {
        TransportSeqAssigner { next: 0 }
    }

    /// The next number.
    pub fn next(&mut self) -> (seq: u16)
        ensures
            seq == old(self)@,
            final(self)@ == seqs::seq_add(old(self)@, 1),
    {
        let s: u16 = self.next;
        self.next = s.wrapping_add(1);
        s
    }

    /// Writes the next number into the header of a datagram. Bytes that do not
    /// begin with a header are left alone, and no number is used.
    pub fn stamp(&mut self, wire: &mut [u8]) -> (r: Option<u16>)
        ensures
            match packet::parse_header(old(wire)@) {
                Ok(h) => {
                    &&& r == Some(old(self)@)
                    &&& final(self)@ == seqs::seq_add(old(self)@, 1)
                    &&& final(wire)@ == stamped(old(wire)@, old(self)@)
                },
                Err(e) => r is None && final(self)@ == old(self)@ && final(wire)@ == old(wire)@,
            },
    {
        let mut header = match Header::decode(wire) {
            Ok(h) => h,
            Err(_) => return None,
        };
        let seq: u16 = self.next();
        header.transport_seq = seq;
        header.encode(wire);
        Some(seq)
    }
}

/// Stamping a datagram changes its transport sequence number and nothing else.
pub proof fn lemma_stamped(wire: Seq<u8>, seq: u16)
    requires
        packet::parse_header(wire) is Ok,
    ensures
        ({
            let h = packet::parse_header(wire)->Ok_0;
            let h2 = Header { transport_seq: seq, ..h };
            &&& packet::parse_header(stamped(wire, seq)) == Ok::<Header, packet::DecodeError>(h2)
            &&& PacketModel::parse(stamped(wire, seq)) == PacketModel::parse_body(
                h2,
                wire.skip(HEADER_SIZE as int),
            )
            &&& stamped(wire, seq).len() == wire.len()
        }),
{
    let h = packet::parse_header(wire)->Ok_0;
    packet::lemma_parsed_header(wire);
    lemma_reheaded(Header { transport_seq: seq, ..h }, wire);
}

proof fn lemma_reheaded(h: Header, wire: Seq<u8>)
    requires
        h.packet_type == PacketType::Media ==> packet::fragment_fields_valid(h),
        wire.len() >= HEADER_SIZE,
    ensures
        ({
            let body = wire.skip(HEADER_SIZE as int);
            let w = packet::header_bytes(h) + body;
            &&& packet::parse_header(w) == Ok::<Header, packet::DecodeError>(h)
            &&& PacketModel::parse(w) == PacketModel::parse_body(h, body)
            &&& w.len() == wire.len()
        }),
{
    packet::lemma_header_len(h);
    packet::lemma_parse_split(h, wire.skip(HEADER_SIZE as int));
    packet::lemma_header_round_trip(h, wire.skip(HEADER_SIZE as int));
}

proof fn lemma_window_len(received: Map<u16, Instant>, base: u16, mask: u64, k: int)
    requires
        0 <= k <= ARRIVAL_MASK_BITS,
        forall|i: int|
            0 <= i < ARRIVAL_MASK_BITS ==> (#[trigger] bits::bit64(mask, i)
                <==> received.contains_key(seqs::seq_add(base, i))),
    ensures
        window_times(received, base, k).len() == bits::ones(mask, k),
    decreases k,
{
    if k > 0 {
        lemma_window_len(received, base, mask, k - 1);
        assert(bits::bit64(mask, k - 1) <==> received.contains_key(seqs::seq_add(base, k - 1)));
    }
}

proof fn lemma_outside(received: Map<u16, Instant>, base: u16, k: int)
    ensures
        forall|i: int|
            0 <= i < k ==> !outside_window(received, base, k).contains_key(
                #[trigger] seqs::seq_add(base, i),
            ),
    decreases k,
{
    if k > 0 {
        lemma_outside(received, base, k - 1);
    }
}

/// A report says of every number in its window whether it arrived, has one
/// delta for each arrival, and what it says is not said again.
pub proof fn lemma_report(m: RecorderModel, base: u16, now: Instant)
    ensures
        ({
            let (next, report) = m.reported(base, now);
            &&& forall|i: int|
                0 <= i < ARRIVAL_MASK_BITS ==> (#[trigger] bits::bit64(report.received_mask, i)
                    <==> m.received.contains_key(seqs::seq_add(base, i)))
            &&& report.deltas.len() == bits::ones(report.received_mask, ARRIVAL_MASK_BITS as int)
            &&& forall|i: int|
                0 <= i < ARRIVAL_MASK_BITS ==> !next.received.contains_key(
                    #[trigger] seqs::seq_add(base, i),
                )
        }),
{
    let n = ARRIVAL_MASK_BITS as int;
    let f = |i: int| m.received.contains_key(seqs::seq_add(base, i));
    bits::lemma_mask_where(f, n);
    let mask = window_mask(m.received, base, n);
    assert forall|i: int| 0 <= i < ARRIVAL_MASK_BITS implies (#[trigger] bits::bit64(mask, i)
        <==> m.received.contains_key(seqs::seq_add(base, i))) by {
        assert(bits::bit64(bits::mask_where(f, n), i) <==> 0 <= i < n && f(i));
    }
    lemma_window_len(m.received, base, mask, n);
    lemma_outside(m.received, base, n);
}

proof fn lemma_results_received(
    history: Seq<SentPacket>,
    first_seq: u16,
    mask: u64,
    deltas: Seq<u16>,
    at: Instant,
    received: Map<u16, Instant>,
    k: int,
)
    requires
        0 <= k <= ARRIVAL_MASK_BITS,
        forall|i: int|
            0 <= i < ARRIVAL_MASK_BITS ==> (#[trigger] bits::bit64(mask, i)
                <==> received.contains_key(seqs::seq_add(first_seq, i))),
    ensures
        ({
            let r = results(history, first_seq, mask, deltas, at, k);
            forall|j: int|
                0 <= j < r.len() ==> ((#[trigger] r[j]).receive_time is Some
                    <==> received.contains_key(r[j].transport_seq))
        }),
    decreases k,
{
    if k > 0 {
        lemma_results_received(history, first_seq, mask, deltas, at, received, k - 1);
        assert(bits::bit64(mask, k - 1) <==> received.contains_key(
            seqs::seq_add(first_seq, k - 1),
        ));
    }
}

/// The sender learns just which of its datagrams arrived: of those that it
/// remembers in the window of a report, it takes as received the ones that the
/// receiver noted.
pub proof fn lemma_report_matched(m: RecorderModel, base: u16, now: Instant, a: AdapterModel, at: Instant)
    ensures
        ({
            let report = m.reported(base, now).1;
            let packets = a.matched(base, report.received_mask, report.deltas, at).1.packets;
            forall|j: int|
                0 <= j < packets.len() ==> ((#[trigger] packets[j]).receive_time is Some
                    <==> m.received.contains_key(packets[j].transport_seq))
        }),
{
    let report = m.reported(base, now).1;
    lemma_report(m, base, now);
    lemma_results_received(
        a.culled(at).history,
        base,
        report.received_mask,
        report.deltas,
        at,
        m.received,
        ARRIVAL_MASK_BITS as int,
    );
}

/// A call of a [`FeedbackAdapter`] that changes it.
pub enum AdapterStep {
    /// A datagram was sent.
    Sent(SentPacket),
    /// A report arrived.
    Report {
        first_seq: u16,
        mask: u64,
        deltas: Seq<u16>,
        at: Instant,
    },
}

impl AdapterStep {
    /// When the call was made.
    pub open spec fn time(self) -> Instant {
        match self {
            AdapterStep::Sent(p) => p.send_time,
            AdapterStep::Report { at, .. } => at,
        }
    }

    /// Whether it is a report whose window takes a number in.
    pub open spec fn covers(self, seq: u16) -> bool {
        match self {
            AdapterStep::Sent(_) => false,
            AdapterStep::Report { first_seq, .. } => seqs::seq_sub(seq, first_seq)
                < ARRIVAL_MASK_BITS,
        }
    }
}

impl AdapterModel {
    /// The state after calls, one after the other.
    pub open spec fn after(self, steps: Seq<AdapterStep>) -> AdapterModel
        decreases steps.len(),
    {
        if steps.len() == 0 {
            self
        } else {
            let m = self.after(steps.drop_last());
            match steps.last() {
                AdapterStep::Sent(p) => m.sent(p),
                AdapterStep::Report { first_seq, mask, deltas, at } => m.matched(
                    first_seq,
                    mask,
                    deltas,
                    at,
                ).0,
            }
        }
    }
}

/// Whether a report after call `i` took in the number that was sent there.
pub open spec fn settled_later(steps: Seq<AdapterStep>, i: int) -> bool {
    exists|j: int|
        i < j < steps.len() && (#[trigger] steps[j]).covers(steps[i]->Sent_0.transport_seq)
}

/// The bytes that were sent in the first `k` calls and that no report after
/// their sending, in all the calls, has taken in.
pub open spec fn flying_bytes(steps: Seq<AdapterStep>, k: int) -> nat
    decreases k,
{
    if k <= 0 {
        0
    } else {
        flying_bytes(steps, k - 1) + if steps[k - 1] is Sent && !settled_later(steps, k - 1) {
            steps[k - 1]->Sent_0.size_bytes as nat
        } else {
            0nat
        }
    }
}

/// Whether no number was sent twice.
pub open spec fn sent_once(steps: Seq<AdapterStep>) -> bool {
    forall|i: int, j: int|
        0 <= i < j < steps.len() && (#[trigger] steps[i]) is Sent && (#[trigger] steps[j]) is Sent
            ==> steps[i]->Sent_0.transport_seq != steps[j]->Sent_0.transport_seq
}

/// Whether at `now` no call is still to come, and no datagram was sent longer
/// ago than is remembered.
pub open spec fn remembered(steps: Seq<AdapterStep>, now: Instant, retention: Duration) -> bool {
    forall|i: int|
        0 <= i < steps.len() ==> (#[trigger] steps[i]).time().nanos <= now.nanos && (steps[i] is Sent
            ==> now.saturating_duration_since(steps[i]->Sent_0.send_time).nanos
            <= retention.nanos)
}

spec fn sendings(steps: Seq<AdapterStep>) -> Seq<SentPacket>
    decreases steps.len(),
{
    if steps.len() == 0 {
        Seq::empty()
    } else {
        match steps.last() {
            AdapterStep::Sent(p) => sendings(steps.drop_last()).push(p),
            _ => sendings(steps.drop_last()),
        }
    }
}

spec fn numbered(sent: Seq<SentPacket>, seq: u16) -> bool {
    exists|j: int| 0 <= j < sent.len() && (#[trigger] sent[j]).transport_seq == seq
}

spec fn settled(steps: Seq<AdapterStep>) -> Set<u16>
    decreases steps.len(),
{
    if steps.len() == 0 {
        Set::empty()
    } else {
        let front = steps.drop_last();
        Set::new(
            |s: u16|
                settled(front).contains(s) || (steps.last().covers(s) && numbered(
                    sendings(front),
                    s,
                )),
        )
    }
}

spec fn distinct(sent: Seq<SentPacket>) -> bool {
    forall|i: int, j: int|
        0 <= i < j < sent.len() ==> (#[trigger] sent[i]).transport_seq != (
        #[trigger] sent[j]).transport_seq
}

/// Whether an adapter remembers all of `sent` but the first `d`, which are
/// settled, and acknowledges just those that are.
spec fn tracks(
    history: Seq<SentPacket>,
    acked: Set<u16>,
    sent: Seq<SentPacket>,
    done: Set<u16>,
    d: int,
) -> bool {
    &&& 0 <= d <= sent.len()
    &&& history == sent.skip(d)
    &&& forall|j: int| 0 <= j < d ==> done.contains((#[trigger] sent[j]).transport_seq)
    &&& forall|j: int|
        d <= j < sent.len() ==> (acked.contains((#[trigger] sent[j]).transport_seq)
            <==> done.contains(sent[j].transport_seq))
    &&& forall|s: u16| #[trigger] acked.contains(s) ==> numbered(sent, s)
}

proof fn lemma_drop_acked(
    history: Seq<SentPacket>,
    acked: Set<u16>,
    sent: Seq<SentPacket>,
    done: Set<u16>,
    d: int,
    now: Instant,
    age: Duration,
) -> (e: int)
    requires
        tracks(history, acked, sent, done, d),
        distinct(sent),
    ensures
        ({
            let (h, a) = without_acked(history, acked, now, age);
            tracks(h, a, sent, done, e)
        }),
    decreases history.len(),
{
    if history.len() > 0 && acked.contains(history.first().transport_seq)
        && now.saturating_duration_since(history.first().send_time).nanos > age.nanos {
        let seq = history.first().transport_seq;
        let h = history.drop_first();
        let a = acked.remove(seq);
        assert(sent[d] == history[0]);
        assert(h =~= sent.skip(d + 1));
        assert forall|j: int| d + 1 <= j < sent.len() implies (a.contains(
            (#[trigger] sent[j]).transport_seq,
        ) <==> done.contains(sent[j].transport_seq)) by {
            assert(sent[d].transport_seq != sent[j].transport_seq);
        }
        lemma_drop_acked(h, a, sent, done, d + 1, now, age)
    } else {
        d
    }
}

proof fn lemma_cull_tracks(
    m: AdapterModel,
    sent: Seq<SentPacket>,
    done: Set<u16>,
    d: int,
    now: Instant,
) -> (e: int)
    requires
        tracks(m.history, m.acked, sent, done, d),
        distinct(sent),
        forall|j: int|
            0 <= j < sent.len() ==> now.saturating_duration_since(
                (#[trigger] sent[j]).send_time,
            ).nanos <= m.config.retention.nanos,
    ensures
        tracks(m.culled(now).history, m.culled(now).acked, sent, done, e),
        m.culled(now).config == m.config,
{
    if m.history.len() > 0 {
        assert(m.history.first() == sent[d]);
    }
    lemma_drop_acked(m.history, m.acked, sent, done, d, now, m.config.retention.half())
}

proof fn lemma_find_sent(history: Seq<SentPacket>, seq: u16)
    ensures
        find_sent(history, seq) is Some <==> numbered(history, seq),
    decreases history.len(),
{
    if history.len() > 0 {
        let rest = history.drop_first();
        lemma_find_sent(rest, seq);
        if numbered(rest, seq) {
            let j = choose|j: int| 0 <= j < rest.len() && (#[trigger] rest[j]).transport_seq == seq;
            assert(history[j + 1].transport_seq == seq);
        }
        if numbered(history, seq) && history.first().transport_seq != seq {
            let j = choose|j: int|
                0 <= j < history.len() && (#[trigger] history[j]).transport_seq == seq;
            assert(rest[j - 1].transport_seq == seq);
        }
        if history.first().transport_seq == seq {
            assert(history[0].transport_seq == seq);
        }
    }
}

proof fn lemma_covered(history: Seq<SentPacket>, acked: Set<u16>, first_seq: u16, k: int, s: u16)
    requires
        0 <= k <= ARRIVAL_MASK_BITS,
    ensures
        covered(history, acked, first_seq, k).contains(s) <==> acked.contains(s) || (seqs::seq_sub(
            s,
            first_seq,
        ) < k && numbered(history, s)),
    decreases k,
{
    if k > 0 {
        lemma_covered(history, acked, first_seq, k - 1, s);
        let seq = seqs::seq_add(first_seq, k - 1);
        lemma_find_sent(history, seq);
        assert(seqs::seq_sub(seq, first_seq) == k - 1);
        assert(seqs::seq_sub(s, first_seq) == k - 1 ==> s == seq);
    }
}

/// An adapter after calls remembers what is not settled.
proof fn lemma_tracks(
    config: FeedbackConfig,
    steps: Seq<AdapterStep>,
    now: Instant,
) -> (d: int)
    requires
        sent_once(steps),
        remembered(steps, now, config.retention),
    ensures
        ({
            let m = AdapterModel::empty(config).after(steps);
            &&& tracks(m.history, m.acked, sendings(steps), settled(steps), d)
            &&& m.config == config
            &&& distinct(sendings(steps))
        }),
    decreases steps.len(),
{
    if steps.len() == 0 {
        assert(sendings(steps).skip(0) =~= Seq::<SentPacket>::empty());
        0
    } else {
        let front = steps.drop_last();
        let step = steps.last();
        assert(steps[steps.len() - 1] == step);
        assert(sent_once(front)) by {
            assert forall|i: int, j: int|
                0 <= i < j < front.len() && (#[trigger] front[i]) is Sent && (
                #[trigger] front[j]) is Sent implies front[i]->Sent_0.transport_seq
                != front[j]->Sent_0.transport_seq by {
                assert(steps[i] is Sent && steps[j] is Sent);
            }
        }
        assert(remembered(front, now, config.retention)) by {
            assert forall|i: int| 0 <= i < front.len() implies (#[trigger] front[i]).time().nanos
                <= now.nanos && (front[i] is Sent ==> now.saturating_duration_since(
                front[i]->Sent_0.send_time,
            ).nanos <= config.retention.nanos) by {
                assert(steps[i].time().nanos <= now.nanos);
            }
        }
        let d = lemma_tracks(config, front, now);
        let m = AdapterModel::empty(config).after(front);
        let sent = sendings(front);
        let done = settled(front);
        let t = step.time();
        lemma_sendings(front);
        lemma_sendings(steps);
        lemma_young(steps, t, now, config.retention);
        match step {
            AdapterStep::Sent(p) => {
                let all = sent.push(p);
                assert(sendings(steps) == all);
                assert(!numbered(sent, p.transport_seq)) by {
                    if numbered(sent, p.transport_seq) {
                        let j = choose|j: int|
                            0 <= j < sent.len() && (#[trigger] sent[j]).transport_seq
                                == p.transport_seq;
                        let i = choose|i: int|
                            0 <= i < front.len() && #[trigger] front[i] == AdapterStep::Sent(
                                sent[j],
                            );
                        assert(steps[i] is Sent && steps[steps.len() - 1] is Sent);
                    }
                }
                assert(settled(steps) =~= done);
                lemma_settled_sent(front);
                let n = AdapterModel { history: m.history.push(p), ..m };
                assert(n.history =~= all.skip(d));
                assert(distinct(all)) by {
                    assert forall|i: int, j: int| 0 <= i < j < all.len() implies (
                    #[trigger] all[i]).transport_seq != (#[trigger] all[j]).transport_seq by {
                        if j == sent.len() {
                            assert(sent[i].transport_seq != p.transport_seq);
                        }
                    }
                }
                assert(tracks(n.history, n.acked, all, done, d)) by {
                    assert forall|j: int| 0 <= j < d implies done.contains(
                        (#[trigger] all[j]).transport_seq,
                    ) by {
                        assert(done.contains(sent[j].transport_seq));
                    }
                    assert forall|j: int| d <= j < all.len() implies (n.acked.contains(
                        (#[trigger] all[j]).transport_seq,
                    ) <==> done.contains(all[j].transport_seq)) by {
                        if j < sent.len() {
                            assert(n.acked.contains(sent[j].transport_seq) <==> done.contains(
                                sent[j].transport_seq,
                            ));
                        }
                    }
                    assert forall|s: u16| #[trigger] n.acked.contains(s) implies numbered(
                        all,
                        s,
                    ) by {
                        let j = choose|j: int|
                            0 <= j < sent.len() && (#[trigger] sent[j]).transport_seq == s;
                        assert(all[j].transport_seq == s);
                    }
                }
                lemma_cull_tracks(n, all, done, d, t)
            },
            AdapterStep::Report { first_seq, mask, deltas, at } => {
                let e = lemma_cull_tracks(m, sent, done, d, at);
                let c = m.culled(at);
                let acked = covered(c.history, c.acked, first_seq, ARRIVAL_MASK_BITS as int);
                let all = settled(steps);
                assert(sendings(steps) == sent);
                assert forall|s: u16| acked.contains(s) <==> c.acked.contains(s) || (step.covers(s)
                    && numbered(c.history, s)) by {
                    lemma_covered(c.history, c.acked, first_seq, ARRIVAL_MASK_BITS as int, s);
                }
                assert(tracks(c.history, acked, sent, all, e)) by {
                    assert forall|j: int| e <= j < sent.len() implies (acked.contains(
                        (#[trigger] sent[j]).transport_seq,
                    ) <==> all.contains(sent[j].transport_seq)) by {
                        assert(c.history[j - e] == sent[j]);
                        assert(numbered(c.history, sent[j].transport_seq));
                        assert(numbered(sent, sent[j].transport_seq));
                    }
                    assert forall|s: u16| #[trigger] acked.contains(s) implies numbered(
                        sent,
                        s,
                    ) by {
                        if !c.acked.contains(s) {
                            let j = choose|j: int|
                                0 <= j < c.history.len() && (
                                #[trigger] c.history[j]).transport_seq == s;
                            assert(sent[j + e].transport_seq == s);
                        }
                    }
                }
                let n = AdapterModel { acked, ..c };
                lemma_cull_tracks(n, sent, all, e, at)
            },
        }
    }
}

proof fn lemma_sendings(steps: Seq<AdapterStep>)
    ensures
        forall|j: int|
            0 <= j < sendings(steps).len() ==> exists|i: int|
                0 <= i < steps.len() && #[trigger] steps[i] == AdapterStep::Sent(
                    #[trigger] sendings(steps)[j],
                ),
    decreases steps.len(),
{
    if steps.len() > 0 {
        let front = steps.drop_last();
        lemma_sendings(front);
        assert forall|j: int| 0 <= j < sendings(steps).len() implies exists|i: int|
            0 <= i < steps.len() && #[trigger] steps[i] == AdapterStep::Sent(
                #[trigger] sendings(steps)[j],
            ) by {
            if j < sendings(front).len() {
                assert(sendings(steps)[j] == sendings(front)[j]);
                let i = choose|i: int|
                    0 <= i < front.len() && #[trigger] front[i] == AdapterStep::Sent(
                        sendings(front)[j],
                    );
                assert(steps[i] == front[i]);
            } else {
                assert(steps[steps.len() - 1] == AdapterStep::Sent(sendings(steps)[j]));
            }
        }
    }
}

proof fn lemma_young(steps: Seq<AdapterStep>, t: Instant, now: Instant, retention: Duration)
    requires
        remembered(steps, now, retention),
        t.nanos <= now.nanos,
    ensures
        forall|j: int|
            0 <= j < sendings(steps).len() ==> t.saturating_duration_since(
                (#[trigger] sendings(steps)[j]).send_time,
            ).nanos <= retention.nanos,
{
    lemma_sendings(steps);
    assert forall|j: int| 0 <= j < sendings(steps).len() implies t.saturating_duration_since(
        (#[trigger] sendings(steps)[j]).send_time,
    ).nanos <= retention.nanos by {
        let i = choose|i: int|
            0 <= i < steps.len() && #[trigger] steps[i] == AdapterStep::Sent(sendings(steps)[j]);
        assert(steps[i].time().nanos <= now.nanos);
    }
}

/// Only what was sent is settled.
proof fn lemma_settled_sent(steps: Seq<AdapterStep>)
    ensures
        forall|s: u16| #[trigger] settled(steps).contains(s) ==> numbered(sendings(steps), s),
    decreases steps.len(),
{
    if steps.len() > 0 {
        let front = steps.drop_last();
        lemma_settled_sent(front);
        assert forall|s: u16| #[trigger] settled(steps).contains(s) implies numbered(
            sendings(steps),
            s,
        ) by {
            assert(settled(front).contains(s) || numbered(sendings(front), s));
            let j = choose|j: int|
                0 <= j < sendings(front).len() && (#[trigger] sendings(front)[j]).transport_seq
                    == s;
            assert(sendings(steps)[j].transport_seq == s);
        }
    }
}

/// A number is settled just when a report after its sending took it in.
proof fn lemma_settled_later(steps: Seq<AdapterStep>, i: int)
    requires
        sent_once(steps),
        0 <= i < steps.len(),
        steps[i] is Sent,
    ensures
        settled(steps).contains(steps[i]->Sent_0.transport_seq) <==> settled_later(steps, i),
        numbered(sendings(steps), steps[i]->Sent_0.transport_seq),
    decreases steps.len(),
{
    let front = steps.drop_last();
    let seq = steps[i]->Sent_0.transport_seq;
    let last = steps.len() - 1;
    if i == last {
        let n = sendings(front).len() as int;
        assert(sendings(steps)[n].transport_seq == seq);
        lemma_settled_sent(front);
        lemma_sendings(front);
        if settled(front).contains(seq) {
            let j = choose|j: int|
                0 <= j < n && (#[trigger] sendings(front)[j]).transport_seq == seq;
            let x = choose|x: int|
                0 <= x < front.len() && #[trigger] front[x] == AdapterStep::Sent(
                    sendings(front)[j],
                );
            assert(steps[x] is Sent && steps[last] is Sent);
        }
    } else {
        assert(front[i] == steps[i]);
        assert(sent_once(front)) by {
            assert forall|a: int, b: int|
                0 <= a < b < front.len() && (#[trigger] front[a]) is Sent && (
                #[trigger] front[b]) is Sent implies front[a]->Sent_0.transport_seq
                != front[b]->Sent_0.transport_seq by {
                assert(steps[a] is Sent && steps[b] is Sent);
            }
        }
        lemma_settled_later(front, i);
        let k = choose|k: int|
            0 <= k < sendings(front).len() && (#[trigger] sendings(front)[k]).transport_seq == seq;
        assert(sendings(steps)[k].transport_seq == seq);
        if settled_later(front, i) {
            let j = choose|j: int| i < j < front.len() && (#[trigger] front[j]).covers(seq);
            assert(steps[j].covers(seq));
        }
        if settled_later(steps, i) {
            let j = choose|j: int| i < j < steps.len() && (#[trigger] steps[j]).covers(seq);
            if j < last {
                assert(front[j].covers(seq));
            }
        }
        if steps[last].covers(seq) {
            assert(settled_later(steps, i));
        }
    }
}

proof fn lemma_unacked_alike(
    sent: Seq<SentPacket>,
    acked: Set<u16>,
    done: Set<u16>,
    d: int,
    k: int,
)
    requires
        0 <= d <= k <= sent.len(),
        forall|j: int| 0 <= j < d ==> done.contains((#[trigger] sent[j]).transport_seq),
        forall|j: int|
            d <= j < sent.len() ==> (acked.contains((#[trigger] sent[j]).transport_seq)
                <==> done.contains(sent[j].transport_seq)),
    ensures
        unacked_bytes(sent.take(k).skip(d), acked) == unacked_bytes(sent.take(k), done),
    decreases k,
{
    if k > d {
        lemma_unacked_alike(sent, acked, done, d, k - 1);
        assert(sent.take(k).skip(d).drop_last() =~= sent.take(k - 1).skip(d));
        assert(sent.take(k).drop_last() =~= sent.take(k - 1));
        assert(sent.take(k).skip(d).last() == sent[k - 1]);
        assert(sent.take(k).last() == sent[k - 1]);
    } else {
        assert(sent.take(k).skip(d).len() == 0);
        lemma_all_done(sent, done, d);
    }
}

proof fn lemma_all_done(sent: Seq<SentPacket>, done: Set<u16>, d: int)
    requires
        0 <= d <= sent.len(),
        forall|j: int| 0 <= j < d ==> done.contains((#[trigger] sent[j]).transport_seq),
    ensures
        unacked_bytes(sent.take(d), done) == 0,
    decreases d,
{
    if d > 0 {
        lemma_all_done(sent, done, d - 1);
        assert(sent.take(d).drop_last() =~= sent.take(d - 1));
        assert(sent.take(d).last() == sent[d - 1]);
    }
}

proof fn lemma_flying(steps: Seq<AdapterStep>, k: int)
    requires
        sent_once(steps),
        0 <= k <= steps.len(),
    ensures
        flying_bytes(steps, k) == unacked_bytes(sendings(steps.take(k)), settled(steps)),
    decreases k,
{
    if k > 0 {
        lemma_flying(steps, k - 1);
        assert(steps.take(k).drop_last() =~= steps.take(k - 1));
        assert(steps.take(k).last() == steps[k - 1]);
        if steps[k - 1] is Sent {
            lemma_settled_later(steps, k - 1);
            let all = sendings(steps.take(k));
            assert(all.drop_last() =~= sendings(steps.take(k - 1)));
        }
    }
}

/// Bytes are in flight from their sending until a report takes their number
/// in, whether it says that they arrived or not: over any run of sendings and
/// reports, the bytes in flight are those of just the numbers that no later
/// report took in. No number is sent twice in the run, and nothing in it is
/// older than is remembered.
pub proof fn lemma_in_flight(config: FeedbackConfig, steps: Seq<AdapterStep>, now: Instant)
    requires
        sent_once(steps),
        remembered(steps, now, config.retention),
    ensures
        AdapterModel::empty(config).after(steps).in_flight() == octets::size_capped(
            flying_bytes(steps, steps.len() as int) as int,
        ),
{
    let d = lemma_tracks(config, steps, now);
    let m = AdapterModel::empty(config).after(steps);
    let sent = sendings(steps);
    lemma_unacked_alike(sent, m.acked, settled(steps), d, sent.len() as int);
    assert(sent.take(sent.len() as int) =~= sent);
    lemma_flying(steps, steps.len() as int);
    assert(steps.take(steps.len() as int) =~= steps);
}

} // verus!
