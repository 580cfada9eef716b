//! Datagrams waiting to leave, by priority.
//!
//! Audio goes before retransmissions, then video and parity, then feedback,
//! then padding; within a priority the order is first in, first out. A
//! datagram whose deadline has come is dropped when its turn comes.

use crate::octets;
use crate::octets::seal;
use crate::packet;
use crate::packet::{Header, Packet, PacketModel, PacketType};
use crate::time;
use crate::time::{cap_u64, Duration, Instant};
use bytes::Bytes;
use std::collections::VecDeque;
use vstd::prelude::*;

verus! {

/// Sending priority, highest first.
#[derive(Debug, Clone, Copy, PartialEq, Eq, PartialOrd, Ord, Hash, Structural)]
pub enum Priority {
    /// Audio.
    Audio,
    /// Retransmissions.
    Retransmission,
    /// Video and parity.
    Video,
    /// Requests and reports.
    Feedback,
    /// Filler.
    Padding,
}

impl Priority {
    /// Number of priorities.
    pub const LEVELS: usize = 5;

    /// The priority of a datagram with this header.
    pub open spec fn for_header(h: Header) -> Priority {
        match h.packet_type {
            PacketType::Media => if h.flags.audio {
                Priority::Audio
            } else if h.flags.retrans {
                Priority::Retransmission
            } else {
                Priority::Video
            },
            PacketType::Fec => Priority::Video,
            _ => Priority::Feedback,
        }
    }

    /// The lane of the priority; zero is the highest.
    #[verifier::allow_in_spec]
    pub fn index(self) -> (i: usize)
        returns
            (match self {
                Priority::Audio => 0usize,
                Priority::Retransmission => 1usize,
                Priority::Video => 2usize,
                Priority::Feedback => 3usize,
                Priority::Padding => 4usize,
            }),
    {
        match self {
            Priority::Audio => 0,
            Priority::Retransmission => 1,
            Priority::Video => 2,
            Priority::Feedback => 3,
            Priority::Padding => 4,
        }
    }

    /// The priority of a lane.
    pub open spec fn of_index(i: int) -> Priority {
        if i == 0 {
            Priority::Audio
        } else if i == 1 {
            Priority::Retransmission
        } else if i == 2 {
            Priority::Video
        } else if i == 3 {
            Priority::Feedback
        } else {
            Priority::Padding
        }
    }

    /// The priority of a datagram with this header.
    pub fn of(header: &Header) -> (p: Self)
        ensures
            p == Priority::for_header(*header),
    {
        match header.packet_type {
            PacketType::Media => {
                if header.flags.audio {
                    Priority::Audio
                } else if header.flags.retrans {
                    Priority::Retransmission
                } else {
                    Priority::Video
                }
            },
            PacketType::Fec => Priority::Video,
            PacketType::Nack => Priority::Feedback,
            PacketType::ArrivalFeedback => Priority::Feedback,
            PacketType::KeyframeReq => Priority::Feedback,
        }
    }
}

/// A datagram waiting to leave.
#[derive(Debug, Clone, PartialEq, Eq)]
pub struct OutgoingPacket {
    /// The whole datagram.
    pub wire: Bytes,
    /// Its priority.
    pub priority: Priority,
    /// Its stream.
    pub stream_id: u8,
    /// When it was queued.
    pub enqueued_at: Instant,
    /// From this instant on it must not be sent.
    pub deadline: Instant,
}

/// An [`OutgoingPacket`] as a value.
#[verifier::ext_equal]
pub struct OutModel {
    pub wire: Seq<u8>,
    pub priority: Priority,
    pub stream_id: u8,
    pub enqueued_at: Instant,
    pub deadline: Instant,
}

impl OutModel {
    /// Whether the deadline has come.
    pub open spec fn expired(self, now: Instant) -> bool {
        now.nanos >= self.deadline.nanos
    }

    /// The datagram that carries `p`, queued at `now`; none where its lifetime
    /// is over.
    pub open spec fn of_packet(p: PacketModel, now: Instant) -> Option<OutModel> {
        let h = p.header();
        if h.ttl_ms == 0 {
            None
        } else {
            Some(
                OutModel {
                    wire: p.wire(),
                    priority: Priority::for_header(h),
                    stream_id: h.stream_id,
                    enqueued_at: now,
                    deadline: now.after(Duration::from_millis(h.ttl_ms as u64)),
                },
            )
        }
    }
}

impl View for OutgoingPacket {
    type V = OutModel;

    open spec fn view(&self) -> OutModel {
        OutModel {
            wire: octets::octets(self.wire),
            priority: self.priority,
            stream_id: self.stream_id,
            enqueued_at: self.enqueued_at,
            deadline: self.deadline,
        }
    }
}

impl OutgoingPacket {
    /// Encodes a packet; none where its lifetime is over.
    pub fn from_packet(packet: &Packet<'_>, now: Instant) -> (r: Option<Self>)
        ensures
            match r {
                Some(o) => OutModel::of_packet(packet@, now) == Some(o@),
                None => OutModel::of_packet(packet@, now) is None,
            },
    {
        let header = packet.header();
        if header.ttl_ms == 0 {
            return None;
        }
        Some(
            OutgoingPacket {
                wire: seal(packet.to_vec()),
                priority: Priority::of(header),
                stream_id: header.stream_id,
                enqueued_at: now,
                deadline: now.after(Duration::from_millis(header.ttl_ms as u64)),
            },
        )
    }

    /// Number of bytes of the datagram.
    pub fn len(&self) -> (n: usize)
        ensures
            n == self@.wire.len(),
    {
        self.wire.len()
    }

    /// Whether the deadline has come.
    pub fn is_expired(&self, now: Instant) -> (b: bool)
        ensures
            b == self@.expired(now),
    {
        now.nanos >= self.deadline.nanos
    }
}

/// What the queue has counted. A count stops at its largest value.
#[derive(Debug, Clone, Copy, PartialEq, Eq, Structural)]
pub struct SendQueueStats {
    /// Datagrams taken in.
    pub enqueued: u64,
    /// Packets refused because their lifetime was over.
    pub dropped_ttl_zero: u64,
    /// Datagrams dropped because their deadline had come.
    pub dropped_expired: u64,
    /// Datagrams given out.
    pub dequeued: u64,
}

impl Default for SendQueueStats {
    fn default() -> (s: Self)
        ensures
            s == SendQueueStats::zero(),
    {
        SendQueueStats { enqueued: 0, dropped_ttl_zero: 0, dropped_expired: 0, dequeued: 0 }
    }
}

impl SendQueueStats {
    /// Nothing counted.
    pub open spec fn zero() -> SendQueueStats {
        SendQueueStats { enqueued: 0, dropped_ttl_zero: 0, dropped_expired: 0, dequeued: 0 }
    }
}

/// The bytes of a lane.
pub open spec fn lane_bytes(lane: Seq<OutModel>) -> nat
    decreases lane.len(),
{
    if lane.len() == 0 {
        0
    } else {
        lane_bytes(lane.drop_last()) + lane.last().wire.len()
    }
}

/// The state of a [`SendQueue`] as a value.
#[verifier::ext_equal]
pub struct QueueModel {
    /// One lane for each priority, highest first.
    pub lanes: Seq<Seq<OutModel>>,
    /// What was counted.
    pub stats: SendQueueStats,
}

impl QueueModel {
    /// A state without datagrams.
    pub open spec fn empty() -> QueueModel {
        QueueModel {
            lanes: Seq::new(Priority::LEVELS as nat, |i: int| Seq::<OutModel>::empty()),
            stats: SendQueueStats::zero(),
        }
    }

    /// What holds of every state: each datagram is in the lane of its
    /// priority.
    pub open spec fn wf(self) -> bool {
        &&& self.lanes.len() == Priority::LEVELS
        &&& forall|i: int, j: int|
            #![trigger self.lanes[i][j]]
            0 <= i < Priority::LEVELS && 0 <= j < self.lanes[i].len() ==> self.lanes[i][j].priority.index()
                == i
    }

    /// Whether every datagram that waits begins with a header.
    pub open spec fn headed(self) -> bool {
        forall|i: int, j: int|
            #![trigger self.lanes[i][j]]
            0 <= i < Priority::LEVELS && 0 <= j < self.lanes[i].len() ==> packet::headed(
                self.lanes[i][j].wire,
            )
    }

    /// How many datagrams wait in the first `k` lanes.
    pub open spec fn count_to(self, k: int) -> nat
        decreases k,
    {
        if k <= 0 {
            0
        } else {
            self.count_to(k - 1) + self.lanes[k - 1].len()
        }
    }

    /// How many datagrams wait.
    pub open spec fn count(self) -> nat {
        self.count_to(Priority::LEVELS as int)
    }

    /// The bytes of the datagrams in the first `k` lanes.
    pub open spec fn bytes_to(self, k: int) -> nat
        decreases k,
    {
        if k <= 0 {
            0
        } else {
            self.bytes_to(k - 1) + lane_bytes(self.lanes[k - 1])
        }
    }

    /// The bytes of all waiting datagrams.
    pub open spec fn load(self) -> usize {
        octets::size_capped(self.bytes_to(Priority::LEVELS as int) as int)
    }

    /// The first lane from `i` on in which a datagram waits.
    pub open spec fn next_lane(self, i: int) -> Option<int>
        decreases Priority::LEVELS - i,
    {
        if i >= Priority::LEVELS {
            None
        } else if self.lanes[i].len() > 0 {
            Some(i)
        } else {
            self.next_lane(i + 1)
        }
    }

    /// The state with one more datagram.
    pub open spec fn enqueue(self, p: OutModel) -> QueueModel {
        let i = p.priority.index() as int;
        QueueModel {
            lanes: self.lanes.update(i, self.lanes[i].push(p)),
            stats: SendQueueStats {
                enqueued: time::capped(self.stats.enqueued + 1),
                ..self.stats
            },
        }
    }

    /// The state and whether the packet was taken in.
    pub open spec fn enqueue_packet(self, p: PacketModel, now: Instant) -> (QueueModel, bool) {
        match OutModel::of_packet(p, now) {
            Some(o) => (self.enqueue(o), true),
            None => (
                QueueModel {
                    stats: SendQueueStats {
                        dropped_ttl_zero: time::capped(self.stats.dropped_ttl_zero + 1),
                        ..self.stats
                    },
                    ..self
                },
                false,
            ),
        }
    }

    /// The state without the first datagram of lane `i`.
    pub open spec fn without_front(self, i: int) -> QueueModel {
        QueueModel { lanes: self.lanes.update(i, self.lanes[i].drop_first()), ..self }
    }

    /// The state and the datagram that leaves: the first of the highest lane,
    /// once those whose deadline has come are dropped.
    pub open spec fn pop(self, now: Instant) -> (QueueModel, Option<OutModel>)
        decreases self.count(),
        when self.lanes.len() == Priority::LEVELS
    {
        match self.next_lane(0) {
            None => (self, None),
            Some(i) => {
                proof {
                    lemma_next_lane(self, 0);
                    lemma_expire_front(self, i);
                }
                if self.lanes[i].first().expired(now) {
                    self.expire_front(i).pop(now)
                } else {
                    (self.take_front(i), Some(self.lanes[i].first()))
                }
            },
        }
    }

    /// The state once the first datagram of lane `i` was dropped because its
    /// deadline has come.
    pub open spec fn expire_front(self, i: int) -> QueueModel {
        QueueModel {
            stats: SendQueueStats {
                dropped_expired: time::capped(self.stats.dropped_expired + 1),
                ..self.stats
            },
            ..self.without_front(i)
        }
    }

    /// The state once the first datagram of lane `i` was given out.
    pub open spec fn take_front(self, i: int) -> QueueModel {
        QueueModel {
            stats: SendQueueStats {
                dequeued: time::capped(self.stats.dequeued + 1),
                ..self.stats
            },
            ..self.without_front(i)
        }
    }

    /// The priority of the datagram whose turn it is.
    pub open spec fn next_priority(self) -> Option<Priority> {
        match self.next_lane(0) {
            None => None,
            Some(i) => Some(Priority::of_index(i)),
        }
    }

    /// How long it takes to send what waits.
    pub open spec fn queue_time(self, rate_bps: u64) -> Option<Duration> {
        if rate_bps == 0 || self.load() == 0 {
            None
        } else {
            Some(
                Duration::from_micros(
                    time::capped(self.load() as int * 8 * 1_000_000 / (rate_bps as int)),
                ),
            )
        }
    }
}

/// The lane found is one in which a datagram waits, and the first such.
pub proof fn lemma_next_lane(q: QueueModel, i: int)
    requires
        0 <= i,
    ensures
        match q.next_lane(i) {
            Some(k) => i <= k < Priority::LEVELS && q.lanes[k].len() > 0 && forall|j: int|
                i <= j < k ==> (#[trigger] q.lanes[j]).len() == 0,
            None => forall|j: int| i <= j < Priority::LEVELS ==> (#[trigger] q.lanes[j]).len() == 0,
        },
    decreases Priority::LEVELS - i,
{
    if i < Priority::LEVELS && q.lanes[i].len() == 0 {
        lemma_next_lane(q, i + 1);
    }
}

/// One datagram less waits once the first of a lane is gone, and the bytes are
/// less by its length.
pub proof fn lemma_without_front(q: QueueModel, i: int, k: int)
    requires
        0 <= k <= Priority::LEVELS,
    ensures
        0 <= i < Priority::LEVELS && q.lanes.len() == Priority::LEVELS && q.lanes[i].len() > 0 ==> {
            let r = q.without_front(i);
            &&& q.count_to(k) == r.count_to(k) + if i < k {
                1nat
            } else {
                0nat
            }
            &&& q.bytes_to(k) == r.bytes_to(k) + if i < k {
                q.lanes[i].first().wire.len()
            } else {
                0nat
            }
        },
    decreases k,
{
    if k > 0 && 0 <= i < Priority::LEVELS && q.lanes.len() == Priority::LEVELS && q.lanes[i].len() > 0 {
        lemma_without_front(q, i, k - 1);
        if i == k - 1 {
            lemma_lane_first(q.lanes[i]);
        }
    }
}

/// Counters do not enter the count of datagrams.
proof fn lemma_same_lanes(a: QueueModel, b: QueueModel, k: int)
    requires
        a.lanes == b.lanes,
    ensures
        a.count_to(k) == b.count_to(k),
        a.bytes_to(k) == b.bytes_to(k),
    decreases k,
{
    if k > 0 {
        lemma_same_lanes(a, b, k - 1);
    }
}

/// One datagram less waits once the first of a lane was dropped.
pub proof fn lemma_expire_front(q: QueueModel, i: int)
    requires
        q.lanes.len() == Priority::LEVELS,
        0 <= i < Priority::LEVELS,
        q.lanes[i].len() > 0,
    ensures
        q.expire_front(i).count() + 1 == q.count(),
        q.take_front(i).count() + 1 == q.count(),
{
    lemma_without_front(q, i, Priority::LEVELS as int);
    lemma_same_lanes(q.expire_front(i), q.without_front(i), Priority::LEVELS as int);
    lemma_same_lanes(q.take_front(i), q.without_front(i), Priority::LEVELS as int);
}

proof fn lemma_lane_first(lane: Seq<OutModel>)
    requires
        lane.len() > 0,
    ensures
        lane_bytes(lane) == lane_bytes(lane.drop_first()) + lane.first().wire.len(),
    decreases lane.len(),
{
    if lane.len() > 1 {
        lemma_lane_first(lane.drop_last());
        assert(lane.drop_last().drop_first() =~= lane.drop_first().drop_last());
        assert(lane.drop_first().last() == lane.last());
        assert(lane.drop_last().first() == lane.first());
    } else {
        assert(lane.drop_first().len() == 0);
        assert(lane.drop_last().len() == 0);
        assert(lane.first() == lane.last());
        assert(lane_bytes(lane) == lane_bytes(lane.drop_last()) + lane.last().wire.len());
    }
}

/// Takes datagrams in by priority and gives them out in order.
#[derive(Debug)]
pub struct SendQueue {
    lanes: Vec<VecDeque<OutgoingPacket>>,
    stats: SendQueueStats,
    queued_bytes: usize,
}

spec fn lane_model(lane: VecDeque<OutgoingPacket>) -> Seq<OutModel> {
    lane@.map_values(|p: OutgoingPacket| p@)
}

impl View for SendQueue {
    type V = QueueModel;

    closed spec fn view(&self) -> QueueModel {
        QueueModel {
            lanes: self.lanes@.map_values(|l: VecDeque<OutgoingPacket>| lane_model(l)),
            stats: self.stats,
        }
    }
}

impl Default for SendQueue {
    fn default() -> (q: Self)
        ensures
            q.wf(),
            q@ == QueueModel::empty(),
    {
        SendQueue::new()
    }
}

proof fn lemma_empty_bytes(k: int)
    requires
        0 <= k <= Priority::LEVELS,
    ensures
        QueueModel::empty().bytes_to(k) == 0,
        QueueModel::empty().count_to(k) == 0,
    decreases k,
{
    if k > 0 {
        lemma_empty_bytes(k - 1);
    }
}

proof fn lemma_pushed_bytes(q: QueueModel, p: OutModel, k: int)
    requires
        q.lanes.len() == Priority::LEVELS,
        0 <= k <= Priority::LEVELS,
    ensures
        q.enqueue(p).bytes_to(k) == q.bytes_to(k) + if p.priority.index() < k {
            p.wire.len()
        } else {
            0nat
        },
        q.enqueue(p).count_to(k) == q.count_to(k) + if p.priority.index() < k {
            1nat
        } else {
            0nat
        },
    decreases k,
{
    if k > 0 {
        lemma_pushed_bytes(q, p, k - 1);
        let i = p.priority.index() as int;
        if i == k - 1 {
            assert(q.lanes[i].push(p).drop_last() =~= q.lanes[i]);
        }
    }
}

proof fn lemma_bytes_grow(q: QueueModel, a: int, b: int)
    requires
        a <= b,
    ensures
        q.bytes_to(a) <= q.bytes_to(b),
        q.count_to(a) <= q.count_to(b),
    decreases b - a,
{
    if a < b {
        lemma_bytes_grow(q, a, b - 1);
    }
}

impl SendQueue {
    /// What every queue keeps.
    pub closed spec fn wf(&self) -> bool {
        &&& self@.wf()
        &&& self.queued_bytes == self@.load()
    }

    /// The state of a well-formed queue is well-formed.
    pub proof fn lemma_wf(&self)
        requires
            self.wf(),
        ensures
            self@.wf(),
    {
    }

    /// A queue without datagrams.
    pub fn new() -> (q: Self)
        ensures
            q.wf(),
            q@ == QueueModel::empty(),
    {
        let mut lanes: Vec<VecDeque<OutgoingPacket>> = Vec::new();
        let mut i: usize = 0;
        while i < Priority::LEVELS
            invariant
                i <= Priority::LEVELS,
                lanes@.len() == i,
                forall|j: int| 0 <= j < i ==> (#[trigger] lanes@[j])@.len() == 0,
            decreases Priority::LEVELS - i,
        {
            lanes.push(VecDeque::new());
            i = i + 1;
        }
        let q = SendQueue {
            lanes,
            stats: SendQueueStats::default(),
            queued_bytes: 0,
        };
        proof {
            assert forall|j: int| 0 <= j < Priority::LEVELS implies #[trigger] q@.lanes[j]
                == Seq::<OutModel>::empty() by {
                assert(q.lanes@[j]@.len() == 0);
                assert(lane_model(q.lanes@[j]) =~= Seq::<OutModel>::empty());
            }
            assert(q@.lanes =~= QueueModel::empty().lanes);
            lemma_empty_bytes(Priority::LEVELS as int);
        }
        q
    }

    /// What the queue has counted.
    pub fn stats(&self) -> (s: SendQueueStats)
        ensures
            s == self@.stats,
    {
        self.stats
    }

    /// Number of datagrams waiting, whether their deadline has come or not.
    pub fn len(&self) -> (n: usize)
        requires
            self.wf(),
        ensures
            n == octets::size_capped(self@.count() as int),
    {
        let mut n: u128 = 0;
        let mut i: usize = 0;
        while i < Priority::LEVELS
            invariant
                self.wf(),
                i <= Priority::LEVELS,
                n == self@.count_to(i as int),
                n <= i * (usize::MAX as int),
            decreases Priority::LEVELS - i,
        {
            assert(self@.lanes[i as int].len() == self.lanes@[i as int]@.len());
            n = n + self.lanes[i].len() as u128;
            i = i + 1;
        }
        if n > usize::MAX as u128 {
            usize::MAX
        } else {
            n as usize
        }
    }

    /// Whether no datagram waits.
    pub fn is_empty(&self) -> (b: bool)
        requires
            self.wf(),
        ensures
            b == (self@.count() == 0),
    {
        self.len() == 0
    }

    /// The bytes of all waiting datagrams.
    pub fn queued_bytes(&self) -> (n: usize)
        requires
            self.wf(),
        ensures
            n == self@.load(),
    {
        self.queued_bytes
    }

    /// Encodes and takes in a packet. One whose lifetime is over is refused.
    pub fn enqueue_packet(&mut self, packet: &Packet<'_>, now: Instant) -> (taken: bool)
        requires
            old(self).wf(),
        ensures
            final(self).wf(),
            final(self)@ == old(self)@.enqueue_packet(packet@, now).0,
            taken == old(self)@.enqueue_packet(packet@, now).1,
    {
        match OutgoingPacket::from_packet(packet, now) {
            Some(out) => {
                self.enqueue(out);
                true
            },
            None => {
                let ghost before = self@;
                self.stats.dropped_ttl_zero = cap_u64(self.stats.dropped_ttl_zero as u128 + 1);
                proof {
                    lemma_same_lanes(self@, before, Priority::LEVELS as int);
                }
                false
            },
        }
    }

    /// Takes in a datagram.
    pub fn enqueue(&mut self, packet: OutgoingPacket)
        requires
            old(self).wf(),
        ensures
            final(self).wf(),
            final(self)@ == old(self)@.enqueue(packet@),
    {
        let ghost before = self@;
        let ghost p = packet@;
        let i: usize = packet.priority.index();
        let total: u128 = self.queued_bytes as u128 + packet.len() as u128;
        self.queued_bytes =
        if total > usize::MAX as u128 {
            usize::MAX
        } else {
            total as usize
        };
        self.stats.enqueued = cap_u64(self.stats.enqueued as u128 + 1);
        let ghost lane0 = self.lanes@[i as int];
        self.lanes[i].push_back(packet);
        proof {
            assert(lane_model(self.lanes@[i as int]) =~= lane_model(lane0).push(p));
            assert(self@.lanes =~= before.enqueue(p).lanes);
            lemma_pushed_bytes(before, p, Priority::LEVELS as int);
        }
    }

    /// Gives out the first datagram of the highest priority. Datagrams whose
    /// deadline has come are dropped on the way.
    pub fn pop(&mut self, now: Instant) -> (r: Option<OutgoingPacket>)
        requires
            old(self).wf(),
        ensures
            final(self).wf(),
            final(self)@ == old(self)@.pop(now).0,
            match r {
                Some(p) => old(self)@.pop(now).1 == Some(p@),
                None => old(self)@.pop(now).1 is None,
            },
    {
        let ghost before = self@;
        loop
            invariant
                self.wf(),
                before == old(self)@,
                before.pop(now) == self@.pop(now),
            decreases self@.count(),
        {
            let ghost q = self@;
            let i = match self.highest_nonempty() {
                Some(i) => i,
                None => return None,
            };
            proof {
                lemma_next_lane(q, 0);
                lemma_expire_front(q, i as int);
            }
            let packet = match self.take(i) {
                Some(p) => p,
                None => return None,
            };
            if packet.is_expired(now) {
                let ghost mid = self@;
                self.stats.dropped_expired = cap_u64(self.stats.dropped_expired as u128 + 1);
                proof {
                    lemma_same_lanes(self@, mid, Priority::LEVELS as int);
                    assert(self@ == q.expire_front(i as int));
                }
            } else {
                let ghost mid = self@;
                self.stats.dequeued = cap_u64(self.stats.dequeued as u128 + 1);
                proof {
                    lemma_same_lanes(self@, mid, Priority::LEVELS as int);
                    assert(self@ == q.take_front(i as int));
                }
                return Some(packet);
            }
        }
    }

    /// Takes the first datagram out of lane `i`.
    fn take(&mut self, i: usize) -> (p: Option<OutgoingPacket>)
        requires
            old(self).wf(),
            i < Priority::LEVELS,
            old(self)@.lanes[i as int].len() > 0,
        ensures
            final(self).wf(),
            final(self)@ == old(self)@.without_front(i as int),
            p is Some,
            p->0@ == old(self)@.lanes[i as int].first(),
    {
        let ghost before = self@;
        let ghost lane0 = self.lanes@[i as int];
        assert(before.lanes[i as int] == lane_model(lane0));
        let taken = self.lanes[i].pop_front();
        proof {
            assert(lane_model(self.lanes@[i as int]) =~= lane_model(lane0).drop_first());
            assert(self@.lanes =~= before.without_front(i as int).lanes);
            lemma_without_front(before, i as int, Priority::LEVELS as int);
            assert forall|a: int, b: int|
                #![trigger self@.lanes[a][b]]
                0 <= a < Priority::LEVELS && 0 <= b
                    < self@.lanes[a].len() implies self@.lanes[a][b].priority.index() == a by {
                if a == i {
                    assert(self@.lanes[a][b] == before.lanes[a][b + 1]);
                } else {
                    assert(self@.lanes[a][b] == before.lanes[a][b]);
                }
            }
        }
        if let Some(packet) = &taken {
            if self.queued_bytes < usize::MAX {
                self.queued_bytes = self.queued_bytes - packet.len();
            } else {
                self.queued_bytes = self.total_bytes();
            }
        }
        taken
    }

    /// The bytes of all waiting datagrams, counted afresh.
    fn total_bytes(&self) -> (n: usize)
        requires
            self@.wf(),
        ensures
            n == self@.load(),
    {
        let mut sum: usize = 0;
        let mut i: usize = 0;
        while i < Priority::LEVELS
            invariant
                self@.wf(),
                i <= Priority::LEVELS,
                sum == octets::size_capped(self@.bytes_to(i as int) as int),
            decreases Priority::LEVELS - i,
        {
            let ghost lane = self@.lanes[i as int];
            let ghost base = self@.bytes_to(i as int);
            assert(lane == lane_model(self.lanes@[i as int]));
            let mut j: usize = 0;
            assert(lane.take(0).len() == 0);
            while j < self.lanes[i].len()
                invariant
                    i < Priority::LEVELS,
                    self@.wf(),
                    lane == lane_model(self.lanes@[i as int]),
                    j <= lane.len(),
                    sum == octets::size_capped((base + lane_bytes(lane.take(j as int))) as int),
                decreases lane.len() - j,
            {
                let n: u128 = sum as u128 + self.lanes[i][j].len() as u128;
                assert(lane.take(j + 1).drop_last() =~= lane.take(j as int));
                assert(lane[j as int] == self.lanes@[i as int]@[j as int]@);
                sum =
                if n > usize::MAX as u128 {
                    usize::MAX
                } else {
                    n as usize
                };
                j = j + 1;
            }
            assert(lane.take(lane.len() as int) =~= lane);
            i = i + 1;
        }
        sum
    }

    /// The priority of the datagram whose turn it is, whether its deadline has
    /// come or not.
    pub fn peek_priority(&self) -> (p: Option<Priority>)
        requires
            self.wf(),
        ensures
            p == self@.next_priority(),
    {
        match self.highest_nonempty() {
            None => None,
            Some(i) => Some(
                match i {
                    0 => Priority::Audio,
                    1 => Priority::Retransmission,
                    2 => Priority::Video,
                    3 => Priority::Feedback,
                    _ => Priority::Padding,
                },
            ),
        }
    }

    /// Drops every waiting datagram; the counters stay.
    pub fn clear(&mut self)
        requires
            old(self).wf(),
        ensures
            final(self).wf(),
            final(self)@ == (QueueModel { stats: old(self)@.stats, ..QueueModel::empty() }),
    {
        let stats = self.stats;
        let mut q = SendQueue::new();
        q.stats = stats;
        *self = q;
        proof {
            lemma_same_lanes(self@, QueueModel::empty(), Priority::LEVELS as int);
            lemma_empty_bytes(Priority::LEVELS as int);
        }
    }

    /// How long it takes to send what waits; none where nothing waits or
    /// nothing is sent.
    pub fn expected_queue_time(&self, rate_bps: u64) -> (t: Option<Duration>)
        requires
            self.wf(),
        ensures
            t == self@.queue_time(rate_bps),
    {
        if rate_bps == 0 || self.queued_bytes == 0 {
            return None;
        }
        let us: u128 = self.queued_bytes as u128 * 8 * 1_000_000 / rate_bps as u128;
        Some(Duration::from_micros(cap_u64(us)))
    }

    fn highest_nonempty(&self) -> (r: Option<usize>)
        requires
            self.wf(),
        ensures
            match r {
                Some(i) => i < Priority::LEVELS && self@.next_lane(0) == Some(i as int),
                None => self@.next_lane(0) is None,
            },
    {
        let mut i: usize = 0;
        while i < Priority::LEVELS
            invariant
                self.wf(),
                i <= Priority::LEVELS,
                self@.next_lane(0) == self@.next_lane(i as int),
            decreases Priority::LEVELS - i,
        {
            assert(self@.lanes[i as int].len() == self.lanes@[i as int]@.len());
            if self.lanes[i].len() > 0 {
                return Some(i);
            }
            i = i + 1;
        }
        None
    }
}

/// What is given out is the first datagram of its lane whose deadline has not
/// come, and every datagram of a higher priority was past its deadline.
pub proof fn lemma_pop_order(q: QueueModel, now: Instant)
    requires
        q.wf(),
    ensures
        q.pop(now).0.wf(),
        match q.pop(now).1 {
            Some(p) => {
                let i = p.priority.index() as int;
                &&& !p.expired(now)
                &&& forall|a: int, b: int|
                    #![trigger q.lanes[a][b]]
                    0 <= a < i && 0 <= b < q.lanes[a].len() ==> q.lanes[a][b].expired(now)
                &&& exists|j: int|
                    {
                        &&& 0 <= j < q.lanes[i].len()
                        &&& #[trigger] q.lanes[i][j] == p
                        &&& forall|b: int|
                            0 <= b < j ==> (#[trigger] q.lanes[i][b]).expired(now)
                        &&& q.pop(now).0.lanes[i] == q.lanes[i].skip(j + 1)
                    }
                &&& forall|a: int|
                    i < a < Priority::LEVELS ==> q.pop(now).0.lanes[a] == #[trigger] q.lanes[a]
            },
            None => {
                &&& forall|a: int, b: int|
                    #![trigger q.lanes[a][b]]
                    0 <= a < Priority::LEVELS && 0 <= b < q.lanes[a].len()
                        ==> q.lanes[a][b].expired(now)
                &&& q.pop(now).0.count() == 0
            },
        },
    decreases q.count(),
{
    lemma_next_lane(q, 0);
    match q.next_lane(0) {
        None => {
            lemma_no_count(q, Priority::LEVELS as int);
        },
        Some(i) => {
            let p = q.lanes[i].first();
            assert(q.lanes[i][0] == p);
            lemma_front_wf(q, i);
            lemma_expire_front(q, i);
            if p.expired(now) {
                let r = q.expire_front(i);
                lemma_pop_order(r, now);
                assert(q.pop(now) == r.pop(now));
                assert(r.lanes[i] == q.lanes[i].drop_first());
                assert forall|a: int, b: int|
                    #![trigger q.lanes[a][b]]
                    0 <= a < Priority::LEVELS && 0 <= b < q.lanes[a].len() && (a < i || (a == i
                        && b == 0)) implies q.lanes[a][b].expired(now) by {}
                match r.pop(now).1 {
                    Some(o) => {
                        let k = o.priority.index() as int;
                        assert forall|a: int, b: int|
                            #![trigger q.lanes[a][b]]
                            0 <= a < k && 0 <= b < q.lanes[a].len() implies q.lanes[a][b].expired(
                            now,
                        ) by {
                            if a == i && b > 0 {
                                assert(r.lanes[a][b - 1] == q.lanes[a][b]);
                            } else if a > i {
                                assert(r.lanes[a][b] == q.lanes[a][b]);
                            }
                        }
                        let j = choose|j: int|
                            {
                                &&& 0 <= j < r.lanes[k].len()
                                &&& #[trigger] r.lanes[k][j] == o
                                &&& forall|b: int|
                                    0 <= b < j ==> (#[trigger] r.lanes[k][b]).expired(now)
                                &&& r.pop(now).0.lanes[k] == r.lanes[k].skip(j + 1)
                            };
                        if k == i {
                            assert(q.lanes[k][j + 1] == o);
                            assert forall|b: int| 0 <= b < j + 1 implies (
                            #[trigger] q.lanes[k][b]).expired(now) by {
                                if b > 0 {
                                    assert(r.lanes[k][b - 1] == q.lanes[k][b]);
                                }
                            }
                            assert(r.lanes[k].skip(j + 1) =~= q.lanes[k].skip(j + 2));
                        } else {
                            assert(q.lanes[k][j] == o);
                            assert(k > i);
                            assert forall|b: int| 0 <= b < j implies (
                            #[trigger] q.lanes[k][b]).expired(now) by {
                                assert(r.lanes[k][b] == q.lanes[k][b]);
                            }
                        }
                        assert forall|a: int| k < a < Priority::LEVELS implies q.pop(now).0.lanes[a]
                            == #[trigger] q.lanes[a] by {
                            assert(r.lanes[a] == q.lanes[a]);
                        }
                    },
                    None => {
                        assert forall|a: int, b: int|
                            #![trigger q.lanes[a][b]]
                            0 <= a < Priority::LEVELS && 0 <= b
                                < q.lanes[a].len() implies q.lanes[a][b].expired(now) by {
                            if a == i && b > 0 {
                                assert(r.lanes[a][b - 1] == q.lanes[a][b]);
                            } else if a > i {
                                assert(r.lanes[a][b] == q.lanes[a][b]);
                            }
                        }
                    },
                }
            } else {
                assert(p.priority.index() == i);
                assert(q.lanes[i].drop_first() =~= q.lanes[i].skip(1));
                assert(q.lanes[i][0] == p);
            }
        },
    }
}

proof fn lemma_no_count(q: QueueModel, k: int)
    requires
        0 <= k <= Priority::LEVELS,
        forall|j: int| 0 <= j < Priority::LEVELS ==> (#[trigger] q.lanes[j]).len() == 0,
    ensures
        q.count_to(k) == 0,
    decreases k,
{
    if k > 0 {
        lemma_no_count(q, k - 1);
    }
}

proof fn lemma_front_wf(q: QueueModel, i: int)
    requires
        q.wf(),
        0 <= i < Priority::LEVELS,
        q.lanes[i].len() > 0,
    ensures
        q.expire_front(i).wf(),
        q.take_front(i).wf(),
{
    let r = q.without_front(i);
    assert forall|a: int, b: int|
        #![trigger r.lanes[a][b]]
        0 <= a < Priority::LEVELS && 0 <= b < r.lanes[a].len() implies r.lanes[a][b].priority.index()
        == a by {
        if a == i {
            assert(r.lanes[a][b] == q.lanes[a][b + 1]);
        } else {
            assert(r.lanes[a][b] == q.lanes[a][b]);
        }
    }
}

/// No datagram is lost from sight: what waited before still waits, was given
/// out or was dropped as expired, and is counted as such.
pub proof fn lemma_accounted(q: QueueModel, now: Instant)
    requires
        q.wf(),
        q.stats.dequeued < u64::MAX,
        q.stats.dropped_expired + q.count() <= u64::MAX,
    ensures
        ({
            let (r, out) = q.pop(now);
            &&& q.count() == r.count() + (r.stats.dequeued - q.stats.dequeued) + (
            r.stats.dropped_expired - q.stats.dropped_expired)
            &&& r.stats.dequeued - q.stats.dequeued == (if out is Some {
                1int
            } else {
                0int
            })
            &&& r.stats.enqueued == q.stats.enqueued
        }),
    decreases q.count(),
{
    lemma_next_lane(q, 0);
    if let Some(i) = q.next_lane(0) {
        lemma_expire_front(q, i);
        if q.lanes[i].first().expired(now) {
            let r = q.expire_front(i);
            assert forall|a: int, b: int|
                #![trigger r.lanes[a][b]]
                0 <= a < Priority::LEVELS && 0 <= b
                    < r.lanes[a].len() implies r.lanes[a][b].priority.index() == a by {
                if a == i {
                    assert(r.lanes[a][b] == q.lanes[a][b + 1]);
                } else {
                    assert(r.lanes[a][b] == q.lanes[a][b]);
                }
            }
            lemma_accounted(r, now);
        }
    }
}

/// Queueing a datagram with a header leaves all with one.
pub proof fn lemma_enqueue_headed(q: QueueModel, p: OutModel)
    requires
        q.wf(),
        q.headed(),
        packet::headed(p.wire),
    ensures
        q.enqueue(p).wf(),
        q.enqueue(p).headed(),
{
    let r = q.enqueue(p);
    let k = p.priority.index() as int;
    assert forall|i: int, j: int|
        #![trigger r.lanes[i][j]]
        0 <= i < Priority::LEVELS && 0 <= j < r.lanes[i].len() implies packet::headed(
        r.lanes[i][j].wire,
    ) && r.lanes[i][j].priority.index() == i by {
        if i == k && j == q.lanes[i].len() {
            assert(r.lanes[i][j] == p);
        } else {
            assert(r.lanes[i][j] == q.lanes[i][j]);
        }
    }
}

/// What is given out has a header where all that wait have one, and those that
/// stay have one still.
pub proof fn lemma_pop_headed(q: QueueModel, now: Instant)
    requires
        q.wf(),
        q.headed(),
    ensures
        q.pop(now).0.wf(),
        q.pop(now).0.headed(),
        q.pop(now).1 matches Some(p) ==> packet::headed(p.wire),
    decreases q.count(),
{
    lemma_next_lane(q, 0);
    if let Some(k) = q.next_lane(0) {
        lemma_expire_front(q, k);
        let r = q.without_front(k);
        assert(q.lanes[k][0] == q.lanes[k].first());
        assert forall|i: int, j: int|
            #![trigger r.lanes[i][j]]
            0 <= i < Priority::LEVELS && 0 <= j < r.lanes[i].len() implies packet::headed(
            r.lanes[i][j].wire,
        ) && r.lanes[i][j].priority.index() == i by {
            if i == k {
                assert(r.lanes[i][j] == q.lanes[i][j + 1]);
            } else {
                assert(r.lanes[i][j] == q.lanes[i][j]);
            }
        }
        assert(q.expire_front(k).lanes == r.lanes);
        assert(q.take_front(k).lanes == r.lanes);
        if q.lanes[k].first().expired(now) {
            lemma_pop_headed(q.expire_front(k), now);
        }
    }
}

} // verus!
