//! Sent media, kept for retransmission.
//!
//! A retransmission is the datagram as it was sent first, flagged, with what
//! is left of its lifetime and without a transport sequence number, which it
//! gets anew when it leaves. Datagrams past their deadline are not sent again,
//! nor are those that left less than a round trip ago, and a budget bounds the
//! bytes of retransmissions.

use crate::octets;
use crate::octets::{as_slice, seal};
use crate::packet;
use crate::packet::{Flags, Header, Packet, PacketModel, PacketType, HEADER_SIZE};
use crate::send_queue::{OutModel, OutgoingPacket, Priority};
use crate::table;
use crate::table::{keep_keys, stream_key, Table};
use crate::time;
use crate::time::{cap_u64, Duration, Instant};
use bytes::Bytes;
use vstd::prelude::*;
use vstd::slice::slice_to_vec;

verus! {

/// Default number of datagrams kept.
pub const DEFAULT_HISTORY_CAPACITY: usize = 600;

/// What a retransmission request comes to.
#[derive(Debug, Clone, PartialEq, Eq)]
pub enum RetransmitOutcome {
    /// The datagram to queue.
    Ready(OutgoingPacket),
    /// The datagram is not kept.
    NotFound,
    /// Its deadline has come.
    Expired,
    /// It is queued already.
    AlreadyPending,
    /// It left less than a round trip ago.
    TooSoon,
    /// The budget is used up.
    RateLimited,
}

/// A [`RetransmitOutcome`] as a value.
#[verifier::ext_equal]
pub enum RetransmitModel {
    Ready(OutModel),
    NotFound,
    Expired,
    AlreadyPending,
    TooSoon,
    RateLimited,
}

impl View for RetransmitOutcome {
    type V = RetransmitModel;

    open spec fn view(&self) -> RetransmitModel {
        match *self {
            RetransmitOutcome::Ready(p) => RetransmitModel::Ready(p@),
            RetransmitOutcome::NotFound => RetransmitModel::NotFound,
            RetransmitOutcome::Expired => RetransmitModel::Expired,
            RetransmitOutcome::AlreadyPending => RetransmitModel::AlreadyPending,
            RetransmitOutcome::TooSoon => RetransmitModel::TooSoon,
            RetransmitOutcome::RateLimited => RetransmitModel::RateLimited,
        }
    }
}

/// Bytes that were granted, with the instant of each grant.
pub type Grants = Seq<(Instant, u64)>;

/// The grants that are younger than `window` at `now`.
pub open spec fn recent(grants: Grants, window: Duration, now: Instant) -> Grants
    decreases grants.len(),
{
    if grants.len() == 0 {
        Seq::empty()
    } else {
        let front = recent(grants.drop_last(), window, now);
        if now.saturating_duration_since(grants.last().0).nanos < window.nanos {
            front.push(grants.last())
        } else {
            front
        }
    }
}

/// The bytes of all grants.
pub open spec fn granted_bytes(grants: Grants) -> nat
    decreases grants.len(),
{
    if grants.len() == 0 {
        0
    } else {
        granted_bytes(grants.drop_last()) + grants.last().1 as nat
    }
}

/// The state of a [`RetransRateLimiter`] as a value.
#[verifier::ext_equal]
pub struct LimiterModel {
    /// Length of the window.
    pub window: Duration,
    /// Bytes that the window allows.
    pub budget: u64,
    /// What was granted within the window.
    pub grants: Grants,
}

impl LimiterModel {
    /// A limiter that has granted nothing. The window lasts a millisecond at
    /// least.
    pub open spec fn fresh(window: Duration, budget: u64) -> LimiterModel {
        LimiterModel {
            window: window.at_least(Duration::from_millis(1)),
            budget,
            grants: Seq::empty(),
        }
    }

    /// The state without grants that have left the window.
    pub open spec fn slid(self, now: Instant) -> LimiterModel {
        LimiterModel { grants: recent(self.grants, self.window, now), ..self }
    }

    /// The state and whether `n` bytes are granted: with them, no more than the
    /// budget is granted within the window that ends at `now`.
    pub open spec fn consume(self, n: u64, now: Instant) -> (LimiterModel, bool) {
        let s = self.slid(now);
        if granted_bytes(s.grants) + n <= s.budget {
            (LimiterModel { grants: s.grants.push((now, n)), ..s }, true)
        } else {
            (s, false)
        }
    }
}

/// A budget of bytes for a window that slides with time.
#[derive(Debug, Clone, PartialEq, Eq)]
pub struct RetransRateLimiter {
    window: Duration,
    budget_bytes: u64,
    grants: Vec<(Instant, u64)>,
}

impl View for RetransRateLimiter {
    type V = LimiterModel;

    closed spec fn view(&self) -> LimiterModel {
        LimiterModel { window: self.window, budget: self.budget_bytes, grants: self.grants@ }
    }
}

/// The bytes that a rate in bits per second allows in a window; at least one.
pub open spec fn window_budget(target_bps: u64, window: Duration) -> u64 {
    let n = time::capped(target_bps * window.as_millis()) / 8 / 1000;
    if n == 0 {
        1
    } else {
        n
    }
}

/// The bytes that a rate in bits per second allows in a window; at least one.
pub fn budget_for(target_bps: u64, window: Duration) -> (n: u64)
    ensures
        n == window_budget(target_bps, window),
{
    let ms: u64 = window.as_millis();
    assert(target_bps * ms <= u64::MAX * u64::MAX) by (nonlinear_arith)
        requires
            target_bps <= u64::MAX,
            ms <= u64::MAX,
    ;
    let budget: u64 = cap_u64(target_bps as u128 * ms as u128) / 8 / 1000;
    if budget == 0 {
        1
    } else {
        budget
    }
}

impl RetransRateLimiter {
    /// A limiter with an unused budget. The window lasts a millisecond at least.
    pub fn new(window: Duration, budget_bytes: u64) -> (l: Self)
        ensures
            l@ == LimiterModel::fresh(window, budget_bytes),
    {
        RetransRateLimiter {
            window: window.at_least(Duration::from_millis(1)),
            budget_bytes,
            grants: Vec::new(),
        }
    }

    /// A limiter for a rate in bits per second.
    pub fn from_target_bps(target_bps: u64, window: Duration) -> (l: Self)
        ensures
            l@ == LimiterModel::fresh(window, window_budget(target_bps, window)),
    {
        RetransRateLimiter::new(window, budget_for(target_bps, window))
    }

    /// Changes the budget.
    pub fn set_budget(&mut self, budget_bytes: u64)
        ensures
            final(self)@ == (LimiterModel { budget: budget_bytes, ..old(self)@ }),
    {
        self.budget_bytes = budget_bytes;
    }

    /// Bytes that a window allows.
    pub fn budget_bytes(&self) -> (n: u64)
        ensures
            n == self@.budget,
    {
        self.budget_bytes
    }

    /// Uses `nbytes` of the budget, if so many are left in the window that ends
    /// now.
    pub fn try_consume(&mut self, nbytes: u64, now: Instant) -> (granted: bool)
        ensures
            final(self)@ == old(self)@.consume(nbytes, now).0,
            granted == old(self)@.consume(nbytes, now).1,
    {
        self.slide(now);
        if !self.has_room(nbytes) {
            return false;
        }
        self.grants.push((now, nbytes));
        true
    }

    /// Forgets grants that have left the window.
    fn slide(&mut self, now: Instant)
        ensures
            final(self)@ == old(self)@.slid(now),
    {
        let ghost all = self.grants@;
        let ghost window = self.window;
        let mut kept: Vec<(Instant, u64)> = Vec::new();
        let mut i: usize = 0;
        assert(all.take(0).len() == 0);
        while i < self.grants.len()
            invariant
                i <= self.grants@.len(),
                self.grants@ == all,
                self.window == window,
                kept@ == recent(all.take(i as int), window, now),
            decreases all.len() - i,
        {
            assert(all.take(i + 1).drop_last() =~= all.take(i as int));
            let g: (Instant, u64) = self.grants[i];
            if now.saturating_duration_since(g.0).nanos < self.window.nanos {
                kept.push(g);
            }
            i = i + 1;
        }
        assert(all.take(i as int) =~= all);
        self.grants = kept;
    }

    /// Whether `nbytes` more are within the budget.
    fn has_room(&self, nbytes: u64) -> (b: bool)
        ensures
            b == (granted_bytes(self@.grants) + nbytes <= self@.budget),
    {
        if nbytes > self.budget_bytes {
            return false;
        }
        let ghost all = self.grants@;
        let mut left: u64 = self.budget_bytes - nbytes;
        let mut i: usize = 0;
        assert(all.take(0).len() == 0);
        while i < self.grants.len()
            invariant
                i <= self.grants@.len(),
                all == self.grants@,
                nbytes <= self.budget_bytes,
                left == self.budget_bytes - nbytes - granted_bytes(all.take(i as int)),
            decreases all.len() - i,
        {
            assert(all.take(i + 1).drop_last() =~= all.take(i as int));
            let n: u64 = self.grants[i].1;
            if n > left {
                proof {
                    lemma_granted_grows(all, i + 1);
                }
                return false;
            }
            left = left - n;
            i = i + 1;
        }
        assert(all.take(i as int) =~= all);
        true
    }
}

/// A prefix of the grants holds no more bytes than all of them.
proof fn lemma_granted_grows(grants: Grants, k: int)
    requires
        0 <= k <= grants.len(),
    ensures
        granted_bytes(grants.take(k)) <= granted_bytes(grants),
    decreases grants.len(),
{
    if k < grants.len() {
        assert(grants.drop_last().take(k) =~= grants.take(k));
        lemma_granted_grows(grants.drop_last(), k);
    } else {
        assert(grants.take(k) =~= grants);
    }
}

/// A kept datagram as a value.
#[verifier::ext_equal]
pub struct EntryModel {
    /// The datagram as it was sent first.
    pub wire: Seq<u8>,
    /// From this instant on it is not sent again.
    pub deadline: Instant,
    /// When it left last.
    pub last_sent_at: Instant,
    /// Whether a retransmission is queued.
    pub pending: bool,
    /// How often it was sent again.
    pub retransmit_count: u32,
}

/// A kept datagram.
#[derive(Debug, Clone)]
struct HistoryEntry {
    wire: Bytes,
    deadline: Instant,
    last_sent_at: Instant,
    pending: bool,
    retransmit_count: u32,
}

impl HistoryEntry {
    closed spec fn model(&self) -> EntryModel {
        EntryModel {
            wire: octets::octets(self.wire),
            deadline: self.deadline,
            last_sent_at: self.last_sent_at,
            pending: self.pending,
            retransmit_count: self.retransmit_count,
        }
    }
}

/// Whether bytes are a media datagram.
pub open spec fn is_media(wire: Seq<u8>) -> bool {
    PacketModel::parse(wire) matches Ok(PacketModel::Media { .. })
}

/// The header of a retransmission.
pub open spec fn retransmit_header(h: Header, ttl_ms: u16) -> Header {
    Header { flags: Flags { retrans: true, ..h.flags }, transport_seq: 0, ttl_ms, ..h }
}

/// The retransmission of a datagram.
pub open spec fn retransmitted(wire: Seq<u8>, ttl_ms: u16) -> Seq<u8> {
    packet::header_bytes(retransmit_header(packet::parse_header(wire)->Ok_0, ttl_ms)) + wire.skip(
        HEADER_SIZE as int,
    )
}

/// What is left of a lifetime, in whole milliseconds as a header counts them.
pub open spec fn remaining_ms(deadline: Instant, now: Instant) -> u16 {
    let ms = deadline.saturating_duration_since(now).as_millis();
    if ms > u16::MAX {
        u16::MAX
    } else {
        ms as u16
    }
}

/// The state of a [`PacketHistory`] as a value.
#[verifier::ext_equal]
pub struct HistoryModel {
    /// Bound on the datagrams.
    pub capacity: int,
    /// The datagrams.
    pub entries: Map<u64, EntryModel>,
    /// Their keys, in the order in which they came.
    pub order: Seq<u64>,
    /// Round-trip time.
    pub rtt: Duration,
    /// The budget, where there is one.
    pub limiter: Option<LimiterModel>,
}

impl HistoryModel {
    /// Whether every datagram that is kept is media.
    pub open spec fn all_media(self) -> bool {
        forall|k: u64| #[trigger]
            self.entries.contains_key(k) ==> is_media(self.entries[k].wire)
    }

    /// What holds of every state.
    pub open spec fn wf(self) -> bool {
        &&& self.capacity >= 1
        &&& self.order.no_duplicates()
        &&& self.order.to_set() == self.entries.dom()
        &&& self.order.len() <= self.capacity
        &&& self.all_media()
    }

    /// The state once the oldest datagram has made way, if that is needed.
    pub open spec fn evicted(self) -> HistoryModel {
        if self.order.len() >= self.capacity {
            HistoryModel {
                entries: self.entries.remove(self.order.first()),
                order: self.order.drop_first(),
                ..self
            }
        } else {
            self
        }
    }

    /// The state once a datagram was sent first. What is no media datagram is
    /// left out; one that is kept already is replaced where it stands.
    pub open spec fn put(
        self,
        stream_id: u8,
        media_seq: u16,
        wire: Seq<u8>,
        now: Instant,
        deadline: Instant,
    ) -> HistoryModel {
        let key = stream_key(stream_id, media_seq as u32);
        let entry = EntryModel {
            wire,
            deadline,
            last_sent_at: now,
            pending: false,
            retransmit_count: 0,
        };
        if !is_media(wire) {
            self
        } else if self.entries.contains_key(key) {
            HistoryModel { entries: self.entries.insert(key, entry), ..self }
        } else {
            let e = self.evicted();
            HistoryModel {
                entries: e.entries.insert(key, entry),
                order: e.order.push(key),
                ..e
            }
        }
    }

    /// The state once a datagram left the pacer; a retransmission or anything
    /// but media is left out.
    pub open spec fn put_outgoing(self, p: OutModel, now: Instant) -> HistoryModel {
        match packet::parse_header(p.wire) {
            Ok(h) => if h.packet_type != PacketType::Media || h.flags.retrans {
                self
            } else {
                self.put(h.stream_id, h.media_seq, p.wire, now, p.deadline)
            },
            Err(_) => self,
        }
    }

    /// The state and what a request for a datagram comes to.
    pub open spec fn request(self, stream_id: u8, media_seq: u16, now: Instant) -> (
        HistoryModel,
        RetransmitModel,
    ) {
        let key = stream_key(stream_id, media_seq as u32);
        let e = self.entries[key];
        let ttl_ms = remaining_ms(e.deadline, now);
        if !self.entries.contains_key(key) {
            (self, RetransmitModel::NotFound)
        } else if now.nanos >= e.deadline.nanos {
            (self, RetransmitModel::Expired)
        } else if e.pending {
            (self, RetransmitModel::AlreadyPending)
        } else if now.saturating_duration_since(e.last_sent_at).nanos < self.rtt.nanos {
            (self, RetransmitModel::TooSoon)
        } else if ttl_ms == 0 {
            (self, RetransmitModel::Expired)
        } else {
            let wire = retransmitted(e.wire, ttl_ms);
            let (limiter, granted) = match self.limiter {
                Some(l) => {
                    let (after, ok) = l.consume(time::capped(wire.len() as int), now);
                    (Some(after), ok)
                },
                None => (None, true),
            };
            if !granted {
                (HistoryModel { limiter, ..self }, RetransmitModel::RateLimited)
            } else {
                (
                    HistoryModel {
                        limiter,
                        entries: self.entries.insert(key, EntryModel { pending: true, ..e }),
                        ..self
                    },
                    RetransmitModel::Ready(
                        OutModel {
                            wire,
                            priority: Priority::Retransmission,
                            stream_id,
                            enqueued_at: now,
                            deadline: e.deadline,
                        },
                    ),
                )
            }
        }
    }

    /// The state once a retransmission left.
    pub open spec fn mark_sent(self, stream_id: u8, media_seq: u16, now: Instant) -> HistoryModel {
        let key = stream_key(stream_id, media_seq as u32);
        let e = self.entries[key];
        if self.entries.contains_key(key) {
            HistoryModel {
                entries: self.entries.insert(
                    key,
                    EntryModel {
                        pending: false,
                        last_sent_at: now,
                        retransmit_count: if e.retransmit_count == u32::MAX {
                            u32::MAX
                        } else {
                            (e.retransmit_count + 1) as u32
                        },
                        ..e
                    },
                ),
                ..self
            }
        } else {
            self
        }
    }

    /// The state once a retransmission was given up.
    pub open spec fn clear_pending(self, stream_id: u8, media_seq: u16) -> HistoryModel {
        let key = stream_key(stream_id, media_seq as u32);
        if self.entries.contains_key(key) {
            HistoryModel {
                entries: self.entries.insert(
                    key,
                    EntryModel { pending: false, ..self.entries[key] },
                ),
                ..self
            }
        } else {
            self
        }
    }

    /// The state without datagrams whose deadline has come.
    pub open spec fn cull(self, now: Instant) -> HistoryModel {
        let entries = self.entries.restrict(
            Set::new(|k: u64| now.nanos < self.entries[k].deadline.nanos),
        );
        HistoryModel { entries, order: table::kept(self.order, entries.dom()), ..self }
    }
}

/// Keeps sent media for retransmission.
#[derive(Debug, Clone)]
pub struct PacketHistory {
    capacity: usize,
    entries: Table<HistoryEntry>,
    order: Vec<u64>,
    rtt: Duration,
    limiter: Option<RetransRateLimiter>,
}

impl View for PacketHistory {
    type V = HistoryModel;

    closed spec fn view(&self) -> HistoryModel {
        HistoryModel {
            capacity: self.capacity as int,
            entries: self.entries@.map_values(|e: HistoryEntry| e.model()),
            order: self.order@,
            rtt: self.rtt,
            limiter: match self.limiter {
                Some(l) => Some(l@),
                None => None,
            },
        }
    }
}

/// Flags a datagram as a retransmission, with a new lifetime.
fn with_retrans_flag(wire: &Bytes, ttl_ms: u16) -> (r: Option<Bytes>)
    ensures
        is_media(octets::octets(*wire)) <==> r is Some,
        r is Some ==> octets::octets(r->0) == retransmitted(octets::octets(*wire), ttl_ms),
{
    let bytes = as_slice(wire);
    let mut header = match Header::decode(bytes) {
        Ok(h) => h,
        Err(_) => return None,
    };
    if header.packet_type != PacketType::Media {
        return None;
    }
    header.flags.retrans = true;
    header.transport_seq = 0;
    header.ttl_ms = ttl_ms;
    let mut out = slice_to_vec(bytes);
    header.encode(out.as_mut_slice());
    Some(seal(out))
}

impl PacketHistory {
    /// What every history keeps.
    pub closed spec fn wf(&self) -> bool {
        self@.wf() && self.entries.wf()
    }

    /// The state of a well-formed history is well-formed.
    pub proof fn lemma_wf(&self)
        requires
            self.wf(),
        ensures
            self@.wf(),
    {
    }

    /// A history of up to `capacity` datagrams, at least one, without a
    /// budget.
    pub fn new(capacity: usize) -> (h: Self)
        ensures
            h.wf(),
            h@ == (HistoryModel {
                capacity: if capacity == 0 {
                    1
                } else {
                    capacity as int
                },
                entries: Map::empty(),
                order: Seq::empty(),
                rtt: Duration::from_millis(100),
                limiter: None,
            }),
    {
        let h = PacketHistory {
            capacity: if capacity == 0 {
                1
            } else {
                capacity
            },
            entries: Table::new(),
            order: Vec::new(),
            rtt: Duration::from_millis(100),
            limiter: None,
        };
        assert(h@.entries =~= Map::<u64, EntryModel>::empty());
        assert(h@.order.to_set() =~= h@.entries.dom());
        h
    }

    /// Sets a budget for retransmissions.
    pub fn set_rate_limiter(&mut self, limiter: RetransRateLimiter)
        requires
            old(self).wf(),
        ensures
            final(self).wf(),
            final(self)@ == (HistoryModel { limiter: Some(limiter@), ..old(self)@ }),
    {
        self.limiter = Some(limiter);
    }

    /// Lifts the budget.
    pub fn clear_rate_limiter(&mut self)
        requires
            old(self).wf(),
        ensures
            final(self).wf(),
            final(self)@ == (HistoryModel { limiter: None, ..old(self)@ }),
    {
        self.limiter = None;
    }

    /// Sets the round-trip time; a millisecond at least.
    pub fn set_rtt(&mut self, rtt: Duration)
        requires
            old(self).wf(),
        ensures
            final(self).wf(),
            final(self)@ == (HistoryModel {
                rtt: rtt.at_least(Duration::from_millis(1)),
                ..old(self)@
            }),
    {
        self.rtt = rtt.at_least(Duration::from_millis(1));
    }

    /// The round-trip time.
    pub fn rtt(&self) -> (d: Duration)
        ensures
            d == self@.rtt,
    {
        self.rtt
    }

    /// Number of datagrams kept.
    pub fn len(&self) -> (n: usize)
        ensures
            n == self@.order.len(),
    {
        self.order.len()
    }

    /// Whether nothing is kept.
    pub fn is_empty(&self) -> (b: bool)
        ensures
            b == (self@.order.len() == 0),
    {
        self.order.len() == 0
    }

    /// Keeps a datagram that was just sent first. What is no media datagram is
    /// left out.
    pub fn put(
        &mut self,
        stream_id: u8,
        media_seq: u16,
        wire: Bytes,
        now: Instant,
        deadline: Instant,
    )
        requires
            old(self).wf(),
        ensures
            final(self).wf(),
            final(self)@ == old(self)@.put(
                stream_id,
                media_seq,
                octets::octets(wire),
                now,
                deadline,
            ),
    {
        let media = match Packet::decode(as_slice(&wire)) {
            Ok(Packet::Media { .. }) => true,
            _ => false,
        };
        if !media {
            return;
        }
        let key = stream_key(stream_id, media_seq as u32);
        let entry = HistoryEntry {
            wire,
            deadline,
            last_sent_at: now,
            pending: false,
            retransmit_count: 0,
        };
        let ghost before = self@;
        let ghost em = entry.model();
        if self.entries.contains_key(key) {
            self.entries.insert(key, entry);
            assert(self@.entries =~= before.entries.insert(key, em));
            assert(self@.entries.dom() =~= before.entries.dom());
            return;
        }
        if self.order.len() >= self.capacity {
            let oldest = self.order.remove(0);
            let _ = self.entries.remove(oldest);
            proof {
                table::lemma_drop_first(before.order);
                assert(self.order@ =~= before.order.drop_first());
                assert(self@.entries =~= before.entries.remove(oldest));
            }
        }
        let ghost mid = self@;
        proof {
            assert(mid == before.evicted());
            assert(mid.order.to_set() =~= mid.entries.dom()) by {
                assert forall|k: u64| mid.order.to_set().contains(k)
                    <==> mid.entries.dom().contains(k) by {
                    assert(before.order.to_set().contains(k) == before.order.contains(k));
                    assert(mid.order.to_set().contains(k) == mid.order.contains(k));
                }
            }
            assert(mid.order.to_set().contains(key) == mid.order.contains(key));
        }
        self.order.push(key);
        self.entries.insert(key, entry);
        proof {
            assert(self@.entries =~= mid.entries.insert(key, em));
            mid.order.lemma_push_to_set_commute(key);
            assert(self@.order.to_set() =~= self@.entries.dom());
        }
    }

    /// Keeps a datagram that just left the pacer, if it is media that was not
    /// sent before.
    pub fn put_outgoing(&mut self, packet: &OutgoingPacket, now: Instant)
        requires
            old(self).wf(),
        ensures
            final(self).wf(),
            final(self)@ == old(self)@.put_outgoing(packet@, now),
    {
        let header = match Header::decode(as_slice(&packet.wire)) {
            Ok(h) => h,
            Err(_) => return,
        };
        if header.packet_type != PacketType::Media || header.flags.retrans {
            return;
        }
        self.put(header.stream_id, header.media_seq, packet.wire.clone(), now, packet.deadline);
    }

    /// Looks a datagram up for retransmission. One that is given out counts as
    /// queued until [`Self::mark_sent`] or [`Self::clear_pending`].
    pub fn get_retransmission(&mut self, stream_id: u8, media_seq: u16, now: Instant) -> (r:
        RetransmitOutcome)
        requires
            old(self).wf(),
        ensures
            final(self).wf(),
            final(self)@ == old(self)@.request(stream_id, media_seq, now).0,
            r@ == old(self)@.request(stream_id, media_seq, now).1,
    {
        let key = stream_key(stream_id, media_seq as u32);
        let ghost before = self@;
        let entry = match self.entries.get(key) {
            Some(e) => e,
            None => return RetransmitOutcome::NotFound,
        };
        assert(before.entries[key] == entry.model());
        if now.nanos >= entry.deadline.nanos {
            return RetransmitOutcome::Expired;
        }
        if entry.pending {
            return RetransmitOutcome::AlreadyPending;
        }
        if now.saturating_duration_since(entry.last_sent_at).nanos < self.rtt.nanos {
            return RetransmitOutcome::TooSoon;
        }
        let deadline = entry.deadline;
        let ms: u64 = deadline.saturating_duration_since(now).as_millis();
        let ttl_ms: u16 = if ms > u16::MAX as u64 {
            u16::MAX
        } else {
            ms as u16
        };
        if ttl_ms == 0 {
            return RetransmitOutcome::Expired;
        }
        let wire = match with_retrans_flag(&entry.wire, ttl_ms) {
            Some(w) => w,
            None => {
                assert(before.entries.contains_key(key));
                return RetransmitOutcome::NotFound;
            },
        };
        if let Some(limiter) = &mut self.limiter {
            let granted = limiter.try_consume(cap_u64(wire.len() as u128), now);
            if !granted {
                return RetransmitOutcome::RateLimited;
            }
        }
        if let Some(mut e) = self.entries.remove(key) {
            e.pending = true;
            let ghost em = e.model();
            self.entries.insert(key, e);
            proof {
                assert(em == EntryModel { pending: true, ..before.entries[key] });
                assert(self@.entries =~= before.entries.insert(key, em));
                assert(self@.entries.dom() =~= before.entries.dom());
            }
        }
        RetransmitOutcome::Ready(
            OutgoingPacket {
                wire,
                priority: Priority::Retransmission,
                stream_id,
                enqueued_at: now,
                deadline,
            },
        )
    }

    /// Notes that a retransmission left.
    pub fn mark_sent(&mut self, stream_id: u8, media_seq: u16, now: Instant)
        requires
            old(self).wf(),
        ensures
            final(self).wf(),
            final(self)@ == old(self)@.mark_sent(stream_id, media_seq, now),
    {
        let key = stream_key(stream_id, media_seq as u32);
        let ghost before = self@;
        if let Some(mut e) = self.entries.remove(key) {
            assert(before.entries[key] == e.model());
            e.pending = false;
            e.last_sent_at = now;
            if e.retransmit_count < u32::MAX {
                e.retransmit_count = e.retransmit_count + 1;
            }
            let ghost em = e.model();
            self.entries.insert(key, e);
            proof {
                assert(self@.entries =~= before.entries.insert(key, em));
                assert(self@.entries.dom() =~= before.entries.dom());
                assert(self@ == before.mark_sent(stream_id, media_seq, now));
            }
        } else {
            assert(self@.entries =~= before.entries);
        }
    }

    /// Notes that a retransmission was given up.
    pub fn clear_pending(&mut self, stream_id: u8, media_seq: u16)
        requires
            old(self).wf(),
        ensures
            final(self).wf(),
            final(self)@ == old(self)@.clear_pending(stream_id, media_seq),
    {
        let key = stream_key(stream_id, media_seq as u32);
        let ghost before = self@;
        if let Some(mut e) = self.entries.remove(key) {
            assert(before.entries[key] == e.model());
            e.pending = false;
            let ghost em = e.model();
            self.entries.insert(key, e);
            proof {
                assert(self@.entries =~= before.entries.insert(key, em));
                assert(self@.entries.dom() =~= before.entries.dom());
                assert(self@ == before.clear_pending(stream_id, media_seq));
            }
        } else {
            assert(self@.entries =~= before.entries);
        }
    }

    /// Drops datagrams whose deadline has come.
    pub fn cull(&mut self, now: Instant)
        requires
            old(self).wf(),
        ensures
            final(self).wf(),
            final(self)@ == old(self)@.cull(now),
    {
        let ghost before = self@;
        let ghost keep = Set::new(|k: u64| now.nanos < before.entries[k].deadline.nanos);
        let mut i: usize = 0;
        while i < self.order.len()
            invariant
                before.wf(),
                keep == Set::new(|k: u64| now.nanos < before.entries[k].deadline.nanos),
                i <= self.order@.len(),
                self.order@ == before.order,
                self@ == (HistoryModel { entries: self@.entries, ..before }),
                self.entries.wf(),
                self@.entries.submap_of(before.entries),
                forall|j: int|
                    0 <= j < i ==> self@.entries.contains_key(#[trigger] before.order[j])
                        == keep.contains(before.order[j]),
                forall|j: int|
                    i <= j < before.order.len() ==> self@.entries.contains_key(
                        #[trigger] before.order[j],
                    ),
            decreases self.order@.len() - i,
        {
            let key: u64 = self.order[i];
            let ghost e0 = self@.entries;
            assert(e0.contains_key(before.order[i as int]));
            assert(e0.dom().contains(key));
            assert(before.order.to_set().contains(key));
            assert(before.entries.dom().contains(key));
            assert(e0[key] == before.entries[key]);
            let mut stale: bool = false;
            if let Some(e) = self.entries.get(key) {
                assert(e0[key] == e.model());
                stale = now.nanos >= e.deadline.nanos;
            }
            assert(keep.contains(key) == !stale);
            if stale {
                let _ = self.entries.remove(key);
                assert(self@.entries =~= e0.remove(key));
            }
            i = i + 1;
        }
        proof {
            assert forall|k: u64| self@.entries.contains_key(k) <==> before.entries.contains_key(k)
                && keep.contains(k) by {
                if before.entries.contains_key(k) {
                    assert(before.order.to_set().contains(k));
                    let j = choose|j: int| 0 <= j < before.order.len() && before.order[j] == k;
                    assert(self@.entries.contains_key(before.order[j]) == keep.contains(
                        before.order[j],
                    ));
                }
                if self@.entries.contains_key(k) {
                    assert(self@.entries.dom().contains(k));
                }
            }
            assert(self@.entries =~= before.entries.restrict(keep));
        }
        self.order = keep_keys(&self.order, &self.entries);
        proof {
            assert(self.entries@.dom() =~= self@.entries.dom());
            table::lemma_kept(before.order, self@.entries.dom());
            assert(self@.order.to_set() =~= self@.entries.dom()) by {
                assert forall|k: u64| self@.order.to_set().contains(k)
                    <==> self@.entries.dom().contains(k) by {
                    assert(before.order.to_set().contains(k) == before.order.contains(k));
                }
            }
        }
    }

    /// The budget, where there is one.
    pub fn rate_limiter_mut(&mut self) -> (r: Option<&mut RetransRateLimiter>)
        requires
            old(self).wf(),
        ensures
            final(self).wf(),
            match r {
                Some(l) => old(self)@.limiter == Some((*l)@) && final(self)@ == (HistoryModel {
                    limiter: Some((*final(l))@),
                    ..old(self)@
                }),
                None => old(self)@.limiter is None && final(self)@ == old(self)@,
            },
    {
        match &mut self.limiter {
            Some(l) => Some(l),
            None => None,
        }
    }
}

/// Whatever is sent again has time left, is flagged, waits for a transport
/// sequence number, and is otherwise the datagram that was sent first.
pub proof fn lemma_retransmission(h: HistoryModel, stream_id: u8, media_seq: u16, now: Instant)
    requires
        h.all_media(),
        h.request(stream_id, media_seq, now).1 is Ready,
    ensures
        ({
            let key = stream_key(stream_id, media_seq as u32);
            let first = h.entries[key].wire;
            let p = h.request(stream_id, media_seq, now).1->Ready_0;
            let ttl_ms = remaining_ms(h.entries[key].deadline, now);
            &&& h.entries.contains_key(key)
            &&& !p.expired(now)
            &&& ttl_ms > 0
            &&& p.priority == Priority::Retransmission
            &&& PacketModel::parse(p.wire) == Ok::<PacketModel, packet::DecodeError>(
                PacketModel::Media {
                    header: retransmit_header(packet::parse_header(first)->Ok_0, ttl_ms),
                    payload: first.skip(HEADER_SIZE as int),
                },
            )
        }),
{
    let key = stream_key(stream_id, media_seq as u32);
    let e = h.entries[key];
    assert(h.entries.contains_key(key));
    assert(is_media(e.wire));
    lemma_retransmitted(e.wire, remaining_ms(e.deadline, now));
}

proof fn lemma_retransmitted(wire: Seq<u8>, ttl_ms: u16)
    requires
        is_media(wire),
    ensures
        PacketModel::parse(retransmitted(wire, ttl_ms)) == Ok::<PacketModel, packet::DecodeError>(
            PacketModel::Media {
                header: retransmit_header(packet::parse_header(wire)->Ok_0, ttl_ms),
                payload: wire.skip(HEADER_SIZE as int),
            },
        ),
{
    packet::lemma_parsed_is_valid(wire);
    packet::lemma_parsed_header(wire);
    let h = packet::parse_header(wire)->Ok_0;
    assert(h.packet_type == PacketType::Media);
    packet::lemma_parse_split(retransmit_header(h, ttl_ms), wire.skip(HEADER_SIZE as int));
}

/// A request that repeats while the retransmission is queued gives nothing,
/// as long as the deadline has not come.
pub proof fn lemma_request_pending(
    h: HistoryModel,
    stream_id: u8,
    media_seq: u16,
    now: Instant,
    later: Instant,
)
    requires
        h.request(stream_id, media_seq, now).1 is Ready,
        later.nanos < h.entries[stream_key(stream_id, media_seq as u32)].deadline.nanos,
    ensures
        h.request(stream_id, media_seq, now).0.request(stream_id, media_seq, later).1
            == RetransmitModel::AlreadyPending,
{
}

/// A request within a round trip of the last sending gives nothing.
pub proof fn lemma_request_too_soon(
    h: HistoryModel,
    stream_id: u8,
    media_seq: u16,
    sent: Instant,
    later: Instant,
)
    requires
        h.entries.contains_key(stream_key(stream_id, media_seq as u32)),
        later.nanos < h.entries[stream_key(stream_id, media_seq as u32)].deadline.nanos,
        later.saturating_duration_since(sent).nanos < h.rtt.nanos,
    ensures
        h.mark_sent(stream_id, media_seq, sent).request(stream_id, media_seq, later).1
            == RetransmitModel::TooSoon,
{
}

/// A limiter after calls with amounts and instants, one after the other.
pub open spec fn after_calls(l: LimiterModel, calls: Seq<(Instant, u64)>) -> LimiterModel
    decreases calls.len(),
{
    if calls.len() == 0 {
        l
    } else {
        after_calls(l, calls.drop_last()).consume(calls.last().1, calls.last().0).0
    }
}

/// The calls that were granted.
pub open spec fn granted_calls(l: LimiterModel, calls: Seq<(Instant, u64)>) -> Grants
    decreases calls.len(),
{
    if calls.len() == 0 {
        Seq::empty()
    } else {
        let front = granted_calls(l, calls.drop_last());
        if after_calls(l, calls.drop_last()).consume(calls.last().1, calls.last().0).1 {
            front.push(calls.last())
        } else {
            front
        }
    }
}

/// Whether the calls were made in the order of their instants, the last no
/// later than `now`.
pub open spec fn timely(calls: Seq<(Instant, u64)>, now: Instant) -> bool {
    &&& forall|i: int, j: int|
        0 <= i <= j < calls.len() ==> calls[i].0.nanos <= calls[j].0.nanos
    &&& forall|i: int| 0 <= i < calls.len() ==> (#[trigger] calls[i]).0.nanos <= now.nanos
}

proof fn lemma_recent_again(grants: Grants, window: Duration, earlier: Instant, now: Instant)
    requires
        earlier.nanos <= now.nanos,
    ensures
        recent(recent(grants, window, earlier), window, now) == recent(grants, window, now),
        granted_bytes(recent(grants, window, now)) <= granted_bytes(
            recent(grants, window, earlier),
        ),
    decreases grants.len(),
{
    if grants.len() > 0 {
        let front = grants.drop_last();
        lemma_recent_again(front, window, earlier, now);
        let a = recent(front, window, earlier);
        assert(a.push(grants.last()).drop_last() =~= a);
        let b = recent(front, window, now);
        assert(b.push(grants.last()).drop_last() =~= b);
    }
}

/// Whenever one looks, what was granted within the window that ends then is
/// within the budget: no run of calls gets more out of a window, wherever it
/// lies.
pub proof fn lemma_budget_kept(
    window: Duration,
    budget: u64,
    calls: Seq<(Instant, u64)>,
    now: Instant,
)
    requires
        timely(calls, now),
    ensures
        ({
            let l = LimiterModel::fresh(window, budget);
            let within = recent(granted_calls(l, calls), l.window, now);
            &&& granted_bytes(within) <= budget
            &&& recent(after_calls(l, calls).grants, l.window, now) == within
        }),
    decreases calls.len(),
{
    let l = LimiterModel::fresh(window, budget);
    if calls.len() > 0 {
        let front = calls.drop_last();
        let (t, n) = calls.last();
        assert(timely(front, t)) by {
            assert forall|i: int| 0 <= i < front.len() implies (#[trigger] front[i]).0.nanos
                <= t.nanos by {
                assert(calls[i].0.nanos <= calls[calls.len() - 1].0.nanos);
            }
        }
        lemma_budget_kept(window, budget, front, t);
        lemma_settings_kept(l, front);
        let s = after_calls(l, front);
        let g = granted_calls(l, front);
        let a = recent(s.grants, l.window, t);
        lemma_recent_again(s.grants, l.window, t, now);
        lemma_recent_again(g, l.window, t, now);
        assert(recent(s.grants, l.window, now) == recent(g, l.window, now)) by {
            assert(recent(a, l.window, now) == recent(s.grants, l.window, now));
            assert(recent(recent(g, l.window, t), l.window, now) == recent(g, l.window, now));
        }
        let x = (t, n);
        assert(a.push(x).drop_last() =~= a);
        assert(g.push(x).drop_last() =~= g);
        let b = recent(g, l.window, now);
        assert(b.push(x).drop_last() =~= b);
        assert(calls[calls.len() - 1].0.nanos <= now.nanos);
    }
}

proof fn lemma_settings_kept(l: LimiterModel, calls: Seq<(Instant, u64)>)
    ensures
        after_calls(l, calls).window == l.window,
        after_calls(l, calls).budget == l.budget,
    decreases calls.len(),
{
    if calls.len() > 0 {
        lemma_settings_kept(l, calls.drop_last());
    }
}

} // verus!
