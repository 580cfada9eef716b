//! Requests for missing media.
//!
//! A gap in a stream's media sequence numbers is noted when a later number
//! arrives. Missing numbers are asked for until they arrive, are rebuilt from
//! parity, grow too old, or were asked for too often. When too many are
//! missing the list is given up and a keyframe asked for.

use crate::packet;
use crate::packet::{Flags, Header, Packet, PacketModel, PacketType};
use crate::seqs;
use crate::table;
use crate::table::SeqTable;
use crate::time::{Duration, Instant};
use vstd::prelude::*;

verus! {

/// Default time between scans, in milliseconds.
pub const DEFAULT_PROCESS_INTERVAL_MS: u64 = 20;

/// Round-trip time before one is known, in milliseconds.
pub const DEFAULT_RTT_MS: u64 = 100;

/// Settings of a [`NackRequester`].
#[derive(Debug, Clone, Copy, PartialEq, Eq, Structural)]
pub struct NackConfig {
    /// How long a media packet is of use.
    pub packet_lifetime: Duration,
    /// How long to wait before a number is asked for first.
    pub nack_delay: Duration,
    /// Most missing numbers; with more the list is given up.
    pub max_list_size: usize,
    /// How often a number is asked for.
    pub max_retries: u32,
    /// How far behind the newest a missing number may be.
    pub max_age_seqs: u16,
}

impl Default for NackConfig {
    fn default() -> (c: Self)
        ensures
            c.packet_lifetime == Duration::from_millis(200),
            c.nack_delay == Duration::from_millis(0),
            c.max_list_size == 1000,
            c.max_retries == 100,
            c.max_age_seqs == 10_000,
    {
        NackConfig {
            packet_lifetime: Duration::from_millis(200),
            nack_delay: Duration::from_millis(0),
            max_list_size: 1000,
            max_retries: 100,
            max_age_seqs: 10_000,
        }
    }
}

/// A missing number.
#[derive(Debug, Clone, Copy, PartialEq, Eq, Structural)]
pub struct NackInfo {
    /// When the gap was noted.
    pub created_at: Instant,
    /// When to ask next.
    pub send_at: Instant,
    /// How often it was asked for.
    pub retries: u32,
}

/// What an arrival changed.
#[derive(Debug, Clone, Copy, PartialEq, Eq, Structural)]
pub struct OnReceivedResult {
    /// How many missing numbers arrived.
    pub nacks_cleared: u32,
    /// Whether the list was given up and a keyframe is needed.
    pub ask_keyframe: bool,
}

impl Default for OnReceivedResult {
    fn default() -> (r: Self)
        ensures
            r.nacks_cleared == 0,
            !r.ask_keyframe,
    {
        OnReceivedResult { nacks_cleared: 0, ask_keyframe: false }
    }
}

/// What a scan asks for.
#[derive(Debug, Clone, PartialEq, Eq)]
pub struct NackBatch {
    /// The numbers to ask for, packed.
    pub entries: Vec<(u16, u16)>,
    /// Whether a number was given up and a keyframe is needed.
    pub ask_keyframe: bool,
}

impl Default for NackBatch {
    fn default() -> (b: Self)
        ensures
            b.entries@.len() == 0,
            !b.ask_keyframe,
    {
        NackBatch { entries: Vec::new(), ask_keyframe: false }
    }
}

/// The request for one packed entry.
pub open spec fn request(stream_id: u8, ttl_ms: u16, entry: (u16, u16)) -> PacketModel {
    PacketModel::Nack {
        header: Header {
            packet_type: PacketType::Nack,
            flags: Flags::none(),
            stream_id,
            media_seq: 0,
            transport_seq: 0,
            frame_id: 0,
            frag_index: 0,
            frag_count: 1,
            timestamp: 0,
            ttl_ms,
        },
        base_seq: entry.0,
        blp: entry.1,
        frame_id: None,
    }
}

impl NackBatch {
    /// One request for each entry, in order.
    pub fn to_packets(&self, stream_id: u8, ttl_ms: u16) -> (out: Vec<Packet<'static>>)
        ensures
            out@.len() == self.entries@.len(),
            forall|i: int|
                0 <= i < out@.len() ==> (#[trigger] out@[i])@ == request(
                    stream_id,
                    ttl_ms,
                    self.entries@[i],
                ),
    {
        let mut out: Vec<Packet<'static>> = Vec::new();
        let mut i: usize = 0;
        while i < self.entries.len()
            invariant
                i <= self.entries@.len(),
                out@.len() == i,
                forall|j: int|
                    0 <= j < i ==> (#[trigger] out@[j])@ == request(
                        stream_id,
                        ttl_ms,
                        self.entries@[j],
                    ),
            decreases self.entries@.len() - i,
        {
            let entry: (u16, u16) = self.entries[i];
            let header = Header {
                packet_type: PacketType::Nack,
                flags: Flags::none(),
                stream_id,
                media_seq: 0,
                transport_seq: 0,
                frame_id: 0,
                frag_index: 0,
                frag_count: 1,
                timestamp: 0,
                ttl_ms,
            };
            out.push(Packet::Nack { header, base_seq: entry.0, blp: entry.1, frame_id: None });
            i = i + 1;
        }
        out
    }
}

/// What a scan does with a missing number.
pub enum Fate {
    /// It is too old to be of use.
    Drop,
    /// It was asked for too often.
    GiveUp,
    /// It is asked for now.
    Ask,
    /// It is asked for later.
    Wait,
}

/// The state of a [`NackRequester`] as a value.
#[verifier::ext_equal]
pub struct NackModel {
    /// Stream whose media is asked for.
    pub stream_id: u8,
    /// Settings.
    pub config: NackConfig,
    /// Round-trip time.
    pub rtt: Duration,
    /// The newest number that arrived.
    pub newest: Option<u16>,
    /// The missing numbers.
    pub pending: Map<u16, NackInfo>,
}

impl NackModel {
    /// A state in which nothing has arrived.
    pub open spec fn empty(stream_id: u8, config: NackConfig) -> NackModel {
        NackModel {
            stream_id,
            config,
            rtt: Duration::from_millis(DEFAULT_RTT_MS),
            newest: None,
            pending: Map::empty(),
        }
    }

    /// A number that goes missing at `now`.
    pub open spec fn fresh(self, now: Instant) -> NackInfo {
        NackInfo { created_at: now, send_at: now.after(self.config.nack_delay), retries: 0 }
    }

    /// The missing numbers with those between `newest` and `newest + d`; one
    /// that was missing before stays as it is.
    pub open spec fn with_gap(self, newest: u16, d: int, now: Instant) -> Map<u16, NackInfo> {
        Map::new(
            |s: u16| self.pending.contains_key(s) || 0 < seqs::seq_sub(s, newest) < d,
            |s: u16|
                if self.pending.contains_key(s) {
                    self.pending[s]
                } else {
                    self.fresh(now)
                },
        )
    }

    /// The state once a number arrived, before the list is bounded.
    pub open spec fn arrived(self, media_seq: u16, now: Instant) -> NackModel {
        let rest = NackModel { pending: self.pending.remove(media_seq), ..self };
        match self.newest {
            None => NackModel { newest: Some(media_seq), ..rest },
            Some(n) => if packet::ahead(media_seq, n) {
                NackModel {
                    newest: Some(media_seq),
                    pending: rest.with_gap(n, seqs::seq_sub(media_seq, n), now),
                    ..rest
                }
            } else {
                rest
            },
        }
    }

    /// The state and the outcome once a number arrived.
    pub open spec fn receive(self, media_seq: u16, now: Instant) -> (NackModel, OnReceivedResult) {
        let a = self.arrived(media_seq, now);
        let cleared = if self.pending.contains_key(media_seq) {
            1u32
        } else {
            0u32
        };
        if a.pending.len() > self.config.max_list_size {
            (
                NackModel { pending: Map::empty(), ..a },
                OnReceivedResult { nacks_cleared: cleared, ask_keyframe: true },
            )
        } else {
            (a, OnReceivedResult { nacks_cleared: cleared, ask_keyframe: false })
        }
    }

    /// What a scan at `now` does with the missing number `seq`.
    pub open spec fn fate(self, seq: u16, now: Instant) -> Fate {
        let info = self.pending[seq];
        let too_far = match self.newest {
            Some(n) => seqs::seq_sub(n, seq) > self.config.max_age_seqs,
            None => false,
        };
        let age = now.saturating_duration_since(info.created_at);
        if too_far || age.saturating_add(self.rtt.saturating_mul(2)).nanos
            >= self.config.packet_lifetime.nanos {
            Fate::Drop
        } else if info.retries >= self.config.max_retries {
            Fate::GiveUp
        } else if now.nanos >= info.send_at.nanos {
            Fate::Ask
        } else {
            Fate::Wait
        }
    }

    /// The missing numbers that a scan asks for.
    pub open spec fn asked(self, now: Instant) -> Set<u16> {
        Set::new(|s: u16| self.pending.contains_key(s) && self.fate(s, now) is Ask)
    }

    /// Whether a scan gives a number up.
    pub open spec fn gives_up(self, now: Instant) -> bool {
        exists|s: u16| #[trigger] self.pending.contains_key(s) && self.fate(s, now) is GiveUp
    }

    /// The state after a scan.
    pub open spec fn scanned(self, now: Instant) -> NackModel {
        NackModel {
            pending: Map::new(
                |s: u16|
                    self.pending.contains_key(s) && (self.fate(s, now) is Ask || self.fate(
                        s,
                        now,
                    ) is Wait),
                |s: u16|
                    if self.fate(s, now) is Ask {
                        self.asked_again(self.pending[s], now)
                    } else {
                        self.pending[s]
                    },
            ),
            ..self
        }
    }

    /// A missing number once it was asked for at `now`.
    pub open spec fn asked_again(self, info: NackInfo, now: Instant) -> NackInfo {
        NackInfo {
            created_at: info.created_at,
            send_at: now.after(self.rtt),
            retries: if info.retries == u32::MAX {
                u32::MAX
            } else {
                (info.retries + 1) as u32
            },
        }
    }

    /// The entries of a scan.
    pub open spec fn entries(self, now: Instant) -> Seq<(u16, u16)> {
        seqs::packed(seqs::sorted(self.asked(now)))
    }
}

/// Notes missing media of one stream and asks for it.
#[derive(Debug, Clone)]
pub struct NackRequester {
    stream_id: u8,
    config: NackConfig,
    rtt: Duration,
    newest: Option<u16>,
    pending: SeqTable<NackInfo>,
}

impl View for NackRequester {
    type V = NackModel;

    closed spec fn view(&self) -> NackModel {
        NackModel {
            stream_id: self.stream_id,
            config: self.config,
            rtt: self.rtt,
            newest: self.newest,
            pending: self.pending@,
        }
    }
}

impl NackRequester {
    /// A requester for one stream.
    pub fn new(stream_id: u8, config: NackConfig) -> (r: Self)
        ensures
            r@ == NackModel::empty(stream_id, config),
    {
        NackRequester {
            stream_id,
            config,
            rtt: Duration::from_millis(DEFAULT_RTT_MS),
            newest: None,
            pending: SeqTable::new(),
        }
    }

    /// Stream whose media is asked for.
    pub fn stream_id(&self) -> (id: u8)
        ensures
            id == self@.stream_id,
    {
        self.stream_id
    }

    /// Number of missing numbers.
    pub fn pending_count(&self) -> (n: usize)
        ensures
            n == self@.pending.len(),
    {
        self.pending.len()
    }

    /// Sets the round-trip time; a millisecond at least.
    pub fn set_rtt(&mut self, rtt: Duration)
        ensures
            final(self)@ == (NackModel {
                rtt: rtt.at_least(Duration::from_millis(1)),
                ..old(self)@
            }),
    {
        self.rtt = rtt.at_least(Duration::from_millis(1));
    }

    /// The round-trip time.
    pub fn rtt(&self) -> (d: Duration)
        ensures
            d == self@.rtt,
    {
        self.rtt
    }

    /// Changes the settings.
    pub fn set_config(&mut self, config: NackConfig)
        ensures
            final(self)@ == (NackModel { config, ..old(self)@ }),
    {
        self.config = config;
    }

    /// Notes that a number arrived, or was rebuilt from parity. Numbers between
    /// it and the newest before it go missing.
    pub fn on_received(&mut self, media_seq: u16, now: Instant) -> (r: OnReceivedResult)
        ensures
            final(self)@ == old(self)@.receive(media_seq, now).0,
            r == old(self)@.receive(media_seq, now).1,
    {
        let ghost before = self@;
        let ghost rest = NackModel { pending: self@.pending.remove(media_seq), ..self@ };
        let mut result = OnReceivedResult { nacks_cleared: 0, ask_keyframe: false };
        if self.pending.remove(media_seq).is_some() {
            result.nacks_cleared = 1;
        }
        assert(self@ == rest);
        match self.newest {
            None => {
                self.newest = Some(media_seq);
            },
            Some(newest) => {
                if Header::seq_ahead(media_seq, newest) {
                    let d: u16 = media_seq.wrapping_sub(newest);
                    let mut k: u16 = 1;
                    assert(self@.pending =~= rest.with_gap(newest, 1, now));
                    while k < d
                        invariant
                            1 <= k <= d,
                            d < 0x8000,
                            self@ == (NackModel { pending: self@.pending, ..rest }),
                            self@.pending == rest.with_gap(newest, k as int, now),
                        decreases d - k,
                    {
                        let ghost p0 = self@.pending;
                        let seq: u16 = newest.wrapping_add(k);
                        assert(seqs::seq_sub(seq, newest) == k);
                        self.insert_gap(seq, now);
                        proof {
                            assert forall|s: u16| 0 < #[trigger] seqs::seq_sub(s, newest) < k
                                + 1 implies 0 < seqs::seq_sub(s, newest) < k || s == seq by {}
                            assert(self@.pending =~= rest.with_gap(newest, k + 1, now));
                        }
                        k = k + 1;
                    }
                    self.newest = Some(media_seq);
                }
            },
        }
        assert(self@ == before.arrived(media_seq, now));
        if self.pending.len() > self.config.max_list_size {
            self.pending.clear();
            result.ask_keyframe = true;
        }
        result
    }

    fn insert_gap(&mut self, seq: u16, now: Instant)
        ensures
            final(self)@ == (NackModel {
                pending: if old(self)@.pending.contains_key(seq) {
                    old(self)@.pending
                } else {
                    old(self)@.pending.insert(seq, old(self)@.fresh(now))
                },
                ..old(self)@
            }),
    {
        if !self.pending.contains_key(seq) {
            let info = NackInfo {
                created_at: now,
                send_at: now.after(self.config.nack_delay),
                retries: 0,
            };
            self.pending.insert(seq, info);
        }
    }

    /// Forgets missing numbers that are not ahead of `media_seq`.
    pub fn clear_up_to(&mut self, media_seq: u16)
        ensures
            final(self)@ == (NackModel {
                pending: old(self)@.pending.restrict(
                    Set::new(|s: u16| packet::ahead(s, media_seq)),
                ),
                ..old(self)@
            }),
    {
        let ghost before = self@;
        let ghost keep = Set::new(|s: u16| packet::ahead(s, media_seq));
        let keys = self.pending.keys();
        let mut i: usize = 0;
        while i < keys.len()
            invariant
                i <= keys@.len(),
                keys@.to_set() == before.pending.dom(),
                table::ascending(keys@),
                keep == Set::new(|s: u16| packet::ahead(s, media_seq)),
                self@ == (NackModel { pending: self@.pending, ..before }),
                forall|j: int|
                    0 <= j < i ==> self@.pending.contains_key(#[trigger] keys@[j])
                        == keep.contains(keys@[j]),
                forall|j: int|
                    i <= j < keys@.len() ==> self@.pending.contains_key(#[trigger] keys@[j]),
                self@.pending.submap_of(before.pending),
            decreases keys@.len() - i,
        {
            let k: u16 = keys[i];
            let ghost p0 = self@.pending;
            assert(keep.contains(k) == packet::ahead(k, media_seq));
            if !Header::seq_ahead(k, media_seq) {
                let _ = self.pending.remove(k);
                assert(self@.pending == p0.remove(k));
            }
            assert(p0.contains_key(keys@[i as int]));
            i = i + 1;
        }
        proof {
            assert forall|s: u16| self@.pending.contains_key(s) <==> before.pending.contains_key(s)
                && keep.contains(s) by {
                if before.pending.contains_key(s) {
                    assert(keys@.to_set().contains(s));
                    let j = choose|j: int| 0 <= j < keys@.len() && keys@[j] == s;
                    assert(self@.pending.contains_key(keys@[j]) == keep.contains(keys@[j]));
                }
                if self@.pending.contains_key(s) {
                    assert(self@.pending.dom().contains(s));
                }
            }
            assert(self@.pending =~= before.pending.restrict(keep));
        }
    }

    /// Forgets every missing number.
    pub fn clear(&mut self)
        ensures
            final(self)@ == (NackModel { pending: Map::empty(), ..old(self)@ }),
    {
        self.pending.clear();
    }

    /// Scans the missing numbers: those too old are dropped, those asked for
    /// too often are given up, and those that are due are asked for, a round
    /// trip apart.
    pub fn process(&mut self, now: Instant) -> (batch: NackBatch)
        ensures
            final(self)@ == old(self)@.scanned(now),
            batch.entries@ == old(self)@.entries(now),
            forall|x: u16| #[trigger]
                seqs::all_missing(batch.entries@).contains(x) <==> old(self)@.asked(now).contains(x),
            batch.ask_keyframe == old(self)@.gives_up(now),
    {
        let ghost m = self@;
        let keys = self.pending.keys();
        let mut ask_keyframe: bool = false;
        let mut to_send: Vec<u16> = Vec::new();
        let ghost target = m.scanned(now).pending;
        let mut i: usize = 0;
        while i < keys.len()
            invariant
                i <= keys@.len(),
                table::ascending(keys@),
                keys@.to_set() == m.pending.dom(),
                target == m.scanned(now).pending,
                self@ == (NackModel { pending: self@.pending, ..m }),
                forall|j: int|
                    #![trigger keys@[j]]
                    0 <= j < i ==> self@.pending.contains_key(keys@[j]) == target.contains_key(
                        keys@[j],
                    ) && (target.contains_key(keys@[j]) ==> self@.pending[keys@[j]]
                        == target[keys@[j]]),
                forall|j: int|
                    #![trigger keys@[j]]
                    i <= j < keys@.len() ==> self@.pending.contains_key(keys@[j])
                        && self@.pending[keys@[j]] == m.pending[keys@[j]],
                forall|s: u16| #[trigger]
                    self@.pending.contains_key(s) ==> m.pending.contains_key(s),
                table::ascending(to_send@),
                forall|x: u16| #[trigger]
                    to_send@.contains(x) <==> keys@.take(i as int).contains(x) && m.fate(
                        x,
                        now,
                    ) is Ask,
                forall|j: int|
                    0 <= j < to_send@.len() && i < keys@.len() ==> #[trigger] to_send@[j]
                        < keys@[i as int],
                ask_keyframe == (exists|j: int|
                    0 <= j < i && m.fate(#[trigger] keys@[j], now) is GiveUp),
            decreases keys@.len() - i,
        {
            let seq: u16 = keys[i];
            let ghost p0 = self@.pending;
            let ghost sent0 = to_send@;
            assert(keys@.to_set().contains(seq));
            assert(p0.contains_key(keys@[i as int]));
            assert(m.pending.dom().contains(seq));
            let info: NackInfo = match self.pending.get(seq) {
                Some(x) => *x,
                None => NackInfo { created_at: now, send_at: now, retries: 0 },
            };
            assert(info == m.pending[seq]);
            let too_far = match self.newest {
                Some(n) => n.wrapping_sub(seq) > self.config.max_age_seqs,
                None => false,
            };
            let age = now.saturating_duration_since(info.created_at);
            if too_far || age.saturating_add(self.rtt.saturating_mul(2)).nanos
                >= self.config.packet_lifetime.nanos {
                assert(m.fate(seq, now) is Drop);
                let _ = self.pending.remove(seq);
            } else if info.retries >= self.config.max_retries {
                assert(m.fate(seq, now) is GiveUp);
                let _ = self.pending.remove(seq);
                ask_keyframe = true;
                assert(m.fate(keys@[i as int], now) is GiveUp);
            } else if now.nanos >= info.send_at.nanos {
                assert(m.fate(seq, now) is Ask);
                let again = NackInfo {
                    created_at: info.created_at,
                    send_at: now.after(self.rtt),
                    retries: if info.retries == u32::MAX {
                        u32::MAX
                    } else {
                        info.retries + 1
                    },
                };
                self.pending.insert(seq, again);
                to_send.push(seq);
            } else {
                assert(m.fate(seq, now) is Wait);
            }
            proof {
                lemma_ask_list(m, keys@, sent0, to_send@, i as int, now);
            }
            i = i + 1;
        }
        proof {
            assert forall|s: u16| self@.pending.contains_key(s) <==> target.contains_key(s) by {
                if target.contains_key(s) || self@.pending.contains_key(s) {
                    assert(m.pending.contains_key(s));
                    assert(keys@.to_set().contains(s));
                    let j = choose|j: int| 0 <= j < keys@.len() && keys@[j] == s;
                    assert(keys@[j] == s);
                }
            }
            assert forall|s: u16| #[trigger] target.contains_key(s) implies self@.pending[s]
                == target[s] by {
                assert(keys@.to_set().contains(s));
                let j = choose|j: int| 0 <= j < keys@.len() && keys@[j] == s;
                assert(keys@[j] == s);
            }
            assert(self@.pending =~= target);
            assert(keys@.take(keys@.len() as int) =~= keys@);
            assert forall|x: u16| #[trigger] to_send@.contains(x) <==> m.asked(now).contains(x) by {
                assert(keys@.to_set().contains(x) == keys@.contains(x));
            }
            assert(to_send@.to_set() =~= m.asked(now));
            if m.gives_up(now) {
                let s = choose|s: u16| #[trigger]
                    m.pending.contains_key(s) && m.fate(s, now) is GiveUp;
                assert(keys@.to_set().contains(s));
                let j = choose|j: int| 0 <= j < keys@.len() && keys@[j] == s;
                assert(m.fate(keys@[j], now) is GiveUp);
            }
            if ask_keyframe {
                let j = choose|j: int|
                    0 <= j < keys@.len() && m.fate(#[trigger] keys@[j], now) is GiveUp;
                assert(keys@.to_set().contains(keys@[j]));
                assert(m.pending.contains_key(keys@[j]));
            }
        }
        let ghost due = to_send@;
        let entries = Packet::nack_pack_seqs(to_send);
        proof {
            assert forall|x: u16| #[trigger] seqs::all_missing(entries@).contains(x)
                <==> m.asked(now).contains(x) by {
                assert(due.contains(x) <==> m.asked(now).contains(x));
            }
        }
        NackBatch { entries, ask_keyframe }
    }
}

proof fn lemma_ask_list(
    m: NackModel,
    keys: Seq<u16>,
    before: Seq<u16>,
    after: Seq<u16>,
    i: int,
    now: Instant,
)
    requires
        0 <= i < keys.len(),
        table::ascending(keys),
        table::ascending(before),
        forall|x: u16| #[trigger]
            before.contains(x) <==> keys.take(i).contains(x) && m.fate(x, now) is Ask,
        forall|j: int| 0 <= j < before.len() ==> #[trigger] before[j] < keys[i],
        after == (if m.fate(keys[i], now) is Ask {
            before.push(keys[i])
        } else {
            before
        }),
    ensures
        table::ascending(after),
        forall|x: u16| #[trigger]
            after.contains(x) <==> keys.take(i + 1).contains(x) && m.fate(x, now) is Ask,
        forall|j: int|
            0 <= j < after.len() && i + 1 < keys.len() ==> #[trigger] after[j] < keys[i + 1],
{
    let t = keys.take(i);
    let t1 = keys.take(i + 1);
    let k = keys[i];
    assert forall|x: u16| t1.contains(x) <==> t.contains(x) || x == k by {
        if t1.contains(x) {
            let j = choose|j: int| 0 <= j < t1.len() && t1[j] == x;
            if j < i {
                assert(t[j] == x);
            }
        }
        if t.contains(x) {
            let j = choose|j: int| 0 <= j < t.len() && t[j] == x;
            assert(t1[j] == x);
        }
        assert(t1[i] == k);
    }
    assert forall|x: u16| #[trigger] after.contains(x) <==> t1.contains(x) && m.fate(
        x,
        now,
    ) is Ask by {
        assert(t1.contains(x) <==> t.contains(x) || x == k);
        if after.contains(x) {
            let j = choose|j: int| 0 <= j < after.len() && after[j] == x;
            if j < before.len() {
                assert(before[j] == x);
                assert(before.contains(x));
            }
        }
        if before.contains(x) {
            let j = choose|j: int| 0 <= j < before.len() && before[j] == x;
            assert(after[j] == x);
        }
        if x == k && m.fate(k, now) is Ask {
            assert(after[after.len() - 1] == k);
        }
    }
}

/// A number that arrived, or was rebuilt, is no longer missing, so no scan
/// asks for it.
pub proof fn lemma_arrived_not_missing(m: NackModel, media_seq: u16, now: Instant, later: Instant)
    ensures
        !m.receive(media_seq, now).0.pending.contains_key(media_seq),
        !m.receive(media_seq, now).0.asked(later).contains(media_seq),
{
}

/// Every number between the newest and a later one goes missing when the
/// later one arrives, unless the list is given up.
pub proof fn lemma_gap_missing(m: NackModel, media_seq: u16, now: Instant, s: u16)
    requires
        m.newest is Some,
        packet::ahead(media_seq, m.newest->0),
        0 < seqs::seq_sub(s, m.newest->0) < seqs::seq_sub(media_seq, m.newest->0),
        !m.receive(media_seq, now).1.ask_keyframe,
    ensures
        m.receive(media_seq, now).0.pending.contains_key(s),
{
}

/// A number is asked for a round trip apart at least.
pub proof fn lemma_asked_apart(m: NackModel, s: u16, t: Instant, u: Instant)
    requires
        m.asked(t).contains(s),
        t.nanos <= u.nanos < t.after(m.rtt).nanos,
    ensures
        !m.scanned(t).asked(u).contains(s),
{
}

} // verus!
