//! What a session does of itself: it asks for what is missing, reports what
//! arrived, and keeps what leaves.

use crate::bits;
use crate::codec::MediaKind;
use crate::delivery;
use crate::feedback;
use crate::feedback::SentPacket;
use crate::laws::gaps;
use crate::laws::playout;
use crate::laws::reports;
use crate::laws::retransmission;
use crate::laws::sessions;
use crate::laws::wire;
use crate::nack::NackModel;
use crate::packet;
use crate::packet::{PacketModel, PacketType};
use crate::send_queue;
use crate::send_queue::OutModel;
use crate::seqs;
use crate::session;
use crate::session::SessionModel;
use crate::table;
use crate::time::Instant;
use crate::track::TrackModel;
use vstd::prelude::*;

verus! {

/// Whether one of the entries of a request lists `x`.
pub open spec fn asks_for(entries: Seq<(u16, u16)>, x: u16) -> bool {
    exists|i: int|
        0 <= i < entries.len() && retransmission::listed(
            (#[trigger] entries[i]).0,
            entries[i].1,
            x,
        )
}

proof fn lemma_reach(s: Seq<u16>, j: int)
    requires
        1 <= j <= s.len(),
    ensures
        j <= seqs::reach(s, j) <= s.len(),
        forall|k: int| j <= k < seqs::reach(s, j) ==> (#[trigger] s[k]) - s[0] <= 16,
    decreases s.len() - j,
{
    if j < s.len() && s[j] - s[0] <= 16 {
        lemma_reach(s, j + 1);
    }
}

proof fn lemma_blp(s: Seq<u16>, n: int)
    requires
        1 <= n <= s.len(),
        table::ascending(s),
        forall|k: int| 1 <= k < n ==> (#[trigger] s[k]) - s[0] <= 16,
    ensures
        forall|b: int| #[trigger]
            bits::bit16(seqs::blp_of(s, n), b) <==> 0 <= b < 16 && within(s, n, s[0] + 1 + b),
    decreases n,
{
    if n == 1 {
        bits::lemma_zero16();
    } else {
        lemma_blp(s, n - 1);
        let prev = seqs::blp_of(s, n - 1);
        let blp = seqs::blp_of(s, n);
        let w = (s[n - 1] - s[0] - 1) as u16;
        bits::lemma_set_bit16(prev, w);
        assert forall|b: int| #[trigger] bits::bit16(blp, b) <==> 0 <= b < 16 && within(
            s,
            n,
            s[0] + 1 + b,
        ) by {
            assert(bits::bit16(blp, b) == (b == w || bits::bit16(prev, b)));
            let v = s[0] + 1 + b;
            if within(s, n - 1, v) {
                let k = choose|k: int| 1 <= k < n - 1 && #[trigger] s[k] == v;
                assert(1 <= k < n && s[k] == v);
            }
            if within(s, n, v) {
                let k = choose|k: int| 1 <= k < n && #[trigger] s[k] == v;
                if k < n - 1 {
                    assert(within(s, n - 1, v));
                }
            }
            if b == w {
                assert(s[n - 1] == v);
            }
        }
    }
}

/// Whether `v` is among the numbers of `s` before `n`, behind the first.
pub open spec fn within(s: Seq<u16>, n: int, v: int) -> bool {
    exists|k: int| 1 <= k < n && #[trigger] s[k] == v
}

proof fn lemma_packed(s: Seq<u16>, x: u16)
    requires
        table::ascending(s),
    ensures
        s.contains(x) <==> asks_for(seqs::packed(s), x),
    decreases s.len(),
{
    if s.len() > 0 {
        let n = seqs::reach(s, 1);
        lemma_reach(s, 1);
        lemma_blp(s, n);
        let rest = s.skip(n);
        assert(table::ascending(rest));
        lemma_packed(rest, x);
        let p = seqs::packed(s);
        let q = seqs::packed(rest);
        let blp = seqs::blp_of(s, n);
        assert(p == seq![(s[0], blp)] + q);
        assert(p[0] == (s[0], blp));
        assert forall|i: int| 0 <= i < q.len() implies p[i + 1] == #[trigger] q[i] by {}
        lemma_first(s, n, x);
        if s.contains(x) {
            let k = choose|k: int| 0 <= k < s.len() && s[k] == x;
            if k >= n {
                assert(rest[k - n] == x);
                assert(asks_for(q, x));
                let i = choose|i: int|
                    0 <= i < q.len() && retransmission::listed((#[trigger] q[i]).0, q[i].1, x);
                assert(p[i + 1] == q[i]);
            } else {
                assert(retransmission::listed(p[0].0, p[0].1, x));
            }
        }
        if asks_for(p, x) {
            let i = choose|i: int|
                0 <= i < p.len() && retransmission::listed((#[trigger] p[i]).0, p[i].1, x);
            if i == 0 {
                let k = choose|k: int| 0 <= k < n && s[k] == x;
                assert(s[k] == x);
            } else {
                assert(p[i] == q[i - 1]);
                assert(asks_for(q, x));
                let k = choose|k: int| 0 <= k < rest.len() && rest[k] == x;
                assert(s[k + n] == x);
            }
        }
    }
}

proof fn lemma_first(s: Seq<u16>, n: int, x: u16)
    requires
        1 <= n <= s.len(),
        table::ascending(s),
        forall|k: int| 1 <= k < n ==> (#[trigger] s[k]) - s[0] <= 16,
        forall|b: int| #[trigger]
            bits::bit16(seqs::blp_of(s, n), b) <==> 0 <= b < 16 && within(s, n, s[0] + 1 + b),
    ensures
        retransmission::listed(s[0], seqs::blp_of(s, n), x) <==> exists|k: int|
            0 <= k < n && s[k] == x,
{
    let blp = seqs::blp_of(s, n);
    if retransmission::listed(s[0], blp, x) {
        if x == s[0] {
            assert(0 <= 0 < n && s[0] == x);
        } else {
            let i = choose|i: u16|
                i < 16 && #[trigger] (blp >> i) & 1u16 == 1u16 && x == (s[0] + 1 + i) % 0x1_0000;
            assert(bits::bit16(blp, i as int));
            let k = choose|k: int| 1 <= k < n && #[trigger] s[k] == s[0] + 1 + i;
            assert(0 <= k < n && s[k] == x);
        }
    }
    if exists|k: int| 0 <= k < n && s[k] == x {
        let k = choose|k: int| 0 <= k < n && s[k] == x;
        if k > 0 {
            let b = s[k] - s[0] - 1;
            assert(within(s, n, s[0] + 1 + b));
            assert(bits::bit16(blp, b));
            let i = b as u16;
            assert((blp >> i) & 1u16 == 1u16);
        }
    }
}

/// The numbers of a set below `n` can be listed in order.
proof fn lemma_listing(s: Set<u16>, n: int) -> (r: Seq<u16>)
    requires
        0 <= n <= 0x1_0000,
    ensures
        table::ascending(r),
        forall|x: u16| #[trigger] r.contains(x) <==> s.contains(x) && x < n,
    decreases n,
{
    if n == 0 {
        Seq::empty()
    } else {
        let front = lemma_listing(s, n - 1);
        let y = (n - 1) as u16;
        if s.contains(y) {
            let r = front.push(y);
            assert forall|i: int| 0 <= i < front.len() implies #[trigger] front[i] < y by {
                assert(front.contains(front[i]));
            }
            assert forall|x: u16| #[trigger] r.contains(x) <==> s.contains(x) && x < n by {
                if r.contains(x) {
                    let k = choose|k: int| 0 <= k < r.len() && r[k] == x;
                    if k < front.len() {
                        assert(front[k] == x);
                        assert(front.contains(x));
                    }
                }
                if x == y {
                    assert(r[front.len() as int] == y);
                }
                if front.contains(x) {
                    let k = choose|k: int| 0 <= k < front.len() && front[k] == x;
                    assert(r[k] == x);
                }
            }
            r
        } else {
            assert forall|x: u16| #[trigger] front.contains(x) <==> s.contains(x) && x < n by {
                if s.contains(x) && x < n {
                    assert(x != y);
                }
            }
            front
        }
    }
}

/// A scan asks for every number whose turn has come, whatever the other
/// entries hold, and for no other.
pub proof fn lemma_all_asked(m: NackModel, now: Instant, x: u16)
    ensures
        asks_for(m.entries(now), x) <==> m.asked(now).contains(x),
{
    let s = m.asked(now);
    let r = lemma_listing(s, 0x1_0000);
    assert forall|y: u16| #[trigger] r.contains(y) <==> s.contains(y) by {}
    assert(seqs::sorts(r, s));
    seqs::lemma_sorted(r, s);
    lemma_packed(r, x);
}

/// Whether a packet asks for media `x` of a stream.
pub open spec fn is_request(p: PacketModel, stream_id: u8, x: u16, ttl_ms: u16) -> bool {
    &&& p is Nack
    &&& p.header().packet_type == PacketType::Nack
    &&& p.header().stream_id == stream_id
    &&& p.header().ttl_ms == ttl_ms
    &&& retransmission::listed(p->base_seq, p->blp, x)
}

/// Whether a list of packets asks for media `x` of a stream.
pub open spec fn requests(packets: Seq<PacketModel>, stream_id: u8, x: u16, ttl_ms: u16) -> bool {
    exists|i: int| 0 <= i < packets.len() && is_request(#[trigger] packets[i], stream_id, x, ttl_ms)
}

/// Whether a number is to be asked for now.
pub open spec fn wanted_now(m: NackModel, now: Instant, x: u16) -> bool {
    &&& m.pending.contains_key(x)
    &&& !gaps::useless(m, x, now)
    &&& m.pending[x].retries < m.config.max_retries
    &&& now.nanos >= m.pending[x].send_at.nanos
}

/// Whether a number that is still of use was asked for as often as may be.
pub open spec fn asked_in_vain(m: NackModel, now: Instant) -> bool {
    exists|s: u16| #[trigger]
        m.pending.contains_key(s) && !gaps::useless(m, s, now) && m.pending[s].retries
            >= m.config.max_retries
}

/// A track is scanned every 20 milliseconds. A scan asks for what is to be
/// asked for, and for nothing else. Where media was asked for in vain, or too
/// much is missing, it asks for a keyframe of a video track.
pub proof fn lemma_scan_asks(t: TrackModel, now: Instant, ttl_ms: u16, x: u16)
    requires
        now.nanos + 2 * t.nack.rtt.nanos <= u64::MAX,
    ensures
        ({
            let due = t.last_nack_at matches Some(at) ==> playout::elapsed(now.nanos, at.nanos)
                >= 20_000_000;
            let (after, out, key) = t.scan(now, ttl_ms);
            &&& !due ==> after == t && out.len() == 0 && key is None
            &&& due ==> {
                &&& requests(out, t.stream_id, x, ttl_ms) <==> wanted_now(t.nack, now, x)
                &&& after.last_nack_at == Some(now)
                &&& key is Some <==> t.video is Some && (t.keyframe_owed || asked_in_vain(
                    t.nack,
                    now,
                ))
                &&& key matches Some(p) ==> p is KeyframeReq && p->KeyframeReq_stream_id
                    == t.stream_id && p.header().packet_type == PacketType::KeyframeReq
                    && p.header().ttl_ms == ttl_ms
                &&& !after.keyframe_owed
            }
        }),
{
    let (after, out, key) = t.scan(now, ttl_ms);
    let e = t.nack.entries(now);
    lemma_all_asked(t.nack, now, x);
    gaps::lemma_scan(t.nack, now, x);
    gaps::lemma_gives_up(t.nack, now);
    if t.scan_due(now) {
        if asks_for(e, x) {
            let i = choose|i: int|
                0 <= i < e.len() && retransmission::listed((#[trigger] e[i]).0, e[i].1, x);
            assert(is_request(out[i], t.stream_id, x, ttl_ms));
        }
        if requests(out, t.stream_id, x, ttl_ms) {
            let i = choose|i: int|
                0 <= i < out.len() && is_request(#[trigger] out[i], t.stream_id, x, ttl_ms);
            assert(retransmission::listed(e[i].0, e[i].1, x));
        }
    }
}

proof fn lemma_scanned(m: SessionModel, ids: Seq<u64>, now: Instant, i: int)
    requires
        ids.no_duplicates(),
        0 <= i < ids.len(),
    ensures
        ({
            let (c, nacks, keys) = m.scanned(ids, now);
            let (t, more, key) = m.tracks[ids[i]].scan(now, m.config.default_ttl_ms);
            &&& c.tracks[ids[i]] == t
            &&& forall|j: int|
                0 <= j < more.len() ==> nacks.contains(#[trigger] more[j])
            &&& key matches Some(p) ==> keys.contains(p)
            &&& c.pacer == m.pacer
            &&& c.config == m.config
        }),
    decreases ids.len(),
{
    let front = ids.drop_last();
    let (f, nacks, keys) = m.scanned(front, now);
    lemma_untouched(m, front, now, ids.last());
    let (t, more, key) = m.tracks[ids[i]].scan(now, m.config.default_ttl_ms);
    let (c, all, every) = m.scanned(ids, now);
    if i == ids.len() - 1 {
        assert(f.tracks[ids.last()] == m.tracks[ids.last()]);
        assert forall|j: int| 0 <= j < more.len() implies all.contains(#[trigger] more[j]) by {
            assert(all[nacks.len() + j] == more[j]);
        }
        if let Some(p) = key {
            assert(every[keys.len() as int] == p);
        }
    } else {
        lemma_scanned(m, front, now, i);
        assert(front[i] == ids[i]);
        assert forall|j: int| 0 <= j < more.len() implies all.contains(#[trigger] more[j]) by {
            let k = choose|k: int| 0 <= k < nacks.len() && nacks[k] == more[j];
            assert(all[k] == more[j]);
        }
        if let Some(p) = key {
            let k = choose|k: int| 0 <= k < keys.len() && keys[k] == p;
            assert(every[k] == p);
        }
    }
}

proof fn lemma_untouched(m: SessionModel, ids: Seq<u64>, now: Instant, k: u64)
    requires
        !ids.contains(k),
    ensures
        m.scanned(ids, now).0.tracks[k] == m.tracks[k],
        m.scanned(ids, now).0.pacer == m.pacer,
        m.scanned(ids, now).0.config == m.config,
    decreases ids.len(),
{
    if ids.len() > 0 {
        assert forall|i: int| 0 <= i < ids.drop_last().len() implies ids.drop_last()[i] != k by {
            assert(ids[i] != k);
        }
        assert(ids[ids.len() - 1] != k);
        lemma_untouched(m, ids.drop_last(), now, k);
    }
}

/// Whether the lane for feedback holds a packet that asks for media `x` of a
/// stream.
pub open spec fn request_waits(m: SessionModel, stream_id: u8, x: u16, ttl_ms: u16, now: Instant) -> bool {
    exists|p: PacketModel| #[trigger]
        is_request(p, stream_id, x, ttl_ms) && sessions::holds(
            m.pacer.queue.lanes[3],
            0,
            p,
            now,
        )
}

/// The upkeep of a session queues the arrival report that is due and a request
/// for everything that is to be asked for on any track, and a request for a
/// keyframe where one is owed.
#[verifier::rlimit(40)]
pub proof fn lemma_upkeep(m: SessionModel, ids: Seq<u64>, now: Instant, i: int, x: u16)
    requires
        m.pacer.queue.wf(),
        m.config.default_ttl_ms > 0,
        now.nanos + 65_535 * 1_000_000 <= u64::MAX,
        ids.no_duplicates(),
        0 <= i < ids.len(),
        ({
            let t = m.tracks[ids[i]];
            &&& now.nanos + 2 * t.nack.rtt.nanos <= u64::MAX
            &&& t.last_nack_at matches Some(at) ==> playout::elapsed(now.nanos, at.nanos)
                >= 20_000_000
        }),
    ensures
        ({
            let t = m.tracks[ids[i]];
            let ttl = m.config.default_ttl_ms;
            let after = m.maintained(ids, now);
            &&& m.arrivals.poll(now).1 matches Some(r) ==> r.header.packet_type
                == PacketType::ArrivalFeedback && r.header.ttl_ms > 0 ==> sessions::holds(
                after.pacer.queue.lanes[3],
                0,
                r.packet(),
                now,
            )
            &&& wanted_now(t.nack, now, x) ==> request_waits(after, t.stream_id, x, ttl, now)
            &&& t.video is Some && (t.keyframe_owed || asked_in_vain(t.nack, now)) ==>
                exists|p: PacketModel| #[trigger]
                sessions::holds(after.pacer.queue.lanes[3], 0, p, now) && p is KeyframeReq
                    && p->KeyframeReq_stream_id == t.stream_id
        }),
{
    reveal(SessionModel::maintained);
    let (arrivals, report) = m.arrivals.poll(now);
    let a = SessionModel { arrivals, ..m };
    let b = match report {
        Some(r) => a.queued(seq![r.packet()], now),
        None => a,
    };
    if let Some(r) = report {
        sessions::lemma_all_queued(a.pacer.queue, seq![r.packet()], now);
        assert(seq![r.packet()][0] == r.packet());
    }
    let (c, nacks, keys) = b.scanned(ids, now);
    lemma_scanned(b, ids, now, i);
    let d = c.queued(nacks, now);
    let e = d.queued(keys, now);
    sessions::lemma_all_queued(c.pacer.queue, nacks, now);
    sessions::lemma_all_queued(d.pacer.queue, keys, now);
    let t = m.tracks[ids[i]];
    let ttl = m.config.default_ttl_ms;
    lemma_scan_asks(t, now, ttl, x);
    let (_, more, key) = t.scan(now, ttl);
    let after = m.maintained(ids, now);
    assert(after.pacer.queue == e.pacer.queue);
    if let Some(r) = report {
        if r.header.packet_type == PacketType::ArrivalFeedback && r.header.ttl_ms > 0 {
            let p = r.packet();
            lemma_still_holds(a.pacer.queue.lanes[3], b.pacer.queue.lanes[3], d.pacer.queue.lanes[3], p, now);
            lemma_still_holds(a.pacer.queue.lanes[3], d.pacer.queue.lanes[3], e.pacer.queue.lanes[3], p, now);
        }
    }
    if wanted_now(t.nack, now, x) {
        let j = choose|j: int|
            0 <= j < more.len() && is_request(#[trigger] more[j], t.stream_id, x, ttl);
        let p = more[j];
        let k = choose|k: int| 0 <= k < nacks.len() && nacks[k] == p;
        assert(nacks[k] == p);
        lemma_still_holds(c.pacer.queue.lanes[3], d.pacer.queue.lanes[3], e.pacer.queue.lanes[3], p, now);
        assert(is_request(p, t.stream_id, x, ttl));
    }
    if t.video is Some && (t.keyframe_owed || asked_in_vain(t.nack, now)) {
        let p = key->0;
        let k = choose|k: int| 0 <= k < keys.len() && keys[k] == p;
        assert(keys[k] == p);
        lemma_still_holds(d.pacer.queue.lanes[3], e.pacer.queue.lanes[3], e.pacer.queue.lanes[3], p, now);
    }
}

proof fn lemma_still_holds(
    a: Seq<OutModel>,
    b: Seq<OutModel>,
    c: Seq<OutModel>,
    p: PacketModel,
    now: Instant,
)
    requires
        sessions::holds(b, a.len() as int, p, now),
        b.len() <= c.len(),
        forall|j: int| 0 <= j < b.len() ==> #[trigger] c[j] == b[j],
    ensures
        sessions::holds(c, 0, p, now),
        sessions::holds(c, a.len() as int, p, now),
{
    let j = choose|j: int|
        a.len() <= j < b.len() && (#[trigger] b[j]).wire == p.wire() && b[j].deadline.nanos
            == now.nanos + p.header().ttl_ms * 1_000_000;
    assert(c[j] == b[j]);
}

/// What leaves is what waited, with the next number in bytes 4 and 5; it is
/// noted as sent, with its time and size. Media that leaves for the first time
/// is kept as it left; media that leaves again is no longer waiting to.
pub proof fn lemma_leaves_noted(m: SessionModel, now: Instant)
    requires
        m.wf(),
        m.departed(now).1 is Some,
        m.pacer.poll(now).1->0.wire.len() <= usize::MAX,
    ensures
        ({
            let (after, out) = m.departed(now);
            let w = out->0;
            let o = m.pacer.poll(now).1->0;
            let h = packet::parse_header(o.wire)->Ok_0;
            let k = retransmission::key_of(h.stream_id, h.media_seq);
            &&& m.pacer.poll(now).1 is Some
            &&& w.len() == o.wire.len()
            &&& forall|i: int|
                0 <= i < w.len() && i != 4 && i != 5 ==> #[trigger] w[i] == o.wire[i]
            &&& wire::two(w, 4) == m.next_seq
            &&& after.next_seq == (m.next_seq + 1) % 0x1_0000
            &&& after.sent.history.contains(
                SentPacket {
                    transport_seq: m.next_seq,
                    send_time: now,
                    size_bytes: w.len() as usize,
                    audio: h.flags.audio,
                },
            )
            &&& h.packet_type != PacketType::Media ==> after.history == m.history
            &&& h.packet_type == PacketType::Media && !h.flags.retrans ==> {
                &&& after.history.entries.contains_key(k)
                &&& after.history.entries[k].wire == w
                &&& after.history.entries[k].deadline == o.deadline
                &&& after.history.entries[k].last_sent_at == now
                &&& !after.history.entries[k].pending
            }
            &&& h.packet_type == PacketType::Media && h.flags.retrans
                && m.history.entries.contains_key(k) ==> {
                &&& after.history.entries[k].last_sent_at == now
                &&& !after.history.entries[k].pending
                &&& after.history.entries[k].wire == m.history.entries[k].wire
            }
        }),
{
    let o = m.pacer.poll(now).1->0;
    session::lemma_departed(m, now);
    delivery::lemma_departure(m, now);
    send_queue::lemma_pop_headed(m.pacer.advanced(now).queue, now);
    packet::lemma_headed(o.wire);
    reveal(SessionModel::departed);
    let h = packet::parse_header(o.wire)->Ok_0;
    let w = feedback::stamped(o.wire, m.next_seq);
    feedback::lemma_stamped(o.wire, m.next_seq);
    delivery::lemma_numbered_alike(o.wire, m.next_seq);
    wire::lemma_header_read(w);
    let sent = SentPacket {
        transport_seq: m.next_seq,
        send_time: now,
        size_bytes: w.len() as usize,
        audio: h.flags.audio,
    };
    let a = feedback::AdapterModel { history: m.sent.history.push(sent), ..m.sent };
    let last = m.sent.history.len() as int;
    assert(a.history[last] == sent);
    reports::lemma_remembered(a, now, last);
    if h.packet_type == PacketType::Media {
        if h.flags.retrans {
            gaps::lemma_left(m.history, h.stream_id, h.media_seq, now);
        } else {
            gaps::lemma_kept(m.history, OutModel { wire: w, ..o }, now);
        }
    }
}

/// What is in flight: a datagram that leaves adds its size, and one that a
/// report covers no longer counts.
pub proof fn lemma_in_flight(history: Seq<SentPacket>, acked: Set<u16>, p: SentPacket)
    ensures
        feedback::unacked_bytes(Seq::empty(), acked) == 0,
        feedback::unacked_bytes(history.push(p), acked) == feedback::unacked_bytes(history, acked)
            + if acked.contains(p.transport_seq) {
            0
        } else {
            p.size_bytes as int
        },
{
    assert(history.push(p).drop_last() =~= history);
}

/// Media that arrives on a track, or is rebuilt, is missing no longer, and what
/// it skipped goes missing.
pub proof fn lemma_gap_noted(m: SessionModel, stream_id: u8, s: u16, datagram: Seq<u8>, now: Instant, x: u16)
    requires
        m.tracks.contains_key(stream_id as u64),
        m.tracks[stream_id as u64].nack.newest is Some,
        now.nanos + m.tracks[stream_id as u64].nack.config.nack_delay.nanos <= u64::MAX,
    ensures
        ({
            let before = m.tracks[stream_id as u64];
            let n = before.nack.newest->0;
            let after = m.absorb(stream_id, s, datagram, now).0.tracks[stream_id as u64];
            let left = Set::new(|k: u16| gaps::goes_missing(before.nack, n, s, k));
            let many = left.len() > before.nack.config.max_list_size;
            &&& after.nack.pending.contains_key(x) <==> !many && gaps::goes_missing(
                before.nack,
                n,
                s,
                x,
            )
            &&& after.keyframe_owed <==> before.keyframe_owed || many
        }),
{
    gaps::lemma_arrival(m.tracks[stream_id as u64].nack, s, now);
}

/// Pumping an audio track gives out all that waits, in its order.
pub proof fn lemma_pumped_dry(m: SessionModel, stream_id: u8, now: Instant)
    requires
        m.wf(),
        m.has(stream_id),
        m.tracks[stream_id as u64].kind == MediaKind::Audio,
    ensures
        ({
            let (end, out) = m.pump_track(stream_id, now);
            let waits = m.tracks[stream_id as u64].audio->0.packets;
            &&& end.tracks[stream_id as u64].audio->0.packets.len() == 0
            &&& out.len() == waits.len()
            &&& forall|i: int|
                0 <= i < out.len() ==> (#[trigger] out[i]).0 == stream_id && out[i].1.payload
                    == waits[i].payload && out[i].1.timestamp == waits[i].timestamp
        }),
    decreases m.held(stream_id),
{
    let k = stream_id as u64;
    session::lemma_poll_frame(m, stream_id, now);
    let waits = m.tracks[k].audio->0.packets;
    let (next, f) = m.poll_frame(stream_id, now);
    if waits.len() > 0 {
        assert(f is Some);
        let rest = next.tracks[k].audio->0.packets;
        assert(rest =~= waits.drop_first());
        lemma_pumped_dry(next, stream_id, now);
        let (end, out) = m.pump_track(stream_id, now);
        let more = next.pump_track(stream_id, now).1;
        assert(out == seq![(stream_id, f->0)] + more);
        assert forall|i: int| 0 <= i < out.len() implies (#[trigger] out[i]).0 == stream_id
            && out[i].1.payload == waits[i].payload && out[i].1.timestamp
            == waits[i].timestamp by {
            if i > 0 {
                assert(out[i] == more[i - 1]);
                assert(rest[i - 1] == waits[i]);
            }
        }
    }
}

} // verus!
