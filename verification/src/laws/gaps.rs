//! Which media is missing, when it is asked for, and what is kept to be sent
//! again.

use crate::history::{EntryModel, HistoryModel};
use crate::laws::playout;
use crate::laws::retransmission;
use crate::nack::{NackInfo, NackModel};
use crate::packet;
use crate::packet::PacketModel;
use crate::send_queue::OutModel;
use crate::time::Instant;
use vstd::prelude::*;

verus! {

/// How far `a` is past `b` on the circle.
pub open spec fn past(a: u16, b: u16) -> int {
    (a - b) % 0x1_0000
}

/// Whether `k` is missing once `s` arrived, when `n` was the newest before: it
/// was missing and is not `s`, or it lies between the two.
pub open spec fn goes_missing(m: NackModel, n: u16, s: u16, k: u16) -> bool {
    (m.pending.contains_key(k) && k != s) || (0 < past(s, n) < 0x8000 && 0 < past(k, n) < past(
        s,
        n,
    ))
}

/// What an arrival leaves missing: what was, without it, and what it skipped.
/// A number that goes missing is asked for after the delay. Where more than the
/// list holds goes missing, the list is given up and a keyframe asked for.
pub proof fn lemma_arrival(m: NackModel, s: u16, now: Instant)
    requires
        m.newest is Some,
        now.nanos + m.config.nack_delay.nanos <= u64::MAX,
    ensures
        ({
            let n = m.newest->0;
            let (after, r) = m.receive(s, now);
            let left = Set::new(|k: u16| goes_missing(m, n, s, k));
            &&& r.ask_keyframe <==> left.len() > m.config.max_list_size
            &&& r.ask_keyframe ==> forall|k: u16| !#[trigger] after.pending.contains_key(k)
            &&& !r.ask_keyframe ==> forall|k: u16| #[trigger]
                after.pending.contains_key(k) <==> goes_missing(m, n, s, k)
            &&& forall|k: u16| #[trigger]
                after.pending.contains_key(k) ==> after.pending[k] == if m.pending.contains_key(
                    k,
                ) {
                    m.pending[k]
                } else {
                    NackInfo {
                        created_at: now,
                        send_at: Instant {
                            nanos: (now.nanos + m.config.nack_delay.nanos) as u64,
                        },
                        retries: 0,
                    }
                }
            &&& r.nacks_cleared == if m.pending.contains_key(s) {
                1int
            } else {
                0
            }
            &&& after.newest == if 0 < past(s, n) < 0x8000 {
                Some(s)
            } else {
                Some(n)
            }
            &&& after.rtt == m.rtt
            &&& after.config == m.config
        }),
{
    let n = m.newest->0;
    let a = m.arrived(s, now);
    let left = Set::new(|k: u16| goes_missing(m, n, s, k));
    assert(a.pending.dom() =~= left);
}

/// The first arrival skips nothing.
pub proof fn lemma_first_arrival(m: NackModel, s: u16, now: Instant)
    requires
        m.newest is None,
        m.pending.dom() == Set::<u16>::empty(),
    ensures
        m.receive(s, now).0.newest == Some(s),
        forall|k: u16| !#[trigger] m.receive(s, now).0.pending.contains_key(k),
        !m.receive(s, now).1.ask_keyframe,
{
    let a = m.arrived(s, now);
    assert(a.pending.dom() =~= Set::<u16>::empty());
    assert(a.pending.len() == 0);
}

/// Whether a missing number is of no use any more: it is too far behind the
/// newest, or what is asked for now would come too late.
pub open spec fn useless(m: NackModel, s: u16, now: Instant) -> bool {
    let i = m.pending[s];
    ||| m.newest is Some && past(m.newest->0, s) > m.config.max_age_seqs
    ||| playout::elapsed(now.nanos, i.created_at.nanos) + 2 * m.rtt.nanos
        >= m.config.packet_lifetime.nanos
}

/// What a scan does: it asks for the missing numbers whose turn has come, and
/// next a round trip later; it forgets those that are of no use and those that
/// were asked for too often, and the latter ask for a keyframe. The others are
/// left as they are.
pub proof fn lemma_scan(m: NackModel, now: Instant, s: u16)
    requires
        2 * m.rtt.nanos <= u64::MAX,
        now.nanos + 2 * m.rtt.nanos <= u64::MAX,
    ensures
        ({
            let known = m.pending.contains_key(s);
            let i = m.pending[s];
            let live = known && !useless(m, s, now);
            let often = i.retries >= m.config.max_retries;
            let turn = now.nanos >= i.send_at.nanos;
            let after = m.scanned(now);
            &&& m.asked(now).contains(s) <==> live && !often && turn
            &&& after.pending.contains_key(s) <==> live && !often
            &&& live && !often && !turn ==> after.pending[s] == i
            &&& live && !often && turn ==> after.pending[s].created_at == i.created_at
                && after.pending[s].send_at.nanos == now.nanos + m.rtt.nanos && (i.retries
                < u32::MAX ==> after.pending[s].retries == i.retries + 1)
            &&& live && often ==> m.gives_up(now)
            &&& after.newest == m.newest
        }),
{
}

/// A scan gives something up just where a number that is of use was asked for
/// too often.
pub proof fn lemma_gives_up(m: NackModel, now: Instant)
    requires
        now.nanos + 2 * m.rtt.nanos <= u64::MAX,
    ensures
        m.gives_up(now) <==> exists|s: u16| #[trigger]
            m.pending.contains_key(s) && !useless(m, s, now) && m.pending[s].retries
                >= m.config.max_retries,
{
    if m.gives_up(now) {
        let s = choose|s: u16| #[trigger] m.pending.contains_key(s) && m.fate(s, now) is GiveUp;
        assert(m.pending.contains_key(s) && !useless(m, s, now));
    }
    if exists|s: u16| #[trigger]
        m.pending.contains_key(s) && !useless(m, s, now) && m.pending[s].retries
            >= m.config.max_retries {
        let s = choose|s: u16| #[trigger]
            m.pending.contains_key(s) && !useless(m, s, now) && m.pending[s].retries
                >= m.config.max_retries;
        assert(m.fate(s, now) is GiveUp);
    }
}

/// Media that leaves is kept, as it left, until its deadline; a retransmission
/// and anything but media are not. Where there is room nothing goes for it,
/// else the oldest does.
pub proof fn lemma_kept(h: HistoryModel, p: OutModel, now: Instant)
    requires
        h.wf(),
        PacketModel::parse(p.wire) is Ok,
    ensures
        ({
            let x = PacketModel::parse(p.wire)->Ok_0;
            let g = x.header();
            let key = retransmission::key_of(g.stream_id, g.media_seq);
            let after = h.put_outgoing(p, now);
            &&& !(x is Media) || g.flags.retrans ==> after == h
            &&& x is Media && !g.flags.retrans ==> {
                &&& after.entries.contains_key(key)
                &&& after.entries[key] == EntryModel {
                    wire: p.wire,
                    deadline: p.deadline,
                    last_sent_at: now,
                    pending: false,
                    retransmit_count: 0,
                }
                &&& forall|k: u64|
                    k != key && h.entries.contains_key(k) && (h.entries.contains_key(key)
                        || h.order.len() < h.capacity || k != h.order[0])
                        ==> #[trigger] after.entries.contains_key(k) && after.entries[k]
                        == h.entries[k]
                &&& forall|k: u64| #[trigger]
                    after.entries.contains_key(k) ==> k == key || h.entries.contains_key(k)
                &&& !h.entries.contains_key(key) && h.order.len() >= h.capacity && h.capacity > 0
                    && h.order[0] != key ==> !after.entries.contains_key(h.order[0])
            }
        }),
{
    packet::lemma_parsed_is_valid(p.wire);
}

/// What is past its deadline is forgotten, and nothing else is.
pub proof fn lemma_forgotten(h: HistoryModel, now: Instant)
    ensures
        ({
            let after = h.cull(now);
            &&& forall|k: u64| #[trigger]
                after.entries.contains_key(k) <==> h.entries.contains_key(k) && now.nanos
                    < h.entries[k].deadline.nanos
            &&& forall|k: u64| #[trigger]
                after.entries.contains_key(k) ==> after.entries[k] == h.entries[k]
            &&& after.limiter == h.limiter
        }),
{
}

/// A retransmission that left is no longer queued, and left then; one that was
/// given up is no longer queued. The datagram itself stays as it is.
pub proof fn lemma_left(h: HistoryModel, stream_id: u8, media_seq: u16, now: Instant)
    ensures
        ({
            let key = retransmission::key_of(stream_id, media_seq);
            let sent = h.mark_sent(stream_id, media_seq, now);
            let given = h.clear_pending(stream_id, media_seq);
            &&& !h.entries.contains_key(key) ==> sent == h && given == h
            &&& h.entries.contains_key(key) ==> {
                &&& sent.entries.contains_key(key) && given.entries.contains_key(key)
                &&& !sent.entries[key].pending && !given.entries[key].pending
                &&& sent.entries[key].last_sent_at == now
                &&& given.entries[key].last_sent_at == h.entries[key].last_sent_at
                &&& sent.entries[key].wire == h.entries[key].wire
                &&& sent.entries[key].deadline == h.entries[key].deadline
                &&& given.entries[key].wire == h.entries[key].wire
                &&& given.entries[key].deadline == h.entries[key].deadline
            }
            &&& forall|k: u64|
                k != key && h.entries.contains_key(k) ==> #[trigger] sent.entries[k]
                    == h.entries[k] && sent.entries.contains_key(k)
            &&& forall|k: u64|
                k != key && h.entries.contains_key(k) ==> #[trigger] given.entries[k]
                    == h.entries[k] && given.entries.contains_key(k)
        }),
{
}

} // verus!
