//! Requests for missing media, and what is sent again.

use crate::history;
use crate::history::{
    EntryModel, Grants, HistoryModel, LimiterModel, RetransmitModel,
};
use crate::laws::playout;
use crate::packet;
use crate::packet::{DecodeError, Flags, Header, PacketModel};
use crate::send_queue::{OutModel, Priority};
use crate::seqs;
use crate::session;
use crate::session::SessionModel;
use crate::time::{Duration, Instant};
use vstd::prelude::*;

verus! {

/// The bytes of the grants that are younger than `window` at `now`.
pub open spec fn spent(grants: Grants, window: Duration, now: Instant) -> int
    decreases grants.len(),
{
    if grants.len() == 0 {
        0
    } else {
        let (t, n) = grants.last();
        spent(grants.drop_last(), window, now) + if playout::elapsed(now.nanos, t.nanos)
            < window.nanos {
            n as int
        } else {
            0
        }
    }
}

proof fn lemma_spent(grants: Grants, window: Duration, now: Instant)
    ensures
        history::granted_bytes(history::recent(grants, window, now)) == spent(grants, window, now),
    decreases grants.len(),
{
    if grants.len() > 0 {
        lemma_spent(grants.drop_last(), window, now);
        let front = history::recent(grants.drop_last(), window, now);
        assert(front.push(grants.last()).drop_last() =~= front);
    }
}

proof fn lemma_spent_recent(grants: Grants, window: Duration, now: Instant)
    ensures
        spent(history::recent(grants, window, now), window, now) == spent(grants, window, now),
    decreases grants.len(),
{
    if grants.len() > 0 {
        lemma_spent_recent(grants.drop_last(), window, now);
        let front = history::recent(grants.drop_last(), window, now);
        assert(front.push(grants.last()).drop_last() =~= front);
    }
}

/// Bytes are granted just when, with what was granted within the window, they
/// are within the budget; from then on they count, and what is refused does
/// not.
pub proof fn lemma_grant(l: LimiterModel, n: u64, now: Instant)
    requires
        l.window.nanos > 0,
    ensures
        ({
            let (after, ok) = l.consume(n, now);
            let used = spent(l.grants, l.window, now);
            &&& ok <==> used + n <= l.budget
            &&& spent(after.grants, l.window, now) == used + if ok {
                n as int
            } else {
                0
            }
            &&& after.window == l.window
            &&& after.budget == l.budget
        }),
{
    lemma_spent(l.grants, l.window, now);
    lemma_spent_recent(l.grants, l.window, now);
    let r = history::recent(l.grants, l.window, now);
    assert(r.push((now, n)).drop_last() =~= r);
}

/// Over any run of calls, whatever window one looks at, no more than the budget
/// was granted in it; and a call is refused only where it would be more.
pub proof fn lemma_budget(
    window: Duration,
    budget: u64,
    calls: Seq<(Instant, u64)>,
    n: u64,
    now: Instant,
)
    requires
        window.nanos >= 1_000_000,
        history::timely(calls, now),
    ensures
        ({
            let l = LimiterModel::fresh(window, budget);
            let used = spent(history::granted_calls(l, calls), window, now);
            &&& 0 <= used <= budget
            &&& history::after_calls(l, calls).consume(n, now).1 <==> used + n <= budget
        }),
{
    let l = LimiterModel::fresh(window, budget);
    assert(l.window == window);
    history::lemma_budget_kept(window, budget, calls, now);
    let g = history::granted_calls(l, calls);
    lemma_spent(g, window, now);
    lemma_settings(l, calls);
    let s = history::after_calls(l, calls);
    lemma_spent(s.grants, window, now);
}

proof fn lemma_settings(l: LimiterModel, calls: Seq<(Instant, u64)>)
    ensures
        history::after_calls(l, calls).window == l.window,
        history::after_calls(l, calls).budget == l.budget,
    decreases calls.len(),
{
    if calls.len() > 0 {
        lemma_settings(l, calls.drop_last());
    }
}

/// The bytes that a rate allows in a window: its bits per second, over the
/// window's whole milliseconds, in bytes; one at least.
pub proof fn lemma_budget_of_rate(target_bps: u64, window: Duration)
    requires
        target_bps * (window.nanos / 1_000_000) <= u64::MAX,
    ensures
        ({
            let n = history::window_budget(target_bps, window);
            let bits = target_bps * (window.nanos / 1_000_000);
            &&& n >= 1
            &&& bits >= 8_000 ==> n * 8_000 <= bits < (n + 1) * 8_000
            &&& bits < 8_000 ==> n == 1
        }),
{
}

/// The key under which a datagram of a stream is kept.
pub open spec fn key_of(stream_id: u8, media_seq: u16) -> u64 {
    (stream_id * 0x1_0000_0000 + media_seq) as u64
}

/// Whether a datagram that is kept may be sent again: a millisecond of its time
/// is left at least, it is not queued again already, and it left a round trip
/// ago at least.
pub open spec fn may_resend(h: HistoryModel, key: u64, now: Instant) -> bool {
    let e = h.entries[key];
    &&& h.entries.contains_key(key)
    &&& now.nanos + 1_000_000 <= e.deadline.nanos
    &&& !e.pending
    &&& playout::elapsed(now.nanos, e.last_sent_at.nanos) >= h.rtt.nanos
}

/// Whether the budget has room for so many bytes.
pub open spec fn has_room(h: HistoryModel, bytes: int, now: Instant) -> bool {
    h.limiter matches Some(l) ==> spent(l.grants, l.window, now) + bytes <= l.budget
}

/// Whether `p` is the datagram `first` again: the same header but for the mark
/// of a retransmission, the lifetime that is left and the transport number to
/// come, and the same payload.
#[verifier::opaque]
pub open spec fn is_again(p: OutModel, first: Seq<u8>, deadline: Instant, now: Instant) -> bool {
    let ms = (deadline.nanos - now.nanos) / 1_000_000;
    &&& packet::parse_header(first) is Ok
    &&& PacketModel::parse(p.wire) == Ok::<PacketModel, DecodeError>(
        PacketModel::Media {
            header: Header {
                flags: Flags { retrans: true, ..packet::parse_header(first)->Ok_0.flags },
                transport_seq: 0,
                ttl_ms: (if ms > 65_535 {
                    65_535
                } else {
                    ms
                }) as u16,
                ..packet::parse_header(first)->Ok_0
            },
            payload: first.skip(20),
        },
    )
    &&& p.wire.len() == first.len()
    &&& p.deadline == deadline
    &&& p.priority == Priority::Retransmission
}

/// What a request comes to. It is answered just where the datagram may be sent
/// again and the budget has room, and then counts as queued; each refusal has
/// its one reason. Nothing else changes but the budget.
pub open spec fn answers(
    h: HistoryModel,
    stream_id: u8,
    media_seq: u16,
    now: Instant,
    after: HistoryModel,
    r: RetransmitModel,
) -> bool {
    let key = key_of(stream_id, media_seq);
    let e = h.entries[key];
    let known = h.entries.contains_key(key);
    let alive = known && now.nanos < e.deadline.nanos;
    let ready = may_resend(h, key, now);
    &&& r is NotFound <==> !known
    &&& r is AlreadyPending <==> alive && e.pending
    &&& r is TooSoon <==> alive && !e.pending && playout::elapsed(
        now.nanos,
        e.last_sent_at.nanos,
    ) < h.rtt.nanos
    &&& r is Ready <==> ready && has_room(h, e.wire.len() as int, now)
    &&& r is RateLimited <==> ready && !has_room(h, e.wire.len() as int, now)
    &&& after.entries.dom() == h.entries.dom()
    &&& forall|k: u64|
        k != key && h.entries.contains_key(k) ==> #[trigger] after.entries[k] == h.entries[k]
    &&& after.rtt == h.rtt
    &&& after.order == h.order
    &&& known ==> after.entries[key] == EntryModel { pending: e.pending || r is Ready, ..e }
    &&& r matches RetransmitModel::Ready(p) ==> p.stream_id == stream_id && p.enqueued_at == now
    &&& match (h.limiter, after.limiter) {
        (Some(a), Some(b)) => {
            &&& b.window == a.window
            &&& b.budget == a.budget
            &&& spent(b.grants, b.window, now) == spent(a.grants, a.window, now) + if r is Ready {
                e.wire.len() as int
            } else {
                0
            }
        },
        (None, None) => true,
        _ => false,
    }
}

proof fn lemma_answers_one(h: HistoryModel, stream_id: u8, media_seq: u16, now: Instant)
    requires
        h.limiter matches Some(l) ==> l.window.nanos > 0,
        h.entries.contains_key(key_of(stream_id, media_seq)) ==> h.entries[key_of(
            stream_id,
            media_seq,
        )].wire.len() <= u64::MAX,
        ({
            let e = h.entries[key_of(stream_id, media_seq)];
            history::retransmitted(e.wire, history::remaining_ms(e.deadline, now)).len()
                == e.wire.len()
        }) || !h.entries.contains_key(key_of(stream_id, media_seq)),
    ensures
        ({
            let (after, r) = h.request(stream_id, media_seq, now);
            answers(h, stream_id, media_seq, now, after, r)
        }),
{
    let key = key_of(stream_id, media_seq);
    let (after, r) = h.request(stream_id, media_seq, now);
    let e = h.entries[key];
    assert(after.entries.dom() =~= h.entries.dom());
    assert(now.nanos < e.deadline.nanos ==> (history::remaining_ms(e.deadline, now) > 0
        <==> now.nanos + 1_000_000 <= e.deadline.nanos));
    if let Some(l) = h.limiter {
        lemma_grant(l, crate::time::capped(e.wire.len() as int), now);
        lemma_spent(l.grants, l.window, now);
        lemma_spent_recent(l.grants, l.window, now);
    }
}

/// Whether the length of every datagram that is kept can be counted.
pub open spec fn countable(h: HistoryModel) -> bool {
    forall|k: u64| #[trigger]
        h.entries.contains_key(k) ==> h.entries[k].wire.len() <= u64::MAX
}

/// A request for a datagram that is kept is answered with it just where it may
/// be sent again and the budget has room.
pub proof fn lemma_request(h: HistoryModel, stream_id: u8, media_seq: u16, now: Instant)
    requires
        h.all_media(),
        h.limiter matches Some(l) ==> l.window.nanos > 0,
        h.entries.contains_key(key_of(stream_id, media_seq)) ==> h.entries[key_of(
            stream_id,
            media_seq,
        )].wire.len() <= u64::MAX,
    ensures
        ({
            let (after, r) = h.request(stream_id, media_seq, now);
            let e = h.entries[key_of(stream_id, media_seq)];
            &&& answers(h, stream_id, media_seq, now, after, r)
            &&& r matches RetransmitModel::Ready(p) ==> is_again(p, e.wire, e.deadline, now)
        }),
{
    let key = key_of(stream_id, media_seq);
    let e = h.entries[key];
    if h.entries.contains_key(key) {
        lemma_same_length(h, key, history::remaining_ms(e.deadline, now));
    }
    lemma_answers_one(h, stream_id, media_seq, now);
    if h.request(stream_id, media_seq, now).1 is Ready {
        lemma_again(h, stream_id, media_seq, now);
    }
}

proof fn lemma_same_length(h: HistoryModel, key: u64, ttl: u16)
    requires
        h.all_media(),
        h.entries.contains_key(key),
    ensures
        history::retransmitted(h.entries[key].wire, ttl).len() == h.entries[key].wire.len(),
{
    let w = h.entries[key].wire;
    assert(history::is_media(w));
    packet::lemma_parsed_is_valid(w);
    packet::lemma_header_len(history::retransmit_header(packet::parse_header(w)->Ok_0, ttl));
}

proof fn lemma_again(h: HistoryModel, stream_id: u8, media_seq: u16, now: Instant)
    requires
        h.all_media(),
        h.request(stream_id, media_seq, now).1 is Ready,
    ensures
        ({
            let e = h.entries[key_of(stream_id, media_seq)];
            is_again(
                h.request(stream_id, media_seq, now).1->Ready_0,
                e.wire,
                e.deadline,
                now,
            )
        }),
{
    let key = key_of(stream_id, media_seq);
    let e = h.entries[key];
    let p = h.request(stream_id, media_seq, now).1->Ready_0;
    let ttl = history::remaining_ms(e.deadline, now);
    history::lemma_retransmission(h, stream_id, media_seq, now);
    lemma_same_length(h, key, ttl);
    assert(history::is_media(e.wire));
    packet::lemma_parsed_is_valid(e.wire);
    assert(p.wire == history::retransmitted(e.wire, ttl));
    reveal(is_again);
}

/// Whether a request for retransmission lists a number: it is the base, or its
/// bit is set, the first bit standing for the number behind the base.
pub open spec fn listed(base_seq: u16, blp: u16, s: u16) -> bool {
    s == base_seq || exists|i: u16|
        i < 16 && #[trigger] (blp >> i) & 1u16 == 1u16 && s == (base_seq + 1 + i) % 0x1_0000
}

proof fn lemma_listed(base: u16, blp: u16, n: nat)
    requires
        n <= 16,
    ensures
        ({
            let l = seqs::missing_up_to(base, blp, n);
            &&& l.len() <= n + 1
            &&& l.no_duplicates()
            &&& forall|s: u16| #[trigger]
                l.contains(s) <==> s == base || exists|i: u16|
                    i < n && #[trigger] (blp >> i) & 1u16 == 1u16 && s == (base + 1 + i) % 0x1_0000
        }),
    decreases n,
{
    let l = seqs::missing_up_to(base, blp, n);
    if n == 0 {
        assert(l[0] == base);
        assert forall|s: u16| #[trigger] l.contains(s) <==> s == base || exists|i: u16|
            i < n && #[trigger] (blp >> i) & 1u16 == 1u16 && s == (base + 1 + i) % 0x1_0000 by {}
    } else {
        let m = (n - 1) as nat;
        let k = m as u16;
        lemma_listed(base, blp, m);
        let front = seqs::missing_up_to(base, blp, m);
        let x = ((base + n) % 0x1_0000) as u16;
        assert forall|s: u16| #[trigger] l.contains(s) <==> s == base || exists|i: u16|
            i < n && #[trigger] (blp >> i) & 1u16 == 1u16 && s == (base + 1 + i) % 0x1_0000 by {
            if l.contains(s) {
                let j = choose|j: int| 0 <= j < l.len() && l[j] == s;
                if j < front.len() {
                    assert(front[j] == s);
                    assert(front.contains(s));
                } else {
                    assert((blp >> k) & 1u16 == 1u16);
                    assert(s == (base + 1 + k) % 0x1_0000);
                }
            }
            if front.contains(s) {
                let j = choose|j: int| 0 <= j < front.len() && front[j] == s;
                assert(l[j] == s);
            }
            if s == base {
                assert(front.contains(s));
            }
            if exists|i: u16|
                i < n && #[trigger] (blp >> i) & 1u16 == 1u16 && s == (base + 1 + i) % 0x1_0000 {
                let i = choose|i: u16|
                    i < n && #[trigger] (blp >> i) & 1u16 == 1u16 && s == (base + 1 + i)
                        % 0x1_0000;
                if i < m {
                    assert(front.contains(s));
                } else {
                    assert(i == k);
                    assert(l[l.len() - 1] == s);
                }
            }
        }
        if (blp >> k) & 1u16 == 1u16 {
            assert(!front.contains(x)) by {
                if front.contains(x) && x != base {
                    let i = choose|i: u16|
                        i < m && #[trigger] (blp >> i) & 1u16 == 1u16 && x == (base + 1 + i)
                            % 0x1_0000;
                    assert(false);
                }
            }
            assert(l == front.push(x));
        }
    }
}

/// Whether the retransmissions in lane `q` hold the datagram of `key` again.
pub open spec fn queued_again(q: Seq<OutModel>, h: HistoryModel, key: u64, now: Instant) -> bool {
    exists|j: int|
        0 <= j < q.len() && is_again(
            #[trigger] q[j],
            h.entries[key].wire,
            h.entries[key].deadline,
            now,
        )
}

#[verifier::opaque]
spec fn sound(m: SessionModel) -> bool {
    m.sendable()
}

/// One number of a list: its datagram goes to the end of the lane of
/// retransmissions, or nothing is queued.
proof fn lemma_answer_step(b: SessionModel, a: SessionModel, stream_id: u8, s: u16, now: Instant)
    requires
        sound(b),
        b.history.limiter matches Some(l) ==> l.window.nanos > 0,
        b.history.entries.contains_key(key_of(stream_id, s)) ==> b.history.entries[key_of(
            stream_id,
            s,
        )].wire.len() <= u64::MAX,
        ({
            let (history, r) = b.history.request(stream_id, s, now);
            let after = SessionModel { history, ..b };
            a == match r {
                RetransmitModel::Ready(out) => after.with_queue(after.pacer.queue.enqueue(out)),
                _ => after,
            }
        }),
    ensures
        ({
            let r = b.history.request(stream_id, s, now).1;
            let e = b.history.entries[key_of(stream_id, s)];
            let old = b.pacer.queue.lanes;
            let new = a.pacer.queue.lanes;
            &&& answers(b.history, stream_id, s, now, a.history, r)
            &&& r matches RetransmitModel::Ready(p) ==> is_again(p, e.wire, e.deadline, now)
                && new.len() == old.len() && new[1] == old[1].push(p) && forall|i: int|
                0 <= i < old.len() && i != 1 ==> #[trigger] new[i] == old[i]
            &&& !(r is Ready) ==> new == old
        }),
{
    reveal(sound);
    lemma_request(b.history, stream_id, s, now);
    if b.history.request(stream_id, s, now).1 is Ready {
        lemma_again_lane(b, stream_id, s, now);
    }
}

proof fn lemma_again_lane(b: SessionModel, stream_id: u8, s: u16, now: Instant)
    requires
        b.pacer.queue.wf(),
        b.history.request(stream_id, s, now).1 is Ready,
    ensures
        ({
            let p = b.history.request(stream_id, s, now).1->Ready_0;
            b.pacer.queue.enqueue(p).lanes == b.pacer.queue.lanes.update(
                1,
                b.pacer.queue.lanes[1].push(p),
            ) && b.pacer.queue.lanes.len() == 5
        }),
{
}

/// Whether the budget after answers is the one before, with `bytes` more used
/// at most.
spec fn budget_grew(h: HistoryModel, g: HistoryModel, bytes: int, now: Instant) -> bool {
    match (h.limiter, g.limiter) {
        (Some(l), Some(b)) => {
            &&& b.window == l.window
            &&& b.budget == l.budget
            &&& spent(b.grants, b.window, now) <= spent(l.grants, l.window, now) + bytes
        },
        (None, None) => true,
        _ => false,
    }
}

/// Whether `x` is a listed datagram that may be sent again.
spec fn from_list(
    x: OutModel,
    h: HistoryModel,
    stream_id: u8,
    list: Seq<u16>,
    now: Instant,
) -> bool {
    exists|i: int|
        0 <= i < list.len() && may_resend(h, key_of(stream_id, #[trigger] list[i]), now)
            && is_again(
            x,
            h.entries[key_of(stream_id, list[i])].wire,
            h.entries[key_of(stream_id, list[i])].deadline,
            now,
        )
}

/// Whether a lane holds, from `from` on, only listed datagrams that may be sent
/// again.
spec fn only_listed(
    lane: Seq<OutModel>,
    from: int,
    h: HistoryModel,
    stream_id: u8,
    list: Seq<u16>,
    now: Instant,
) -> bool {
    forall|j: int|
        from <= j < lane.len() ==> from_list(#[trigger] lane[j], h, stream_id, list, now)
}

proof fn lemma_from_longer(
    x: OutModel,
    h: HistoryModel,
    stream_id: u8,
    list: Seq<u16>,
    now: Instant,
)
    requires
        list.len() > 0,
        from_list(x, h, stream_id, list.drop_last(), now),
    ensures
        from_list(x, h, stream_id, list, now),
{
    let front = list.drop_last();
    let i = choose|i: int|
        0 <= i < front.len() && may_resend(h, key_of(stream_id, #[trigger] front[i]), now)
            && is_again(
            x,
            h.entries[key_of(stream_id, front[i])].wire,
            h.entries[key_of(stream_id, front[i])].deadline,
            now,
        );
    assert(list[i] == front[i]);
}

/// Whether a lane holds every listed datagram that may be sent again.
spec fn all_listed(
    lane: Seq<OutModel>,
    h: HistoryModel,
    stream_id: u8,
    list: Seq<u16>,
    now: Instant,
) -> bool {
    forall|i: int|
        0 <= i < list.len() && may_resend(h, key_of(stream_id, #[trigger] list[i]), now)
            ==> queued_again(lane, h, key_of(stream_id, list[i]), now)
}

proof fn lemma_lane_grows(
    lane: Seq<OutModel>,
    out: OutModel,
    from: int,
    h: HistoryModel,
    stream_id: u8,
    list: Seq<u16>,
    now: Instant,
)
    requires
        list.len() > 0,
        0 <= from <= lane.len(),
        only_listed(lane, from, h, stream_id, list.drop_last(), now),
        all_listed(lane, h, stream_id, list.drop_last(), now),
        may_resend(h, key_of(stream_id, list.last()), now),
        is_again(
            out,
            h.entries[key_of(stream_id, list.last())].wire,
            h.entries[key_of(stream_id, list.last())].deadline,
            now,
        ),
    ensures
        only_listed(lane.push(out), from, h, stream_id, list, now),
        all_listed(lane.push(out), h, stream_id, list, now),
{
    let front = list.drop_last();
    let new = lane.push(out);
    assert forall|j: int| from <= j < new.len() implies from_list(
        #[trigger] new[j],
        h,
        stream_id,
        list,
        now,
    ) by {
        if j < lane.len() {
            assert(new[j] == lane[j]);
            lemma_from_longer(lane[j], h, stream_id, list, now);
        } else {
            assert(list[list.len() - 1] == list.last());
        }
    }
    assert forall|i: int|
        0 <= i < list.len() && may_resend(
            h,
            key_of(stream_id, #[trigger] list[i]),
            now,
        ) implies queued_again(new, h, key_of(stream_id, list[i]), now) by {
        if i < front.len() {
            assert(front[i] == list[i]);
            assert(queued_again(lane, h, key_of(stream_id, front[i]), now));
            let j = choose|j: int|
                0 <= j < lane.len() && is_again(
                    #[trigger] lane[j],
                    h.entries[key_of(stream_id, list[i])].wire,
                    h.entries[key_of(stream_id, list[i])].deadline,
                    now,
                );
            assert(new[j] == lane[j]);
        } else {
            assert(new[lane.len() as int] == out);
        }
    }
}

proof fn lemma_lane_stays(
    lane: Seq<OutModel>,
    from: int,
    h: HistoryModel,
    stream_id: u8,
    list: Seq<u16>,
    now: Instant,
)
    requires
        list.len() > 0,
        only_listed(lane, from, h, stream_id, list.drop_last(), now),
        all_listed(lane, h, stream_id, list.drop_last(), now),
        !may_resend(h, key_of(stream_id, list.last()), now),
    ensures
        only_listed(lane, from, h, stream_id, list, now),
        all_listed(lane, h, stream_id, list, now),
{
    let front = list.drop_last();
    assert forall|j: int| from <= j < lane.len() implies from_list(
        #[trigger] lane[j],
        h,
        stream_id,
        list,
        now,
    ) by {
        lemma_from_longer(lane[j], h, stream_id, list, now);
    }
    assert forall|i: int|
        0 <= i < list.len() && may_resend(
            h,
            key_of(stream_id, #[trigger] list[i]),
            now,
        ) implies queued_again(lane, h, key_of(stream_id, list[i]), now) by {
        if i < front.len() {
            assert(front[i] == list[i]);
        }
    }
}

/// What answering a list leaves: everything on it that may be sent again is
/// queued, in the lane of retransmissions and nowhere else.
proof fn lemma_answers(m: SessionModel, stream_id: u8, list: Seq<u16>, now: Instant, longest: int)
    requires
        sound(m),
        countable(m.history),
        list.no_duplicates(),
        m.history.limiter matches Some(l) ==> l.window.nanos > 0,
        longest >= 0,
        forall|i: int|
            0 <= i < list.len() && may_resend(
                m.history,
                key_of(stream_id, #[trigger] list[i]),
                now,
            ) ==> m.history.entries[key_of(stream_id, list[i])].wire.len() <= longest,
        has_room(m.history, list.len() * longest, now),
    ensures
        ({
            let a = m.answered(stream_id, list, now);
            let old = m.pacer.queue.lanes;
            let new = a.pacer.queue.lanes;
            &&& sound(a)
            &&& new.len() == old.len()
            &&& forall|i: int| 0 <= i < old.len() && i != 1 ==> #[trigger] new[i] == old[i]
            &&& old[1].len() <= new[1].len()
            &&& forall|j: int| 0 <= j < old[1].len() ==> #[trigger] new[1][j] == old[1][j]
            &&& only_listed(new[1], old[1].len() as int, m.history, stream_id, list, now)
            &&& all_listed(new[1], m.history, stream_id, list, now)
            &&& a.history.rtt == m.history.rtt
            &&& a.history.entries.dom() == m.history.entries.dom()
            &&& forall|k: u64|
                m.history.entries.contains_key(k) && (forall|i: int|
                    0 <= i < list.len() ==> k != key_of(stream_id, #[trigger] list[i]))
                    ==> #[trigger] a.history.entries[k] == m.history.entries[k]
            &&& budget_grew(m.history, a.history, list.len() * longest, now)
        }),
    decreases list.len(),
{
    let a = m.answered(stream_id, list, now);
    if list.len() == 0 {
        assert(list.len() * longest == 0) by (nonlinear_arith)
            requires
                list.len() == 0,
        ;
    } else {
        let front = list.drop_last();
        let s = list.last();
        let key = key_of(stream_id, s);
        assert(front.len() * longest + longest == list.len() * longest) by (nonlinear_arith)
            requires
                front.len() + 1 == list.len(),
        ;
        assert forall|i: int|
            0 <= i < front.len() && may_resend(
                m.history,
                key_of(stream_id, #[trigger] front[i]),
                now,
            ) implies m.history.entries[key_of(stream_id, front[i])].wire.len() <= longest by {
            assert(front[i] == list[i]);
        }
        lemma_answers(m, stream_id, front, now, longest);
        let b = m.answered(stream_id, front, now);
        assert forall|i: int| 0 <= i < front.len() implies key != key_of(
            stream_id,
            #[trigger] front[i],
        ) by {
            assert(front[i] == list[i]);
            assert(list[list.len() - 1] == s);
        }
        if b.history.entries.contains_key(key) {
            assert(b.history.entries.dom().contains(key));
            assert(m.history.entries.contains_key(key));
            assert(b.history.entries[key] == m.history.entries[key]);
        } else {
            assert(!m.history.entries.dom().contains(key));
        }
        lemma_answer_step(b, a, stream_id, s, now);
        assert(sound(a)) by {
            reveal(sound);
            session::lemma_answered(m, stream_id, list, now);
        }
        assert(may_resend(b.history, key, now) == may_resend(m.history, key, now));
        let r = b.history.request(stream_id, s, now).1;
        let from = m.pacer.queue.lanes[1].len() as int;
        let lane = b.pacer.queue.lanes[1];
        assert(list[list.len() - 1] == s);
        if let RetransmitModel::Ready(out) = r {
            lemma_lane_grows(lane, out, from, m.history, stream_id, list, now);
        } else {
            if may_resend(m.history, key, now) {
                assert(m.history.entries[key].wire.len() <= longest);
                assert(has_room(b.history, m.history.entries[key].wire.len() as int, now));
                assert(false);
            }
            lemma_lane_stays(lane, from, m.history, stream_id, list, now);
        }
        assert forall|k: u64|
            m.history.entries.contains_key(k) && (forall|i: int|
                0 <= i < list.len() ==> k != key_of(
                    stream_id,
                    #[trigger] list[i],
                )) implies #[trigger] a.history.entries[k] == m.history.entries[k] by {
            assert forall|i: int| 0 <= i < front.len() implies k != key_of(
                stream_id,
                #[trigger] front[i],
            ) by {
                assert(front[i] == list[i]);
            }
            assert(k != key);
            assert(b.history.entries.dom().contains(k));
        }
    }
}

/// Whether a datagram asks for media of a stream again, and its time is not
/// over.
#[verifier::opaque]
pub open spec fn asks(datagram: Seq<u8>, stream_id: u8, base_seq: u16, blp: u16) -> bool {
    PacketModel::parse(datagram) matches Ok(p) && p.header().ttl_ms > 0 && p.header().stream_id
        == stream_id && p is Nack && p->Nack_base_seq == base_seq && p->Nack_blp == blp
}

proof fn lemma_handled(
    m: SessionModel,
    datagram: Seq<u8>,
    stream_id: u8,
    base_seq: u16,
    blp: u16,
    now: Instant,
) -> (n: SessionModel)
    requires
        asks(datagram, stream_id, base_seq, blp),
    ensures
        n == (SessionModel { arrivals: n.arrivals, ..m }),
        m.handle(datagram, now).0 == n.answered(stream_id, seqs::missing((base_seq, blp)), now),
{
    reveal(asks);
    let p = PacketModel::parse(datagram)->Ok_0;
    SessionModel { arrivals: m.arrivals.noted(p.header().transport_seq, now), ..m }
}

/// Whether `x` is a datagram that a request lists and that may be sent again.
pub open spec fn wanted(
    x: OutModel,
    h: HistoryModel,
    stream_id: u8,
    base_seq: u16,
    blp: u16,
    now: Instant,
) -> bool {
    exists|s: u16|
        listed(base_seq, blp, s) && may_resend(h, #[trigger] key_of(stream_id, s), now)
            && is_again(
            x,
            h.entries[key_of(stream_id, s)].wire,
            h.entries[key_of(stream_id, s)].deadline,
            now,
        )
}

/// Whether lanes of datagrams grow from `old` to `new` by what a request lists
/// and may be sent again: all of that, in the lane of retransmissions, and
/// nothing else.
pub open spec fn fulfilled(
    h: HistoryModel,
    stream_id: u8,
    base_seq: u16,
    blp: u16,
    now: Instant,
    old: Seq<Seq<OutModel>>,
    new: Seq<Seq<OutModel>>,
) -> bool {
    &&& new.len() == old.len()
    &&& forall|i: int| 0 <= i < old.len() && i != 1 ==> #[trigger] new[i] == old[i]
    &&& old[1].len() <= new[1].len()
    &&& forall|j: int| 0 <= j < old[1].len() ==> #[trigger] new[1][j] == old[1][j]
    &&& forall|s: u16|
        listed(base_seq, blp, s) && may_resend(h, #[trigger] key_of(stream_id, s), now)
            ==> queued_again(new[1], h, key_of(stream_id, s), now)
    &&& forall|j: int|
        old[1].len() <= j < new[1].len() ==> wanted(
            #[trigger] new[1][j],
            h,
            stream_id,
            base_seq,
            blp,
            now,
        )
}

proof fn lemma_listed_answered(
    n: SessionModel,
    stream_id: u8,
    base_seq: u16,
    blp: u16,
    now: Instant,
    longest: int,
)
    requires
        n.sendable(),
        countable(n.history),
        n.history.limiter matches Some(l) ==> l.window.nanos > 0,
        longest >= 0,
        forall|s: u16|
            listed(base_seq, blp, s) && may_resend(
                n.history,
                #[trigger] key_of(stream_id, s),
                now,
            ) ==> n.history.entries[key_of(stream_id, s)].wire.len() <= longest,
        has_room(n.history, 17 * longest, now),
    ensures
        fulfilled(
            n.history,
            stream_id,
            base_seq,
            blp,
            now,
            n.pacer.queue.lanes,
            n.answered(stream_id, seqs::missing((base_seq, blp)), now).pacer.queue.lanes,
        ),
{
    let list = seqs::missing((base_seq, blp));
    lemma_listed(base_seq, blp, 16);
    assert forall|i: int|
        0 <= i < list.len() && may_resend(
            n.history,
            key_of(stream_id, #[trigger] list[i]),
            now,
        ) implies n.history.entries[key_of(stream_id, list[i])].wire.len() <= longest by {
        assert(list.contains(list[i]));
        assert(listed(base_seq, blp, list[i]));
    }
    assert(list.len() * longest <= 17 * longest) by (nonlinear_arith)
        requires
            list.len() <= 17,
            longest >= 0,
    ;
    assert(sound(n)) by {
        reveal(sound);
    }
    lemma_answers(n, stream_id, list, now, longest);
    let new = n.answered(stream_id, list, now).pacer.queue.lanes;
    let old = n.pacer.queue.lanes;
    assert forall|s: u16|
        listed(base_seq, blp, s) && may_resend(
            n.history,
            #[trigger] key_of(stream_id, s),
            now,
        ) implies queued_again(new[1], n.history, key_of(stream_id, s), now) by {
        assert(list.contains(s));
        let i = choose|i: int| 0 <= i < list.len() && list[i] == s;
        assert(list[i] == s);
    }
    assert forall|j: int| old[1].len() <= j < new[1].len() implies wanted(
        #[trigger] new[1][j],
        n.history,
        stream_id,
        base_seq,
        blp,
        now,
    ) by {
        assert(from_list(new[1][j], n.history, stream_id, list, now));
        let i = choose|i: int|
            0 <= i < list.len() && may_resend(
                n.history,
                key_of(stream_id, #[trigger] list[i]),
                now,
            ) && is_again(
                new[1][j],
                n.history.entries[key_of(stream_id, list[i])].wire,
                n.history.entries[key_of(stream_id, list[i])].deadline,
                now,
            );
        assert(list.contains(list[i]));
        assert(listed(base_seq, blp, list[i]));
    }
}

/// A request for retransmission is answered in full: whatever it lists that is
/// kept and may be sent again is queued, flagged, with the payload that was
/// sent first, as long as the budget has room for all of it. Nothing else is
/// queued, and what was queued stays.
pub proof fn lemma_request_answered(
    m: SessionModel,
    datagram: Seq<u8>,
    stream_id: u8,
    base_seq: u16,
    blp: u16,
    now: Instant,
    longest: int,
)
    requires
        m.sendable(),
        countable(m.history),
        m.history.limiter matches Some(l) ==> l.window.nanos > 0,
        asks(datagram, stream_id, base_seq, blp),
        longest >= 0,
        forall|s: u16|
            listed(base_seq, blp, s) && may_resend(
                m.history,
                #[trigger] key_of(stream_id, s),
                now,
            ) ==> m.history.entries[key_of(stream_id, s)].wire.len() <= longest,
        has_room(m.history, 17 * longest, now),
    ensures
        fulfilled(
            m.history,
            stream_id,
            base_seq,
            blp,
            now,
            m.pacer.queue.lanes,
            m.handle(datagram, now).0.pacer.queue.lanes,
        ),
{
    let n = lemma_handled(m, datagram, stream_id, base_seq, blp, now);
    lemma_listed_answered(n, stream_id, base_seq, blp, now, longest);
}

} // verus!
