//! The rate: delay samples, counts, steps up and down, loss and probes.

use crate::bwe;
use crate::bwe::{
    Arrival, BweModel, Delta, InterArrival, NetworkState, ProbeCluster, TrendSignal,
};
use crate::feedback::PacketResult;
use crate::laws::playout;
use crate::time::{Duration, Instant};
use vstd::prelude::*;

verus! {

/// Whether arrivals are in the order of sending.
pub open spec fn by_sending(s: Seq<Arrival>) -> bool {
    forall|i: int, j: int| 0 <= i <= j < s.len() ==> s[i].send.nanos <= s[j].send.nanos
}

/// Where group `j` begins, when `ends` holds the last arrivals of the groups
/// before it.
pub open spec fn begin(ends: Seq<int>, j: int) -> int {
    if j == 0 {
        0
    } else {
        ends[j - 1] + 1
    }
}

/// Whether group `j` is complete: its last was sent within five milliseconds of
/// its first, and what follows was not.
pub open spec fn complete(s: Seq<Arrival>, ends: Seq<int>, j: int) -> bool {
    let a = begin(ends, j);
    &&& 0 <= a <= ends[j] < s.len() - 1
    &&& s[ends[j]].send.nanos - s[a].send.nanos <= 5_000_000
    &&& s[ends[j] + 1].send.nanos - s[a].send.nanos > 5_000_000
}

/// Whether `ends` are the last arrivals of the complete groups of arrivals in
/// the order of sending. What is behind the last end was sent within five
/// milliseconds, so no group is left out.
pub open spec fn grouped(s: Seq<Arrival>, ends: Seq<int>) -> bool {
    let a = begin(ends, ends.len() as int);
    &&& forall|j: int| 0 <= j < ends.len() ==> #[trigger] complete(s, ends, j)
    &&& s.len() > 0 ==> 0 <= a < s.len() && s[s.len() - 1].send.nanos - s[a].send.nanos <= 5_000_000
    &&& s.len() == 0 ==> ends.len() == 0
}

/// How much later one arrival was sent, and arrived, than another.
pub open spec fn apart(a: Arrival, b: Arrival) -> Delta {
    (
        Duration { nanos: playout::elapsed(b.send.nanos, a.send.nanos) as u64 },
        Duration { nanos: playout::elapsed(b.recv.nanos, a.recv.nanos) as u64 },
    )
}

/// The delay samples of a fresh estimator: one for each two adjacent complete
/// groups, from the last arrival of the one to the last of the other, by the
/// times of sending and by the times of arrival.
pub proof fn lemma_samples(s: Seq<Arrival>) -> (ends: Seq<int>)
    requires
        by_sending(s),
    ensures
        grouped(s, ends),
        ({
            let (st, out) = (InterArrival { current: None, prev_complete: None }).steps(s);
            &&& out.len() == if ends.len() == 0 {
                0
            } else {
                ends.len() - 1
            }
            &&& forall|j: int|
                0 <= j < out.len() ==> #[trigger] out[j] == apart(s[ends[j]], s[ends[j + 1]])
            &&& s.len() == 0 ==> st.current is None
            &&& s.len() > 0 ==> st.current is Some && st.current->0.last == s[s.len() - 1]
                && st.current->0.first_send == s[begin(ends, ends.len() as int)].send
            &&& st.prev_complete == if ends.len() == 0 {
                None
            } else {
                Some(s[ends[ends.len() - 1]])
            }
        }),
    decreases s.len(),
{
    let fresh = InterArrival { current: None, prev_complete: None };
    if s.len() == 0 {
        Seq::empty()
    } else {
        let front = s.drop_last();
        let n = front.len() as int;
        assert(by_sending(front));
        let e = lemma_samples(front);
        let k = e.len() as int;
        let a = begin(e, k);
        let (st, out) = fresh.steps(front);
        assert(s[n] == s.last());
        assert forall|j: int| 0 <= j < k implies complete(s, e, j) && #[trigger] e[j] < n - 1
            && s[e[j]] == front[e[j]] by {
            assert(complete(front, e, j));
            assert(s[e[j] + 1] == front[e[j] + 1] && s[begin(e, j)] == front[begin(e, j)]);
        }
        assert forall|j: int| 0 <= j < out.len() implies #[trigger] out[j] == apart(
            s[e[j]],
            s[e[j + 1]],
        ) by {
            assert(s[e[j]] == front[e[j]] && s[e[j + 1]] == front[e[j + 1]]);
        }
        if n == 0 {
            e
        } else if s[n].send.nanos - s[a].send.nanos <= 5_000_000 {
            assert(s[a] == front[a]);
            if k > 0 {
                assert(s[e[k - 1]] == front[e[k - 1]]);
            }
            e
        } else {
            let ends = e.push(n - 1);
            assert(s[a] == front[a] && s[n - 1] == front[n - 1]);
            assert(begin(ends, k) == a);
            assert forall|j: int| 0 <= j < ends.len() implies #[trigger] complete(s, ends, j) by {
                if j < k {
                    assert(complete(s, e, j));
                    assert(begin(ends, j) == begin(e, j));
                }
            }
            let after = fresh.steps(s).1;
            if k > 0 {
                assert(complete(s, e, k - 1));
                assert(s[e[k - 1]] == front[e[k - 1]]);
                assert(s[a].send.nanos <= s[n - 1].send.nanos);
                assert(s[e[k - 1]].send.nanos < s[n - 1].send.nanos);
                assert(after == out.push(apart(s[e[k - 1]], s[n - 1])));
            } else {
                assert(after == out);
            }
            assert forall|j: int| 0 <= j < after.len() implies #[trigger] after[j] == apart(
                s[ends[j]],
                s[ends[j + 1]],
            ) by {
                if j < out.len() {
                    assert(after[j] == out[j]);
                    assert(ends[j] == e[j] && ends[j + 1] == e[j + 1]);
                }
            }
            ends
        }
    }
}

/// What a report says of arrivals, in the order in which it lists them.
pub open spec fn as_arrivals(packets: Seq<PacketResult>) -> Seq<Arrival> {
    Seq::new(
        packets.len(),
        |i: int| Arrival { send: packets[i].send_time, recv: packets[i].receive_time->0 },
    )
}

/// Datagrams that were sent more than five milliseconds apart and all arrived:
/// sample `k` is the time from sending the one to sending the next, and from
/// the arrival of the one to the arrival of the next.
pub proof fn lemma_samples_apart(packets: Seq<PacketResult>, k: int)
    requires
        forall|i: int| 0 <= i < packets.len() ==> (#[trigger] packets[i]).receive_time is Some,
        forall|i: int, j: int|
            0 <= i < j < packets.len() ==> packets[i].send_time.nanos + 5_000_000
                < packets[j].send_time.nanos,
        0 <= k < packets.len() - 2,
    ensures
        ({
            let out = (InterArrival { current: None, prev_complete: None }).steps(
                bwe::arrivals(packets),
            ).1;
            &&& out.len() == packets.len() - 2
            &&& out[k].0.nanos == packets[k + 1].send_time.nanos - packets[k].send_time.nanos
            &&& out[k].1.nanos == playout::elapsed(
                packets[k + 1].receive_time->0.nanos,
                packets[k].receive_time->0.nanos,
            )
        }),
{
    let s = as_arrivals(packets);
    lemma_in_order(packets);
    let ends = lemma_samples(s);
    lemma_singletons(s, ends, ends.len() as int);
    assert(s[k].send == packets[k].send_time && s[k + 1].send == packets[k + 1].send_time);
}

proof fn lemma_singletons(s: Seq<Arrival>, ends: Seq<int>, n: int)
    requires
        grouped(s, ends),
        s.len() > 0,
        forall|i: int, j: int|
            0 <= i < j < s.len() ==> s[i].send.nanos + 5_000_000 < s[j].send.nanos,
        0 <= n <= ends.len(),
    ensures
        ends.len() == s.len() - 1,
        forall|j: int| 0 <= j < n ==> #[trigger] ends[j] == j,
    decreases n,
{
    assert forall|j: int| 0 <= j < ends.len() implies #[trigger] ends[j] == begin(ends, j) by {
        assert(complete(s, ends, j));
    }
    lemma_counting(ends, ends.len() as int);
    let a = begin(ends, ends.len() as int);
    assert(a == ends.len()) by {
        if ends.len() > 0 {
            assert(ends[ends.len() - 1] == ends.len() - 1);
        }
    }
}

proof fn lemma_counting(ends: Seq<int>, n: int)
    requires
        0 <= n <= ends.len(),
        forall|j: int| 0 <= j < ends.len() ==> #[trigger] ends[j] == begin(ends, j),
    ensures
        forall|j: int| 0 <= j < n ==> #[trigger] ends[j] == j,
    decreases n,
{
    if n > 0 {
        lemma_counting(ends, n - 1);
        assert(ends[n - 1] == begin(ends, n - 1));
        if n > 1 {
            assert(ends[n - 2] == n - 2);
        }
    }
}

proof fn lemma_in_order(packets: Seq<PacketResult>)
    requires
        forall|i: int| 0 <= i < packets.len() ==> (#[trigger] packets[i]).receive_time is Some,
        forall|i: int, j: int|
            0 <= i < j < packets.len() ==> packets[i].send_time.nanos <= packets[j].send_time.nanos,
    ensures
        bwe::arrivals(packets) == as_arrivals(packets),
    decreases packets.len(),
{
    if packets.len() > 0 {
        let front = packets.drop_last();
        let n = front.len() as int;
        assert forall|i: int| 0 <= i < front.len() implies (#[trigger] front[i]).receive_time is Some by {
            assert(front[i] == packets[i]);
        }
        lemma_in_order(front);
        assert(packets[n].receive_time is Some);
        let a = Arrival { send: packets[n].send_time, recv: packets[n].receive_time->0 };
        if n > 0 {
            assert(packets[n - 1].send_time.nanos <= packets[n].send_time.nanos);
            assert(as_arrivals(front).last().send == packets[n - 1].send_time);
        }
        assert(as_arrivals(front).push(a) =~= as_arrivals(packets));
    }
}

/// Before they are measured, arrivals are put in the order of sending; each
/// datagram that arrived is there, with its times, and nothing else is.
pub proof fn lemma_arrivals(packets: Seq<PacketResult>)
    ensures
        by_sending(bwe::arrivals(packets)),
        forall|i: int|
            0 <= i < packets.len() && (#[trigger] packets[i]).receive_time is Some
                ==> bwe::arrivals(packets).contains(
                Arrival { send: packets[i].send_time, recv: packets[i].receive_time->0 },
            ),
        forall|a: Arrival|
            bwe::arrivals(packets).contains(a) ==> exists|i: int|
                0 <= i < packets.len() && (#[trigger] packets[i]).send_time == a.send
                    && packets[i].receive_time == Some(a.recv),
        bwe::arrivals(packets).len() == packets.filter(
            |p: PacketResult| p.receive_time is Some,
        ).len(),
    decreases packets.len(),
{
    reveal(Seq::filter);
    if packets.len() > 0 {
        let front = packets.drop_last();
        let p = packets.last();
        let n = front.len() as int;
        lemma_arrivals(front);
        let old = bwe::arrivals(front);
        let all = bwe::arrivals(packets);
        assert(packets[n] == p);
        if let Some(recv) = p.receive_time {
            let x = Arrival { send: p.send_time, recv };
            lemma_put_in(old, x);
            assert(all == bwe::insert_by_send(old, x));
            assert(all.contains(x));
        }
        assert forall|i: int|
            0 <= i < packets.len() && (
            #[trigger] packets[i]).receive_time is Some implies all.contains(
            Arrival { send: packets[i].send_time, recv: packets[i].receive_time->0 },
        ) by {
            if i < n {
                assert(front[i] == packets[i]);
                let x = Arrival { send: front[i].send_time, recv: front[i].receive_time->0 };
                assert(old.contains(x));
                if p.receive_time is None {
                    assert(all == old);
                }
                assert(all.contains(x));
            } else {
                assert(packets[i] == p);
            }
        }
        assert forall|a: Arrival| all.contains(a) implies exists|i: int|
            0 <= i < packets.len() && (#[trigger] packets[i]).send_time == a.send
                && packets[i].receive_time == Some(a.recv) by {
            if old.contains(a) {
                let i = choose|i: int|
                    0 <= i < front.len() && (#[trigger] front[i]).send_time == a.send
                        && front[i].receive_time == Some(a.recv);
                assert(packets[i] == front[i]);
            } else {
                assert(packets[n].send_time == a.send);
            }
        }
    }
}

proof fn lemma_put_in(s: Seq<Arrival>, a: Arrival)
    requires
        by_sending(s),
    ensures
        by_sending(bwe::insert_by_send(s, a)),
        bwe::insert_by_send(s, a).len() == s.len() + 1,
        forall|x: Arrival| #[trigger]
            bwe::insert_by_send(s, a).contains(x) <==> x == a || s.contains(x),
        forall|i: int|
            0 <= i <= s.len() ==> (#[trigger] bwe::insert_by_send(s, a)[i]).send.nanos
                <= a.send.nanos || (s.len() > 0 && bwe::insert_by_send(s, a)[i].send.nanos
                <= s.last().send.nanos),
    decreases s.len(),
{
    let r = bwe::insert_by_send(s, a);
    if s.len() == 0 || s.last().send.nanos <= a.send.nanos {
        assert(r[s.len() as int] == a);
        assert forall|x: Arrival| r.contains(x) <==> x == a || s.contains(x) by {
            if s.contains(x) {
                let i = choose|i: int| 0 <= i < s.len() && s[i] == x;
                assert(r[i] == x);
            }
            if r.contains(x) && x != a {
                let i = choose|i: int| 0 <= i < r.len() && r[i] == x;
                assert(s[i] == x);
            }
        }
    } else {
        let front = s.drop_last();
        assert(by_sending(front));
        lemma_put_in(front, a);
        let f = bwe::insert_by_send(front, a);
        assert(r == f.push(s.last()));
        assert forall|i: int| 0 <= i < f.len() implies (#[trigger] f[i]).send.nanos
            <= s.last().send.nanos by {
            if front.len() > 0 {
                assert(s[front.len() - 1].send.nanos <= s[s.len() - 1].send.nanos);
            }
        }
        assert forall|x: Arrival| r.contains(x) <==> x == a || s.contains(x) by {
            if f.contains(x) {
                let i = choose|i: int| 0 <= i < f.len() && f[i] == x;
                assert(r[i] == x);
            }
            if x == s.last() {
                assert(r[f.len() as int] == x);
            }
            if s.contains(x) && x != s.last() {
                let i = choose|i: int| 0 <= i < s.len() && s[i] == x;
                assert(front[i] == x);
                assert(front.contains(x));
            }
            if front.contains(x) {
                let i = choose|i: int| 0 <= i < front.len() && front[i] == x;
                assert(s[i] == x);
            }
            if r.contains(x) && x != s.last() {
                let i = choose|i: int| 0 <= i < r.len() && r[i] == x;
                assert(f[i] == x);
                assert(f.contains(x));
            }
        }
    }
}

/// Reports that follow one another are measured as one: groups go on from one
/// report to the next.
pub proof fn lemma_samples_go_on(i: InterArrival, a: Seq<Arrival>, b: Seq<Arrival>)
    ensures
        i.steps(a + b).0 == i.steps(a).0.steps(b).0,
        i.steps(a + b).1 == i.steps(a).1 + i.steps(a).0.steps(b).1,
    decreases b.len(),
{
    if b.len() == 0 {
        assert(a + b =~= a);
    } else {
        lemma_samples_go_on(i, a, b.drop_last());
        assert((a + b).drop_last() =~= a + b.drop_last());
        assert((a + b).last() == b.last());
    }
}

/// What a report counts: what arrived, what was lost, and the bytes that
/// arrived, each datagram once.
pub proof fn lemma_tally_counts(packets: Seq<PacketResult>)
    requires
        packets.len() <= u64::MAX,
    ensures
        ({
            let t = bwe::tally_of(packets);
            &&& t.received == packets.filter(|p: PacketResult| p.receive_time is Some).len()
            &&& t.lost == packets.filter(|p: PacketResult| p.receive_time is None).len()
            &&& t.received + t.lost == packets.len()
            &&& t.span is Some <==> t.received > 0
        }),
{
    lemma_counts(packets);
}

proof fn lemma_counts(packets: Seq<PacketResult>)
    ensures
        bwe::count(packets, true) == packets.filter(
            |p: PacketResult| p.receive_time is Some,
        ).len(),
        bwe::count(packets, false) == packets.filter(
            |p: PacketResult| p.receive_time is None,
        ).len(),
        bwe::count(packets, true) + bwe::count(packets, false) == packets.len(),
        bwe::sending_range(packets) is Some <==> bwe::count(packets, true) > 0,
    decreases packets.len(),
{
    reveal(Seq::filter);
    if packets.len() > 0 {
        lemma_counts(packets.drop_last());
    }
}

/// One more datagram adds its bytes just where it arrived.
pub proof fn lemma_tally_bytes(packets: Seq<PacketResult>, p: PacketResult)
    requires
        bwe::arrived_bytes(packets) + p.size_bytes <= u64::MAX,
    ensures
        bwe::tally_of(Seq::empty()).acked_bytes == 0,
        bwe::tally_of(packets.push(p)).acked_bytes == bwe::tally_of(packets).acked_bytes
            + if p.receive_time is Some {
            p.size_bytes as int
        } else {
            0
        },
{
    assert(packets.push(p).drop_last() =~= packets);
}

/// The span of a report goes from the first to the last sending of what
/// arrived, a tenth of a second at least.
pub proof fn lemma_tally_span(packets: Seq<PacketResult>, i: int, j: int)
    requires
        0 <= i < packets.len(),
        0 <= j < packets.len(),
        packets[i].receive_time is Some,
        packets[j].receive_time is Some,
        forall|k: int|
            0 <= k < packets.len() && (#[trigger] packets[k]).receive_time is Some
                ==> packets[i].send_time.nanos <= packets[k].send_time.nanos
                <= packets[j].send_time.nanos,
    ensures
        ({
            let d = packets[j].send_time.nanos - packets[i].send_time.nanos;
            &&& bwe::tally_of(packets).span is Some
            &&& bwe::tally_of(packets).span->0.nanos == if d < 100_000_000 {
                100_000_000
            } else {
                d
            }
        }),
{
    lemma_range(packets);
    let (a, b) = bwe::sending_range(packets)->0;
    assert(packets[i].receive_time is Some);
    let x = choose|x: int|
        0 <= x < packets.len() && (#[trigger] packets[x]).receive_time is Some
            && packets[x].send_time == a;
    let y = choose|y: int|
        0 <= y < packets.len() && (#[trigger] packets[y]).receive_time is Some
            && packets[y].send_time == b;
    assert(packets[x].send_time == a && packets[y].send_time == b);
}

proof fn lemma_range(packets: Seq<PacketResult>)
    ensures
        match bwe::sending_range(packets) {
            None => forall|k: int|
                0 <= k < packets.len() ==> (#[trigger] packets[k]).receive_time is None,
            Some((a, b)) => {
                &&& exists|x: int|
                    0 <= x < packets.len() && (#[trigger] packets[x]).receive_time is Some
                        && packets[x].send_time == a
                &&& exists|y: int|
                    0 <= y < packets.len() && (#[trigger] packets[y]).receive_time is Some
                        && packets[y].send_time == b
                &&& forall|k: int|
                    0 <= k < packets.len() && (#[trigger] packets[k]).receive_time is Some
                        ==> a.nanos <= packets[k].send_time.nanos <= b.nanos
            },
        },
    decreases packets.len(),
{
    if packets.len() > 0 {
        let front = packets.drop_last();
        let n = front.len() as int;
        lemma_range(front);
        assert(packets[n] == packets.last());
        assert forall|k: int| 0 <= k < n implies #[trigger] packets[k] == front[k] by {}
        if let Some((a, b)) = bwe::sending_range(front) {
            let x = choose|x: int|
                0 <= x < front.len() && (#[trigger] front[x]).receive_time is Some
                    && front[x].send_time == a;
            let y = choose|y: int|
                0 <= y < front.len() && (#[trigger] front[y]).receive_time is Some
                    && front[y].send_time == b;
            assert(packets[x] == front[x] && packets[y] == front[y]);
        }
    }
}

/// The verdict on the path: a trend below its threshold or within it says so at
/// once; one above it says overuse once it has lasted for more than ten
/// milliseconds of sending, each sample counting a millisecond at least.
pub proof fn lemma_verdict(m: BweModel, signal: TrendSignal, send_delta: Duration)
    requires
        m.detector.overuse_time.nanos + send_delta.nanos + 1_000_000 <= u64::MAX,
    ensures
        ({
            let d = m.detector.after(signal, send_delta);
            let step = if send_delta.nanos < 1_000_000 {
                1_000_000
            } else {
                send_delta.nanos as int
            };
            let total = m.detector.overuse_time.nanos + step;
            match signal {
                TrendSignal::Below => d.state == NetworkState::Underusing && d.overuse_time.nanos
                    == 0,
                TrendSignal::Within => d.state == NetworkState::Normal && d.overuse_time.nanos
                    == 0,
                TrendSignal::Above => d.overuse_time.nanos == total && d.state == if total
                    > 10_000_000 {
                    NetworkState::Overusing
                } else {
                    m.detector.state
                },
            }
        }),
{
}

/// `n`, brought within `lo` and `hi`.
pub open spec fn within(n: int, lo: u64, hi: u64) -> int {
    if n < lo {
        lo as int
    } else if n > hi {
        hi as int
    } else {
        n
    }
}

/// How the trend moves the rate. Overuse takes it to 85 percent of what
/// arrives, less five kilobits, and never up. Without overuse or underuse it
/// goes up every fifth of a second at most: to what growth gives, a kilobit
/// more at least, and no further than one and a half times what arrives and ten
/// kilobits. It stays within its bounds.
pub proof fn lemma_trend_moves(m: BweModel, now: Instant, acked_bps: u64, grown: u64)
    requires
        m.wf(),
        acked_bps > 0,
    ensures
        ({
            let lo = m.config.min_bitrate_bps;
            let hi = m.config.max_bitrate_bps;
            let after = m.aimd_applied(now, acked_bps, grown);
            let cut = acked_bps * 85 / 100 - 5_000;
            let up = if grown >= m.target + 1_000 {
                grown as int
            } else {
                m.target + 1_000
            };
            let most = acked_bps * 3 / 2 + 10_000;
            let due = m.last_increase matches Some(t) ==> playout::elapsed(now.nanos, t.nanos)
                >= 200_000_000;
            &&& m.detector.state == NetworkState::Overusing ==> after.target == within(
                if cut < m.target {
                    cut
                } else {
                    m.target as int
                },
                lo,
                hi,
            ) && after.target <= m.target && after.last_increase == m.last_increase
            &&& m.detector.state == NetworkState::Underusing ==> after == m
            &&& m.detector.state == NetworkState::Normal && !due ==> after == m
            &&& m.detector.state == NetworkState::Normal && due ==> after.target == within(
                if up < most {
                    up
                } else {
                    most
                },
                lo,
                hi,
            ) && after.last_increase == Some(now)
            &&& after.aimd.estimate == if after == m {
                m.aimd.estimate
            } else {
                after.target
            }
        }),
{
}

/// Heavy loss sets the rate that it leaves, within the bounds, once in 300
/// milliseconds and a round trip; otherwise loss changes nothing.
pub proof fn lemma_loss_cuts(m: BweModel, now: Instant, reduced: Option<u64>)
    requires
        300_000_000 + m.rtt.nanos <= u64::MAX,
    ensures
        ({
            let after = m.loss_applied(now, reduced);
            let due = m.last_loss_decrease matches Some(t) ==> playout::elapsed(
                now.nanos,
                t.nanos,
            ) >= 300_000_000 + m.rtt.nanos;
            &&& reduced is None || !due ==> after == m
            &&& reduced is Some && due ==> after.target == within(
                reduced->0 as int,
                m.config.min_bitrate_bps,
                m.config.max_bitrate_bps,
            ) && after.last_loss_decrease == Some(now) && after.aimd.estimate == after.target
        }),
{
}

/// A probe raises the rate to what it showed, and never lowers it: 95 percent
/// of what arrived where that is less than nine tenths of what was sent, else
/// the smaller of the two; where one is not known, the other.
pub proof fn lemma_probe_raises(m: BweModel, send_bps: u64, recv_bps: u64)
    requires
        m.wf(),
    ensures
        ({
            let shown = if send_bps == 0 {
                recv_bps as int
            } else if recv_bps == 0 {
                send_bps as int
            } else if 10 * recv_bps < 9 * send_bps {
                recv_bps * 95 / 100
            } else if send_bps < recv_bps {
                send_bps as int
            } else {
                recv_bps as int
            };
            let e = within(shown, m.config.min_bitrate_bps, m.config.max_bitrate_bps);
            let after = m.probed(send_bps, recv_bps);
            after.target == if e > m.target {
                e
            } else {
                m.target as int
            }
        }),
{
}

/// Whether a cluster probes at a rate, within the bounds of probes.
pub open spec fn probes_at(m: BweModel, c: ProbeCluster, bps: int) -> bool {
    let hi = if m.config.max_bitrate_bps < 5_000_000 {
        m.config.max_bitrate_bps
    } else {
        5_000_000
    };
    &&& c.target_bps == within(bps, m.config.min_bitrate_bps, hi)
    &&& c.min_packets == 5
    &&& c.min_duration.nanos == 15_000_000
}

/// When probes begin: the first call begins them at three and six times the
/// rate to begin with, once; an idle sender is probed at twice its rate, every
/// five seconds at most. Clusters are numbered one after the other.
pub proof fn lemma_probes_begin(m: BweModel, now: Instant, in_alr: bool)
    requires
        m.wf(),
        m.probe.next_id < 0xffff_0000,
    ensures
        ({
            let (after, out) = m.probes(now, in_alr);
            let idle = in_alr && (m.probe.last_alr_probe matches Some(t) ==> playout::elapsed(
                now.nanos,
                t.nanos,
            ) >= 5_000_000_000);
            let first = if m.startup_pending {
                2int
            } else {
                0
            };
            &&& !after.startup_pending
            &&& out.len() == first + if idle {
                1int
            } else {
                0
            }
            &&& m.startup_pending ==> probes_at(m, out[0], m.config.start_bitrate_bps * 3)
                && probes_at(m, out[1], m.config.start_bitrate_bps * 6)
            &&& idle ==> probes_at(m, out[first], m.target * 2) && after.probe.last_alr_probe
                == Some(now)
            &&& !idle ==> after.probe.last_alr_probe == m.probe.last_alr_probe
            &&& forall|i: int|
                0 <= i < out.len() ==> (#[trigger] out[i]).id == m.probe.next_id + i
            &&& after.probe.next_id == m.probe.next_id + out.len()
            &&& after.target == m.target
        }),
{
}

/// The pacer's rate: the scaled one, the target at least, and no more than
/// twice the highest rate.
pub proof fn lemma_pacing_rate(m: BweModel, scaled: u64)
    requires
        m.wf(),
        m.config.max_bitrate_bps * 2 <= u64::MAX,
    ensures
        ({
            let r = m.pacing(scaled);
            &&& m.target <= r <= 2 * m.config.max_bitrate_bps
            &&& m.target <= scaled <= 2 * m.config.max_bitrate_bps ==> r == scaled
            &&& scaled < m.target ==> r == m.target
        }),
{
}

/// A new estimator is at the rate to begin with, within the bounds; other
/// settings bring the rate within theirs.
pub proof fn lemma_rate_bounded(m: BweModel, config: bwe::BweConfig)
    ensures
        BweModel::start(config).target == within(
            config.start_bitrate_bps as int,
            config.min_bitrate_bps,
            config.max_bitrate_bps,
        ),
        BweModel::start(config).detector.state == NetworkState::Normal,
        m.reconfigured(config).target == within(
            m.target as int,
            config.min_bitrate_bps,
            config.max_bitrate_bps,
        ),
        m.reconfigured(config).detector == m.detector,
{
}

/// What pushback leaves of the rate: nine tenths where the queue takes longer
/// than a quarter of a second, three quarters where it takes longer than half a
/// second, and half of that where more is in flight than the window allows; one
/// at least.
pub proof fn lemma_pushed_back(
    target_bps: u64,
    queue_time: Duration,
    in_flight: int,
    window: Option<usize>,
)
    ensures
        ({
            let r = bwe::pushed_back(target_bps, queue_time, in_flight, window);
            let full = window matches Some(w) && in_flight > w;
            let parts = if full {
                2int
            } else {
                1
            };
            let q = queue_time.nanos;
            let kept = if q > 500_000_000 {
                target_bps * 3 / 4
            } else if q > 250_000_000 {
                target_bps * 9 / 10
            } else {
                target_bps as int
            };
            &&& r >= 1
            &&& r == 1 || r == kept / parts
            &&& r == 1 ==> kept / parts <= 1
        }),
{
}

} // verus!
