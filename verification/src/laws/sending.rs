//! What leaves next, and when.

use crate::laws::playout;
use crate::pacer::PacerModel;
use crate::packet::{Header, PacketModel, PacketType};
use crate::send_queue;
use crate::send_queue::{OutModel, Priority, QueueModel};
use crate::time::Instant;
use vstd::prelude::*;

verus! {

/// The lane of a priority, highest first: audio, retransmissions, video,
/// feedback, filler.
pub open spec fn lane_of(p: Priority) -> int {
    match p {
        Priority::Audio => 0,
        Priority::Retransmission => 1,
        Priority::Video => 2,
        Priority::Feedback => 3,
        Priority::Padding => 4,
    }
}

/// Audio goes before retransmissions, these before video and parity, and
/// feedback comes last.
pub proof fn lemma_lanes(h: Header)
    ensures
        ({
            let i = lane_of(Priority::for_header(h));
            let media = h.packet_type == PacketType::Media;
            &&& i == 0 <==> media && h.flags.audio
            &&& i == 1 <==> media && !h.flags.audio && h.flags.retrans
            &&& i == 2 <==> (media && !h.flags.audio && !h.flags.retrans) || h.packet_type
                == PacketType::Fec
            &&& i == 3 <==> h.packet_type == PacketType::Nack || h.packet_type
                == PacketType::ArrivalFeedback || h.packet_type == PacketType::KeyframeReq
        }),
{
}

/// A packet with time left is queued whole, until its lifetime is over; one
/// without is not queued.
pub proof fn lemma_queued_packet(q: QueueModel, p: PacketModel, now: Instant)
    requires
        q.wf(),
        now.nanos + p.header().ttl_ms * 1_000_000 <= u64::MAX,
    ensures
        ({
            let (after, taken) = q.enqueue_packet(p, now);
            let i = lane_of(Priority::for_header(p.header()));
            &&& taken <==> p.header().ttl_ms > 0
            &&& !taken ==> after.lanes == q.lanes
            &&& taken ==> {
                let o = after.lanes[i].last();
                &&& after.lanes.len() == 5
                &&& after.lanes[i].len() == q.lanes[i].len() + 1
                &&& forall|j: int|
                    0 <= j < q.lanes[i].len() ==> #[trigger] after.lanes[i][j] == q.lanes[i][j]
                &&& forall|a: int|
                    0 <= a < 5 && a != i ==> #[trigger] after.lanes[a] == q.lanes[a]
                &&& o.wire == p.wire()
                &&& o.deadline.nanos == now.nanos + p.header().ttl_ms * 1_000_000
                &&& o.stream_id == p.header().stream_id
                &&& lane_of(o.priority) == i
                &&& o.enqueued_at == now
            }
        }),
{
}

/// A datagram goes to the end of its lane, and changes no other.
pub proof fn lemma_queued(q: QueueModel, o: OutModel)
    requires
        q.wf(),
    ensures
        ({
            let after = q.enqueue(o);
            let i = lane_of(o.priority);
            &&& after.lanes.len() == 5
            &&& after.lanes[i] == q.lanes[i].push(o)
            &&& forall|a: int| 0 <= a < 5 && a != i ==> #[trigger] after.lanes[a] == q.lanes[a]
        }),
{
}

/// Whether the deadline of a datagram has come.
pub open spec fn over(o: OutModel, now: Instant) -> bool {
    now.nanos >= o.deadline.nanos
}

/// Whether all of a lane before `j` is over.
pub open spec fn over_to(lane: Seq<OutModel>, j: int, now: Instant) -> bool {
    forall|b: int| 0 <= b < j ==> over(#[trigger] lane[b], now)
}

/// What leaves is the first datagram in time of the highest lane that holds
/// one. What stands before it is over, and goes; what stands behind it stays.
/// Where nothing leaves, nothing was in time.
pub proof fn lemma_leaves(q: QueueModel, now: Instant)
    requires
        q.wf(),
    ensures
        ({
            let (after, out) = q.pop(now);
            match out {
                Some(o) => {
                    let i = lane_of(o.priority);
                    &&& !over(o, now)
                    &&& forall|a: int|
                        0 <= a < i ==> over_to(
                            #[trigger] q.lanes[a],
                            q.lanes[a].len() as int,
                            now,
                        )
                    &&& exists|j: int|
                        {
                            &&& 0 <= j < q.lanes[i].len()
                            &&& #[trigger] q.lanes[i][j] == o
                            &&& over_to(q.lanes[i], j, now)
                            &&& after.lanes[i] == q.lanes[i].skip(j + 1)
                        }
                    &&& forall|a: int| i < a < 5 ==> after.lanes[a] == #[trigger] q.lanes[a]
                },
                None => forall|a: int|
                    0 <= a < 5 ==> over_to(#[trigger] q.lanes[a], q.lanes[a].len() as int, now),
            }
        }),
{
    send_queue::lemma_pop_order(q, now);
    match q.pop(now).1 {
        Some(o) => {
            let i = lane_of(o.priority);
            assert(i == o.priority.index());
            assert forall|a: int| 0 <= a < i implies over_to(
                #[trigger] q.lanes[a],
                q.lanes[a].len() as int,
                now,
            ) by {
                assert forall|b: int| 0 <= b < q.lanes[a].len() implies over(
                    #[trigger] q.lanes[a][b],
                    now,
                ) by {
                    assert(q.lanes[a][b].expired(now));
                }
            }
            let j = choose|j: int|
                {
                    &&& 0 <= j < q.lanes[i].len()
                    &&& #[trigger] q.lanes[i][j] == o
                    &&& forall|b: int| 0 <= b < j ==> (#[trigger] q.lanes[i][b]).expired(now)
                    &&& q.pop(now).0.lanes[i] == q.lanes[i].skip(j + 1)
                };
            assert(over_to(q.lanes[i], j, now)) by {
                assert forall|b: int| 0 <= b < j implies over(#[trigger] q.lanes[i][b], now) by {
                    assert(q.lanes[i][b].expired(now));
                }
            }
        },
        None => {
            assert forall|a: int| 0 <= a < 5 implies over_to(
                #[trigger] q.lanes[a],
                q.lanes[a].len() as int,
                now,
            ) by {
                assert forall|b: int| 0 <= b < q.lanes[a].len() implies over(
                    #[trigger] q.lanes[a][b],
                    now,
                ) by {
                    assert(q.lanes[a][b].expired(now));
                }
            }
        },
    }
}

/// As long as a datagram in time waits, one leaves.
pub proof fn lemma_leaves_something(q: QueueModel, now: Instant, a: int, b: int)
    requires
        q.wf(),
        0 <= a < 5,
        0 <= b < q.lanes[a].len(),
        now.nanos < q.lanes[a][b].deadline.nanos,
    ensures
        q.pop(now).1 is Some,
        lane_of(q.pop(now).1->0.priority) <= a,
{
    lemma_leaves(q, now);
    match q.pop(now).1 {
        None => {
            assert(over_to(q.lanes[a], q.lanes[a].len() as int, now));
            assert(over(q.lanes[a][b], now));
        },
        Some(o) => {
            if lane_of(o.priority) > a {
                assert(over_to(q.lanes[a], q.lanes[a].len() as int, now));
                assert(over(q.lanes[a][b], now));
            }
        },
    }
}

/// The load of a queue: nothing where it is empty, and with each datagram its
/// length more.
pub proof fn lemma_load(q: QueueModel, o: OutModel)
    requires
        q.wf(),
        q.load() + o.wire.len() < usize::MAX,
    ensures
        QueueModel::empty().load() == 0,
        q.enqueue(o).load() == q.load() + o.wire.len(),
        q.enqueue(o).count() == q.count() + 1,
{
    reveal_with_fuel(QueueModel::bytes_to, 7);
    reveal_with_fuel(QueueModel::count_to, 7);
    let r = q.enqueue(o);
    let i = lane_of(o.priority);
    assert(q.lanes[i].push(o).drop_last() =~= q.lanes[i]);
    assert(send_queue::lane_bytes(q.lanes[i].push(o)) == send_queue::lane_bytes(q.lanes[i])
        + o.wire.len());
    let e = QueueModel::empty();
    assert(forall|k: int| 0 <= k < 5 ==> (#[trigger] e.lanes[k]).len() == 0);
}

/// How long a queue takes: its bits over the rate, in whole microseconds.
pub proof fn lemma_queue_time(q: QueueModel, rate_bps: u64)
    requires
        q.load() * 8_000_000_000 <= u64::MAX,
    ensures
        match q.queue_time(rate_bps) {
            None => rate_bps == 0 || q.load() == 0,
            Some(t) => rate_bps > 0 && q.load() > 0 && t.nanos == 1_000 * (q.load() * 8_000_000
                / rate_bps as int),
        },
{
    if rate_bps > 0 {
        let x = q.load() * 8_000_000;
        let r = rate_bps as int;
        assert(0 <= x / r <= x) by (nonlinear_arith)
            requires
                r >= 1,
                x >= 0,
        ;
    }
}

/// The bytes that a rate carries in a time.
pub open spec fn carried(rate_bps: u64, nanos: int) -> int {
    rate_bps * (nanos / 1_000) / 8_000_000
}

/// The debt once the time since the last call has worked it off.
pub open spec fn worked_off(p: PacerModel, now: Instant) -> int {
    let done = match p.last_update {
        Some(t) => carried(p.rate(), playout::elapsed(now.nanos, t.nanos)),
        None => 0,
    };
    if done > p.debt {
        0
    } else {
        p.debt - done
    }
}

/// How the pacer holds back. Audio that does not count leaves whatever the
/// debt, and adds none. Otherwise nothing leaves while the debt is more than the
/// rate carries in the burst time; what leaves adds its length, up to what the
/// rate carries in the longest time of debt.
pub proof fn lemma_paced(p: PacerModel, now: Instant)
    requires
        p.wf(),
        p.config.pacing_rate_bps > 0,
        p.debt <= 0xffff_ffff_ffff,
        carried(p.config.pacing_rate_bps, p.config.max_debt.nanos as int) <= 0xffff_ffff_ffff,
    ensures
        ({
            let (after, out) = p.poll(now);
            let debt = worked_off(p, now);
            let free = !p.config.account_for_audio && p.queue.lanes[0].len() > 0;
            let may = p.rate() > 0 && debt <= carried(
                p.rate(),
                p.config.burst_interval.nanos as int,
            );
            let most = carried(p.config.pacing_rate_bps, p.config.max_debt.nanos as int);
            &&& free || may ==> out == p.queue.pop(now).1 && after.queue == p.queue.pop(now).0
            &&& !free && !may ==> out is None && after.queue == p.queue && after.debt == debt
            &&& free ==> after.debt == debt
            &&& !free && may && out is Some && (p.config.account_for_audio || out->0.priority
                != Priority::Audio) && out->0.wire.len() <= 0xffff_ffff ==> after.debt == if debt
                + out->0.wire.len() > most {
                most
            } else {
                debt + out->0.wire.len()
            }
            &&& after.config == p.config
        }),
{
    send_queue::lemma_next_lane(p.queue, 0);
    let s = p.advanced(now);
    assert(s.rate() == p.rate());
    assert(s.debt == worked_off(p, now)) by {
        if let Some(t) = p.last_update {
            if now.nanos <= t.nanos {
                assert(carried(p.rate(), 0) == 0) by {
                    assert(p.rate() as int * 0 == 0);
                }
            }
        }
    }
}

/// A long queue raises the rate to the one at which it takes no longer than its
/// limit; a short one leaves the rate as it was set.
pub proof fn lemma_boost(p: PacerModel)
    requires
        p.queue.load() * 8_000_000_000 <= u64::MAX,
        p.config.queue_time_limit.nanos >= 1_000,
    ensures
        ({
            let base = p.config.pacing_rate_bps;
            let load = p.queue.load() * 8_000_000;
            let long = base > 0 && p.queue.load() > 0 && 1_000 * (load / base as int)
                > p.config.queue_time_limit.nanos;
            let enough = load / (p.config.queue_time_limit.nanos / 1_000) as int;
            &&& !long ==> p.rate() == base
            &&& long ==> p.rate() == if enough > base {
                enough
            } else {
                base as int
            }
        }),
{
    lemma_queue_time(p.queue, p.config.pacing_rate_bps);
    let x = p.queue.load() * 8_000_000;
    let r = (p.config.queue_time_limit.nanos / 1_000) as int;
    assert(0 <= x / r <= x) by (nonlinear_arith)
        requires
            r >= 1,
            x >= 0,
    ;
}

/// What is foretold of the next departure: nothing where nothing waits; now
/// where something may leave now; else the time in which the rate works off what
/// the debt is over the burst, to the microsecond. A microsecond later the pacer
/// lets something leave, if nothing left or was queued in between.
pub proof fn lemma_foretold(p: PacerModel, now: Instant, t: Instant)
    requires
        p.wf(),
        p.last_update == Some(now),
        p.next_send_time(now) is Some,
        p.rate() > 0,
        p.config.account_for_audio || p.queue.lanes[0].len() == 0,
        p.next_send_time(now)->0.nanos + 1_000 <= t.nanos,
        p.next_send_time(now)->0.nanos < u64::MAX,
    ensures
        worked_off(p, t) <= carried(p.rate(), p.config.burst_interval.nanos as int),
{
    send_queue::lemma_next_lane(p.queue, 0);
    let rate = p.rate() as int;
    let b = carried(p.rate(), p.config.burst_interval.nanos as int);
    let e = playout::elapsed(t.nanos, now.nanos) / 1_000;
    assert(rate * e >= 0) by (nonlinear_arith)
        requires
            rate > 0,
            e >= 0,
    ;
    if p.debt > b {
        let need = p.debt - b;
        let us = need * 8 * 1_000_000 / rate;
        assert(us >= 0) by (nonlinear_arith)
            requires
                need > 0,
                rate > 0,
                us == need * 8 * 1_000_000 / rate,
        ;
        assert(p.next_send_time(now)->0.nanos == now.nanos + us * 1_000);
        assert(e >= us + 1);
        assert(rate * e >= need * 8_000_000) by (nonlinear_arith)
            requires
                e >= us + 1,
                rate > 0,
                us == need * 8 * 1_000_000 / rate,
        {
            vstd::arithmetic::div_mod::lemma_fundamental_div_mod(need * 8 * 1_000_000, rate);
            vstd::arithmetic::div_mod::lemma_mod_bound(need * 8 * 1_000_000, rate);
            assert(rate * (us + 1) > need * 8 * 1_000_000);
            assert(rate * e >= rate * (us + 1));
        }
        assert(rate * e / 8_000_000 >= need);
    }
}

} // verus!
