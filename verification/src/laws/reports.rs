//! Arrival reports, and what the sender makes of them.

use crate::bits;
use crate::feedback;
use crate::feedback::{
    AdapterModel, FeedbackConfig, PacketResult, RecorderModel, ReportModel, SentPacket,
};
use crate::laws::playout;
use crate::seqs;
use crate::time::{Duration, Instant};
use vstd::prelude::*;

verus! {

/// Whether bit `i` of a report is set.
pub open spec fn told(mask: u64, i: int) -> bool {
    0 <= i < 64 && (mask >> (i as u64)) & 1u64 == 1u64
}

/// The number `i` past `first`, round the circle.
pub open spec fn number(first: u16, i: int) -> u16 {
    ((first + i) % 0x1_0000) as u16
}

/// Whether a report covers a number.
pub open spec fn covers(r: ReportModel, s: u16) -> bool {
    (s - r.first_seq) % 0x1_0000 < 64
}

/// Whether a number arrived, was not reported, and is not too old.
pub open spec fn waits(m: RecorderModel, k: u16, now: Instant) -> bool {
    m.received.contains_key(k) && playout::elapsed(now.nanos, m.received[k].nanos)
        <= m.config.retention.nanos
}

/// What a report says: of sixty-four numbers, just those that wait, and one at
/// least. It begins where the last one ended if something waits there, else at
/// the least number that waits. What it covers waits no longer; the rest does.
pub open spec fn tells(m: RecorderModel, now: Instant, next: RecorderModel, r: ReportModel) -> bool {
    &&& forall|i: int|
        0 <= i < 64 ==> (#[trigger] told(r.received_mask, i) <==> waits(
            m,
            number(r.first_seq, i),
            now,
        ))
    &&& exists|i: int| 0 <= i < 64 && #[trigger] told(r.received_mask, i)
    &&& m.next_base is Some
    &&& r.first_seq == m.next_base->0 || (waits(m, r.first_seq, now) && forall|k: u16| #[trigger]
        waits(m, k, now) ==> r.first_seq <= k)
    &&& (exists|k: u16| #[trigger]
        waits(m, k, now) && (k - m.next_base->0) % 0x1_0000 < 64) ==> r.first_seq == m.next_base->0
    &&& next.next_base == Some(number(r.first_seq, 64))
    &&& next.last_emit == Some(now)
    &&& next.config == m.config
    &&& forall|k: u16| #[trigger]
        next.received.contains_key(k) <==> waits(m, k, now) && !covers(r, k)
    &&& forall|k: u16| #[trigger]
        next.received.contains_key(k) ==> next.received[k] == m.received[k]
}

/// A report is made whenever something waits, and says what waits.
pub proof fn lemma_report(m: RecorderModel, now: Instant)
    requires
        m.next_base is Some,
    ensures
        match m.build(now).1 {
            Some(r) => tells(m, now, m.build(now).0, r) && exists|k: u16| #[trigger]
                waits(m, k, now),
            None => (forall|k: u16| !#[trigger] waits(m, k, now)) && m.build(now).0.next_base
                == m.next_base && m.build(now).0.config == m.config && m.build(now).0.received.dom()
                == Set::<u16>::empty(),
        },
{
    let p = m.pruned(now);
    let (next, r) = m.build(now);
    assert forall|k: u16| #[trigger] waits(m, k, now) <==> p.received.contains_key(k) by {}
    let b = m.next_base->0;
    match r {
        None => {
            assert(p.received.dom() =~= Set::<u16>::empty());
            assert forall|k: u16| !#[trigger] waits(m, k, now) by {
                assert(!p.received.dom().contains(k));
            }
        },
        Some(r) => {
            let base = r.first_seq;
            feedback::lemma_report(p, base, now);
            lemma_hit(p, b);
            if !feedback::window_hit(p.received, b) {
                lemma_least(p.received);
                assert(feedback::is_least(p.received, base));
                assert forall|k: u16| #[trigger] waits(m, k, now) implies base <= k by {
                    assert(p.received.contains_key(k));
                }
            }
            assert forall|i: int| 0 <= i < 64 implies (#[trigger] told(r.received_mask, i)
                <==> waits(m, number(base, i), now)) by {
                assert(bits::bit64(r.received_mask, i) == told(r.received_mask, i));
                assert(seqs::seq_add(base, i) == number(base, i));
                assert(waits(m, number(base, i), now) <==> p.received.contains_key(
                    number(base, i),
                ));
            }
            assert(exists|i: int| 0 <= i < 64 && #[trigger] told(r.received_mask, i)) by {
                if feedback::window_hit(p.received, b) {
                    let i = choose|i: int|
                        0 <= i < 64 && p.received.contains_key(#[trigger] seqs::seq_add(b, i));
                    assert(number(base, i) == seqs::seq_add(b, i));
                    assert(told(r.received_mask, i));
                } else {
                    assert(number(base, 0) == base);
                    assert(told(r.received_mask, 0));
                }
            }
            lemma_left(p.received, base, 64);
            assert forall|k: u16| #[trigger] next.received.contains_key(k) <==> waits(m, k, now)
                && !covers(r, k) by {}
            let i = choose|i: int| 0 <= i < 64 && #[trigger] told(r.received_mask, i);
            assert(waits(m, number(base, i), now));
        },
    }
}

proof fn lemma_hit(p: RecorderModel, b: u16)
    ensures
        feedback::window_hit(p.received, b) <==> exists|k: u16| #[trigger]
            p.received.contains_key(k) && (k - b) % 0x1_0000 < 64,
{
    if feedback::window_hit(p.received, b) {
        let i = choose|i: int|
            0 <= i < 64 && p.received.contains_key(#[trigger] seqs::seq_add(b, i));
        assert(p.received.contains_key(seqs::seq_add(b, i)));
        assert((seqs::seq_add(b, i) - b) % 0x1_0000 == i);
    }
    if exists|k: u16| #[trigger] p.received.contains_key(k) && (k - b) % 0x1_0000 < 64 {
        let k = choose|k: u16| #[trigger] p.received.contains_key(k) && (k - b) % 0x1_0000 < 64;
        let i = (k - b) % 0x1_0000;
        assert(seqs::seq_add(b, i) == k);
    }
}

proof fn lemma_least(received: Map<u16, Instant>)
    requires
        !(received.dom() =~= Set::<u16>::empty()),
    ensures
        exists|k: u16| feedback::is_least(received, k),
{
    let k = choose|k: u16| received.dom().contains(k);
    assert(received.contains_key(k));
    lemma_least_below(received, k);
}

proof fn lemma_least_below(received: Map<u16, Instant>, k: u16)
    requires
        received.contains_key(k),
    ensures
        exists|k: u16| feedback::is_least(received, k),
    decreases k,
{
    if exists|j: u16| #[trigger] received.contains_key(j) && j < k {
        let j = choose|j: u16| #[trigger] received.contains_key(j) && j < k;
        lemma_least_below(received, j);
    } else {
        assert(feedback::is_least(received, k));
    }
}

proof fn lemma_left(received: Map<u16, Instant>, base: u16, n: int)
    requires
        0 <= n <= 64,
    ensures
        ({
            let out = feedback::outside_window(received, base, n);
            &&& forall|k: u16| #[trigger]
                out.contains_key(k) <==> received.contains_key(k) && (k - base) % 0x1_0000 >= n
            &&& forall|k: u16| #[trigger] out.contains_key(k) ==> out[k] == received[k]
        }),
    decreases n,
{
    if n > 0 {
        lemma_left(received, base, n - 1);
        let x = seqs::seq_add(base, n - 1);
        assert((x - base) % 0x1_0000 == n - 1);
        let prev = feedback::outside_window(received, base, n - 1);
        let out = feedback::outside_window(received, base, n);
        assert forall|k: u16| #[trigger] out.contains_key(k) <==> received.contains_key(k) && (k
            - base) % 0x1_0000 >= n by {
            assert(out.contains_key(k) <==> prev.contains_key(k) && k != x);
            if (k - base) % 0x1_0000 == n - 1 {
                assert(k == x);
            }
        }
        assert forall|k: u16| #[trigger] out.contains_key(k) implies out[k] == received[k] by {
            assert(prev.contains_key(k));
        }
    }
}

/// Reports keep their interval: one is made just when the last is long enough
/// ago, and is then the one that is made on demand.
pub proof fn lemma_report_due(m: RecorderModel, now: Instant)
    ensures
        ({
            let due = m.last_emit matches Some(t) ==> playout::elapsed(now.nanos, t.nanos)
                >= m.config.interval.nanos;
            &&& due ==> m.poll(now) == m.build(now)
            &&& !due ==> m.poll(now) == (m, None::<ReportModel>)
        }),
{
}

/// An arrival is noted: it waits from then on, at the time of its first
/// arrival, and what is not too old still does.
pub proof fn lemma_noted(m: RecorderModel, s: u16, now: Instant)
    requires
        m.received.contains_key(s) ==> playout::elapsed(now.nanos, m.received[s].nanos)
            <= m.config.retention.nanos,
    ensures
        ({
            let after = m.noted(s, now);
            &&& after.received.contains_key(s)
            &&& after.received[s] == if m.received.contains_key(s) {
                m.received[s]
            } else {
                now
            }
            &&& forall|k: u16|
                k != s ==> (#[trigger] after.received.contains_key(k) <==> waits(m, k, now))
            &&& forall|k: u16|
                k != s && #[trigger] after.received.contains_key(k) ==> after.received[k]
                    == m.received[k]
            &&& after.next_base == if m.next_base is Some {
                m.next_base
            } else {
                Some(s)
            }
            &&& after.last_emit == m.last_emit
            &&& after.config == m.config
        }),
{
}

/// A call of a recorder that changes it.
pub enum RecorderStep {
    /// A datagram arrived.
    Arrive(u16, Instant),
    /// It was polled for a report.
    Poll(Instant),
    /// A report was made on demand.
    Build(Instant),
}

impl RecorderStep {
    /// The state after the call, and the report that it gave.
    #[verifier::opaque]
    pub open spec fn taken(self, m: RecorderModel) -> (RecorderModel, Option<ReportModel>) {
        match self {
            RecorderStep::Arrive(s, now) => (m.noted(s, now), None),
            RecorderStep::Poll(now) => m.poll(now),
            RecorderStep::Build(now) => m.build(now),
        }
    }

    /// When the call was made.
    pub open spec fn time(self) -> Instant {
        match self {
            RecorderStep::Arrive(_, now) => now,
            RecorderStep::Poll(now) => now,
            RecorderStep::Build(now) => now,
        }
    }
}

/// A new recorder after calls, and the reports that they gave.
pub open spec fn run(config: FeedbackConfig, steps: Seq<RecorderStep>) -> (
    RecorderModel,
    Seq<ReportModel>,
)
    decreases steps.len(),
{
    if steps.len() == 0 {
        (RecorderModel::empty(config), Seq::empty())
    } else {
        let (m, reports) = run(config, steps.drop_last());
        let (next, r) = steps.last().taken(m);
        (
            next,
            match r {
                Some(r) => reports.push(r),
                None => reports,
            },
        )
    }
}

/// Whether datagrams arrive in the order of their numbers, which lie within
/// half of the circle from `lo` on and do not go round it.
pub open spec fn in_order(steps: Seq<RecorderStep>, lo: int) -> bool {
    &&& 0 <= lo <= 0x8000
    &&& forall|i: int|
        0 <= i < steps.len() && (#[trigger] steps[i]) is Arrive ==> lo <= steps[i]->Arrive_0 < lo
            + 0x8000
    &&& forall|i: int, j: int|
        0 <= i < j < steps.len() && (#[trigger] steps[i]) is Arrive && (
        #[trigger] steps[j]) is Arrive ==> steps[i]->Arrive_0 < steps[j]->Arrive_0
}

/// Whether the report that a call gives passes over nothing that waits: it
/// begins no later than the least of it.
pub open spec fn straight(m: RecorderModel, step: RecorderStep) -> bool {
    step.taken(m).1 matches Some(r) ==> forall|k: u16| #[trigger]
        waits(m, k, step.time()) ==> r.first_seq <= k
}

/// What holds after each call of such a run.
#[verifier::opaque]
spec fn kept(m: RecorderModel, reports: Seq<ReportModel>, lo: int, newest: int) -> bool {
    &&& forall|k: u16| #[trigger] m.received.contains_key(k) ==> lo <= k <= newest
    &&& newest < lo + 0x8000
    &&& m.next_base is None ==> reports.len() == 0 && m.received.dom() == Set::<u16>::empty()
    &&& forall|i: int|
        0 <= i < reports.len() ==> lo <= (#[trigger] reports[i]).first_seq < lo + 0x8000
    &&& forall|i: int, a: int|
        0 <= i < reports.len() && #[trigger] told(reports[i].received_mask, a)
            ==> reports[i].first_seq + a <= newest && (forall|k: u16| #[trigger]
            m.received.contains_key(k) ==> reports[i].first_seq + a < k)
    &&& reports.len() > 0 ==> {
        let l = reports.last().first_seq;
        &&& m.next_base == Some(number(l, 64))
        &&& forall|i: int, a: int|
            0 <= i < reports.len() && #[trigger] told(reports[i].received_mask, a)
                ==> reports[i].first_seq + a < l + 64
    }
    &&& reports.len() == 0 ==> (m.next_base matches Some(b) ==> lo <= b < lo + 0x8000)
    &&& apart(reports)
}

/// Whether no number that a report tells of is covered by a later report.
pub open spec fn apart(reports: Seq<ReportModel>) -> bool {
    forall|i: int, j: int, a: int|
        0 <= i < j < reports.len() && #[trigger] told(reports[i].received_mask, a) ==> !covers(
            #[trigger] reports[j],
            number(reports[i].first_seq, a),
        )
}

proof fn lemma_kept_report(
    m: RecorderModel,
    reports: Seq<ReportModel>,
    lo: int,
    newest: int,
    now: Instant,
)
    requires
        0 <= lo <= 0x8000,
        kept(m, reports, lo, newest),
        m.build(now).1 matches Some(r) ==> forall|k: u16| #[trigger]
            waits(m, k, now) ==> r.first_seq <= k,
    ensures
        match m.build(now).1 {
            Some(r) => kept(m.build(now).0, reports.push(r), lo, newest),
            None => kept(m.build(now).0, reports, lo, newest),
        },
{
    reveal(kept);
    if m.next_base is None {
        assert(m.pruned(now).received.dom() =~= Set::<u16>::empty());
    } else {
        lemma_report(m, now);
        let (next, out) = m.build(now);
        if let Some(r) = out {
            let f = r.first_seq;
            let all = reports.push(r);
            let one = choose|i: int| 0 <= i < 64 && #[trigger] told(r.received_mask, i);
            let k1 = number(f, one);
            assert(waits(m, k1, now));
            assert(f <= k1);
            assert(k1 == f + one);
            assert forall|a: int| #[trigger] told(r.received_mask, a) implies f + a <= newest
                && number(f, a) == f + a && m.received.contains_key((f + a) as u16) by {
                assert(waits(m, number(f, a), now));
            }
            assert(lo <= f) by {
                if reports.len() > 0 {
                    let l = reports.last();
                    assert(lo <= reports[reports.len() - 1].first_seq);
                    if f == m.next_base->0 && l.first_seq + 64 >= 0x1_0000 {
                        assert(lo <= k1 <= 127);
                        assert(false);
                    }
                }
            }
            assert forall|i: int, a: int|
                0 <= i < reports.len() && #[trigger] told(
                    reports[i].received_mask,
                    a,
                ) implies reports[i].first_seq + a < f by {
                let l = reports.last().first_seq;
                assert(reports[i].first_seq + a < l + 64);
                assert(reports[i].first_seq + a < k1) by {
                    assert(m.received.contains_key(k1));
                }
                if f == m.next_base->0 {
                    if l + 64 >= 0x1_0000 {
                        assert(lo <= reports[reports.len() - 1].first_seq < lo + 0x8000);
                        assert(lo <= k1 <= 127);
                    }
                } else {
                    assert(m.received.contains_key(f));
                }
            }
            assert forall|i: int, j: int, a: int|
                0 <= i < j < all.len() && #[trigger] told(all[i].received_mask, a) implies !covers(
                #[trigger] all[j],
                number(all[i].first_seq, a),
            ) by {
                assert(all[i] == reports[i]);
                if j < reports.len() {
                    assert(all[j] == reports[j]);
                } else {
                    let s = reports[i].first_seq + a;
                    assert(s < f);
                    assert(lo <= reports[i].first_seq);
                    assert(number(reports[i].first_seq, a) == s);
                }
            }
            assert forall|i: int, a: int|
                0 <= i < all.len() && #[trigger] told(all[i].received_mask, a) implies (
            all[i].first_seq + a <= newest && (forall|k: u16| #[trigger]
                next.received.contains_key(k) ==> all[i].first_seq + a < k)) && all[i].first_seq
                + a < f + 64 by {
                if i < reports.len() {
                    assert(all[i] == reports[i]);
                    assert(reports[i].first_seq + a < f);
                }
                assert forall|k: u16| #[trigger] next.received.contains_key(k) implies all[
                i].first_seq + a < k by {
                    assert(waits(m, k, now) && !covers(r, k));
                    assert(m.received.contains_key(k));
                    assert(f <= k);
                }
            }
            assert forall|i: int| 0 <= i < all.len() implies lo <= (
            #[trigger] all[i]).first_seq < lo + 0x8000 by {
                if i < reports.len() {
                    assert(all[i] == reports[i]);
                }
            }
            assert forall|k: u16| #[trigger] next.received.contains_key(k) implies lo <= k
                <= newest by {
                assert(waits(m, k, now));
                assert(m.received.contains_key(k));
            }
        } else {
            assert forall|k: u16| !#[trigger] next.received.contains_key(k) by {
                assert(!next.received.dom().contains(k));
            }
        }
    }
}

/// Whether a number arrived.
spec fn came(steps: Seq<RecorderStep>, s: int) -> bool {
    exists|i: int|
        0 <= i < steps.len() && (#[trigger] steps[i]) is Arrive && steps[i]->Arrive_0 == s
}

proof fn lemma_came(steps: Seq<RecorderStep>, s: int)
    requires
        steps.len() > 0,
        came(steps.drop_last(), s),
    ensures
        came(steps, s),
{
    let front = steps.drop_last();
    let i = choose|i: int|
        0 <= i < front.len() && (#[trigger] front[i]) is Arrive && front[i]->Arrive_0 == s;
    assert(steps[i] == front[i]);
}

proof fn lemma_kept_arrival(
    m: RecorderModel,
    reports: Seq<ReportModel>,
    lo: int,
    newest: int,
    s: u16,
    now: Instant,
)
    requires
        kept(m, reports, lo, newest),
        lo - 1 <= newest < s < lo + 0x8000,
        lo <= s,
    ensures
        kept(m.noted(s, now), reports, lo, s as int),
{
    reveal(kept);
    let after = m.noted(s, now);
    assert(!m.received.contains_key(s));
    assert forall|k: u16| #[trigger] after.received.contains_key(k) implies lo <= k <= s by {
        assert(k == s || m.received.contains_key(k));
    }
    assert forall|i: int, a: int|
        0 <= i < reports.len() && #[trigger] told(
            reports[i].received_mask,
            a,
        ) implies reports[i].first_seq + a <= s && (forall|k: u16| #[trigger]
        after.received.contains_key(k) ==> reports[i].first_seq + a < k) by {
        assert forall|k: u16| #[trigger] after.received.contains_key(k) implies reports[i].first_seq
            + a < k by {
            assert(k == s || m.received.contains_key(k));
        }
    }
}

proof fn lemma_kept_step(
    m: RecorderModel,
    reports: Seq<ReportModel>,
    lo: int,
    newest: int,
    step: RecorderStep,
)
    requires
        0 <= lo <= 0x8000,
        kept(m, reports, lo, newest),
        straight(m, step),
        !(step is Arrive),
    ensures
        match step.taken(m).1 {
            Some(r) => kept(step.taken(m).0, reports.push(r), lo, newest),
            None => kept(step.taken(m).0, reports, lo, newest),
        },
{
    reveal(RecorderStep::taken);
    let now = step.time();
    lemma_report_due(m, now);
    if step.taken(m) == m.build(now) {
        lemma_kept_report(m, reports, lo, newest, now);
    }
}

proof fn lemma_run(config: FeedbackConfig, steps: Seq<RecorderStep>, lo: int) -> (newest: int)
    requires
        in_order(steps, lo),
        forall|n: int|
            0 <= n < steps.len() ==> straight(run(config, steps.take(n)).0, #[trigger] steps[n]),
    ensures
        kept(run(config, steps).0, run(config, steps).1, lo, newest),
        newest == lo - 1 || came(steps, newest),
    decreases steps.len(),
{
    if steps.len() == 0 {
        reveal(kept);
        lo - 1
    } else {
        let front = steps.drop_last();
        let n = front.len() as int;
        assert(in_order(front, lo)) by {
            assert forall|i: int| 0 <= i < front.len() && (#[trigger] front[i]) is Arrive implies lo
                <= front[i]->Arrive_0 < lo + 0x8000 by {
                assert(front[i] == steps[i]);
            }
            assert forall|i: int, j: int|
                0 <= i < j < front.len() && (#[trigger] front[i]) is Arrive && (
                #[trigger] front[j]) is Arrive implies front[i]->Arrive_0 < front[j]->Arrive_0 by {
                assert(front[i] == steps[i] && front[j] == steps[j]);
            }
        }
        assert forall|k: int| 0 <= k < front.len() implies straight(
            run(config, front.take(k)).0,
            #[trigger] front[k],
        ) by {
            assert(front.take(k) =~= steps.take(k));
            assert(front[k] == steps[k]);
        }
        let newest = lemma_run(config, front, lo);
        let (m, reports) = run(config, front);
        assert(steps.take(n) =~= front);
        assert(straight(m, steps[n]));
        if let RecorderStep::Arrive(s, now) = steps[n] {
            assert(newest < s) by {
                if newest != lo - 1 {
                    let i = choose|i: int|
                        0 <= i < front.len() && (#[trigger] front[i]) is Arrive
                            && front[i]->Arrive_0 == newest;
                    assert(front[i] == steps[i]);
                }
                assert(steps[n] is Arrive);
            }
            lemma_kept_arrival(m, reports, lo, newest, s, now);
            assert(steps[n].taken(m) == (m.noted(s, now), None::<ReportModel>)) by {
                reveal(RecorderStep::taken);
            }
            assert(steps[n]->Arrive_0 == s);
            s as int
        } else {
            lemma_kept_step(m, reports, lo, newest, steps[n]);
            if newest != lo - 1 {
                lemma_came(steps, newest);
            }
            newest
        }
    }
}

/// What was reported as arrived is not reported again as lost: while datagrams
/// arrive in order and no report passes over one that waits, no report covers a
/// number that an earlier one told of.
pub proof fn lemma_not_told_twice(
    config: FeedbackConfig,
    steps: Seq<RecorderStep>,
    lo: int,
    i: int,
    j: int,
    a: int,
)
    requires
        in_order(steps, lo),
        forall|n: int|
            0 <= n < steps.len() ==> straight(run(config, steps.take(n)).0, #[trigger] steps[n]),
        0 <= i < j < run(config, steps).1.len(),
        told(run(config, steps).1[i].received_mask, a),
    ensures
        ({
            let reports = run(config, steps).1;
            !covers(reports[j], number(reports[i].first_seq, a))
        }),
{
    let newest = lemma_run(config, steps, lo);
    reveal(kept);
    let reports = run(config, steps).1;
    assert(apart(reports));
    assert(told(reports[i].received_mask, a));
    assert(!covers(reports[j], number(reports[i].first_seq, a)));
}

/// Whether every arrival is still within the retention at each call.
pub open spec fn prompt(config: FeedbackConfig, steps: Seq<RecorderStep>) -> bool {
    forall|i: int, j: int|
        0 <= i <= j < steps.len() && (#[trigger] steps[i]) is Arrive ==> playout::elapsed(
            (#[trigger] steps[j]).time().nanos,
            steps[i].time().nanos,
        ) <= config.retention.nanos
}

/// Whether a report told of a number.
pub open spec fn reported(reports: Seq<ReportModel>, s: u16) -> bool {
    exists|i: int, a: int|
        0 <= i < reports.len() && #[trigger] told(reports[i].received_mask, a) && number(
            reports[i].first_seq,
            a,
        ) == s
}

/// Whether `k` arrived at `t`.
spec fn came_at(steps: Seq<RecorderStep>, k: u16, t: Instant) -> bool {
    exists|i: int| 0 <= i < steps.len() && #[trigger] steps[i] == RecorderStep::Arrive(k, t)
}

/// Whether each arrival waits or was reported, and what waits arrived.
#[verifier::opaque]
spec fn accounted(
    config: FeedbackConfig,
    steps: Seq<RecorderStep>,
    m: RecorderModel,
    reports: Seq<ReportModel>,
) -> bool {
    &&& m.config == config
    &&& m.received.dom() != Set::<u16>::empty() ==> m.next_base is Some
    &&& forall|i: int|
        0 <= i < steps.len() && (#[trigger] steps[i]) is Arrive ==> m.received.contains_key(
            steps[i]->Arrive_0,
        ) || reported(reports, steps[i]->Arrive_0)
    &&& forall|k: u16| #[trigger]
        m.received.contains_key(k) ==> came_at(steps, k, m.received[k])
}

proof fn lemma_all_wait(
    config: FeedbackConfig,
    steps: Seq<RecorderStep>,
    m: RecorderModel,
    reports: Seq<ReportModel>,
    now: Instant,
)
    requires
        accounted(config, steps, m, reports),
        forall|i: int|
            0 <= i < steps.len() && (#[trigger] steps[i]) is Arrive ==> playout::elapsed(
                now.nanos,
                steps[i].time().nanos,
            ) <= config.retention.nanos,
    ensures
        forall|k: u16| #[trigger] m.received.contains_key(k) ==> waits(m, k, now),
{
    reveal(accounted);
    assert forall|k: u16| #[trigger] m.received.contains_key(k) implies waits(m, k, now) by {
        let i = choose|i: int|
            0 <= i < steps.len() && #[trigger] steps[i] == RecorderStep::Arrive(
                k,
                m.received[k],
            );
        assert(steps[i] is Arrive);
    }
}

proof fn lemma_accounted(config: FeedbackConfig, steps: Seq<RecorderStep>)
    requires
        prompt(config, steps),
    ensures
        accounted(config, steps, run(config, steps).0, run(config, steps).1),
    decreases steps.len(),
{
    if steps.len() == 0 {
        reveal(accounted);
    } else {
        let front = steps.drop_last();
        let n = front.len() as int;
        assert(prompt(config, front)) by {
            assert forall|i: int, j: int|
                0 <= i <= j < front.len() && (
                #[trigger] front[i]) is Arrive implies playout::elapsed(
                (#[trigger] front[j]).time().nanos,
                front[i].time().nanos,
            ) <= config.retention.nanos by {
                assert(front[i] == steps[i] && front[j] == steps[j]);
            }
        }
        lemma_accounted(config, front);
        let (m, reports) = run(config, front);
        let now = steps[n].time();
        assert forall|i: int|
            0 <= i < front.len() && (#[trigger] front[i]) is Arrive implies playout::elapsed(
            now.nanos,
            front[i].time().nanos,
        ) <= config.retention.nanos by {
            assert(front[i] == steps[i]);
            assert(steps[n].time() == now);
        }
        lemma_all_wait(config, front, m, reports, now);
        lemma_account_step(config, steps, m, reports);
    }
}

proof fn lemma_account_step(
    config: FeedbackConfig,
    steps: Seq<RecorderStep>,
    m: RecorderModel,
    reports: Seq<ReportModel>,
)
    requires
        steps.len() > 0,
        accounted(config, steps.drop_last(), m, reports),
        forall|k: u16| #[trigger]
            m.received.contains_key(k) ==> waits(m, k, steps.last().time()),
    ensures
        match steps.last().taken(m).1 {
            Some(r) => accounted(config, steps, steps.last().taken(m).0, reports.push(r)),
            None => accounted(config, steps, steps.last().taken(m).0, reports),
        },
{
    reveal(RecorderStep::taken);
    reveal(accounted);
    let front = steps.drop_last();
    let n = front.len() as int;
    let step = steps.last();
    let now = step.time();
    let (next, out) = step.taken(m);
    let all = match out {
        Some(r) => reports.push(r),
        None => reports,
    };
    assert(steps[n] == step);
    assert forall|k: u16, t: Instant| came_at(front, k, t) implies came_at(steps, k, t) by {
        let i = choose|i: int|
            0 <= i < front.len() && #[trigger] front[i] == RecorderStep::Arrive(k, t);
        assert(steps[i] == front[i]);
    }
    assert forall|s: u16| reported(reports, s) implies reported(all, s) by {
        let (i, a) = choose|i: int, a: int|
            0 <= i < reports.len() && #[trigger] told(reports[i].received_mask, a) && number(
                reports[i].first_seq,
                a,
            ) == s;
        assert(all[i] == reports[i]);
        assert(told(all[i].received_mask, a));
    }
    if let RecorderStep::Arrive(s, t) = step {
        lemma_noted(m, s, t);
        assert forall|k: u16| #[trigger] next.received.contains_key(k) implies came_at(
            steps,
            k,
            next.received[k],
        ) by {
            if k != s || m.received.contains_key(s) {
                assert(m.received.contains_key(k));
            } else {
                assert(steps[n] == RecorderStep::Arrive(k, next.received[k]));
            }
        }
        assert forall|i: int| 0 <= i < steps.len() && (#[trigger] steps[i]) is Arrive implies next.received.contains_key(
            steps[i]->Arrive_0,
        ) || reported(all, steps[i]->Arrive_0) by {
            if i < n {
                assert(front[i] == steps[i]);
                let x = steps[i]->Arrive_0;
                if m.received.contains_key(x) && x != s {
                    assert(waits(m, x, t));
                }
            }
        }
    } else {
        lemma_report_due(m, now);
        if step.taken(m) == m.build(now) && m.next_base is Some {
            lemma_report(m, now);
            assert forall|i: int|
                0 <= i < steps.len() && (
                #[trigger] steps[i]) is Arrive implies next.received.contains_key(
                steps[i]->Arrive_0,
            ) || reported(all, steps[i]->Arrive_0) by {
                assert(front[i] == steps[i]);
                let x = steps[i]->Arrive_0;
                if m.received.contains_key(x) {
                    assert(waits(m, x, now));
                    let r = out->0;
                    if covers(r, x) {
                        let a = (x - r.first_seq) % 0x1_0000;
                        assert(number(r.first_seq, a) == x);
                        assert(told(r.received_mask, a));
                        assert(all[all.len() - 1] == r);
                        assert(told(all[all.len() - 1].received_mask, a));
                    } else {
                        assert(next.received.contains_key(x));
                    }
                }
            }
            assert forall|k: u16| #[trigger] next.received.contains_key(k) implies came_at(
                steps,
                k,
                next.received[k],
            ) by {
                if out is Some {
                    assert(m.received.contains_key(k));
                } else {
                    assert(next.received.dom().contains(k));
                }
            }
        } else {
            assert forall|k: u16| #[trigger] next.received.contains_key(k) implies came_at(
                steps,
                k,
                next.received[k],
            ) by {
                assert(m.received.contains_key(k));
            }
            assert forall|i: int|
                0 <= i < steps.len() && (
                #[trigger] steps[i]) is Arrive implies next.received.contains_key(
                steps[i]->Arrive_0,
            ) || reported(all, steps[i]->Arrive_0) by {
                assert(front[i] == steps[i]);
                let x = steps[i]->Arrive_0;
                if m.received.contains_key(x) {
                    assert(m.received.dom().contains(x));
                    assert(waits(m, x, now));
                }
            }
            if m.next_base is None {
                assert(m.received.dom() =~= Set::<u16>::empty());
            }
        }
        if next.next_base is None {
            assert(next.received.dom() =~= Set::<u16>::empty());
        }
    }
}

/// A datagram that arrived is never reported as lost: while datagrams arrive in
/// order and are reported in time, and no report passes over one that waits, a
/// report that covers a number that arrived before tells that it did. So where
/// nothing is lost nothing up to the newest arrival is reported as lost.
pub proof fn lemma_arrived_not_lost(
    config: FeedbackConfig,
    steps: Seq<RecorderStep>,
    lo: int,
    i: int,
    s: u16,
)
    requires
        in_order(steps, lo),
        forall|n: int|
            0 <= n < steps.len() ==> straight(run(config, steps.take(n)).0, #[trigger] steps[n]),
        prompt(config, steps),
        steps.len() > 0,
        steps.last().taken(run(config, steps.drop_last()).0).1 is Some,
        0 <= i < steps.len() - 1,
        steps[i] is Arrive,
        steps[i]->Arrive_0 == s,
        covers(steps.last().taken(run(config, steps.drop_last()).0).1->0, s),
    ensures
        ({
            let r = steps.last().taken(run(config, steps.drop_last()).0).1->0;
            told(r.received_mask, (s - r.first_seq) % 0x1_0000)
        }),
{
    let reports = run(config, steps).1;
    let last = reports.len() - 1;
    let r = reports[last];
    assert(reported(reports, s)) by {
        lemma_accounted(config, steps);
        reveal(accounted);
        lemma_gone(config, steps, s);
    }
    assert(apart(reports)) by {
        let newest = lemma_run(config, steps, lo);
        reveal(kept);
    }
    let (j, a) = choose|j: int, a: int|
        0 <= j < reports.len() && #[trigger] told(reports[j].received_mask, a) && number(
            reports[j].first_seq,
            a,
        ) == s;
    if j < last {
        assert(told(reports[j].received_mask, a));
        assert(!covers(reports[last], number(reports[j].first_seq, a)));
    } else {
        assert((s - r.first_seq) % 0x1_0000 == a);
    }
}

proof fn lemma_gone(config: FeedbackConfig, steps: Seq<RecorderStep>, s: u16)
    requires
        steps.len() > 0,
        steps.last().taken(run(config, steps.drop_last()).0).1 is Some,
        covers(steps.last().taken(run(config, steps.drop_last()).0).1->0, s),
    ensures
        !run(config, steps).0.received.contains_key(s),
{
    reveal(RecorderStep::taken);
    let m = run(config, steps.drop_last()).0;
    let now = steps.last().time();
    lemma_report_due(m, now);
    if m.next_base is Some {
        lemma_report(m, now);
    }
}

/// A datagram that was sent is remembered for half of the retention at least,
/// and for all of it until a report covers it.
pub proof fn lemma_remembered(a: AdapterModel, now: Instant, i: int)
    requires
        0 <= i < a.history.len(),
        ({
            let p = a.history[i];
            let age = playout::elapsed(now.nanos, p.send_time.nanos);
            age <= a.config.retention.nanos / 2 || (age <= a.config.retention.nanos
                && !a.acked.contains(p.transport_seq))
        }),
    ensures
        a.culled(now).history.contains(a.history[i]),
        a.culled(now).config == a.config,
{
    let p = a.history[i];
    lemma_young_kept(a.history, a.acked, now, a.config.retention, i);
    let (h, k) = feedback::without_old(a.history, a.acked, now, a.config.retention);
    let j = choose|j: int| 0 <= j < h.len() && h[j] == p;
    assert(!a.acked.contains(p.transport_seq) ==> !k.contains(p.transport_seq));
    lemma_unacked_kept(h, k, now, a.config.retention.half(), j);
}

proof fn lemma_young_kept(
    history: Seq<SentPacket>,
    acked: Set<u16>,
    now: Instant,
    retention: Duration,
    i: int,
)
    requires
        0 <= i < history.len(),
        playout::elapsed(now.nanos, history[i].send_time.nanos) <= retention.nanos,
    ensures
        ({
            let (h, k) = feedback::without_old(history, acked, now, retention);
            h.contains(history[i]) && k.subset_of(acked)
        }),
    decreases history.len(),
{
    if playout::elapsed(now.nanos, history[0].send_time.nanos) > retention.nanos {
        let rest = history.drop_first();
        assert(rest[i - 1] == history[i]);
        lemma_young_kept(
            rest,
            acked.remove(history[0].transport_seq),
            now,
            retention,
            i - 1,
        );
    } else {
        assert(feedback::without_old(history, acked, now, retention).0 == history);
        assert(history.contains(history[i]));
    }
}

proof fn lemma_unacked_kept(
    history: Seq<SentPacket>,
    acked: Set<u16>,
    now: Instant,
    age: Duration,
    i: int,
)
    requires
        0 <= i < history.len(),
        playout::elapsed(now.nanos, history[i].send_time.nanos) <= age.nanos || !acked.contains(
            history[i].transport_seq,
        ),
    ensures
        feedback::without_acked(history, acked, now, age).0.contains(history[i]),
    decreases history.len(),
{
    if acked.contains(history[0].transport_seq) && playout::elapsed(
        now.nanos,
        history[0].send_time.nanos,
    ) > age.nanos {
        let rest = history.drop_first();
        assert(rest[i - 1] == history[i]);
        lemma_unacked_kept(rest, acked.remove(history[0].transport_seq), now, age, i - 1);
    } else {
        assert(feedback::without_acked(history, acked, now, age).0 == history);
        assert(history.contains(history[i]));
    }
}

/// Whether `p` is in `history` under the number `s`.
pub open spec fn sent_as(history: Seq<SentPacket>, s: u16, r: PacketResult) -> bool {
    exists|j: int|
        0 <= j < history.len() && (#[trigger] history[j]).transport_seq == s
            && history[j].send_time == r.send_time && history[j].size_bytes == r.size_bytes
}

/// A report is matched with what is remembered: each datagram under a number
/// that it covers has one result, with its time of sending and its size, as
/// arrived or lost as the report says; nothing else has one. What it covers
/// counts as covered.
pub proof fn lemma_matched(a: AdapterModel, first: u16, mask: u64, deltas: Seq<u16>, at: Instant)
    ensures
        ({
            let h = a.culled(at).history;
            let out = a.matched(first, mask, deltas, at).1;
            &&& out.feedback_time == at
            &&& forall|j: int|
                0 <= j < out.packets.len() ==> {
                    let r = #[trigger] out.packets[j];
                    let i = (r.transport_seq - first) % 0x1_0000;
                    &&& i < 64
                    &&& sent_as(h, r.transport_seq, r)
                    &&& r.receive_time is Some <==> told(mask, i)
                }
            &&& forall|j: int, k: int|
                0 <= j < k < out.packets.len() ==> (out.packets[j].transport_seq - first)
                    % 0x1_0000 < (out.packets[k].transport_seq - first) % 0x1_0000
            &&& forall|j: int|
                0 <= j < h.len() && ((#[trigger] h[j]).transport_seq - first) % 0x1_0000 < 64
                    ==> exists|k: int|
                    0 <= k < out.packets.len() && (#[trigger] out.packets[k]).transport_seq
                        == h[j].transport_seq
        }),
{
    let h = a.culled(at).history;
    lemma_results(h, first, mask, deltas, at, 64);
}

#[verifier::rlimit(40)]
proof fn lemma_results(
    h: Seq<SentPacket>,
    first: u16,
    mask: u64,
    deltas: Seq<u16>,
    at: Instant,
    n: int,
)
    requires
        0 <= n <= 64,
    ensures
        ({
            let out = feedback::results(h, first, mask, deltas, at, n);
            &&& forall|j: int|
                0 <= j < out.len() ==> {
                    let r = #[trigger] out[j];
                    let i = (r.transport_seq - first) % 0x1_0000;
                    &&& i < n
                    &&& sent_as(h, r.transport_seq, r)
                    &&& r.receive_time is Some <==> told(mask, i)
                }
            &&& forall|j: int, k: int|
                0 <= j < k < out.len() ==> (out[j].transport_seq - first) % 0x1_0000 < (
                out[k].transport_seq - first) % 0x1_0000
            &&& forall|j: int|
                0 <= j < h.len() && ((#[trigger] h[j]).transport_seq - first) % 0x1_0000 < n
                    ==> exists|k: int|
                    0 <= k < out.len() && (#[trigger] out[k]).transport_seq == h[j].transport_seq
        }),
    decreases n,
{
    if n > 0 {
        lemma_results(h, first, mask, deltas, at, n - 1);
        let front = feedback::results(h, first, mask, deltas, at, n - 1);
        let out = feedback::results(h, first, mask, deltas, at, n);
        let s = number(first, n - 1);
        assert(seqs::seq_add(first, n - 1) == s);
        assert((s - first) % 0x1_0000 == n - 1);
        lemma_found(h, s);
        if feedback::find_sent(h, s) is Some {
            let r = out[front.len() as int];
            assert(out == front.push(r));
            assert(bits::bit64(mask, n - 1) == told(mask, n - 1));
            assert(sent_as(h, s, r));
        }
        assert forall|j: int|
            0 <= j < h.len() && ((#[trigger] h[j]).transport_seq - first) % 0x1_0000
                < n implies exists|k: int|
            0 <= k < out.len() && (#[trigger] out[k]).transport_seq == h[j].transport_seq by {
            if (h[j].transport_seq - first) % 0x1_0000 == n - 1 {
                assert(h[j].transport_seq == s);
                assert(out[front.len() as int].transport_seq == s);
            } else {
                let k = choose|k: int|
                    0 <= k < front.len() && (#[trigger] front[k]).transport_seq
                        == h[j].transport_seq;
                assert(out[k] == front[k]);
            }
        }
    }
}

proof fn lemma_found(h: Seq<SentPacket>, s: u16)
    ensures
        match feedback::find_sent(h, s) {
            Some(p) => exists|j: int|
                0 <= j < h.len() && (#[trigger] h[j]) == p && p.transport_seq == s,
            None => forall|j: int| 0 <= j < h.len() ==> (#[trigger] h[j]).transport_seq != s,
        },
    decreases h.len(),
{
    if h.len() > 0 {
        if h[0].transport_seq == s {
            assert(h[0] == h.first());
        } else {
            let rest = h.drop_first();
            lemma_found(rest, s);
            match feedback::find_sent(rest, s) {
                Some(p) => {
                    let j = choose|j: int|
                        0 <= j < rest.len() && (#[trigger] rest[j]) == p && p.transport_seq == s;
                    assert(h[j + 1] == rest[j]);
                },
                None => {
                    assert forall|j: int| 0 <= j < h.len() implies (
                    #[trigger] h[j]).transport_seq != s by {
                        if j > 0 {
                            assert(rest[j - 1] == h[j]);
                        }
                    }
                },
            }
        }
    }
}

/// How many of the first `i` bits of a report are set.
pub open spec fn told_before(mask: u64, i: int) -> int
    decreases i,
{
    if i <= 0 {
        0
    } else {
        told_before(mask, i - 1) + if told(mask, i - 1) {
            1int
        } else {
            0
        }
    }
}

proof fn lemma_told_before(mask: u64, i: int)
    requires
        i <= 64,
    ensures
        told_before(mask, i) == bits::ones(mask, i),
    decreases i,
{
    if i > 0 {
        lemma_told_before(mask, i - 1);
        assert(bits::bit64(mask, i - 1) == told(mask, i - 1));
    }
}

proof fn lemma_none_between(mask: u64, i: int, j: int)
    requires
        0 <= i < j <= 64,
        told(mask, i),
        forall|k: int| i < k < j ==> !#[trigger] told(mask, k),
    ensures
        told_before(mask, j) == told_before(mask, i) + 1,
    decreases j,
{
    if j > i + 1 {
        lemma_none_between(mask, i, j - 1);
        assert(!told(mask, j - 1));
    }
}

/// The last arrival of a report is put at the report's own; from one arrival to
/// the next lies the time that the report gives, in ticks of a quarter of a
/// millisecond. Without times all are put at the report's arrival.
pub proof fn lemma_arrival_times(
    a: AdapterModel,
    first: u16,
    mask: u64,
    deltas: Seq<u16>,
    at: Instant,
    i: int,
    j: int,
)
    requires
        0 <= i < 64,
        told(mask, i),
        i < j <= 64,
        forall|k: int| i < k < j ==> !#[trigger] told(mask, k),
        j < 64 ==> told(mask, j),
        at.nanos >= 64 * 65_535 * 250_000,
    ensures
        ({
            let t = feedback::receive_time(mask, deltas, at, i);
            &&& t is Some
            &&& deltas.len() != told_before(mask, 64) ==> t == Some(at)
            &&& deltas.len() == told_before(mask, 64) && j == 64 ==> t == Some(at)
            &&& deltas.len() == told_before(mask, 64) && j < 64 ==> {
                let u = feedback::receive_time(mask, deltas, at, j);
                &&& u is Some
                &&& u->0.nanos - t->0.nanos == 250_000 * deltas[told_before(mask, j)]
            }
        }),
{
    let n = told_before(mask, 64);
    lemma_told_before(mask, 64);
    lemma_told_before(mask, i);
    lemma_told_before(mask, j);
    lemma_none_between(mask, i, j);
    assert(bits::bit64(mask, i));
    lemma_told_grows(mask, i, 64);
    if j < 64 {
        assert(bits::bit64(mask, j));
        lemma_told_grows(mask, j, 64);
    }
    let r = told_before(mask, i);
    if deltas.len() == n {
        lemma_span(deltas, n - 1, r);
        if j < 64 {
            lemma_span(deltas, n - 1, r + 1);
        }
    }
}

proof fn lemma_told_grows(mask: u64, i: int, n: int)
    requires
        0 <= i < n <= 64,
        told(mask, i),
    ensures
        0 <= told_before(mask, i) < told_before(mask, n) <= n,
    decreases n,
{
    lemma_told_bound(mask, i);
    lemma_told_bound(mask, n);
    if n > i + 1 {
        lemma_told_grows(mask, i, n - 1);
    }
}

proof fn lemma_told_bound(mask: u64, n: int)
    requires
        0 <= n,
    ensures
        0 <= told_before(mask, n) <= n,
    decreases n,
{
    if n > 0 {
        lemma_told_bound(mask, n - 1);
    }
}

proof fn lemma_span(deltas: Seq<u16>, n: int, r: int)
    requires
        0 <= r <= n < 64,
    ensures
        0 <= feedback::span(deltas, r) <= feedback::span(deltas, n) <= n * 65_535 * 250_000,
    decreases n,
{
    if r < n {
        lemma_span(deltas, n - 1, r);
    } else if n > 0 {
        lemma_span(deltas, n - 1, n - 1);
    }
}

/// What a report says of time: nothing before the first number that it tells
/// of, then from each to the next the time between their arrivals, in whole
/// ticks of a quarter of a millisecond.
pub proof fn lemma_report_times(m: RecorderModel, now: Instant, i: int, j: int)
    requires
        m.next_base is Some,
        m.build(now).1 is Some,
        0 <= i < j < 64,
        ({
            let mask = m.build(now).1->0.received_mask;
            &&& told(mask, i)
            &&& told(mask, j)
            &&& forall|k: int| i < k < j ==> !#[trigger] told(mask, k)
        }),
    ensures
        ({
            let r = m.build(now).1->0;
            let d = playout::elapsed(
                m.received[number(r.first_seq, j)].nanos,
                m.received[number(r.first_seq, i)].nanos,
            ) / 250_000;
            &&& r.deltas.len() == told_before(r.received_mask, 64)
            &&& r.deltas[0] == 0
            &&& r.deltas[told_before(r.received_mask, j)] == if d > 65_535 {
                65_535
            } else {
                d
            }
        }),
{
    let p = m.pruned(now);
    let r = m.build(now).1->0;
    let base = r.first_seq;
    let mask = r.received_mask;
    lemma_report(m, now);
    feedback::lemma_report(p, base, now);
    assert forall|k: int| 0 <= k < 64 implies (#[trigger] told(mask, k)
        <==> p.received.contains_key(number(base, k))) by {
        assert(waits(m, number(base, k), now) <==> p.received.contains_key(number(base, k)));
    }
    lemma_times(p.received, base, mask, 64);
    lemma_times(p.received, base, mask, i + 1);
    lemma_times(p.received, base, mask, j + 1);
    lemma_none_between(mask, i, j);
    lemma_told_before(mask, 64);
    lemma_told_grows(mask, i, 64);
    lemma_told_grows(mask, j, 64);
    lemma_prefix(p.received, base, mask, i + 1, 64);
    lemma_prefix(p.received, base, mask, j + 1, 64);
    let times = feedback::window_times(p.received, base, 64);
    let a = told_before(mask, i);
    assert(times[a] == p.received[number(base, i)]);
    assert(times[a + 1] == p.received[number(base, j)]);
    assert(r.deltas == feedback::ticks_of(times));
    assert(r.deltas[a + 1] == feedback::ticks_between(times[a], times[a + 1]));
}

proof fn lemma_times(received: Map<u16, Instant>, base: u16, mask: u64, k: int)
    requires
        0 <= k <= 64,
        forall|i: int|
            0 <= i < 64 ==> (#[trigger] told(mask, i) <==> received.contains_key(number(base, i))),
    ensures
        feedback::window_times(received, base, k).len() == told_before(mask, k),
        k > 0 && told(mask, k - 1) ==> feedback::window_times(received, base, k).len() > 0
            && feedback::window_times(received, base, k).last() == received[number(base, k - 1)],
    decreases k,
{
    if k > 0 {
        lemma_times(received, base, mask, k - 1);
        assert(seqs::seq_add(base, k - 1) == number(base, k - 1));
        assert(told(mask, k - 1) <==> received.contains_key(number(base, k - 1)));
    }
}

proof fn lemma_prefix(received: Map<u16, Instant>, base: u16, mask: u64, k: int, n: int)
    requires
        0 < k <= n <= 64,
        told(mask, k - 1),
        forall|i: int|
            0 <= i < 64 ==> (#[trigger] told(mask, i) <==> received.contains_key(number(base, i))),
    ensures
        told_before(mask, k - 1) < feedback::window_times(received, base, n).len(),
        feedback::window_times(received, base, n)[told_before(mask, k - 1)] == received[number(
            base,
            k - 1,
        )],
    decreases n,
{
    lemma_times(received, base, mask, n);
    lemma_times(received, base, mask, k);
    lemma_told_bound(mask, k - 1);
    if k < n {
        lemma_prefix(received, base, mask, k, n - 1);
    }
}

} // verus!
