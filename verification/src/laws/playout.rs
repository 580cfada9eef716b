//! Playout of audio and video.

use crate::jitter;
use crate::jitter::{
    AudioDecision, AudioModel, NetEqModel, PollModel, ScheduledModel, VideoModel,
};
use crate::reassembly::AssembledModel;
use crate::time::{Duration, Instant};
use vstd::prelude::*;

verus! {

/// How fast audio is played: less than eight tenths of the aim held stretches
/// it, more than twelve tenths compresses it, and nothing held conceals a gap.
/// So audio is compressed only with more held than aimed at, and stretched only
/// with less.
pub proof fn lemma_audio_speed(m: NetEqModel)
    requires
        m.packets.len() * m.config.tick.nanos <= u64::MAX,
    ensures
        ({
            let n = m.packets.len() as int;
            let t = m.tick().1;
            let aim = t.target_delay.nanos;
            let held = n * m.config.tick.nanos;
            &&& t.decision == AudioDecision::Expand <==> n == 0
            &&& t.decision == AudioDecision::PreemptiveExpand <==> n > 0 && 10 * held < 8 * aim
            &&& t.decision == AudioDecision::Accelerate <==> 10 * held > 12 * aim && n > 0
            &&& t.decision == AudioDecision::Normal <==> n > 0 && 8 * aim <= 10 * held <= 12 * aim
            &&& t.decision == AudioDecision::Accelerate ==> held > aim
            &&& t.decision == AudioDecision::PreemptiveExpand ==> held < aim
            &&& n > 0 ==> t.buffer_delay.nanos == held - m.config.tick.nanos
            &&& n == 0 ==> t.buffer_delay.nanos == 0
        }),
{
    let n = m.packets.len() as int;
    let k = m.config.tick.nanos as int;
    assert(k * n == n * k) by (nonlinear_arith);
    assert(n > 0 ==> k * (n - 1) == n * k - k) by (nonlinear_arith);
    assert(k * 0 == 0);
    if n > 0 && k > 0 {
        assert(n <= u64::MAX) by (nonlinear_arith)
            requires
                n * k <= u64::MAX,
                k >= 1,
                n > 0,
        ;
    }
    if k == 0 {
        let c = (n as u64) as int;
        let d = ((n - 1) as u64) as int;
        assert(k * c == 0 && k * d == 0 && n * k == 0) by (nonlinear_arith)
            requires
                k == 0,
        ;
    }
}

/// The aim of a tick is the adapted delay, brought within its bounds.
pub proof fn lemma_audio_aim(m: NetEqModel)
    requires
        m.config.min_delay.nanos <= m.config.max_delay.nanos,
    ensures
        ({
            let aim = m.tick().1.target_delay.nanos;
            &&& m.config.min_delay.nanos <= aim <= m.config.max_delay.nanos
            &&& m.config.min_delay.nanos <= m.target.nanos <= m.config.max_delay.nanos ==> aim
                == m.target.nanos
            &&& m.target.nanos < m.config.min_delay.nanos ==> aim == m.config.min_delay.nanos
            &&& m.target.nanos > m.config.max_delay.nanos ==> aim == m.config.max_delay.nanos
        }),
{
}

/// A tick plays the first packet that waits, once, and leaves the others as
/// they are; where none waits it plays none.
pub proof fn lemma_audio_played(m: NetEqModel)
    ensures
        ({
            let (after, t) = m.tick();
            let n = m.packets.len();
            &&& n == 0 ==> t.packet is None && after == m
            &&& n > 0 ==> {
                &&& t.packet == Some(m.packets[0])
                &&& after.packets.len() == n - 1
                &&& forall|i: int|
                    0 <= i < n - 1 ==> #[trigger] after.packets[i] == m.packets[i + 1]
                &&& after == NetEqModel { packets: after.packets, ..m }
            }
        }),
{
}

/// A packet of the stream is taken in: it waits afterwards, in place of one
/// with its timestamp. Where there is room, nothing else goes.
pub proof fn lemma_audio_taken_in(m: NetEqModel, p: AudioModel, next_ewma: Duration)
    requires
        p.stream_id == m.stream_id,
        m.packets.len() < m.config.max_packets,
    ensures
        ({
            let after = m.push(p, next_ewma);
            &&& after.packets.contains(p)
            &&& forall|q: AudioModel|
                m.packets.contains(q) && q.timestamp != p.timestamp ==> after.packets.contains(q)
            &&& forall|q: AudioModel|
                after.packets.contains(q) ==> q == p || m.packets.contains(q)
            &&& (forall|i: int|
                0 <= i < m.packets.len() ==> (#[trigger] m.packets[i]).timestamp != p.timestamp)
                ==> after.packets.len() == m.packets.len() + 1
            &&& (exists|i: int|
                0 <= i < m.packets.len() && (#[trigger] m.packets[i]).timestamp == p.timestamp)
                ==> after.packets.len() == m.packets.len()
            &&& after.last_arrival == Some(p.arrived_at)
        }),
{
    lemma_placed(m, p);
}

proof fn lemma_placed(m: NetEqModel, p: AudioModel)
    ensures
        ({
            let all = m.placed(p);
            &&& all.contains(p)
            &&& forall|q: AudioModel|
                m.packets.contains(q) && q.timestamp != p.timestamp ==> all.contains(q)
            &&& forall|q: AudioModel| all.contains(q) ==> q == p || m.packets.contains(q)
            &&& (forall|i: int|
                0 <= i < m.packets.len() ==> (#[trigger] m.packets[i]).timestamp != p.timestamp)
                ==> all.len() == m.packets.len() + 1
            &&& (exists|i: int|
                0 <= i < m.packets.len() && (#[trigger] m.packets[i]).timestamp == p.timestamp)
                ==> all.len() == m.packets.len()
        }),
{
    let same = |q: AudioModel| q.timestamp == p.timestamp;
    let after = |q: AudioModel| jitter::later(q.timestamp, p.timestamp);
    jitter::lemma_position(m.packets, same, 0);
    jitter::lemma_position(m.packets, after, 0);
    let all = m.placed(p);
    match jitter::position(m.packets, same, 0) {
        Some(k) => {
            assert(same(m.packets[k]));
            assert(all[k] == p);
            assert forall|q: AudioModel| m.packets.contains(q) && q.timestamp
                != p.timestamp implies all.contains(q) by {
                let i = choose|i: int| 0 <= i < m.packets.len() && m.packets[i] == q;
                assert(all[i] == q);
            }
            assert forall|q: AudioModel| all.contains(q) implies q == p || m.packets.contains(q) by {
                let i = choose|i: int| 0 <= i < all.len() && all[i] == q;
                if i != k {
                    assert(m.packets[i] == q);
                }
            }
        },
        None => {
            assert(forall|i: int|
                0 <= i < m.packets.len() ==> !same(#[trigger] m.packets[i]));
            let k = match jitter::position(m.packets, after, 0) {
                Some(k) => k,
                None => m.packets.len() as int,
            };
            assert(all =~= m.packets.insert(k, p));
            assert(all[k] == p);
            assert forall|q: AudioModel| m.packets.contains(q) implies all.contains(q) by {
                let i = choose|i: int| 0 <= i < m.packets.len() && m.packets[i] == q;
                if i < k {
                    assert(all[i] == q);
                } else {
                    assert(all[i + 1] == q);
                }
            }
            assert forall|q: AudioModel| all.contains(q) implies q == p || m.packets.contains(q) by {
                let i = choose|i: int| 0 <= i < all.len() && all[i] == q;
                if i < k {
                    assert(m.packets[i] == q);
                } else if i > k {
                    assert(m.packets[i - 1] == q);
                }
            }
        },
    }
}

/// No more than the bound waits, whatever comes, and what waits was there or
/// has just come. Another stream's packet changes nothing.
pub proof fn lemma_audio_bounded(m: NetEqModel, p: AudioModel, next_ewma: Duration)
    ensures
        p.stream_id != m.stream_id ==> m.push(p, next_ewma) == m,
        p.stream_id == m.stream_id ==> {
            let after = m.push(p, next_ewma);
            &&& after.packets.len() <= m.config.max_packets
            &&& forall|q: AudioModel|
                after.packets.contains(q) ==> q == p || m.packets.contains(q)
        },
{
    if p.stream_id == m.stream_id {
        lemma_placed(m, p);
        let all = m.placed(p);
        let after = m.push(p, next_ewma).packets;
        assert forall|q: AudioModel| after.contains(q) implies q == p || m.packets.contains(q) by {
            let i = choose|i: int| 0 <= i < after.len() && after[i] == q;
            let cut = all.len() - after.len();
            assert(all[i + cut] == q);
            assert(all.contains(q));
        }
    }
}

/// When the bound is reached, the packet that is played first makes way, and
/// those that remain keep their order.
pub proof fn lemma_audio_makes_way(m: NetEqModel, p: AudioModel, next_ewma: Duration)
    requires
        p.stream_id == m.stream_id,
        m.config.max_packets > 0,
        m.packets.len() == m.config.max_packets,
        forall|i: int|
            0 <= i < m.packets.len() ==> 0 < #[trigger] jitter::past(
                p.timestamp,
                m.packets[i].timestamp,
            ) < 0x8000_0000,
    ensures
        ({
            let after = m.push(p, next_ewma).packets;
            let n = m.packets.len();
            &&& after.len() == n
            &&& after[n - 1] == p
            &&& forall|i: int| 0 <= i < n - 1 ==> #[trigger] after[i] == m.packets[i + 1]
        }),
{
    let same = |q: AudioModel| q.timestamp == p.timestamp;
    let after = |q: AudioModel| jitter::later(q.timestamp, p.timestamp);
    jitter::lemma_position(m.packets, same, 0);
    jitter::lemma_position(m.packets, after, 0);
    assert forall|i: int| 0 <= i < m.packets.len() implies !same(m.packets[i]) && !after(
        #[trigger] m.packets[i],
    ) by {
        let q = m.packets[i].timestamp;
        assert(0 < jitter::past(p.timestamp, q) < 0x8000_0000);
    }
    assert(m.placed(p) =~= m.packets.push(p));
}

/// A packet with a new timestamp stands in front of the first that is later, on
/// the circle of timestamps, and the others keep their order.
pub proof fn lemma_audio_in_order(m: NetEqModel, p: AudioModel, next_ewma: Duration)
    requires
        p.stream_id == m.stream_id,
        m.packets.len() < m.config.max_packets,
        forall|i: int|
            0 <= i < m.packets.len() ==> (#[trigger] m.packets[i]).timestamp != p.timestamp,
    ensures
        exists|k: int|
            {
                &&& 0 <= k <= m.packets.len()
                &&& m.push(p, next_ewma).packets == #[trigger] m.packets.insert(k, p)
                &&& forall|i: int|
                    0 <= i < k ==> ((#[trigger] m.packets[i]).timestamp - p.timestamp)
                        % 0x1_0000_0000 >= 0x8000_0000
                &&& k < m.packets.len() ==> (m.packets[k].timestamp - p.timestamp) % 0x1_0000_0000
                    < 0x8000_0000
            },
{
    let same = |q: AudioModel| q.timestamp == p.timestamp;
    let after = |q: AudioModel| jitter::later(q.timestamp, p.timestamp);
    jitter::lemma_position(m.packets, same, 0);
    jitter::lemma_position(m.packets, after, 0);
    assert forall|i: int| 0 <= i < m.packets.len() implies !same(#[trigger] m.packets[i]) by {}
    let k = match jitter::position(m.packets, after, 0) {
        Some(k) => k,
        None => m.packets.len() as int,
    };
    assert(m.placed(p) =~= m.packets.insert(k, p));
    assert forall|i: int| 0 <= i < k implies ((#[trigger] m.packets[i]).timestamp - p.timestamp)
        % 0x1_0000_0000 >= 0x8000_0000 by {
        assert(!after(m.packets[i]));
        assert(m.packets[i].timestamp != p.timestamp);
    }
}

/// From the second packet on, the delay aimed at is the smoothed gap, half a
/// second at most, brought within its bounds.
pub proof fn lemma_audio_adapts(m: NetEqModel, p: AudioModel, next_ewma: Duration)
    requires
        p.stream_id == m.stream_id,
    ensures
        ({
            let after = m.push(p, next_ewma);
            let lo = m.config.min_delay.nanos;
            let hi = m.config.max_delay.nanos;
            let gap = if next_ewma.nanos > 500_000_000 {
                500_000_000
            } else {
                next_ewma.nanos
            };
            &&& m.last_arrival is None ==> after.target == m.target && after.ewma == m.ewma
            &&& m.last_arrival is Some ==> after.ewma.nanos == gap && (lo <= gap <= hi
                ==> after.target.nanos == gap) && (gap < lo <= hi ==> after.target.nanos == lo) && (
            gap > hi ==> after.target.nanos == hi)
        }),
{
}

/// Whether a video frame can be decoded: it is a keyframe, or it follows the
/// frame decoded last and no keyframe is needed.
pub open spec fn fit(m: VideoModel, f: AssembledModel) -> bool {
    f.flags.key || (!m.keyframe_required && m.last_decoded is Some && f.frame_id == (
    m.last_decoded->0 + 1) % 0x1_0000_0000)
}

/// Whether the time of a frame has come, or nearly so.
pub open spec fn timely(m: VideoModel, s: ScheduledModel, now: Instant) -> bool {
    now.nanos + m.config.late_grace.nanos >= s.deadline.nanos
}

/// Whether the first of two or more frames is past its deadline and the grace.
pub open spec fn overdue(m: VideoModel, now: Instant) -> bool {
    m.frames.len() >= 2 && now.nanos > m.frames[0].deadline.nanos + m.config.late_grace.nanos
}

/// A frame is dropped just when it is the first, is past its deadline by more
/// than the grace, and a newer one is held. The others stay, nothing counts as
/// decoded, and a keyframe is needed.
pub proof fn lemma_video_drop(m: VideoModel, now: Instant, decoder_ready: bool)
    requires
        m.wf(),
    ensures
        ({
            let (after, r) = m.poll(now, decoder_ready);
            &&& r is DroppedLate <==> decoder_ready && overdue(m, now)
            &&& r matches PollModel::DroppedLate { frame_id, payload_len } ==> {
                &&& frame_id == m.frames[0].frame.frame_id
                &&& payload_len == m.frames[0].frame.payload.len()
                &&& m.frames[1].frame.frame_id > frame_id
                &&& after.frames.len() == m.frames.len() - 1
                &&& forall|i: int|
                    0 <= i < after.frames.len() ==> #[trigger] after.frames[i] == m.frames[i + 1]
                &&& after == VideoModel {
                    frames: after.frames,
                    keyframe_required: true,
                    ..m
                }
            }
        }),
{
}

/// What is decoded can be decoded, and is the first whose time has come, or the
/// first at all where frames need not wait. It goes; the others stay.
pub proof fn lemma_video_decode(m: VideoModel, now: Instant, decoder_ready: bool)
    requires
        m.poll(now, decoder_ready).1 is Decode,
    ensures
        ({
            let (after, r) = m.poll(now, decoder_ready);
            let f = r->Decode_0;
            &&& decoder_ready
            &&& !overdue(m, now)
            &&& fit(m, f)
            &&& exists|i: int|
                {
                    &&& 0 <= i < m.frames.len()
                    &&& (#[trigger] m.frames[i]).frame == f
                    &&& timely(m, m.frames[i], now) || m.keyframe_required
                        || m.config.min_delay.nanos == 0
                    &&& forall|j: int|
                        0 <= j < i && fit(m, (#[trigger] m.frames[j]).frame) ==> !timely(
                            m,
                            m.frames[j],
                            now,
                        ) && timely(m, m.frames[i], now)
                    &&& after.frames == m.frames.remove(i)
                }
            &&& after == VideoModel {
                frames: after.frames,
                last_decoded: Some(f.frame_id),
                last_decoded_at: Some(now),
                keyframe_required: m.keyframe_required && !f.flags.key,
                ..m
            }
        }),
{
    jitter::lemma_pick(m, now);
    let i = m.pick(now)->0;
    let due = |s: ScheduledModel| m.due(s, now);
    let can = |s: ScheduledModel| m.decodable(s.frame);
    jitter::lemma_position(m.frames, due, 0);
    jitter::lemma_position(m.frames, can, 0);
    assert(m.frames[i].frame == m.poll(now, decoder_ready).1->Decode_0);
    assert forall|j: int| 0 <= j < i && fit(m, (#[trigger] m.frames[j]).frame) implies !timely(
        m,
        m.frames[j],
        now,
    ) && timely(m, m.frames[i], now) by {
        assert(can(m.frames[j]));
        assert(due(m.frames[j]) == m.due(m.frames[j], now));
        assert(due(m.frames[i]) == m.due(m.frames[i], now));
    }
}

/// A ready decoder gets a frame: where the first is not to be dropped, one that
/// can be decoded and whose time has come is decoded; so is one that can be
/// decoded at all while a keyframe is needed or there is no least delay.
pub proof fn lemma_video_progress(m: VideoModel, now: Instant, i: int)
    requires
        !overdue(m, now),
        0 <= i < m.frames.len(),
        fit(m, m.frames[i].frame),
        timely(m, m.frames[i], now) || m.keyframe_required || m.config.min_delay.nanos == 0,
    ensures
        m.poll(now, true).1 is Decode,
        m.frames.len() == 1 ==> m.poll(now, true).1 == PollModel::Decode(m.frames[0].frame),
{
    jitter::lemma_pick(m, now);
    assert(m.frames[i] == m.frames[i]);
    assert(m.decodable(m.frames[i].frame));
    assert(timely(m, m.frames[i], now) ==> m.due(m.frames[i], now));
}

/// Without a ready decoder no frame moves.
pub proof fn lemma_video_unready(m: VideoModel, now: Instant)
    ensures
        m.poll(now, false).1 is Wait || m.poll(now, false).1 is KeyframeReq,
        m.poll(now, false).0.frames == m.frames,
        m.poll(now, false).0.last_decoded == m.last_decoded,
{
}

/// Whether nothing was decoded for as long as counts as a stall, though frames
/// wait or came within twice that time.
pub open spec fn stuck(m: VideoModel, now: Instant) -> bool {
    let limit = m.config.stall_timeout.nanos;
    let since = match m.last_decoded_at {
        Some(t) => Some(t.nanos),
        None => match m.last_arrival {
            Some(t) => Some(t.nanos),
            None => None,
        },
    };
    &&& since matches Some(t) && elapsed(now.nanos, t) >= limit
    &&& m.frames.len() > 0 || (m.last_arrival matches Some(t) && elapsed(now.nanos, t.nanos) < 2
        * limit)
}

/// How much later `now` is than `t`; nothing where it is not later.
pub open spec fn elapsed(now: u64, t: u64) -> int {
    if now > t {
        now - t
    } else {
        0
    }
}

/// A keyframe is asked for just when the last request is long enough ago,
/// nothing is dropped or decoded, and either a ready decoder finds nothing that
/// can be decoded or decoding is stuck. Then only a keyframe can be decoded.
pub proof fn lemma_video_request(m: VideoModel, now: Instant, decoder_ready: bool)
    requires
        2 * m.config.stall_timeout.nanos <= u64::MAX,
    ensures
        ({
            let (after, r) = m.poll(now, decoder_ready);
            let may = m.last_keyframe_req matches Some(t) ==> elapsed(now.nanos, t.nanos)
                >= m.config.keyframe_interval.nanos;
            let idle = !(r is Decode) && !(r is DroppedLate);
            let none = forall|i: int|
                0 <= i < m.frames.len() ==> !fit(m, (#[trigger] m.frames[i]).frame);
            &&& r is KeyframeReq <==> idle && may && (stuck(m, now) || (decoder_ready && none))
            &&& r matches PollModel::KeyframeReq { stream_id } ==> stream_id == m.stream_id
                && after == VideoModel {
                last_keyframe_req: Some(now),
                keyframe_required: true,
                ..m
            }
            &&& r is Wait ==> after == m
        }),
{
    assert(stuck(m, now) == m.stalled(now));
    assert((forall|i: int|
        0 <= i < m.frames.len() ==> !fit(m, (#[trigger] m.frames[i]).frame))
        == !m.any_decodable()) by {
        if m.any_decodable() {
            let i = choose|i: int|
                0 <= i < m.frames.len() && m.decodable((#[trigger] m.frames[i]).frame);
            assert(fit(m, m.frames[i].frame));
        } else {
            assert forall|i: int| 0 <= i < m.frames.len() implies !fit(
                m,
                (#[trigger] m.frames[i]).frame,
            ) by {
                assert(!m.decodable(m.frames[i].frame));
            }
        }
    }
}

/// How long a frame that arrives now waits: the jitter and the time to render,
/// within the bounds. The jitter counts a second at most.
pub open spec fn wait_of(m: VideoModel, next_jitter: Duration) -> int {
    let jitter: int = if m.last_arrival is None {
        m.jitter.nanos as int
    } else if next_jitter.nanos > 1_000_000_000 {
        1_000_000_000
    } else {
        next_jitter.nanos as int
    };
    let raw = jitter + m.config.render_delay.nanos;
    if m.config.max_delay.nanos <= m.config.min_delay.nanos || raw > m.config.max_delay.nanos {
        m.config.max_delay.nanos as int
    } else if raw < m.config.min_delay.nanos {
        m.config.min_delay.nanos as int
    } else {
        raw
    }
}

/// A new frame of the stream is held with its deadline, and where there is room
/// nothing else goes. A frame that is held, or of another stream, changes
/// nothing.
pub proof fn lemma_video_taken_in(
    m: VideoModel,
    f: AssembledModel,
    now: Instant,
    next_jitter: Duration,
)
    requires
        m.wf(),
        m.frames.len() < m.config.max_frames,
        now.nanos + wait_of(m, next_jitter) <= u64::MAX,
        m.jitter.nanos + m.config.render_delay.nanos <= u64::MAX,
        next_jitter.nanos + m.config.render_delay.nanos <= u64::MAX,
    ensures
        ({
            let after = m.push(f, now, next_jitter);
            let known = f.stream_id != m.stream_id || exists|i: int|
                0 <= i < m.frames.len() && (#[trigger] m.frames[i]).frame.frame_id == f.frame_id;
            &&& known ==> after == m
            &&& !known ==> {
                &&& after.last_arrival == Some(now)
                &&& after.last_decoded == m.last_decoded
                &&& after.keyframe_required == m.keyframe_required
                &&& after.frames.len() == m.frames.len() + 1
                &&& forall|i: int|
                    0 <= i < m.frames.len() ==> after.frames.contains(#[trigger] m.frames[i])
                &&& exists|i: int|
                    0 <= i < after.frames.len() && (#[trigger] after.frames[i]).frame == f
                        && after.frames[i].deadline.nanos == now.nanos + wait_of(m, next_jitter)
            }
        }),
{
    if f.stream_id == m.stream_id && !m.holds(f.frame_id) {
        let after = m.push(f, now, next_jitter);
        let s = ScheduledModel {
            frame: f,
            deadline: Instant { nanos: (now.nanos + wait_of(m, next_jitter)) as u64 },
        };
        lemma_insert_holds(m.frames, s);
        let all = jitter::insert_by_id(m.frames, s);
        assert(after.frames == all);
        assert(all.contains(s));
        let k = choose|k: int| 0 <= k < all.len() && all[k] == s;
        assert(after.frames[k].frame == f);
    }
}

proof fn lemma_insert_holds(frames: Seq<ScheduledModel>, s: ScheduledModel)
    ensures
        ({
            let all = jitter::insert_by_id(frames, s);
            &&& all.len() == frames.len() + 1
            &&& all.contains(s)
            &&& forall|i: int| 0 <= i < frames.len() ==> all.contains(#[trigger] frames[i])
        }),
    decreases frames.len(),
{
    let all = jitter::insert_by_id(frames, s);
    if frames.len() == 0 || frames.last().frame.frame_id <= s.frame.frame_id {
        assert(all[frames.len() as int] == s);
        assert forall|i: int| 0 <= i < frames.len() implies all.contains(#[trigger] frames[i]) by {
            assert(all[i] == frames[i]);
        }
    } else {
        let front = frames.drop_last();
        lemma_insert_holds(front, s);
        let part = jitter::insert_by_id(front, s);
        let k = choose|k: int| 0 <= k < part.len() && part[k] == s;
        assert(all[k] == s);
        assert forall|i: int| 0 <= i < frames.len() implies all.contains(#[trigger] frames[i]) by {
            if i < front.len() {
                assert(front[i] == frames[i]);
                assert(part.contains(front[i]));
                let j = choose|j: int| 0 <= j < part.len() && part[j] == front[i];
                assert(all[j] == frames[i]);
            } else {
                assert(all[all.len() - 1] == frames[i]);
            }
        }
    }
}

/// When the bound is reached, one frame makes way: the oldest that is no
/// keyframe, or the oldest where all are keyframes.
pub proof fn lemma_video_makes_way(
    m: VideoModel,
    f: AssembledModel,
    now: Instant,
    next_jitter: Duration,
)
    requires
        m.wf(),
        m.frames.len() == m.config.max_frames,
        f.stream_id == m.stream_id,
        forall|i: int| 0 <= i < m.frames.len() ==> (#[trigger] m.frames[i]).frame.frame_id
            < f.frame_id,
    ensures
        ({
            let after = m.push(f, now, next_jitter).frames;
            let n = m.frames.len();
            let all = Seq::new(
                n + 1,
                |j: int|
                    if j < n {
                        m.frames[j].frame
                    } else {
                        f
                    },
            );
            &&& after.len() == n
            &&& exists|k: int|
                {
                    &&& 0 <= k <= n
                    &&& forall|j: int|
                        0 <= j < n ==> (#[trigger] after[j]).frame == (if j < k {
                            all[j]
                        } else {
                            all[j + 1]
                        })
                    &&& !(#[trigger] all[k]).flags.key || (k == 0 && forall|j: int|
                        0 <= j <= n ==> (#[trigger] all[j]).flags.key)
                    &&& forall|j: int| 0 <= j < k ==> (#[trigger] all[j]).flags.key
                }
        }),
{
    let n = m.frames.len();
    let all = Seq::new(
        n + 1,
        |j: int|
            if j < n {
                m.frames[j].frame
            } else {
                f
            },
    );
    let t = if m.last_arrival is Some {
        VideoModel { jitter: next_jitter.at_most(Duration::from_millis(1000)), ..m }
    } else {
        m
    };
    let held = ScheduledModel { frame: f, deadline: now.after(t.delay()) };
    assert(!m.holds(f.frame_id));
    let full = m.frames.push(held);
    assert(jitter::insert_by_id(m.frames, held) =~= full) by {
        if n > 0 {
            assert(m.frames[n - 1].frame.frame_id < f.frame_id);
        }
    }
    let delta = |x: ScheduledModel| !x.frame.flags.key;
    jitter::lemma_position(full, delta, 0);
    let k = match jitter::position(full, delta, 0) {
        Some(i) => i,
        None => 0,
    };
    let after = m.push(f, now, next_jitter).frames;
    assert(jitter::trim(full.remove(k), m.config.max_frames as int) == full.remove(k));
    assert(after == full.remove(k));
    assert forall|j: int| 0 <= j <= n implies delta(#[trigger] full[j]) == !all[j].flags.key
        && all[j] == full[j].frame by {}
    assert forall|j: int| 0 <= j < k implies (#[trigger] all[j]).flags.key by {
        assert(!delta(full[j]));
    }
    assert(all[k] == full[k].frame);
    assert(delta(full[k]) == !all[k].flags.key);
    if jitter::position(full, delta, 0) is None {
        assert forall|j: int| 0 <= j <= n implies (#[trigger] all[j]).flags.key by {
            assert(!delta(full[j]));
        }
    }
    assert forall|j: int| 0 <= j < n implies (#[trigger] after[j]).frame == (if j < k {
        all[j]
    } else {
        all[j + 1]
    }) by {
        if j < k {
            assert(after[j] == full[j]);
        } else {
            assert(after[j] == full[j + 1]);
        }
    }
}

/// A reset drops every frame, and only a keyframe can be decoded next.
pub proof fn lemma_video_reset(m: VideoModel, now: Instant, f: AssembledModel)
    ensures
        ({
            let after = m.reset(now);
            &&& after.frames.len() == 0
            &&& fit(after, f) <==> f.flags.key
            &&& after.config == m.config
            &&& after.stream_id == m.stream_id
            &&& after.jitter == m.jitter
        }),
{
}

} // verus!
