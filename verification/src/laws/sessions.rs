//! A session as a whole: what is queued, what leaves, what is given out, and
//! who gets which rate.

use crate::codec::{EncodedModel, MediaKind, PushError};
use crate::fec::RecoveredModel;
use crate::feedback::PacketResult;
use crate::fragment;
use crate::fragment::FragmentParams;
use crate::jitter;
use crate::laws::playout;
use crate::laws::reports;
use crate::laws::sending;
use crate::laws::upkeep;
use crate::packet::{Flags, PacketModel};
use crate::reassembly::AssembledModel;
use crate::send_queue::{OutModel, Priority, QueueModel};
use crate::session;
use crate::session::{QrtConfig, SessionModel};
use crate::time::{Duration, Instant};
use crate::track;
use crate::track::{TrackConfig, TrackModel};
use vstd::prelude::*;

verus! {

/// Audio gets a tenth of the rate, 16 kilobits at least and 64 kilobits for each
/// track at most, in equal parts; video gets the rest, in equal parts.
pub proof fn lemma_shares(target_bps: u64, video_tracks: nat, audio_tracks: nat)
    ensures
        ({
            let a = audio_tracks as int;
            let v = if video_tracks == 0 {
                1
            } else {
                video_tracks as int
            };
            let tenth = target_bps as int / 10;
            let audio = if a == 0 {
                0
            } else if tenth < 16_000 {
                16_000
            } else if tenth > 64_000 * a {
                64_000 * a
            } else {
                tenth
            };
            let rest = if audio > target_bps {
                0
            } else {
                target_bps - audio
            };
            &&& a > 0 ==> session::share(
                target_bps,
                video_tracks,
                audio_tracks,
                MediaKind::Audio,
            ) == audio / a
            &&& session::share(target_bps, video_tracks, audio_tracks, MediaKind::Video) == rest
                / v
        }),
{
}

/// The rate of the encoders together falls with the time that the send queue
/// takes at the pacing rate, and by half when the window is full.
pub proof fn lemma_encoders_pushed_back(m: SessionModel)
    requires
        m.pacer.queue.load() * 8_000_000_000 <= u64::MAX,
        m.bwe.target >= 4,
    ensures
        ({
            let r = m.pacer.config.pacing_rate_bps;
            let us = if r == 0 {
                0
            } else {
                m.pacer.queue.load() * 8_000_000 / r as int
            };
            let t = m.bwe.target;
            let kept = if us > 500_000 {
                t * 3 / 4
            } else if us > 250_000 {
                t * 9 / 10
            } else {
                t as int
            };
            let full = m.window matches Some(w) && m.sent.in_flight() > w;
            m.encoder_target() == if full {
                kept / 2
            } else {
                kept
            }
        }),
{
    sending::lemma_queue_time(m.pacer.queue, m.pacer.config.pacing_rate_bps);
    let r = m.pacer.config.pacing_rate_bps as int;
    if r > 0 && m.pacer.queue.load() == 0 {
        assert(0int / r == 0) by (nonlinear_arith)
            requires
                r > 0,
        ;
    }
}

/// A round-trip time is in force everywhere at once: a millisecond at least, for
/// what may be sent again and for the requests of every track.
pub proof fn lemma_round_trip(m: SessionModel, rtt: Duration)
    ensures
        ({
            let after = m.timed(rtt);
            let n = if rtt.nanos < 1_000_000 {
                1_000_000
            } else {
                rtt.nanos
            };
            &&& after.rtt.nanos == n
            &&& after.history.rtt.nanos == n
            &&& after.tracks.dom() == m.tracks.dom()
            &&& forall|k: u64| #[trigger]
                m.tracks.contains_key(k) ==> after.tracks[k].nack.rtt.nanos == n
                    && after.tracks[k].nack.pending == m.tracks[k].nack.pending
                    && after.tracks[k].video == m.tracks[k].video && after.tracks[k].audio
                    == m.tracks[k].audio
            &&& after.pacer == m.pacer
        }),
{
    assert(m.timed(rtt).tracks.dom() =~= m.tracks.dom());
}

/// The last matched datagram that arrived is the last in the list with a time of
/// arrival.
pub proof fn lemma_last_arrived(packets: Seq<PacketResult>)
    ensures
        match session::last_received(packets) {
            Some(p) => exists|i: int|
                {
                    &&& 0 <= i < packets.len()
                    &&& #[trigger] packets[i] == p
                    &&& p.receive_time is Some
                    &&& forall|j: int|
                        i < j < packets.len() ==> (#[trigger] packets[j]).receive_time is None
                },
            None => forall|j: int|
                0 <= j < packets.len() ==> (#[trigger] packets[j]).receive_time is None,
        },
    decreases packets.len(),
{
    if packets.len() > 0 {
        let n = packets.len() - 1;
        assert(packets[n] == packets.last());
        if packets.last().receive_time is None {
            let front = packets.drop_last();
            lemma_last_arrived(front);
            assert forall|j: int| 0 <= j < n implies #[trigger] packets[j] == front[j] by {}
            if let Some(p) = session::last_received(front) {
                let i = choose|i: int|
                    {
                        &&& 0 <= i < front.len()
                        &&& #[trigger] front[i] == p
                        &&& p.receive_time is Some
                        &&& forall|j: int|
                            i < j < front.len() ==> (#[trigger] front[j]).receive_time is None
                    };
                assert(packets[i] == p);
            }
        }
    }
}

/// A report gives the round-trip time: from the sending of the last datagram
/// that it tells of to its own arrival, where that is between a millisecond and
/// two seconds; otherwise the time stays.
pub proof fn lemma_report_times(m: SessionModel, first: u16, mask: u64, deltas: Seq<u16>, now: Instant)
    ensures
        ({
            let packets = m.sent.matched(first, mask, deltas, now).1.packets;
            let after = m.reported(first, mask, deltas, now).0;
            match session::last_received(packets) {
                Some(p) => {
                    let d = playout::elapsed(now.nanos, p.send_time.nanos);
                    &&& 1_000_000 < d < 2_000_000_000 ==> after.rtt.nanos == d
                        && after.history.rtt.nanos == d
                    &&& !(1_000_000 < d < 2_000_000_000) ==> after.rtt == m.rtt
                        && after.history.rtt == m.history.rtt
                },
                None => after.rtt == m.rtt && after.history.rtt == m.history.rtt,
            }
        }),
{
}

/// Whether a lane holds a packet, from `from` on, with its whole lifetime.
pub open spec fn holds(lane: Seq<OutModel>, from: int, p: PacketModel, now: Instant) -> bool {
    exists|j: int|
        from <= j < lane.len() && (#[trigger] lane[j]).wire == p.wire() && lane[j].deadline.nanos
            == now.nanos + p.header().ttl_ms * 1_000_000
}

/// The lane that a packet is queued in.
pub open spec fn lane_for(p: PacketModel) -> int {
    sending::lane_of(Priority::for_header(p.header()))
}

/// Packets that are queued together are all there, behind what was queued
/// before, which stays.
pub proof fn lemma_all_queued(q: QueueModel, packets: Seq<PacketModel>, now: Instant)
    requires
        q.wf(),
        now.nanos + 65_535 * 1_000_000 <= u64::MAX,
    ensures
        ({
            let after = session::queue_all(q, packets, now);
            &&& after.wf()
            &&& forall|a: int|
                0 <= a < 5 ==> (#[trigger] after.lanes[a]).len() >= q.lanes[a].len()
            &&& forall|a: int, j: int|
                0 <= a < 5 && 0 <= j < q.lanes[a].len() ==> #[trigger] after.lanes[a][j]
                    == q.lanes[a][j]
            &&& forall|i: int|
                0 <= i < packets.len() && (#[trigger] packets[i]).header().ttl_ms > 0 ==> holds(
                    after.lanes[lane_for(packets[i])],
                    q.lanes[lane_for(packets[i])].len() as int,
                    packets[i],
                    now,
                )
        }),
    decreases packets.len(),
{
    if packets.len() > 0 {
        let front = packets.drop_last();
        let p = packets.last();
        lemma_all_queued(q, front, now);
        let mid = session::queue_all(q, front, now);
        let after = session::queue_all(q, packets, now);
        sending::lemma_queued_packet(mid, p, now);
        lemma_still_wf(mid, p, now);
        let l = lane_for(p);
        assert forall|a: int, j: int| 0 <= a < 5 && 0 <= j < mid.lanes[a].len() implies after.lanes[a].len()
            >= mid.lanes[a].len() && #[trigger] after.lanes[a][j] == mid.lanes[a][j] by {}
        assert forall|i: int|
            0 <= i < packets.len() && (#[trigger] packets[i]).header().ttl_ms > 0 implies holds(
            after.lanes[lane_for(packets[i])],
            q.lanes[lane_for(packets[i])].len() as int,
            packets[i],
            now,
        ) by {
            let a = lane_for(packets[i]);
            if i < front.len() {
                assert(front[i] == packets[i]);
                let j = choose|j: int|
                    q.lanes[a].len() <= j < mid.lanes[a].len() && (
                    #[trigger] mid.lanes[a][j]).wire == packets[i].wire()
                        && mid.lanes[a][j].deadline.nanos == now.nanos
                        + packets[i].header().ttl_ms * 1_000_000;
                assert(after.lanes[a][j] == mid.lanes[a][j]);
            } else {
                assert(after.lanes[a][mid.lanes[a].len() as int] == after.lanes[a].last());
            }
        }
    }
}

proof fn lemma_still_wf(q: QueueModel, p: PacketModel, now: Instant)
    requires
        q.wf(),
    ensures
        q.enqueue_packet(p, now).0.wf(),
{
    let r = q.enqueue_packet(p, now).0;
    assert forall|i: int, j: int|
        #![trigger r.lanes[i][j]]
        0 <= i < 5 && 0 <= j < r.lanes[i].len() implies r.lanes[i][j].priority.index() == i by {
        if j < q.lanes[i].len() {
            assert(r.lanes[i][j] == q.lanes[i][j]);
        }
    }
}

/// What becomes of a frame that is handed in: each refusal has its reason, and
/// changes no queue.
pub proof fn lemma_frame_refused(m: SessionModel, f: EncodedModel, now: Instant)
    ensures
        ({
            let (after, r) = m.enqueue_frame(f, now);
            let k = f.stream_id as u64;
            let ttl = if f.ttl_ms is Some {
                f.ttl_ms->0
            } else {
                m.config.default_ttl_ms
            };
            let known = m.tracks.contains_key(k);
            let wanted = f.payload.len() > 0 && ttl > 0;
            &&& r == Err::<(), PushError>(PushError::EmptyFrame) <==> f.payload.len() == 0
            &&& r == Err::<(), PushError>(PushError::UnknownTrack { stream_id: f.stream_id })
                <==> wanted && !known
            &&& r == Err::<(), PushError>(
                PushError::KindMismatch {
                    stream_id: f.stream_id,
                    track: m.tracks[k].kind,
                    frame: f.kind,
                },
            ) <==> wanted && known && m.tracks[k].kind != f.kind
            &&& f.payload.len() > 0 && ttl == 0 ==> r is Ok && after == m
            &&& r is Err ==> after.pacer == m.pacer
        }),
{
}

/// The header fields of the fragments of a frame.
pub open spec fn fields(t: TrackModel, f: EncodedModel, ttl_ms: u16) -> FragmentParams {
    FragmentParams {
        stream_id: f.stream_id,
        frame_id: t.next_frame_id,
        timestamp: f.timestamp,
        ttl_ms,
        flags: Flags {
            retrans: false,
            audio: f.kind == MediaKind::Audio,
            key: f.keyframe && f.kind == MediaKind::Video,
        },
        first_media_seq: t.next_media_seq,
        first_transport_seq: 0,
    }
}

/// A frame that is taken in is queued in all its fragments, numbered on from the
/// last; the next frame gets the next number.
pub proof fn lemma_frame_queued(m: SessionModel, f: EncodedModel, now: Instant, ttl: u16)
    requires
        m.pacer.queue.wf(),
        now.nanos + 65_535 * 1_000_000 <= u64::MAX,
        f.payload.len() > 0,
        ttl > 0,
        f.ttl_ms == Some(ttl) || (f.ttl_ms is None && ttl == m.config.default_ttl_ms),
        m.tracks.contains_key(f.stream_id as u64),
        m.tracks[f.stream_id as u64].kind == f.kind,
        fragment::fragments(
            f.payload,
            fields(m.tracks[f.stream_id as u64], f, ttl),
            m.config.payload_limits,
        ) is Ok,
    ensures
        ({
            let k = f.stream_id as u64;
            let t = m.tracks[k];
            let (after, r) = m.enqueue_frame(f, now);
            let parts = fragment::fragments(
                f.payload,
                fields(t, f, ttl),
                m.config.payload_limits,
            )->Ok_0;
            &&& r is Ok
            &&& forall|i: int|
                0 <= i < parts.len() && (#[trigger] parts[i]).header().ttl_ms > 0 ==> holds(
                    after.pacer.queue.lanes[lane_for(parts[i])],
                    m.pacer.queue.lanes[lane_for(parts[i])].len() as int,
                    parts[i],
                    now,
                )
            &&& forall|a: int, j: int|
                0 <= a < 5 && 0 <= j < m.pacer.queue.lanes[a].len()
                    ==> #[trigger] after.pacer.queue.lanes[a][j] == m.pacer.queue.lanes[a][j]
            &&& after.tracks.contains_key(k)
            &&& after.tracks[k].next_frame_id == (t.next_frame_id + 1) % 0x1_0000_0000
            &&& after.tracks[k].next_media_seq == (t.next_media_seq + parts.len()) % 0x1_0000
            &&& after.history == m.history
            &&& after.next_seq == m.next_seq
        }),
{
    let k = f.stream_id as u64;
    let t = m.tracks[k];
    let parts = fragment::fragments(
        f.payload,
        fields(t, f, ttl),
        m.config.payload_limits,
    )->Ok_0;
    assert(t.frame_params(f, ttl) == fields(t, f, ttl));
    let all = t.split(f, ttl, m.config.payload_limits).1->Ok_0;
    lemma_all_queued(m.pacer.queue, all, now);
    assert forall|i: int| 0 <= i < parts.len() implies #[trigger] parts[i] == all[i] by {}
}

/// A keyframe that the peer asks for is asked of the encoder, if there is a
/// track for the stream; nothing else comes of it but the note of its arrival.
pub proof fn lemma_keyframe_asked(m: SessionModel, datagram: Seq<u8>, now: Instant)
    requires
        PacketModel::parse(datagram) is Ok,
        PacketModel::parse(datagram)->Ok_0 is KeyframeReq,
        PacketModel::parse(datagram)->Ok_0.header().ttl_ms > 0,
    ensures
        ({
            let s = PacketModel::parse(datagram)->Ok_0->KeyframeReq_stream_id;
            let (after, r) = m.handle(datagram, now);
            &&& r.keyframe_for == if m.tracks.contains_key(s as u64) {
                Some(s)
            } else {
                None
            }
            &&& r.frames.len() == 0
            &&& r.report is None
            &&& after == SessionModel { arrivals: after.arrivals, ..m }
        }),
{
}

/// What cannot be decoded changes nothing; what has no time left is only noted.
pub proof fn lemma_dead_datagram(m: SessionModel, datagram: Seq<u8>, now: Instant)
    requires
        PacketModel::parse(datagram) is Ok ==> PacketModel::parse(
            datagram,
        )->Ok_0.header().ttl_ms == 0,
    ensures
        ({
            let (after, r) = m.handle(datagram, now);
            &&& r.frames.len() == 0
            &&& r.report is None
            &&& r.keyframe_for is None
            &&& PacketModel::parse(datagram) is Err ==> after == m
            &&& PacketModel::parse(datagram) is Ok ==> after == SessionModel {
                arrivals: after.arrivals,
                ..m
            }
        }),
{
}

/// Every datagram that can be decoded is noted as arrived, whatever it is.
pub proof fn lemma_arrival_noted(m: SessionModel, datagram: Seq<u8>, now: Instant)
    requires
        PacketModel::parse(datagram) is Ok,
        PacketModel::parse(datagram)->Ok_0.header().ttl_ms == 0 || PacketModel::parse(
            datagram,
        )->Ok_0 is KeyframeReq,
        !m.arrivals.received.contains_key(
            PacketModel::parse(datagram)->Ok_0.header().transport_seq,
        ),
    ensures
        ({
            let s = PacketModel::parse(datagram)->Ok_0.header().transport_seq;
            let after = m.handle(datagram, now).0;
            after.arrivals.received.contains_key(s) && after.arrivals.received[s] == now
        }),
{
    let s = PacketModel::parse(datagram)->Ok_0.header().transport_seq;
    reports::lemma_noted(m.arrivals, s, now);
}

/// What is given out of a track is what playout gives: an audio packet or a
/// video frame with its payload and timestamp as they came.
pub proof fn lemma_given_out(t: TrackModel, now: Instant)
    requires
        t.wf(),
    ensures
        ({
            let (after, ask, f) = t.poll(now);
            &&& t.kind == MediaKind::Audio ==> {
                let a = t.audio->0;
                &&& !ask
                &&& f is Some <==> a.packets.len() > 0
                &&& f matches Some(e) ==> {
                    let p = a.packets[0];
                    &&& e.payload == p.payload
                    &&& e.timestamp == p.timestamp
                    &&& e.stream_id == p.stream_id
                    &&& e.kind == MediaKind::Audio
                    &&& !e.keyframe
                }
            }
            &&& t.kind == MediaKind::Video && f is Some ==> {
                let e = f->0;
                exists|i: int|
                    {
                        &&& 0 <= i < t.video->0.frames.len()
                        &&& (#[trigger] t.video->0.frames[i]).frame.payload == e.payload
                        &&& t.video->0.frames[i].frame.timestamp == e.timestamp
                        &&& t.video->0.frames[i].frame.flags.key == e.keyframe
                        &&& t.video->0.frames[i].frame.stream_id == e.stream_id
                        &&& e.kind == MediaKind::Video
                    }
            }
        }),
{
    if t.kind == MediaKind::Video {
        lemma_next_video(t.video->0, now);
    }
}

proof fn lemma_next_video(v: jitter::VideoModel, now: Instant)
    requires
        v.wf(),
        v.config.keyframe_interval.nanos > 0,
    ensures
        track::next_video(v, now).2 matches Some(f) ==> exists|i: int|
            0 <= i < v.frames.len() && (#[trigger] v.frames[i]).frame == f,
    decreases
            v.frames.len(),
            if v.may_ask(now) {
                1int
            } else {
                0int
            },
{
    let (after, r) = v.poll(now, true);
    jitter::lemma_pick(v, now);
    track::lemma_next_video(v, now);
    match r {
        jitter::PollModel::DroppedLate { .. } => {
            assert(after.frames =~= v.frames.drop_first());
            assert(after.wf());
            lemma_next_video(after, now);
            if let Some(f) = track::next_video(after, now).2 {
                let i = choose|i: int|
                    0 <= i < after.frames.len() && (#[trigger] after.frames[i]).frame == f;
                assert(v.frames[i + 1] == after.frames[i]);
            }
        },
        jitter::PollModel::KeyframeReq { .. } => {
            lemma_next_video(after, now);
            if let Some(f) = track::next_video(after, now).2 {
                let i = choose|i: int|
                    0 <= i < after.frames.len() && (#[trigger] after.frames[i]).frame == f;
                assert(v.frames[i] == after.frames[i]);
            }
        },
        jitter::PollModel::Decode(f) => {
            assert(v.frames[v.pick(now)->0].frame == f);
        },
        jitter::PollModel::Wait => {},
    }
}

/// A video frame that can be decoded and whose time has come is given out, where
/// nothing before it is to be dropped.
pub proof fn lemma_due_given_out(t: TrackModel, now: Instant, i: int)
    requires
        t.wf(),
        t.kind == MediaKind::Video,
        ({
            let v = t.video->0;
            &&& 0 <= i < v.frames.len()
            &&& !playout::overdue(v, now)
            &&& playout::fit(v, v.frames[i].frame)
            &&& playout::timely(v, v.frames[i], now) || v.keyframe_required
                || v.config.min_delay.nanos == 0
        }),
    ensures
        t.poll(now).2 is Some,
        !t.poll(now).1,
{
    playout::lemma_video_progress(t.video->0, now, i);
}

/// A complete frame goes to the playout of its track: it is held there, if it is
/// new and there is room.
pub proof fn lemma_delivered(m: SessionModel, f: AssembledModel, now: Instant, smoothed: Duration)
    requires
        m.tracks.contains_key(f.stream_id as u64),
        m.tracks[f.stream_id as u64].wf(),
        m.tracks[f.stream_id as u64].stream_id == f.stream_id,
    ensures
        ({
            let k = f.stream_id as u64;
            let t = m.tracks[k];
            let after = m.delivered(f, now, smoothed).tracks[k];
            &&& t.kind == MediaKind::Audio && t.audio->0.packets.len()
                < t.audio->0.config.max_packets ==> exists|i: int|
                {
                    &&& 0 <= i < after.audio->0.packets.len()
                    &&& (#[trigger] after.audio->0.packets[i]).payload == f.payload
                    &&& after.audio->0.packets[i].timestamp == f.timestamp
                    &&& after.audio->0.packets[i].arrived_at == now
                }
            &&& t.kind == MediaKind::Video && t.video->0.frames.len()
                < t.video->0.config.max_frames && (forall|i: int|
                0 <= i < t.video->0.frames.len() ==> (
                #[trigger] t.video->0.frames[i]).frame.frame_id != f.frame_id) && now.nanos
                + playout::wait_of(t.video->0, smoothed) <= u64::MAX && t.video->0.jitter.nanos
                + t.video->0.config.render_delay.nanos <= u64::MAX && smoothed.nanos
                + t.video->0.config.render_delay.nanos <= u64::MAX ==> exists|i: int|
                0 <= i < after.video->0.frames.len() && (
                #[trigger] after.video->0.frames[i]).frame == f
        }),
{
    let k = f.stream_id as u64;
    let t = m.tracks[k];
    if t.kind == MediaKind::Audio {
        let p = jitter::AudioModel {
            stream_id: f.stream_id,
            timestamp: f.timestamp,
            payload: f.payload,
            arrived_at: now,
        };
        if t.audio->0.packets.len() < t.audio->0.config.max_packets {
            playout::lemma_audio_taken_in(t.audio->0, p, smoothed);
            let after = t.audio->0.push(p, smoothed);
            let i = choose|i: int| 0 <= i < after.packets.len() && after.packets[i] == p;
            assert(after.packets[i].payload == f.payload);
        }
    } else {
        let v = t.video->0;
        if v.frames.len() < v.config.max_frames && now.nanos + playout::wait_of(v, smoothed)
            <= u64::MAX && v.jitter.nanos + v.config.render_delay.nanos <= u64::MAX
            && smoothed.nanos + v.config.render_delay.nanos <= u64::MAX {
            playout::lemma_video_taken_in(v, f, now, smoothed);
        }
    }
}

/// Whether an idle sender may pace at twice its rate: every 50 milliseconds at
/// most, and never slower than before. Others pace as before.
pub proof fn lemma_idle_pace(m: SessionModel, now: Instant)
    requires
        m.bwe.target * 2 <= u64::MAX,
    ensures
        ({
            let due = m.last_probe_at matches Some(t) ==> playout::elapsed(now.nanos, t.nanos)
                >= 50_000_000;
            let idle = m.pacer.queue.count() == 0;
            let old = m.pacer.config.pacing_rate_bps;
            let after = m.probed(now);
            &&& !due ==> after == m
            &&& due ==> after.last_probe_at == Some(now)
            &&& due && !idle ==> after.pacer == m.pacer
            &&& due && idle ==> after.pacer.config.pacing_rate_bps == if 2 * m.bwe.target > old {
                2 * m.bwe.target
            } else {
                old as int
            }
            &&& after.pacer.queue == m.pacer.queue
            &&& after.bwe.target == m.bwe.target
        }),
{
}

/// A new rate is in force for the pacer, which is never slower than the
/// encoders, and for what may be sent again in half a second; what was used of
/// that budget stays used.
pub proof fn lemma_rate_in_force(m: SessionModel, scaled: u64)
    requires
        m.encoder_target() * 500 <= u64::MAX,
    ensures
        ({
            let after = m.rated(scaled);
            let t = m.encoder_target();
            &&& after.pacer.config.pacing_rate_bps == if scaled > t {
                scaled
            } else {
                t
            }
            &&& after.history.limiter is Some
            &&& after.history.limiter->0.budget == if t * 500 < 8_000 {
                1
            } else {
                t * 500 / 8 / 1000
            }
            &&& m.history.limiter matches Some(l) ==> after.history.limiter->0.grants == l.grants
                && after.history.limiter->0.window == l.window
            &&& after.history.entries == m.history.entries
            &&& after.bwe == m.bwe
            &&& after.pacer.queue == m.pacer.queue
        }),
{
}

proof fn lemma_poll_apart(m: SessionModel, stream_id: u8, now: Instant, other: u8)
    requires
        other != stream_id,
    ensures
        m.poll_frame(stream_id, now).0.tracks[other as u64] == m.tracks[other as u64],
        m.poll_frame(stream_id, now).0.has(other) == m.has(other),
{
}

proof fn lemma_pump_apart(m: SessionModel, stream_id: u8, now: Instant, other: u8)
    requires
        m.wf(),
        other != stream_id,
    ensures
        m.pump_track(stream_id, now).0.wf(),
        m.pump_track(stream_id, now).0.tracks[other as u64] == m.tracks[other as u64],
        m.pump_track(stream_id, now).0.has(other) == m.has(other),
    decreases m.held(stream_id),
{
    session::lemma_poll_frame(m, stream_id, now);
    lemma_poll_apart(m, stream_id, now, other);
    let (next, f) = m.poll_frame(stream_id, now);
    if f is Some {
        lemma_pump_apart(next, stream_id, now, other);
    }
}

proof fn lemma_pumped_apart(m: SessionModel, ids: Seq<u8>, now: Instant, other: u8)
    requires
        m.wf(),
        !ids.contains(other),
    ensures
        m.pumped(ids, now).0.wf(),
        m.pumped(ids, now).0.tracks[other as u64] == m.tracks[other as u64],
        m.pumped(ids, now).0.has(other) == m.has(other),
    decreases ids.len(),
{
    if ids.len() > 0 {
        assert forall|i: int| 0 <= i < ids.drop_last().len() implies ids.drop_last()[i] != other by {
            assert(ids[i] != other);
        }
        assert(ids[ids.len() - 1] != other);
        lemma_pumped_apart(m, ids.drop_last(), now, other);
        lemma_pump_apart(m.pumped(ids.drop_last(), now).0, ids.last(), now, other);
    }
}

/// Whether a list of frames given out holds a packet of a stream.
pub open spec fn gives(out: Seq<(u8, EncodedModel)>, stream_id: u8, p: jitter::AudioModel) -> bool {
    exists|i: int|
        {
            &&& 0 <= i < out.len()
            &&& (#[trigger] out[i]).0 == stream_id
            &&& out[i].1.payload == p.payload
            &&& out[i].1.timestamp == p.timestamp
        }
}

/// Pumping the streams gives out all audio that waits, on every one of them.
pub proof fn lemma_all_pumped(m: SessionModel, ids: Seq<u8>, now: Instant, i: int, j: int)
    requires
        m.wf(),
        ids.no_duplicates(),
        0 <= i < ids.len(),
        m.has(ids[i]),
        m.tracks[ids[i] as u64].kind == MediaKind::Audio,
        0 <= j < m.tracks[ids[i] as u64].audio->0.packets.len(),
    ensures
        gives(
            m.pumped(ids, now).1,
            ids[i],
            m.tracks[ids[i] as u64].audio->0.packets[j],
        ),
    decreases ids.len(),
{
    let front = ids.drop_last();
    let p = m.tracks[ids[i] as u64].audio->0.packets[j];
    let (mid, out) = m.pumped(front, now);
    let all = m.pumped(ids, now).1;
    if i == ids.len() - 1 {
        assert forall|k: int| 0 <= k < front.len() implies front[k] != ids[i] by {
            assert(ids[k] != ids[i]);
        }
        lemma_pumped_apart(m, front, now, ids[i]);
        upkeep::lemma_pumped_dry(mid, ids[i], now);
        let more = mid.pump_track(ids[i], now).1;
        assert(all[out.len() + j] == more[j]);
    } else {
        assert(front[i] == ids[i]);
        lemma_all_pumped(m, front, now, i, j);
        let k = choose|k: int|
            {
                &&& 0 <= k < out.len()
                &&& (#[trigger] out[k]).0 == ids[i]
                &&& out[k].1.payload == p.payload
                &&& out[k].1.timestamp == p.timestamp
            };
        assert(all[k] == out[k]);
    }
}

/// As long as audio waits on any of the streams, one of them gives a frame.
pub proof fn lemma_any_given(m: SessionModel, ids: Seq<u8>, now: Instant, i: int)
    requires
        m.wf(),
        ids.no_duplicates(),
        0 <= i < ids.len(),
        m.has(ids[i]),
        m.tracks[ids[i] as u64].kind == MediaKind::Audio,
        m.tracks[ids[i] as u64].audio->0.packets.len() > 0,
    ensures
        m.first_frame(ids, now).1 is Some,
    decreases ids.len(),
{
    let (next, f) = m.poll_frame(ids[0], now);
    session::lemma_poll_frame(m, ids[0], now);
    if i == 0 {
        assert(f is Some);
    } else if f is None {
        assert(ids[0] != ids[i]);
        lemma_poll_apart(m, ids[0], now, ids[i]);
        let rest = ids.skip(1);
        assert(rest[i - 1] == ids[i]);
        lemma_any_given(next, rest, now, i - 1);
    }
}

/// Every frame that a rebuilt datagram completes is handed on.
pub proof fn lemma_all_absorbed(m: SessionModel, rebuilt: Seq<RecoveredModel>, now: Instant, i: int)
    requires
        0 <= i < rebuilt.len(),
        ({
            let before = m.absorb_all(rebuilt.take(i), now).0;
            before.absorb(rebuilt[i].stream_id, rebuilt[i].media_seq, rebuilt[i].wire, now).1 is Some
        }),
    ensures
        ({
            let before = m.absorb_all(rebuilt.take(i), now).0;
            m.absorb_all(rebuilt, now).1.contains(
                before.absorb(
                    rebuilt[i].stream_id,
                    rebuilt[i].media_seq,
                    rebuilt[i].wire,
                    now,
                ).1->0,
            )
        }),
    decreases rebuilt.len(),
{
    let n = rebuilt.len() - 1;
    let front = rebuilt.drop_last();
    let (mid, frames) = m.absorb_all(front, now);
    let all = m.absorb_all(rebuilt, now).1;
    if i == n {
        assert(rebuilt.take(i) =~= front);
        assert(all[frames.len() as int] == all.last());
    } else {
        assert(front.take(i) =~= rebuilt.take(i));
        assert(front[i] == rebuilt[i]);
        lemma_all_absorbed(m, front, now, i);
        let before = m.absorb_all(rebuilt.take(i), now).0;
        let f = before.absorb(
            rebuilt[i].stream_id,
            rebuilt[i].media_seq,
            rebuilt[i].wire,
            now,
        ).1->0;
        let k = choose|k: int| 0 <= k < frames.len() && frames[k] == f;
        assert(all[k] == f);
    }
}

/// A session begins with nothing queued, sent or received; datagrams are
/// numbered from zero, frames and media of a track from one.
pub proof fn lemma_begins(config: QrtConfig, c: TrackConfig, rtt: Duration)
    ensures
        ({
            let m = SessionModel::start(config);
            let t = TrackModel::start(c, rtt);
            &&& m.next_seq == 0
            &&& forall|k: u64| !#[trigger] m.tracks.contains_key(k)
            &&& m.pacer.queue.count() == 0
            &&& m.rtt.nanos == 100_000_000
            &&& m.history.rtt.nanos == 100_000_000
            &&& m.history.capacity == if config.history_capacity == 0 {
                1
            } else {
                config.history_capacity as int
            }
            &&& m.history.order.len() == 0
            &&& m.sent.history.len() == 0
            &&& m.window is None
            &&& t.stream_id == c.stream_id
            &&& t.kind == c.kind
            &&& t.next_frame_id == 1
            &&& t.next_media_seq == 1
            &&& t.nack.newest is None
            &&& t.nack.rtt.nanos == if rtt.nanos < 1_000_000 {
                1_000_000
            } else {
                rtt.nanos
            }
            &&& t.fec_gen is Some <==> c.kind == MediaKind::Video && c.enable_fec
            &&& t.fec_gen matches Some(g) ==> g.fec_rate == c.fec.fec_rate && g.stream_id
                == c.stream_id && g.block.len() == 0
            &&& t.held() == 0
            &&& t.last_nack_at is None
            &&& !t.keyframe_owed
        }),
{
    reveal_with_fuel(QueueModel::count_to, 6);
}

/// A frame is handed on only for a stream that has a track, and only as it was
/// put together.
pub proof fn lemma_only_tracks(
    m: SessionModel,
    stream_id: u8,
    media_seq: u16,
    datagram: Seq<u8>,
    now: Instant,
)
    ensures
        ({
            let (after, r) = m.absorb(stream_id, media_seq, datagram, now);
            let p = PacketModel::parse(datagram);
            let put = m.reasm.push(p->Ok_0).1;
            let done = p is Ok && put is Ok && put->Ok_0 is Assembled;
            let f = put->Ok_0->Assembled_0;
            &&& r is Some <==> done && m.tracks.contains_key(f.stream_id as u64)
            &&& r is Some ==> r->0 == f
            &&& after.tracks.dom() == m.tracks.dom()
            &&& p is Ok ==> after.reasm == m.reasm.push(p->Ok_0).0
            &&& p is Err ==> after.reasm == m.reasm
        }),
{
    assert(m.absorb(stream_id, media_seq, datagram, now).0.tracks.dom() =~= m.tracks.dom());
}

} // verus!
