//! Playout buffers.
//!
//! [`VideoFrameBuffer`] decides when a video frame goes to the decoder, which
//! frames come too late, and when to ask for a keyframe. [`AudioNetEq`] keeps
//! audio in order and says each tick whether to play on, speed up, stretch or
//! conceal. Smoothed arrival times are worked out by the host and handed in.

use crate::octets;
use crate::packet::{Flags, Header, Packet, PacketModel, PacketType};
use crate::reassembly::{AssembledFrame, AssembledModel};
use crate::time::{Duration, Instant};
use bytes::Bytes;
use std::collections::VecDeque;
use vstd::prelude::*;

verus! {

/// Default least time between keyframe requests, in milliseconds.
pub const DEFAULT_KEYFRAME_INTERVAL_MS: u64 = 1000;

/// Default time that a frame may be late, in milliseconds.
pub const DEFAULT_LATE_GRACE_MS: u64 = 5;

/// Default audio tick, in milliseconds.
pub const DEFAULT_AUDIO_TICK_MS: u64 = 10;

/// Default audio delay, in milliseconds.
pub const DEFAULT_AUDIO_TARGET_MS: u64 = 80;

/// Jitter assumed before any is known, in milliseconds.
pub const INITIAL_JITTER_MS: u64 = 30;

/// Largest jitter estimate, in milliseconds.
pub const MAX_JITTER_MS: u64 = 1000;

/// Largest smoothed audio gap, in milliseconds.
pub const MAX_AUDIO_EWMA_MS: u64 = 500;

/// Settings of a [`VideoFrameBuffer`].
#[derive(Debug, Clone, Copy, PartialEq, Eq, Structural)]
pub struct VideoJitterConfig {
    /// Least delay.
    pub min_delay: Duration,
    /// Largest delay.
    pub max_delay: Duration,
    /// Time that decoding and rendering take.
    pub render_delay: Duration,
    /// How late a frame may be.
    pub late_grace: Duration,
    /// Most frames held.
    pub max_frames: usize,
    /// Least time between keyframe requests.
    pub keyframe_interval: Duration,
    /// How long decoding may stall before a keyframe is asked for.
    pub stall_timeout: Duration,
}

impl Default for VideoJitterConfig {
    fn default() -> (c: Self)
        ensures
            c.min_delay == Duration::from_millis(20),
            c.max_delay == Duration::from_millis(200),
            c.render_delay == Duration::from_millis(15),
            c.late_grace == Duration::from_millis(DEFAULT_LATE_GRACE_MS),
            c.max_frames == 32,
            c.keyframe_interval == Duration::from_millis(DEFAULT_KEYFRAME_INTERVAL_MS),
            c.stall_timeout == Duration::from_millis(500),
    {
        VideoJitterConfig {
            min_delay: Duration::from_millis(20),
            max_delay: Duration::from_millis(200),
            render_delay: Duration::from_millis(15),
            late_grace: Duration::from_millis(DEFAULT_LATE_GRACE_MS),
            max_frames: 32,
            keyframe_interval: Duration::from_millis(DEFAULT_KEYFRAME_INTERVAL_MS),
            stall_timeout: Duration::from_millis(500),
        }
    }
}

/// What a video buffer does next.
#[derive(Debug, Clone, PartialEq, Eq)]
pub enum VideoPoll {
    /// Decode this frame.
    Decode(AssembledFrame),
    /// A frame came too late and was dropped.
    DroppedLate {
        /// The frame.
        frame_id: u32,
        /// Its size in bytes.
        payload_len: usize,
    },
    /// Nothing to do yet.
    Wait,
    /// Ask for a keyframe.
    KeyframeReq {
        /// Stream that should produce it.
        stream_id: u8,
    },
}

/// A [`VideoPoll`] as a value.
#[verifier::ext_equal]
pub enum PollModel {
    Decode(AssembledModel),
    DroppedLate { frame_id: u32, payload_len: nat },
    Wait,
    KeyframeReq { stream_id: u8 },
}

impl View for VideoPoll {
    type V = PollModel;

    open spec fn view(&self) -> PollModel {
        match *self {
            VideoPoll::Decode(f) => PollModel::Decode(f@),
            VideoPoll::DroppedLate { frame_id, payload_len } => PollModel::DroppedLate {
                frame_id,
                payload_len: payload_len as nat,
            },
            VideoPoll::Wait => PollModel::Wait,
            VideoPoll::KeyframeReq { stream_id } => PollModel::KeyframeReq { stream_id },
        }
    }
}

/// A frame that waits, as a value.
#[verifier::ext_equal]
pub struct ScheduledModel {
    /// The frame.
    pub frame: AssembledModel,
    /// When it should be decoded.
    pub deadline: Instant,
}

/// The first position from `i` on where `f` holds.
pub open spec fn position<T>(s: Seq<T>, f: spec_fn(T) -> bool, i: int) -> Option<int>
    decreases s.len() - i,
{
    if i < 0 || i >= s.len() {
        None
    } else if f(s[i]) {
        Some(i)
    } else {
        position(s, f, i + 1)
    }
}

/// The first position found is one where `f` holds, and none before it is.
pub proof fn lemma_position<T>(s: Seq<T>, f: spec_fn(T) -> bool, i: int)
    requires
        0 <= i,
    ensures
        match position(s, f, i) {
            Some(k) => i <= k < s.len() && f(s[k]) && forall|j: int|
                i <= j < k ==> !f(#[trigger] s[j]),
            None => forall|j: int| i <= j < s.len() ==> !f(#[trigger] s[j]),
        },
    decreases s.len() - i,
{
    if i < s.len() && !f(s[i]) {
        lemma_position(s, f, i + 1);
    }
}

/// Frames with one more, in the order of their numbers.
pub open spec fn insert_by_id(frames: Seq<ScheduledModel>, s: ScheduledModel) -> Seq<ScheduledModel>
    decreases frames.len(),
{
    if frames.len() == 0 || frames.last().frame.frame_id <= s.frame.frame_id {
        frames.push(s)
    } else {
        insert_by_id(frames.drop_last(), s).push(frames.last())
    }
}

/// Frames cut to `max`: the first frame that is no keyframe goes first, or the
/// first frame when all are keyframes.
pub open spec fn trim(frames: Seq<ScheduledModel>, max: int) -> Seq<ScheduledModel>
    decreases frames.len(),
{
    if frames.len() > max && frames.len() > 0 {
        let delta = |s: ScheduledModel| !s.frame.flags.key;
        let at = match position(frames, delta, 0) {
            Some(i) => i,
            None => 0,
        };
        if 0 <= at < frames.len() {
            trim(frames.remove(at), max)
        } else {
            frames
        }
    } else {
        frames
    }
}

/// The state of a [`VideoFrameBuffer`] as a value.
#[verifier::ext_equal]
pub struct VideoModel {
    /// Stream of the frames.
    pub stream_id: u8,
    /// Settings.
    pub config: VideoJitterConfig,
    /// The frames that wait.
    pub frames: Seq<ScheduledModel>,
    /// The frame decoded last.
    pub last_decoded: Option<u32>,
    /// Whether only a keyframe can be decoded.
    pub keyframe_required: bool,
    /// How much arrivals vary.
    pub jitter: Duration,
    /// When a frame arrived last.
    pub last_arrival: Option<Instant>,
    /// When a keyframe was asked for last.
    pub last_keyframe_req: Option<Instant>,
    /// When a frame was decoded last.
    pub last_decoded_at: Option<Instant>,
}

impl VideoModel {
    /// A state without frames.
    pub open spec fn empty(stream_id: u8, config: VideoJitterConfig) -> VideoModel {
        VideoModel {
            stream_id,
            config,
            frames: Seq::empty(),
            last_decoded: None,
            keyframe_required: true,
            jitter: Duration::from_millis(INITIAL_JITTER_MS),
            last_arrival: None,
            last_keyframe_req: None,
            last_decoded_at: None,
        }
    }

    /// What holds of every state: the frames are in the order of their
    /// numbers, each number once.
    pub open spec fn wf(self) -> bool {
        forall|i: int, j: int|
            0 <= i < j < self.frames.len() ==> self.frames[i].frame.frame_id
                < self.frames[j].frame.frame_id
    }

    /// The delay from arrival to decoding.
    pub open spec fn delay(self) -> Duration {
        self.jitter.saturating_add(self.config.render_delay).at_least(
            self.config.min_delay,
        ).at_most(self.config.max_delay)
    }

    /// Whether a frame is held.
    pub open spec fn holds(self, frame_id: u32) -> bool {
        exists|i: int|
            0 <= i < self.frames.len() && (#[trigger] self.frames[i]).frame.frame_id == frame_id
    }

    /// The state once a frame arrived. `next_jitter` is the smoothed gap
    /// between arrivals, which counts from the second frame on. A frame of
    /// another stream, or one that is held, changes nothing.
    pub open spec fn push(self, frame: AssembledModel, now: Instant, next_jitter: Duration) -> VideoModel {
        if frame.stream_id != self.stream_id || self.holds(frame.frame_id) {
            self
        } else {
            let s = VideoModel {
                jitter: if self.last_arrival is Some {
                    next_jitter.at_most(Duration::from_millis(MAX_JITTER_MS))
                } else {
                    self.jitter
                },
                last_arrival: Some(now),
                ..self
            };
            let scheduled = ScheduledModel {
                frame,
                deadline: now.after(s.delay()),
            };
            VideoModel {
                frames: trim(
                    insert_by_id(self.frames, scheduled),
                    self.config.max_frames as int,
                ),
                ..s
            }
        }
    }

    /// Whether a frame can be decoded: it is a keyframe, or it follows the
    /// frame decoded last and no keyframe is required.
    pub open spec fn decodable(self, f: AssembledModel) -> bool {
        f.flags.key || (!self.keyframe_required && match self.last_decoded {
            None => false,
            Some(id) => f.frame_id == (id + 1) % 0x1_0000_0000,
        })
    }

    /// Whether a keyframe may be asked for again.
    pub open spec fn may_ask(self, now: Instant) -> bool {
        match self.last_keyframe_req {
            None => true,
            Some(t) => now.saturating_duration_since(t).nanos
                >= self.config.keyframe_interval.nanos,
        }
    }

    /// The state once a keyframe was asked for.
    pub open spec fn asked(self, now: Instant) -> VideoModel {
        VideoModel { last_keyframe_req: Some(now), keyframe_required: true, ..self }
    }

    /// Whether decoding has stalled: nothing was decoded for a while, though
    /// frames arrive or wait.
    pub open spec fn stalled(self, now: Instant) -> bool {
        let limit = self.config.stall_timeout;
        let last = match self.last_decoded_at {
            Some(t) => Some(t),
            None => self.last_arrival,
        };
        let receiving = match self.last_arrival {
            Some(t) => now.saturating_duration_since(t).nanos < limit.saturating_mul(2).nanos,
            None => false,
        };
        match last {
            None => false,
            Some(t) => (receiving || self.frames.len() > 0) && now.saturating_duration_since(
                t,
            ).nanos >= limit.nanos,
        }
    }

    /// Whether the first frame is too late and another one waits.
    pub open spec fn late(self, now: Instant) -> bool {
        self.frames.len() >= 2 && now.nanos > self.frames[0].deadline.after(
            self.config.late_grace,
        ).nanos
    }

    /// The state and the outcome once the first frame was dropped. What depends
    /// on it cannot be decoded, so only a keyframe can.
    pub open spec fn drop_late(self) -> (VideoModel, PollModel) {
        let f = self.frames[0].frame;
        (
            VideoModel { frames: self.frames.drop_first(), keyframe_required: true, ..self },
            PollModel::DroppedLate { frame_id: f.frame_id, payload_len: f.payload.len() },
        )
    }

    /// Whether a frame can be decoded and its time has come, or nearly so.
    pub open spec fn due(self, s: ScheduledModel, now: Instant) -> bool {
        self.decodable(s.frame) && now.after(self.config.late_grace).nanos >= s.deadline.nanos
    }

    /// Whether frames need not wait for their time: the keyframe to begin with
    /// does not, nor does any where there is no least delay.
    pub open spec fn at_once(self) -> bool {
        self.keyframe_required || self.config.min_delay.nanos == 0
    }

    /// The frame to decode: the first that is due, else, where frames need not
    /// wait, the first that can be decoded.
    pub open spec fn pick(self, now: Instant) -> Option<int> {
        match position(self.frames, |s: ScheduledModel| self.due(s, now), 0) {
            Some(i) => Some(i),
            None => if self.at_once() {
                position(self.frames, |s: ScheduledModel| self.decodable(s.frame), 0)
            } else {
                None
            },
        }
    }

    /// The state and the outcome once frame `i` was decoded.
    pub open spec fn decode(self, i: int, now: Instant) -> (VideoModel, PollModel) {
        let f = self.frames[i].frame;
        (
            VideoModel {
                frames: self.frames.remove(i),
                last_decoded: Some(f.frame_id),
                last_decoded_at: Some(now),
                keyframe_required: if f.flags.key {
                    false
                } else {
                    self.keyframe_required
                },
                ..self
            },
            PollModel::Decode(f),
        )
    }

    /// Whether a frame that can be decoded waits.
    pub open spec fn any_decodable(self) -> bool {
        exists|i: int|
            0 <= i < self.frames.len() && self.decodable((#[trigger] self.frames[i]).frame)
    }

    /// The state and what to do at `now`.
    pub open spec fn poll(self, now: Instant, decoder_ready: bool) -> (VideoModel, PollModel) {
        let ask = (self.asked(now), PollModel::KeyframeReq { stream_id: self.stream_id });
        if decoder_ready && self.late(now) {
            self.drop_late()
        } else if decoder_ready && self.pick(now) is Some {
            self.decode(self.pick(now)->0, now)
        } else if self.may_ask(now) && (self.stalled(now) || (decoder_ready
            && !self.any_decodable())) {
            ask
        } else {
            (self, PollModel::Wait)
        }
    }

    /// The state once everything was dropped.
    pub open spec fn reset(self, now: Instant) -> VideoModel {
        VideoModel {
            frames: Seq::empty(),
            last_decoded: None,
            keyframe_required: true,
            last_decoded_at: Some(now),
            ..self
        }
    }
}

/// The request for a keyframe of a stream.
pub open spec fn keyframe_request(stream_id: u8, ttl_ms: u16) -> PacketModel {
    PacketModel::KeyframeReq {
        header: Header {
            packet_type: PacketType::KeyframeReq,
            flags: Flags::none(),
            stream_id,
            media_seq: 0,
            transport_seq: 0,
            frame_id: 0,
            frag_index: 0,
            frag_count: 1,
            timestamp: 0,
            ttl_ms,
        },
        stream_id,
    }
}

/// The request for a keyframe of a stream.
pub fn keyframe_packet(stream_id: u8, ttl_ms: u16) -> (p: Packet<'static>)
    ensures
        p@ == keyframe_request(stream_id, ttl_ms),
{
    let header = Header {
        packet_type: PacketType::KeyframeReq,
        flags: Flags::none(),
        stream_id,
        media_seq: 0,
        transport_seq: 0,
        frame_id: 0,
        frag_index: 0,
        frag_count: 1,
        timestamp: 0,
        ttl_ms,
    };
    Packet::KeyframeReq { header, stream_id }
}

/// A frame that waits.
#[derive(Debug, Clone)]
struct ScheduledFrame {
    frame: AssembledFrame,
    deadline: Instant,
}

impl ScheduledFrame {
    closed spec fn model(&self) -> ScheduledModel {
        ScheduledModel { frame: self.frame@, deadline: self.deadline }
    }
}

spec fn schedule(frames: Seq<ScheduledFrame>) -> Seq<ScheduledModel> {
    frames.map_values(|s: ScheduledFrame| s.model())
}

/// Decides when video frames are decoded.
#[derive(Debug, Clone)]
pub struct VideoFrameBuffer {
    stream_id: u8,
    config: VideoJitterConfig,
    frames: VecDeque<ScheduledFrame>,
    last_decoded: Option<u32>,
    keyframe_required: bool,
    jitter_estimate: Duration,
    last_arrival: Option<Instant>,
    last_keyframe_req: Option<Instant>,
    last_decoded_at: Option<Instant>,
}

impl View for VideoFrameBuffer {
    type V = VideoModel;

    closed spec fn view(&self) -> VideoModel {
        VideoModel {
            stream_id: self.stream_id,
            config: self.config,
            frames: schedule(self.frames@),
            last_decoded: self.last_decoded,
            keyframe_required: self.keyframe_required,
            jitter: self.jitter_estimate,
            last_arrival: self.last_arrival,
            last_keyframe_req: self.last_keyframe_req,
            last_decoded_at: self.last_decoded_at,
        }
    }
}

proof fn lemma_insert_by_id(frames: Seq<ScheduledModel>, s: ScheduledModel, at: int)
    requires
        0 <= at <= frames.len(),
        forall|i: int| at <= i < frames.len() ==> (#[trigger] frames[i]).frame.frame_id
            > s.frame.frame_id,
        at > 0 ==> frames[at - 1].frame.frame_id <= s.frame.frame_id,
    ensures
        insert_by_id(frames, s) == frames.insert(at, s),
    decreases frames.len(),
{
    if at == frames.len() {
        assert(frames.insert(at, s) =~= frames.push(s));
    } else {
        let front = frames.drop_last();
        assert(frames[frames.len() - 1].frame.frame_id > s.frame.frame_id);
        assert forall|i: int| at <= i < front.len() implies (#[trigger] front[i]).frame.frame_id
            > s.frame.frame_id by {
            assert(frames[i].frame.frame_id > s.frame.frame_id);
        }
        lemma_insert_by_id(front, s, at);
        assert(front.insert(at, s).push(frames.last()) =~= frames.insert(at, s));
    }
}

/// Cutting frames keeps their order, and leaves `max` at most.
proof fn lemma_trim(frames: Seq<ScheduledModel>, max: int)
    requires
        forall|i: int, j: int|
            0 <= i < j < frames.len() ==> frames[i].frame.frame_id < frames[j].frame.frame_id,
        max >= 0,
    ensures
        trim(frames, max).len() <= max,
        forall|i: int, j: int|
            0 <= i < j < trim(frames, max).len() ==> trim(frames, max)[i].frame.frame_id < trim(
                frames,
                max,
            )[j].frame.frame_id,
    decreases frames.len(),
{
    if frames.len() > max {
        let delta = |s: ScheduledModel| !s.frame.flags.key;
        lemma_position(frames, delta, 0);
        let at = match position(frames, delta, 0) {
            Some(i) => i,
            None => 0,
        };
        let r = frames.remove(at);
        assert forall|i: int, j: int| 0 <= i < j < r.len() implies r[i].frame.frame_id
            < r[j].frame.frame_id by {
            let a = if i < at {
                i
            } else {
                i + 1
            };
            let b = if j < at {
                j
            } else {
                j + 1
            };
            assert(r[i] == frames[a] && r[j] == frames[b]);
        }
        lemma_trim(r, max);
    }
}

impl VideoFrameBuffer {
    /// A buffer without frames.
    pub fn new(stream_id: u8, config: VideoJitterConfig) -> (b: Self)
        ensures
            b@ == VideoModel::empty(stream_id, config),
            b@.wf(),
    {
        let b = VideoFrameBuffer {
            stream_id,
            config,
            frames: VecDeque::new(),
            last_decoded: None,
            keyframe_required: true,
            jitter_estimate: Duration::from_millis(INITIAL_JITTER_MS),
            last_arrival: None,
            last_keyframe_req: None,
            last_decoded_at: None,
        };
        assert(b@.frames =~= Seq::<ScheduledModel>::empty());
        b
    }

    /// Stream of the frames.
    pub fn stream_id(&self) -> (id: u8)
        ensures
            id == self@.stream_id,
    {
        self.stream_id
    }

    /// Number of frames that wait.
    pub fn len(&self) -> (n: usize)
        ensures
            n == self@.frames.len(),
    {
        self.frames.len()
    }

    /// Whether no frame waits.
    pub fn is_empty(&self) -> (b: bool)
        ensures
            b == (self@.frames.len() == 0),
    {
        self.frames.len() == 0
    }

    /// Whether only a keyframe can be decoded.
    pub fn keyframe_required(&self) -> (b: bool)
        ensures
            b == self@.keyframe_required,
    {
        self.keyframe_required
    }

    /// The delay from arrival to decoding: the jitter and the time to render,
    /// within bounds.
    pub fn target_delay(&self) -> (d: Duration)
        ensures
            d == self@.delay(),
    {
        self.jitter_estimate.saturating_add(self.config.render_delay).at_least(
            self.config.min_delay,
        ).at_most(self.config.max_delay)
    }

    /// Changes the settings; frames that wait keep their deadline.
    pub fn set_config(&mut self, config: VideoJitterConfig)
        ensures
            final(self)@ == (VideoModel { config, ..old(self)@ }),
    {
        self.config = config;
    }

    /// The jitter estimate and the gap that a frame arriving now makes, from
    /// which the next estimate follows; none for the first frame.
    pub fn jitter_inputs(&self, now: Instant) -> (r: Option<(Duration, Duration)>)
        ensures
            r == (match self@.last_arrival {
                Some(t) => Some((self@.jitter, now.saturating_duration_since(t))),
                None => None,
            }),
    {
        match self.last_arrival {
            Some(t) => Some((self.jitter_estimate, now.saturating_duration_since(t))),
            None => None,
        }
    }

    /// Takes in a frame. `next_jitter` is the smoothed gap between arrivals.
    pub fn push(&mut self, frame: AssembledFrame, now: Instant, next_jitter: Duration)
        requires
            old(self)@.wf(),
        ensures
            final(self)@ == old(self)@.push(frame@, now, next_jitter),
            final(self)@.wf(),
            final(self)@.frames.len() <= old(self)@.frames.len() || final(self)@.frames.len()
                <= final(self)@.config.max_frames,
    {
        let ghost m = self@;
        let ghost fm = frame@;
        if frame.stream_id != self.stream_id {
            return;
        }
        let mut at: usize = self.frames.len();
        let mut held: bool = false;
        let mut i: usize = 0;
        while i < self.frames.len()
            invariant
                i <= self.frames@.len(),
                self@ == m,
                held == (exists|j: int|
                    0 <= j < i && (#[trigger] m.frames[j]).frame.frame_id == frame.frame_id),
            decreases self.frames@.len() - i,
        {
            assert(m.frames[i as int] == self.frames@[i as int].model());
            if self.frames[i].frame.frame_id == frame.frame_id {
                held = true;
                assert(m.frames[i as int].frame.frame_id == frame.frame_id);
            }
            i = i + 1;
        }
        if held {
            return;
        }
        while at > 0 && self.frames[at - 1].frame.frame_id > frame.frame_id
            invariant
                at <= self.frames@.len(),
                self@ == m,
                forall|k: int|
                    at <= k < m.frames.len() ==> (#[trigger] m.frames[k]).frame.frame_id
                        > frame.frame_id,
            decreases at,
        {
            at = at - 1;
            assert(m.frames[at as int] == self.frames@[at as int].model());
        }
        proof {
            if at > 0 {
                assert(m.frames[at - 1] == self.frames@[at - 1].model());
            }
        }
        if self.last_arrival.is_some() {
            self.jitter_estimate = next_jitter.at_most(Duration::from_millis(MAX_JITTER_MS));
        }
        self.last_arrival = Some(now);
        let deadline = now.after(self.target_delay());
        let scheduled = ScheduledFrame { frame, deadline };
        let ghost sm = scheduled.model();
        self.frames.insert(at, scheduled);
        proof {
            assert(self@.frames =~= m.frames.insert(at as int, sm));
            lemma_insert_by_id(m.frames, sm, at as int);
            let f = self@.frames;
            assert(!m.holds(fm.frame_id));
            assert forall|i: int, j: int| 0 <= i < j < f.len() implies f[i].frame.frame_id
                < f[j].frame.frame_id by {
                let a = if i <= at {
                    i
                } else {
                    i - 1
                };
                let b = if j <= at {
                    j
                } else {
                    j - 1
                };
                if i < at {
                    assert(f[i] == m.frames[i]);
                    assert(m.frames[i].frame.frame_id != fm.frame_id);
                    if i < at - 1 {
                        assert(m.frames[i].frame.frame_id < m.frames[at - 1].frame.frame_id);
                    }
                }
                if j > at {
                    assert(f[j] == m.frames[j - 1]);
                }
                if i > at {
                    assert(f[i] == m.frames[i - 1]);
                }
            }
        }
        self.trim_overflow();
    }

    fn trim_overflow(&mut self)
        requires
            old(self)@.wf(),
        ensures
            final(self)@ == (VideoModel {
                frames: trim(old(self)@.frames, old(self)@.config.max_frames as int),
                ..old(self)@
            }),
            final(self)@.wf(),
            final(self)@.frames.len() <= final(self)@.config.max_frames,
    {
        let ghost m = self@;
        let ghost delta = |s: ScheduledModel| !s.frame.flags.key;
        proof {
            lemma_trim(m.frames, m.config.max_frames as int);
        }
        while self.frames.len() > self.config.max_frames
            invariant
                self@ == (VideoModel { frames: self@.frames, ..m }),
                delta == (|s: ScheduledModel| !s.frame.flags.key),
                trim(m.frames, m.config.max_frames as int) == trim(
                    self@.frames,
                    m.config.max_frames as int,
                ),
            decreases self@.frames.len(),
        {
            let ghost f = self@.frames;
            let mut at: usize = 0;
            let mut found: bool = false;
            while at < self.frames.len() && !found
                invariant
                    at <= self.frames@.len(),
                    self@.frames == f,
                    f == schedule(self.frames@),
                    delta == (|s: ScheduledModel| !s.frame.flags.key),
                    position(f, delta, 0) == position(f, delta, at as int),
                    found ==> at < f.len() && delta(f[at as int]),
                decreases self.frames@.len() - at, (if found {
                        0int
                    } else {
                        1
                    }),
            {
                assert(f[at as int] == self.frames@[at as int].model());
                if !self.frames[at].frame.flags.key {
                    found = true;
                } else {
                    at = at + 1;
                }
            }
            if !found {
                at = 0;
            }
            let ghost raw = self.frames@;
            let _ = self.frames.remove(at);
            assert(self@.frames =~= f.remove(at as int));
        }
    }

    fn is_decodable(&self, frame: &AssembledFrame) -> (b: bool)
        ensures
            b == self@.decodable(frame@),
    {
        if frame.flags.key {
            return true;
        }
        if self.keyframe_required {
            return false;
        }
        match self.last_decoded {
            None => false,
            Some(id) => frame.frame_id == id.wrapping_add(1),
        }
    }

    fn pick(&self, now: Instant) -> (r: Option<usize>)
        ensures
            match r {
                Some(i) => self@.pick(now) == Some(i as int) && i < self.frames@.len(),
                None => self@.pick(now) is None,
            },
    {
        let ghost m = self@;
        let ghost due = |s: ScheduledModel| m.due(s, now);
        let ghost fit = |s: ScheduledModel| m.decodable(s.frame);
        let limit = now.after(self.config.late_grace);
        let mut i: usize = 0;
        while i < self.frames.len()
            invariant
                i <= self.frames@.len(),
                m == self@,
                limit == now.after(m.config.late_grace),
                due == (|s: ScheduledModel| m.due(s, now)),
                position(m.frames, due, 0) == position(m.frames, due, i as int),
            decreases self.frames@.len() - i,
        {
            assert(m.frames[i as int] == self.frames@[i as int].model());
            assert(due(m.frames[i as int]) == m.due(m.frames[i as int], now));
            if self.is_decodable(&self.frames[i].frame) && limit.nanos
                >= self.frames[i].deadline.nanos {
                return Some(i);
            }
            i = i + 1;
        }
        if !self.keyframe_required && self.config.min_delay.nanos > 0 {
            return None;
        }
        let mut i: usize = 0;
        while i < self.frames.len()
            invariant
                i <= self.frames@.len(),
                m == self@,
                m.at_once(),
                position(m.frames, due, 0) is None,
                due == (|s: ScheduledModel| m.due(s, now)),
                fit == (|s: ScheduledModel| m.decodable(s.frame)),
                position(m.frames, fit, 0) == position(m.frames, fit, i as int),
            decreases self.frames@.len() - i,
        {
            assert(m.frames[i as int] == self.frames@[i as int].model());
            assert(fit(m.frames[i as int]) == m.decodable(m.frames[i as int].frame));
            if self.is_decodable(&self.frames[i].frame) {
                return Some(i);
            }
            i = i + 1;
        }
        None
    }

    fn any_decodable(&self) -> (b: bool)
        ensures
            b == self@.any_decodable(),
    {
        let ghost m = self@;
        let mut i: usize = 0;
        while i < self.frames.len()
            invariant
                i <= self.frames@.len(),
                m == self@,
                forall|j: int| 0 <= j < i ==> !m.decodable((#[trigger] m.frames[j]).frame),
            decreases self.frames@.len() - i,
        {
            assert(m.frames[i as int] == self.frames@[i as int].model());
            if self.is_decodable(&self.frames[i].frame) {
                assert(m.decodable(m.frames[i as int].frame));
                return true;
            }
            i = i + 1;
        }
        false
    }

    /// Decides what to do now. Without a ready decoder the buffer waits, and
    /// at most asks for a keyframe.
    pub fn poll(&mut self, now: Instant, decoder_ready: bool) -> (r: VideoPoll)
        requires
            old(self)@.wf(),
        ensures
            final(self)@ == old(self)@.poll(now, decoder_ready).0,
            r@ == old(self)@.poll(now, decoder_ready).1,
            final(self)@.wf(),
    {
        let ghost m = self@;
        if decoder_ready {
            if self.frames.len() >= 2 {
                assert(m.frames[0] == self.frames@[0].model());
                if now.nanos > self.frames[0].deadline.after(self.config.late_grace).nanos {
                    let ghost raw = self.frames@;
                    if let Some(dropped) = self.frames.pop_front() {
                        assert(self@.frames =~= m.frames.drop_first());
                        self.keyframe_required = true;
                        return VideoPoll::DroppedLate {
                            frame_id: dropped.frame.frame_id,
                            payload_len: dropped.frame.payload.len(),
                        };
                    }
                }
            }
            if let Some(i) = self.pick(now) {
                assert(m.frames[i as int] == self.frames@[i as int].model());
                if let Some(scheduled) = self.frames.remove(i) {
                    assert(self@.frames =~= m.frames.remove(i as int));
                    self.last_decoded = Some(scheduled.frame.frame_id);
                    self.last_decoded_at = Some(now);
                    if scheduled.frame.flags.key {
                        self.keyframe_required = false;
                    }
                    proof {
                        lemma_removed_sorted(m.frames, i as int);
                    }
                    return VideoPoll::Decode(scheduled.frame);
                }
            }
            if !self.any_decodable() && self.try_keyframe_req(now) {
                return VideoPoll::KeyframeReq { stream_id: self.stream_id };
            }
        }
        if self.is_stalled(now) && self.try_keyframe_req(now) {
            return VideoPoll::KeyframeReq { stream_id: self.stream_id };
        }
        VideoPoll::Wait
    }

    fn is_stalled(&self, now: Instant) -> (b: bool)
        ensures
            b == self@.stalled(now),
    {
        let limit = self.config.stall_timeout;
        let last = match self.last_decoded_at {
            Some(t) => t,
            None => match self.last_arrival {
                Some(t) => t,
                None => return false,
            },
        };
        let receiving = match self.last_arrival {
            Some(t) => now.saturating_duration_since(t).nanos < limit.saturating_mul(2).nanos,
            None => false,
        };
        if !receiving && self.frames.len() == 0 {
            return false;
        }
        now.saturating_duration_since(last).nanos >= limit.nanos
    }

    fn try_keyframe_req(&mut self, now: Instant) -> (asked: bool)
        ensures
            asked == old(self)@.may_ask(now),
            final(self)@ == (if asked {
                old(self)@.asked(now)
            } else {
                old(self)@
            }),
    {
        if let Some(t) = self.last_keyframe_req {
            if now.saturating_duration_since(t).nanos < self.config.keyframe_interval.nanos {
                return false;
            }
        }
        self.last_keyframe_req = Some(now);
        self.keyframe_required = true;
        true
    }

    /// The request for a keyframe of this stream.
    pub fn keyframe_packet(&self, ttl_ms: u16) -> (p: Packet<'static>)
        ensures
            p@ == keyframe_request(self@.stream_id, ttl_ms),
    {
        keyframe_packet(self.stream_id, ttl_ms)
    }

    /// Drops all frames; only a keyframe can be decoded next.
    pub fn reset(&mut self, now: Instant)
        ensures
            final(self)@ == old(self)@.reset(now),
            final(self)@.wf(),
    {
        self.frames.clear();
        self.last_decoded = None;
        self.keyframe_required = true;
        self.last_decoded_at = Some(now);
        assert(self@.frames =~= Seq::<ScheduledModel>::empty());
    }
}

proof fn lemma_removed_sorted(frames: Seq<ScheduledModel>, at: int)
    requires
        0 <= at < frames.len(),
        forall|i: int, j: int|
            0 <= i < j < frames.len() ==> frames[i].frame.frame_id < frames[j].frame.frame_id,
    ensures
        forall|i: int, j: int|
            0 <= i < j < frames.remove(at).len() ==> frames.remove(at)[i].frame.frame_id
                < frames.remove(at)[j].frame.frame_id,
{
    let r = frames.remove(at);
    assert forall|i: int, j: int| 0 <= i < j < r.len() implies r[i].frame.frame_id
        < r[j].frame.frame_id by {
        let a = if i < at {
            i
        } else {
            i + 1
        };
        let b = if j < at {
            j
        } else {
            j + 1
        };
        assert(r[i] == frames[a] && r[j] == frames[b]);
    }
}

/// What is picked can be decoded, and is due or need not wait; where nothing is
/// picked, there is no such frame.
pub proof fn lemma_pick(m: VideoModel, now: Instant)
    ensures
        match m.pick(now) {
            Some(i) => {
                &&& 0 <= i < m.frames.len()
                &&& m.decodable(m.frames[i].frame)
                &&& m.due(m.frames[i], now) || m.at_once()
            },
            None => forall|j: int|
                0 <= j < m.frames.len() ==> !m.due(#[trigger] m.frames[j], now) && (m.at_once()
                    ==> !m.decodable(m.frames[j].frame)),
        },
{
    let due = |s: ScheduledModel| m.due(s, now);
    let fit = |s: ScheduledModel| m.decodable(s.frame);
    lemma_position(m.frames, due, 0);
    lemma_position(m.frames, fit, 0);
    assert forall|j: int| 0 <= j < m.frames.len() implies due(#[trigger] m.frames[j]) == m.due(
        m.frames[j],
        now,
    ) && fit(m.frames[j]) == m.decodable(m.frames[j].frame) by {}
}

/// What is decoded is a keyframe, or follows the frame decoded last while no
/// keyframe is required.
pub proof fn lemma_decode_order(m: VideoModel, now: Instant, decoder_ready: bool)
    requires
        m.poll(now, decoder_ready).1 is Decode,
    ensures
        ({
            let f = m.poll(now, decoder_ready).1->Decode_0;
            &&& f.flags.key || (!m.keyframe_required && m.last_decoded is Some && f.frame_id == (
            m.last_decoded->0 + 1) % 0x1_0000_0000)
            &&& m.poll(now, decoder_ready).0.last_decoded == Some(f.frame_id)
        }),
{
    lemma_pick(m, now);
}

/// A frame is held until its deadline is near, unless only a keyframe can be
/// decoded or there is no least delay.
pub proof fn lemma_held(m: VideoModel, now: Instant, decoder_ready: bool)
    requires
        !m.keyframe_required,
        m.config.min_delay.nanos > 0,
        m.poll(now, decoder_ready).1 is Decode,
    ensures
        exists|i: int|
            0 <= i < m.frames.len() && (#[trigger] m.frames[i]).frame == m.poll(
                now,
                decoder_ready,
            ).1->Decode_0 && now.after(m.config.late_grace).nanos >= m.frames[i].deadline.nanos,
{
    lemma_pick(m, now);
}

/// A frame that was dropped does not count as decoded, and of what is decoded
/// next only a keyframe comes.
pub proof fn lemma_dropped(m: VideoModel, now: Instant, later: Instant, decoder_ready: bool)
    requires
        m.poll(now, true).1 is DroppedLate,
    ensures
        ({
            let after = m.poll(now, true).0;
            let next = after.poll(later, decoder_ready).1;
            &&& after.last_decoded == m.last_decoded
            &&& after.keyframe_required
            &&& next is Decode ==> next->Decode_0.flags.key
        }),
{
    lemma_pick(m.poll(now, true).0, later);
}

/// Keyframe requests keep their distance, and after one only a keyframe can
/// be decoded.
pub proof fn lemma_keyframe_throttled(m: VideoModel, now: Instant, decoder_ready: bool)
    requires
        m.poll(now, decoder_ready).1 is KeyframeReq,
    ensures
        m.last_keyframe_req matches Some(t) ==> now.saturating_duration_since(t).nanos
            >= m.config.keyframe_interval.nanos,
        m.poll(now, decoder_ready).0.last_keyframe_req == Some(now),
        m.poll(now, decoder_ready).0.keyframe_required,
{
}

/// Settings of an [`AudioNetEq`].
#[derive(Debug, Clone, Copy, PartialEq, Eq, Structural)]
pub struct AudioJitterConfig {
    /// Delay to begin with.
    pub target_delay: Duration,
    /// Least delay.
    pub min_delay: Duration,
    /// Largest delay.
    pub max_delay: Duration,
    /// How much audio a packet holds, and how often a decision is made.
    pub tick: Duration,
    /// Most packets held.
    pub max_packets: usize,
}

impl Default for AudioJitterConfig {
    fn default() -> (c: Self)
        ensures
            c.target_delay == Duration::from_millis(DEFAULT_AUDIO_TARGET_MS),
            c.min_delay == Duration::from_millis(20),
            c.max_delay == Duration::from_millis(200),
            c.tick == Duration::from_millis(DEFAULT_AUDIO_TICK_MS),
            c.max_packets == 100,
    {
        AudioJitterConfig {
            target_delay: Duration::from_millis(DEFAULT_AUDIO_TARGET_MS),
            min_delay: Duration::from_millis(20),
            max_delay: Duration::from_millis(200),
            tick: Duration::from_millis(DEFAULT_AUDIO_TICK_MS),
            max_packets: 100,
        }
    }
}

/// An encoded audio packet.
#[derive(Debug, Clone, PartialEq, Eq)]
pub struct AudioPacket {
    /// Its stream.
    pub stream_id: u8,
    /// Its place in the stream.
    pub timestamp: u32,
    /// The encoded audio.
    pub payload: Bytes,
    /// When it arrived.
    pub arrived_at: Instant,
}

/// An [`AudioPacket`] as a value.
#[verifier::ext_equal]
pub struct AudioModel {
    pub stream_id: u8,
    pub timestamp: u32,
    pub payload: Seq<u8>,
    pub arrived_at: Instant,
}

impl View for AudioPacket {
    type V = AudioModel;

    open spec fn view(&self) -> AudioModel {
        AudioModel {
            stream_id: self.stream_id,
            timestamp: self.timestamp,
            payload: octets::octets(self.payload),
            arrived_at: self.arrived_at,
        }
    }
}

/// What to do in an audio tick.
#[derive(Debug, Clone, Copy, PartialEq, Eq, Structural)]
pub enum AudioDecision {
    /// Play the next packet.
    Normal,
    /// Play the next packet faster.
    Accelerate,
    /// Play the next packet slower.
    PreemptiveExpand,
    /// Conceal the missing packet.
    Expand,
}

/// The outcome of an audio tick.
#[derive(Debug, Clone, PartialEq, Eq)]
pub struct AudioTick {
    /// What to do.
    pub decision: AudioDecision,
    /// The packet to play.
    pub packet: Option<AudioPacket>,
    /// The delay aimed at.
    pub target_delay: Duration,
    /// How much audio is held.
    pub buffer_delay: Duration,
}

/// An [`AudioTick`] as a value.
#[verifier::ext_equal]
pub struct TickModel {
    pub decision: AudioDecision,
    pub packet: Option<AudioModel>,
    pub target_delay: Duration,
    pub buffer_delay: Duration,
}

impl View for AudioTick {
    type V = TickModel;

    open spec fn view(&self) -> TickModel {
        TickModel {
            decision: self.decision,
            packet: match self.packet {
                Some(p) => Some(p@),
                None => None,
            },
            target_delay: self.target_delay,
            buffer_delay: self.buffer_delay,
        }
    }
}

/// Whether timestamp `a` is later than `b` on the circle of 32-bit numbers.
pub open spec fn later(a: u32, b: u32) -> bool {
    0 < (a - b) % 0x1_0000_0000 < 0x8000_0000
}

/// The state of an [`AudioNetEq`] as a value.
#[verifier::ext_equal]
pub struct NetEqModel {
    /// Stream of the packets.
    pub stream_id: u8,
    /// Settings.
    pub config: AudioJitterConfig,
    /// The packets that wait.
    pub packets: Seq<AudioModel>,
    /// The delay aimed at.
    pub target: Duration,
    /// The smoothed gap between arrivals.
    pub ewma: Duration,
    /// When a packet arrived last.
    pub last_arrival: Option<Instant>,
}

impl NetEqModel {
    /// A state without packets.
    pub open spec fn empty(stream_id: u8, config: AudioJitterConfig) -> NetEqModel {
        NetEqModel {
            stream_id,
            config,
            packets: Seq::empty(),
            target: config.target_delay,
            ewma: config.target_delay,
            last_arrival: None,
        }
    }

    /// The packets with one more: in place of one with its timestamp, or
    /// before the first that is later.
    pub open spec fn placed(self, p: AudioModel) -> Seq<AudioModel> {
        let same = |q: AudioModel| q.timestamp == p.timestamp;
        let after = |q: AudioModel| later(q.timestamp, p.timestamp);
        match position(self.packets, same, 0) {
            Some(i) => self.packets.update(i, p),
            None => match position(self.packets, after, 0) {
                Some(i) => self.packets.insert(i, p),
                None => self.packets.push(p),
            },
        }
    }

    /// The state once a packet arrived. `next_ewma` is the smoothed gap
    /// between arrivals, which counts from the second packet on. A packet of
    /// another stream changes nothing; the oldest make way.
    pub open spec fn push(self, p: AudioModel, next_ewma: Duration) -> NetEqModel {
        if p.stream_id != self.stream_id {
            self
        } else {
            let ewma = next_ewma.at_most(Duration::from_millis(MAX_AUDIO_EWMA_MS));
            let s = if self.last_arrival is Some {
                NetEqModel {
                    ewma,
                    target: ewma.at_least(self.config.min_delay).at_most(self.config.max_delay),
                    ..self
                }
            } else {
                self
            };
            let all = self.placed(p);
            NetEqModel {
                last_arrival: Some(p.arrived_at),
                packets: if all.len() > self.config.max_packets {
                    all.skip(all.len() - self.config.max_packets)
                } else {
                    all
                },
                ..s
            }
        }
    }

    /// The delay aimed at, within bounds.
    pub open spec fn bounded_target(self) -> Duration {
        self.target.at_least(self.config.min_delay).at_most(self.config.max_delay)
    }

    /// How much audio `n` packets hold.
    pub open spec fn held(self, n: int) -> Duration {
        self.config.tick.saturating_mul(n as u64)
    }

    /// The state and the decision of a tick: with more than 1.2 times the
    /// target held the packet is played faster, with less than 0.8 times it is
    /// played slower.
    pub open spec fn tick(self) -> (NetEqModel, TickModel) {
        let target = self.bounded_target();
        let n = self.packets.len() as int;
        let held = self.held(n);
        if n == 0 {
            (
                self,
                TickModel {
                    decision: AudioDecision::Expand,
                    packet: None,
                    target_delay: target,
                    buffer_delay: held,
                },
            )
        } else {
            (
                NetEqModel { packets: self.packets.drop_first(), ..self },
                TickModel {
                    decision: if held.nanos * 10 > target.nanos * 12 {
                        AudioDecision::Accelerate
                    } else if held.nanos * 10 < target.nanos * 8 {
                        AudioDecision::PreemptiveExpand
                    } else {
                        AudioDecision::Normal
                    },
                    packet: Some(self.packets.first()),
                    target_delay: target,
                    buffer_delay: self.held(n - 1),
                },
            )
        }
    }
}

/// Keeps audio in order and decides what to play.
#[derive(Debug, Clone)]
pub struct AudioNetEq {
    stream_id: u8,
    config: AudioJitterConfig,
    packets: VecDeque<AudioPacket>,
    target: Duration,
    arrival_ewma: Duration,
    last_arrival: Option<Instant>,
}

spec fn audio_models(packets: Seq<AudioPacket>) -> Seq<AudioModel> {
    packets.map_values(|p: AudioPacket| p@)
}

impl View for AudioNetEq {
    type V = NetEqModel;

    closed spec fn view(&self) -> NetEqModel {
        NetEqModel {
            stream_id: self.stream_id,
            config: self.config,
            packets: audio_models(self.packets@),
            target: self.target,
            ewma: self.arrival_ewma,
            last_arrival: self.last_arrival,
        }
    }
}

impl AudioNetEq {
    /// A buffer without packets.
    pub fn new(stream_id: u8, config: AudioJitterConfig) -> (n: Self)
        ensures
            n@ == NetEqModel::empty(stream_id, config),
    {
        let n = AudioNetEq {
            stream_id,
            config,
            packets: VecDeque::new(),
            target: config.target_delay,
            arrival_ewma: config.target_delay,
            last_arrival: None,
        };
        assert(n@.packets =~= Seq::<AudioModel>::empty());
        n
    }

    /// Stream of the packets.
    pub fn stream_id(&self) -> (id: u8)
        ensures
            id == self@.stream_id,
    {
        self.stream_id
    }

    /// Number of packets that wait.
    pub fn len(&self) -> (n: usize)
        ensures
            n == self@.packets.len(),
    {
        self.packets.len()
    }

    /// Whether no packet waits.
    pub fn is_empty(&self) -> (b: bool)
        ensures
            b == (self@.packets.len() == 0),
    {
        self.packets.len() == 0
    }

    /// The delay aimed at.
    pub fn target_delay(&self) -> (d: Duration)
        ensures
            d == self@.target,
    {
        self.target
    }

    /// Changes the settings; the delay aimed at is brought within them.
    pub fn set_config(&mut self, config: AudioJitterConfig)
        ensures
            final(self)@ == (NetEqModel {
                config,
                target: old(self)@.target.at_least(config.min_delay).at_most(config.max_delay),
                ..old(self)@
            }),
    {
        self.target = self.target.at_least(config.min_delay).at_most(config.max_delay);
        self.config = config;
    }

    /// The smoothed gap and the gap that a packet arriving then makes, from
    /// which the next smoothed gap follows; none for the first packet.
    pub fn ewma_inputs(&self, arrived_at: Instant) -> (r: Option<(Duration, Duration)>)
        ensures
            r == (match self@.last_arrival {
                Some(t) => Some((self@.ewma, arrived_at.saturating_duration_since(t))),
                None => None,
            }),
    {
        match self.last_arrival {
            Some(t) => Some((self.arrival_ewma, arrived_at.saturating_duration_since(t))),
            None => None,
        }
    }

    /// Takes in a packet, in the order of timestamps. `next_ewma` is the
    /// smoothed gap between arrivals.
    pub fn push(&mut self, packet: AudioPacket, next_ewma: Duration)
        ensures
            final(self)@ == old(self)@.push(packet@, next_ewma),
    {
        let ghost m = self@;
        let ghost pm = packet@;
        if packet.stream_id != self.stream_id {
            return;
        }
        if self.last_arrival.is_some() {
            self.arrival_ewma = next_ewma.at_most(Duration::from_millis(MAX_AUDIO_EWMA_MS));
            self.target =
            self.arrival_ewma.at_least(self.config.min_delay).at_most(self.config.max_delay);
        }
        self.last_arrival = Some(packet.arrived_at);
        self.place(packet);
        let ghost all = self@.packets;
        assert(all == m.placed(pm));
        assert(all.skip(0) =~= all);
        while self.packets.len() > self.config.max_packets
            invariant
                self@ == (NetEqModel {
                    packets: self@.packets,
                    ..m.push(pm, next_ewma)
                }),
                pm.stream_id == m.stream_id,
                all == m.placed(pm),
                self@.packets.len() <= all.len(),
                self@.packets == all.skip(all.len() - self@.packets.len()),
                all.len() > m.config.max_packets ==> self@.packets.len() >= m.config.max_packets,
                all.len() <= m.config.max_packets ==> self@.packets.len() == all.len(),
            decreases self@.packets.len(),
        {
            let ghost k = self@.packets;
            let _ = self.packets.pop_front();
            assert(self@.packets =~= k.drop_first());
            assert(self@.packets =~= all.skip(all.len() - self@.packets.len()));
        }
    }

    fn place(&mut self, packet: AudioPacket)
        ensures
            final(self)@ == (NetEqModel { packets: old(self)@.placed(packet@), ..old(self)@ }),
    {
        let ghost m = self@;
        let ghost pm = packet@;
        let ghost same = |q: AudioModel| q.timestamp == pm.timestamp;
        let ghost after = |q: AudioModel| later(q.timestamp, pm.timestamp);
        let mut i: usize = 0;
        while i < self.packets.len()
            invariant
                i <= self.packets@.len(),
                self@ == m,
                m == old(self)@,
                pm == packet@,
                same == (|q: AudioModel| q.timestamp == pm.timestamp),
                position(m.packets, same, 0) == position(m.packets, same, i as int),
            decreases self.packets@.len() - i,
        {
            assert(m.packets[i as int] == self.packets@[i as int]@);
            if self.packets[i].timestamp == packet.timestamp {
                assert(same(m.packets[i as int]));
                let ghost raw = self.packets@;
                let _ = self.packets.remove(i);
                self.packets.insert(i, packet);
                assert(self@.packets =~= m.packets.update(i as int, pm));
                return;
            }
            assert(!same(m.packets[i as int]));
            i = i + 1;
        }
        let mut at: usize = 0;
        let mut found: bool = false;
        while at < self.packets.len() && !found
            invariant
                at <= self.packets@.len(),
                self@ == m,
                pm == packet@,
                after == (|q: AudioModel| later(q.timestamp, pm.timestamp)),
                position(m.packets, after, 0) == position(m.packets, after, at as int),
                found ==> at < m.packets.len() && after(m.packets[at as int]),
            decreases self.packets@.len() - at, (if found {
                    0int
                } else {
                    1
                }),
        {
            assert(m.packets[at as int] == self.packets@[at as int]@);
            let d: u32 = self.packets[at].timestamp.wrapping_sub(packet.timestamp);
            assert(d == (m.packets[at as int].timestamp - pm.timestamp) % 0x1_0000_0000);
            assert(after(m.packets[at as int]) == (0 < d < 0x8000_0000));
            if d > 0 && d < 0x8000_0000 {
                found = true;
            } else {
                at = at + 1;
            }
        }
        self.packets.insert(at, packet);
        proof {
            assert(self@.packets =~= m.packets.insert(at as int, pm));
            if !found {
                assert(m.packets.insert(at as int, pm) =~= m.packets.push(pm));
            }
        }
    }

    /// Decides what to play in this tick, and takes the packet for it.
    pub fn get_decision(&mut self, _now: Instant) -> (t: AudioTick)
        ensures
            final(self)@ == old(self)@.tick().0,
            t@ == old(self)@.tick().1,
    {
        let ghost m = self@;
        let held = self.config.tick.saturating_mul(self.packets.len() as u64);
        let target = self.target.at_least(self.config.min_delay).at_most(self.config.max_delay);
        if self.packets.len() == 0 {
            return AudioTick {
                decision: AudioDecision::Expand,
                packet: None,
                target_delay: target,
                buffer_delay: held,
            };
        }
        let h: u128 = held.nanos as u128;
        let t: u128 = target.nanos as u128;
        let decision = if h * 10 > t * 12 {
            AudioDecision::Accelerate
        } else if h * 10 < t * 8 {
            AudioDecision::PreemptiveExpand
        } else {
            AudioDecision::Normal
        };
        assert(m.packets[0] == self.packets@[0]@);
        let packet = self.packets.pop_front();
        assert(self@.packets =~= m.packets.drop_first());
        AudioTick {
            decision,
            packet,
            target_delay: target,
            buffer_delay: self.config.tick.saturating_mul(self.packets.len() as u64),
        }
    }
}

/// How far a timestamp is past `base`.
pub open spec fn past(t: u32, base: u32) -> int {
    (t - base) % 0x1_0000_0000
}

/// Whether packets are in the order of their timestamps, counted from `base`,
/// and go less than half way round the circle.
pub open spec fn in_order(packets: Seq<AudioModel>, base: u32) -> bool {
    &&& forall|i: int|
        0 <= i < packets.len() ==> past((#[trigger] packets[i]).timestamp, base) < 0x8000_0000
    &&& forall|i: int, j: int|
        0 <= i < j < packets.len() ==> past(packets[i].timestamp, base) < past(
            packets[j].timestamp,
            base,
        )
}

/// Audio stays in the order of its timestamps, whatever order it arrives in,
/// as long as the timestamps go less than half way round the circle.
pub proof fn lemma_audio_in_order(m: NetEqModel, p: AudioModel, next_ewma: Duration, base: u32)
    requires
        in_order(m.packets, base),
        past(p.timestamp, base) < 0x8000_0000,
    ensures
        in_order(m.push(p, next_ewma).packets, base),
{
    let same = |q: AudioModel| q.timestamp == p.timestamp;
    let after = |q: AudioModel| later(q.timestamp, p.timestamp);
    lemma_position(m.packets, same, 0);
    lemma_position(m.packets, after, 0);
    let all = m.placed(p);
    assert forall|q: AudioModel| past(q.timestamp, base) < 0x8000_0000 implies #[trigger] after(q)
        == (past(q.timestamp, base) > past(p.timestamp, base)) by {
        lemma_later_past(q.timestamp, p.timestamp, base);
    }
    assert(in_order(all, base)) by {
        match position(m.packets, same, 0) {
            Some(i) => {
                assert(m.packets[i].timestamp == p.timestamp);
            },
            None => {
                match position(m.packets, after, 0) {
                    Some(k) => {
                        assert(after(m.packets[k]));
                        lemma_inserted_order(m.packets, p, k, base);
                    },
                    None => {
                        assert(m.packets.push(p) =~= m.packets.insert(
                            m.packets.len() as int,
                            p,
                        ));
                        lemma_inserted_order(m.packets, p, m.packets.len() as int, base);
                    },
                }
            },
        }
    }
}

proof fn lemma_later_past(a: u32, b: u32, base: u32)
    requires
        past(a, base) < 0x8000_0000,
        past(b, base) < 0x8000_0000,
    ensures
        later(a, b) == (past(a, base) > past(b, base)),
{
}

proof fn lemma_past_injective(a: u32, b: u32, base: u32)
    requires
        past(a, base) == past(b, base),
    ensures
        a == b,
{
}

proof fn lemma_inserted_order(packets: Seq<AudioModel>, p: AudioModel, k: int, base: u32)
    requires
        in_order(packets, base),
        past(p.timestamp, base) < 0x8000_0000,
        0 <= k <= packets.len(),
        forall|i: int| 0 <= i < packets.len() ==> (#[trigger] packets[i]).timestamp != p.timestamp,
        forall|i: int|
            0 <= i < k ==> past((#[trigger] packets[i]).timestamp, base) <= past(
                p.timestamp,
                base,
            ),
        k < packets.len() ==> past(packets[k].timestamp, base) > past(p.timestamp, base),
    ensures
        in_order(packets.insert(k, p), base),
{
    let r = packets.insert(k, p);
    assert forall|i: int| 0 <= i < r.len() implies past((#[trigger] r[i]).timestamp, base)
        < 0x8000_0000 by {
        if i < k {
            assert(r[i] == packets[i]);
        } else if i > k {
            assert(r[i] == packets[i - 1]);
        }
    }
    assert forall|i: int, j: int| 0 <= i < j < r.len() implies past(r[i].timestamp, base) < past(
        r[j].timestamp,
        base,
    ) by {
        if i < k {
            assert(r[i] == packets[i]);
            if past(packets[i].timestamp, base) == past(p.timestamp, base) {
                lemma_past_injective(packets[i].timestamp, p.timestamp, base);
            }
        } else if i > k {
            assert(r[i] == packets[i - 1]);
        }
        if j < k {
            assert(r[j] == packets[j]);
        } else if j > k {
            assert(r[j] == packets[j - 1]);
            if k < j - 1 {
                assert(past(packets[k].timestamp, base) < past(packets[j - 1].timestamp, base));
            }
        }
    }
}

/// The delay of video stays within its bounds, whatever the jitter.
pub proof fn lemma_delay_bounded(m: VideoModel)
    requires
        m.config.min_delay.nanos <= m.config.max_delay.nanos,
    ensures
        m.config.min_delay.nanos <= m.delay().nanos <= m.config.max_delay.nanos,
{
}

} // verus!
