//! One media stream of a session.

use crate::codec::{EncodedFrame, EncodedModel, MediaKind};
use crate::fec;
use crate::fec::{FecGenerator, FecPacketOwned, FecProtectionParams, GeneratorModel};
use crate::fragment;
use crate::fragment::{FragmentError, FragmentParams, PayloadSizeLimits};
use crate::jitter;
use crate::jitter::{
    AudioJitterConfig, AudioModel, AudioNetEq, AudioPacket, NetEqModel, PollModel,
    VideoFrameBuffer, VideoJitterConfig, VideoModel, VideoPoll, DEFAULT_AUDIO_TARGET_MS,
    DEFAULT_AUDIO_TICK_MS, DEFAULT_KEYFRAME_INTERVAL_MS, DEFAULT_LATE_GRACE_MS,
};
use crate::nack;
use crate::nack::{NackConfig, NackModel, NackRequester};
use crate::octets::{as_slice, seal};
use crate::packet::{Flags, Packet, PacketModel};
use crate::reassembly::{AssembledFrame, AssembledModel};
use crate::seqs;
use crate::time::{Duration, Instant};
use vstd::prelude::*;

verus! {

/// Settings of a track.
#[derive(Debug, Clone, Copy, PartialEq, Eq, Structural)]
pub struct TrackConfig {
    /// Stream of the track.
    pub stream_id: u8,
    /// Audio or video.
    pub kind: MediaKind,
    /// Whether video is protected by parity.
    pub enable_fec: bool,
    /// How much parity is sent.
    pub fec: FecProtectionParams,
    /// Requests for missing media.
    pub nack: NackConfig,
    /// Playout of video.
    pub video_jitter: VideoJitterConfig,
    /// Playout of audio.
    pub audio_jitter: AudioJitterConfig,
}

impl TrackConfig {
    /// Whether keyframe requests keep a distance, where there are any.
    pub open spec fn throttled(self) -> bool {
        self.kind == MediaKind::Audio || self.video_jitter.keyframe_interval.nanos > 0
    }

    /// Whether the settings other than stream, kind and protection are the
    /// defaults.
    pub open spec fn has_defaults(self) -> bool {
        &&& self.fec.fec_rate == 64
        &&& self.nack == NackConfig {
            packet_lifetime: Duration::from_millis(200),
            nack_delay: Duration::from_millis(0),
            max_list_size: 1000,
            max_retries: 100,
            max_age_seqs: 10_000,
        }
        &&& self.video_jitter == VideoJitterConfig {
            min_delay: Duration::from_millis(20),
            max_delay: Duration::from_millis(200),
            render_delay: Duration::from_millis(15),
            late_grace: Duration::from_millis(DEFAULT_LATE_GRACE_MS),
            max_frames: 32,
            keyframe_interval: Duration::from_millis(DEFAULT_KEYFRAME_INTERVAL_MS),
            stall_timeout: Duration::from_millis(500),
        }
        &&& self.audio_jitter == AudioJitterConfig {
            target_delay: Duration::from_millis(DEFAULT_AUDIO_TARGET_MS),
            min_delay: Duration::from_millis(20),
            max_delay: Duration::from_millis(200),
            tick: Duration::from_millis(DEFAULT_AUDIO_TICK_MS),
            max_packets: 100,
        }
    }

    /// A video track, protected by parity.
    pub fn video(stream_id: u8) -> (c: Self)
        ensures
            c.stream_id == stream_id,
            c.kind == MediaKind::Video,
            c.enable_fec,
            c.has_defaults(),
            c.throttled(),
    {
        TrackConfig {
            stream_id,
            kind: MediaKind::Video,
            enable_fec: true,
            fec: FecProtectionParams::default(),
            nack: NackConfig::default(),
            video_jitter: VideoJitterConfig::default(),
            audio_jitter: AudioJitterConfig::default(),
        }
    }

    /// An audio track.
    pub fn audio(stream_id: u8) -> (c: Self)
        ensures
            c.stream_id == stream_id,
            c.kind == MediaKind::Audio,
            !c.enable_fec,
            c.has_defaults(),
            c.throttled(),
    {
        TrackConfig {
            stream_id,
            kind: MediaKind::Audio,
            enable_fec: false,
            fec: FecProtectionParams::default(),
            nack: NackConfig::default(),
            video_jitter: VideoJitterConfig::default(),
            audio_jitter: AudioJitterConfig::default(),
        }
    }
}

/// What protecting `packets` one by one makes of a generator, and the rows
/// that full blocks give.
pub open spec fn protect(g: GeneratorModel, packets: Seq<PacketModel>) -> (
    GeneratorModel,
    Seq<PacketModel>,
)
    decreases packets.len(),
{
    if packets.len() == 0 {
        (g, Seq::empty())
    } else {
        let (before, rows) = protect(g, packets.drop_last());
        let p = packets.last();
        let (after, r) = before.push(p.header().media_seq, p.wire());
        (
            after,
            match r {
                Ok(more) => rows + more,
                Err(_) => rows,
            },
        )
    }
}

/// What protecting one frame makes of a generator, and all rows of the frame.
/// Without a generator there are none.
pub open spec fn frame_rows(g: Option<GeneratorModel>, packets: Seq<PacketModel>) -> (
    Option<GeneratorModel>,
    Seq<PacketModel>,
) {
    match g {
        None => (None, Seq::empty()),
        Some(g) => {
            let (after, rows) = protect(g, packets);
            (Some(after.flushed()), rows + after.rows())
        },
    }
}

/// What polling a video buffer until it waits or gives a frame makes of it:
/// late frames are dropped on the way. Also whether it asks for a keyframe,
/// and the frame.
pub open spec fn next_video(v: VideoModel, now: Instant) -> (VideoModel, bool, Option<
    AssembledModel,
>)
    decreases
            v.frames.len(),
            if v.may_ask(now) {
                1int
            } else {
                0int
            },
    when v.config.keyframe_interval.nanos > 0
{
    let (after, r) = v.poll(now, true);
    match r {
        PollModel::Decode(f) => (after, false, Some(f)),
        PollModel::DroppedLate { .. } => next_video(after, now),
        PollModel::KeyframeReq { .. } => {
            let (end, _, f) = next_video(after, now);
            (end, true, f)
        },
        PollModel::Wait => (after, false, None),
    }
}

/// Polling keeps a video buffer in order, and a frame that is given out is
/// gone.
pub proof fn lemma_next_video(v: VideoModel, now: Instant)
    requires
        v.wf(),
        v.config.keyframe_interval.nanos > 0,
    ensures
        ({
            let (after, ask, f) = next_video(v, now);
            &&& after.wf()
            &&& after.config == v.config
            &&& after.stream_id == v.stream_id
            &&& after.frames.len() <= v.frames.len()
            &&& f is Some ==> after.frames.len() < v.frames.len()
            &&& ask ==> v.may_ask(now)
        }),
    decreases
            v.frames.len(),
            if v.may_ask(now) {
                1int
            } else {
                0int
            },
{
    let (after, r) = v.poll(now, true);
    jitter::lemma_pick(v, now);
    match r {
        PollModel::DroppedLate { .. } => lemma_next_video(after, now),
        PollModel::KeyframeReq { .. } => lemma_next_video(after, now),
        _ => {},
    }
}

/// A complete video frame as the decoder gets it.
pub open spec fn video_frame(f: AssembledModel) -> EncodedModel {
    EncodedModel {
        stream_id: f.stream_id,
        timestamp: f.timestamp,
        kind: MediaKind::Video,
        keyframe: f.flags.key,
        payload: f.payload,
        ttl_ms: None,
    }
}

/// An audio packet as the decoder gets it.
pub open spec fn audio_frame(p: AudioModel) -> EncodedModel {
    EncodedModel {
        stream_id: p.stream_id,
        timestamp: p.timestamp,
        kind: MediaKind::Audio,
        keyframe: false,
        payload: p.payload,
        ttl_ms: None,
    }
}

/// Whether a decoder accepts the header of every packet in a list.
pub open spec fn all_labelled(packets: Seq<PacketModel>) -> bool {
    forall|i: int| 0 <= i < packets.len() ==> (#[trigger] packets[i]).labelled()
}

proof fn lemma_protect_labelled(g: GeneratorModel, packets: Seq<PacketModel>)
    ensures
        all_labelled(protect(g, packets).1),
    decreases packets.len(),
{
    if packets.len() > 0 {
        lemma_protect_labelled(g, packets.drop_last());
        let before = protect(g, packets.drop_last()).0;
        lemma_rows_ok(before);
    }
}

proof fn lemma_rows_ok(g: GeneratorModel)
    ensures
        all_labelled(g.rows()),
{
    let n = fec::row_count(g.block.len() as int, g.fec_rate as int);
    assert forall|i: int| 0 <= i < g.rows().len() implies (#[trigger] g.rows()[i]).labelled() by {
        fec::lemma_rows_labelled(g.stream_id, g.block, n, n, i);
    }
}

/// Fragments and parity rows of a frame carry headers that a decoder accepts.
pub proof fn lemma_split_labelled(
    t: TrackModel,
    f: EncodedModel,
    ttl_ms: u16,
    limits: PayloadSizeLimits,
)
    requires
        t.split(f, ttl_ms, limits).1 is Ok,
    ensures
        all_labelled(t.split(f, ttl_ms, limits).1->Ok_0),
{
    let params = t.frame_params(f, ttl_ms);
    let packets = fragment::fragments(f.payload, params, limits)->Ok_0;
    assert forall|i: int| 0 <= i < packets.len() implies (#[trigger] packets[i]).labelled() by {
        fragment::lemma_fragments_valid(f.payload, params, limits, i);
    }
    if let Some(g) = t.fec_gen {
        lemma_protect_labelled(g, packets);
        lemma_rows_ok(protect(g, packets).0);
    }
}

/// The state of a track as a value.
#[verifier::ext_equal]
pub struct TrackModel {
    /// Stream of the track.
    pub stream_id: u8,
    /// Audio or video.
    pub kind: MediaKind,
    /// Number of the next frame.
    pub next_frame_id: u32,
    /// Media sequence number of the next fragment.
    pub next_media_seq: u16,
    /// Parity for what is sent.
    pub fec_gen: Option<GeneratorModel>,
    /// Requests for what is missing.
    pub nack: NackModel,
    /// Playout of video.
    pub video: Option<VideoModel>,
    /// Playout of audio.
    pub audio: Option<NetEqModel>,
    /// When missing media was scanned last.
    pub last_nack_at: Option<Instant>,
    /// Whether more was missing than can be asked for, and no keyframe was
    /// asked for since.
    pub keyframe_owed: bool,
}

impl TrackModel {
    /// A track on which nothing was sent or received.
    pub open spec fn start(c: TrackConfig, rtt: Duration) -> TrackModel {
        TrackModel {
            stream_id: c.stream_id,
            kind: c.kind,
            next_frame_id: 1,
            next_media_seq: 1,
            fec_gen: if c.kind == MediaKind::Video && c.enable_fec {
                Some(
                    GeneratorModel {
                        stream_id: c.stream_id,
                        fec_rate: c.fec.fec_rate,
                        block: Seq::empty(),
                    },
                )
            } else {
                None
            },
            nack: NackModel {
                rtt: rtt.at_least(Duration::from_millis(1)),
                ..NackModel::empty(c.stream_id, c.nack)
            },
            video: match c.kind {
                MediaKind::Video => Some(VideoModel::empty(c.stream_id, c.video_jitter)),
                MediaKind::Audio => None,
            },
            audio: match c.kind {
                MediaKind::Video => None,
                MediaKind::Audio => Some(NetEqModel::empty(c.stream_id, c.audio_jitter)),
            },
            last_nack_at: None,
            keyframe_owed: false,
        }
    }

    /// What holds of every track.
    pub open spec fn wf(self) -> bool {
        &&& self.fec_gen matches Some(g) ==> g.wf() && g.stream_id == self.stream_id
        &&& self.video matches Some(v) ==> v.wf() && v.config.keyframe_interval.nanos > 0
            && v.stream_id == self.stream_id
        &&& self.audio matches Some(a) ==> a.stream_id == self.stream_id
        &&& self.video is Some <==> self.kind == MediaKind::Video
        &&& self.audio is Some <==> self.kind == MediaKind::Audio
        &&& self.nack.stream_id == self.stream_id
    }

    /// The header fields of the next frame's fragments.
    pub open spec fn frame_params(self, f: EncodedModel, ttl_ms: u16) -> FragmentParams {
        FragmentParams {
            stream_id: f.stream_id,
            frame_id: self.next_frame_id,
            timestamp: f.timestamp,
            ttl_ms,
            flags: Flags {
                retrans: false,
                audio: f.kind == MediaKind::Audio,
                key: f.keyframe && f.kind == MediaKind::Video,
            },
            first_media_seq: self.next_media_seq,
            first_transport_seq: 0,
        }
    }

    /// The state, and the fragments and parity rows, once a frame was split.
    /// A frame that cannot be split uses a frame number up.
    pub open spec fn split(self, f: EncodedModel, ttl_ms: u16, limits: PayloadSizeLimits) -> (
        TrackModel,
        Result<Seq<PacketModel>, FragmentError>,
    ) {
        let t = TrackModel {
            next_frame_id: ((self.next_frame_id + 1) % 0x1_0000_0000) as u32,
            ..self
        };
        match fragment::fragments(f.payload, self.frame_params(f, ttl_ms), limits) {
            Err(e) => (t, Err(e)),
            Ok(packets) => {
                let next_media_seq = seqs::seq_add(self.next_media_seq, packets.len() as int);
                let (fec_gen, rows) = frame_rows(self.fec_gen, packets);
                (TrackModel { next_media_seq, fec_gen, ..t }, Ok(packets + rows))
            },
        }
    }

    /// The state once a complete frame was handed to playout. `smoothed` is the
    /// smoothed gap between arrivals.
    pub open spec fn deliver(self, f: AssembledModel, now: Instant, smoothed: Duration) -> TrackModel {
        match self.kind {
            MediaKind::Video => TrackModel {
                video: match self.video {
                    Some(v) => Some(v.push(f, now, smoothed)),
                    None => None,
                },
                ..self
            },
            MediaKind::Audio => TrackModel {
                audio: match self.audio {
                    Some(a) => Some(
                        a.push(
                            AudioModel {
                                stream_id: f.stream_id,
                                timestamp: f.timestamp,
                                payload: f.payload,
                                arrived_at: now,
                            },
                            smoothed,
                        ),
                    ),
                    None => None,
                },
                ..self
            },
        }
    }

    /// The smoothed gap so far, and the gap that an arrival now makes.
    pub open spec fn gap(self, now: Instant) -> Option<(Duration, Duration)> {
        match self.kind {
            MediaKind::Video => match self.video {
                Some(v) => match v.last_arrival {
                    Some(t) => Some((v.jitter, now.saturating_duration_since(t))),
                    None => None,
                },
                None => None,
            },
            MediaKind::Audio => match self.audio {
                Some(a) => match a.last_arrival {
                    Some(t) => Some((a.ewma, now.saturating_duration_since(t))),
                    None => None,
                },
                None => None,
            },
        }
    }

    /// The state once media arrived, or was rebuilt from parity. Where too much
    /// is missing to be asked for, a keyframe is owed instead.
    pub open spec fn heard(self, media_seq: u16, now: Instant) -> TrackModel {
        let (nack, r) = self.nack.receive(media_seq, now);
        TrackModel { nack, keyframe_owed: self.keyframe_owed || r.ask_keyframe, ..self }
    }

    /// Frames and packets that wait for playout.
    pub open spec fn held(self) -> nat {
        match self.kind {
            MediaKind::Video => match self.video {
                Some(v) => v.frames.len(),
                None => 0,
            },
            MediaKind::Audio => match self.audio {
                Some(a) => a.packets.len(),
                None => 0,
            },
        }
    }

    /// The state, whether a keyframe is asked for, and the next frame that is
    /// ready for the decoder.
    pub open spec fn poll(self, now: Instant) -> (TrackModel, bool, Option<EncodedModel>) {
        match self.kind {
            MediaKind::Video => match self.video {
                Some(v) => {
                    let (after, ask, f) = next_video(v, now);
                    (
                        TrackModel { video: Some(after), ..self },
                        ask,
                        match f {
                            Some(f) => Some(video_frame(f)),
                            None => None,
                        },
                    )
                },
                None => (self, false, None),
            },
            MediaKind::Audio => match self.audio {
                Some(a) => {
                    let (after, tick) = a.tick();
                    (
                        TrackModel { audio: Some(after), ..self },
                        false,
                        match tick.packet {
                            Some(p) => Some(audio_frame(p)),
                            None => None,
                        },
                    )
                },
                None => (self, false, None),
            },
        }
    }

    /// The state, the requests for missing media and the request for a
    /// keyframe that a scan gives, where one is due.
    pub open spec fn scan(self, now: Instant, ttl_ms: u16) -> (
        TrackModel,
        Seq<PacketModel>,
        Option<PacketModel>,
    ) {
        if self.scan_due(now) {
            (
                TrackModel {
                    nack: self.nack.scanned(now),
                    last_nack_at: Some(now),
                    keyframe_owed: false,
                    ..self
                },
                self.nack.entries(now).map_values(
                    |e: (u16, u16)| nack::request(self.stream_id, ttl_ms, e),
                ),
                if (self.nack.gives_up(now) || self.keyframe_owed) && self.video is Some {
                    Some(jitter::keyframe_request(self.stream_id, ttl_ms))
                } else {
                    None
                },
            )
        } else {
            (self, Seq::empty(), None)
        }
    }

    /// Whether missing media is scanned now.
    pub open spec fn scan_due(self, now: Instant) -> bool {
        match self.last_nack_at {
            None => true,
            Some(t) => now.saturating_duration_since(t).nanos >= 20_000_000,
        }
    }
}

/// Polling keeps a track well-formed, and a frame that is given out is gone.
pub proof fn lemma_poll(t: TrackModel, now: Instant)
    requires
        t.wf(),
    ensures
        ({
            let (after, ask, f) = t.poll(now);
            &&& after.wf()
            &&& after.stream_id == t.stream_id
            &&& after.kind == t.kind
            &&& after.held() <= t.held()
            &&& f is Some ==> after.held() < t.held()
        }),
{
    if let Some(v) = t.video {
        lemma_next_video(v, now);
    }
}

/// Where more is missing of a video stream than can be asked for, the next scan
/// asks for a keyframe.
pub proof fn lemma_overflow_asks(
    t: TrackModel,
    media_seq: u16,
    now: Instant,
    later: Instant,
    ttl_ms: u16,
)
    requires
        t.wf(),
        t.kind == MediaKind::Video,
        t.nack.receive(media_seq, now).1.ask_keyframe,
        t.scan_due(later),
    ensures
        t.heard(media_seq, now).scan(later, ttl_ms).2 == Some(
            jitter::keyframe_request(t.stream_id, ttl_ms),
        ),
        !t.heard(media_seq, now).scan(later, ttl_ms).0.keyframe_owed,
{
}

/// One media stream of a session.
#[derive(Debug)]
pub struct Track {
    pub(crate) stream_id: u8,
    pub(crate) kind: MediaKind,
    pub(crate) next_frame_id: u32,
    pub(crate) next_media_seq: u16,
    pub(crate) fec_gen: Option<FecGenerator>,
    pub(crate) nack: NackRequester,
    pub(crate) video_jitter: Option<VideoFrameBuffer>,
    pub(crate) audio_jitter: Option<AudioNetEq>,
    pub(crate) last_nack_at: Option<Instant>,
    pub(crate) keyframe_owed: bool,
}

impl View for Track {
    type V = TrackModel;

    closed spec fn view(&self) -> TrackModel {
        TrackModel {
            stream_id: self.stream_id,
            kind: self.kind,
            next_frame_id: self.next_frame_id,
            next_media_seq: self.next_media_seq,
            fec_gen: generator_view(self.fec_gen),
            nack: self.nack@,
            video: match self.video_jitter {
                Some(v) => Some(v@),
                None => None,
            },
            audio: match self.audio_jitter {
                Some(a) => Some(a@),
                None => None,
            },
            last_nack_at: self.last_nack_at,
            keyframe_owed: self.keyframe_owed,
        }
    }
}

/// Fragments and parity rows that leave together.
pub struct SplitFrame<'a> {
    /// The fragments.
    pub packets: Vec<Packet<'a>>,
    /// The parity rows.
    pub rows: Vec<FecPacketOwned>,
}

/// What leaves, as values.
pub open spec fn split_models(s: SplitFrame<'_>) -> Seq<PacketModel> {
    fragment::models(s.packets@) + fec::row_models(s.rows@)
}

impl Track {
    /// A track on which nothing was sent or received.
    pub fn new(config: TrackConfig, rtt: Duration) -> (t: Self)
        requires
            config.throttled(),
        ensures
            t@ == TrackModel::start(config, rtt),
            t@.wf(),
    {
        let stream_id = config.stream_id;
        let fec_gen = if config.kind == MediaKind::Video && config.enable_fec {
            Some(FecGenerator::new(stream_id, config.fec))
        } else {
            None
        };
        let mut nack = NackRequester::new(stream_id, config.nack);
        nack.set_rtt(rtt);
        let video_jitter = match config.kind {
            MediaKind::Video => Some(VideoFrameBuffer::new(stream_id, config.video_jitter)),
            MediaKind::Audio => None,
        };
        let audio_jitter = match config.kind {
            MediaKind::Video => None,
            MediaKind::Audio => Some(AudioNetEq::new(stream_id, config.audio_jitter)),
        };
        Track {
            stream_id,
            kind: config.kind,
            next_frame_id: 1,
            next_media_seq: 1,
            fec_gen,
            nack,
            video_jitter,
            audio_jitter,
            last_nack_at: None,
            keyframe_owed: false,
        }
    }

    /// Audio or video.
    pub fn kind(&self) -> (k: MediaKind)
        ensures
            k == self@.kind,
    {
        self.kind
    }

    /// Sets the round-trip time for requests.
    pub fn set_rtt(&mut self, rtt: Duration)
        requires
            old(self)@.wf(),
        ensures
            final(self)@ == (TrackModel {
                nack: NackModel {
                    rtt: rtt.at_least(Duration::from_millis(1)),
                    ..old(self)@.nack
                },
                ..old(self)@
            }),
            final(self)@.wf(),
    {
        self.nack.set_rtt(rtt);
    }

    /// Splits a frame of this track into fragments and protects them.
    pub fn split<'a>(&mut self, frame: &'a EncodedFrame, ttl_ms: u16, limits: &PayloadSizeLimits) -> (r:
        Result<SplitFrame<'a>, FragmentError>)
        requires
            old(self)@.wf(),
        ensures
            final(self)@ == old(self)@.split(frame@, ttl_ms, *limits).0,
            final(self)@.wf(),
            match r {
                Ok(s) => old(self)@.split(frame@, ttl_ms, *limits).1 == Ok::<
                    Seq<PacketModel>,
                    FragmentError,
                >(split_models(s)),
                Err(e) => old(self)@.split(frame@, ttl_ms, *limits).1 == Err::<
                    Seq<PacketModel>,
                    FragmentError,
                >(e),
            },
    {
        let params = FragmentParams {
            stream_id: frame.stream_id,
            frame_id: self.next_frame_id,
            timestamp: frame.timestamp,
            ttl_ms,
            flags: Flags {
                retrans: false,
                audio: frame.kind == MediaKind::Audio,
                key: frame.keyframe && frame.kind == MediaKind::Video,
            },
            first_media_seq: self.next_media_seq,
            first_transport_seq: 0,
        };
        self.next_frame_id = self.next_frame_id.wrapping_add(1);
        let packets = match fragment::fragment(as_slice(&frame.payload), &params, limits) {
            Ok(p) => p,
            Err(e) => return Err(e),
        };
        assert(fragment::models(packets@).len() == packets@.len());
        self.next_media_seq = self.next_media_seq.wrapping_add(packets.len() as u16);
        let rows = protect_frame(&mut self.fec_gen, &packets);
        Ok(SplitFrame { packets, rows })
    }

    /// Hands a complete frame to playout.
    pub fn deliver(&mut self, frame: AssembledFrame, now: Instant, smoothed: Duration)
        requires
            old(self)@.wf(),
        ensures
            final(self)@ == old(self)@.deliver(frame@, now, smoothed),
            final(self)@.wf(),
    {
        match self.kind {
            MediaKind::Video => {
                let mut taken: Option<VideoFrameBuffer> = None;
                std::mem::swap(&mut taken, &mut self.video_jitter);
                if let Some(v) = taken {
                    let mut buffer = v;
                    buffer.push(frame, now, smoothed);
                    self.video_jitter = Some(buffer);
                }
            },
            MediaKind::Audio => {
                let mut taken: Option<AudioNetEq> = None;
                std::mem::swap(&mut taken, &mut self.audio_jitter);
                if let Some(a) = taken {
                    let mut neteq = a;
                    neteq.push(
                        AudioPacket {
                            stream_id: frame.stream_id,
                            timestamp: frame.timestamp,
                            payload: frame.payload,
                            arrived_at: now,
                        },
                        smoothed,
                    );
                    self.audio_jitter = Some(neteq);
                }
            },
        }
    }

    /// Notes that media arrived, or was rebuilt from parity.
    pub fn heard(&mut self, media_seq: u16, now: Instant)
        requires
            old(self)@.wf(),
        ensures
            final(self)@ == old(self)@.heard(media_seq, now),
            final(self)@.wf(),
    {
        let r = self.nack.on_received(media_seq, now);
        self.keyframe_owed = self.keyframe_owed || r.ask_keyframe;
    }

    /// Gives out the next frame that is ready for the decoder, and whether a
    /// keyframe is to be asked for.
    pub fn poll(&mut self, now: Instant) -> (r: (bool, Option<EncodedFrame>))
        requires
            old(self)@.wf(),
        ensures
            final(self)@ == old(self)@.poll(now).0,
            final(self)@.wf(),
            r.0 == old(self)@.poll(now).1,
            match r.1 {
                Some(f) => old(self)@.poll(now).2 == Some(f@),
                None => old(self)@.poll(now).2 is None,
            },
    {
        match self.kind {
            MediaKind::Video => match &mut self.video_jitter {
                Some(v) => {
                    let (ask, f) = poll_video(v, now);
                    match f {
                        Some(a) => (
                            ask,
                            Some(
                                EncodedFrame {
                                    stream_id: a.stream_id,
                                    timestamp: a.timestamp,
                                    kind: MediaKind::Video,
                                    keyframe: a.flags.key,
                                    payload: a.payload,
                                    ttl_ms: None,
                                },
                            ),
                        ),
                        None => (ask, None),
                    }
                },
                None => (false, None),
            },
            MediaKind::Audio => match &mut self.audio_jitter {
                Some(a) => {
                    let tick = a.get_decision(now);
                    match tick.packet {
                        Some(p) => (
                            false,
                            Some(
                                EncodedFrame {
                                    stream_id: p.stream_id,
                                    timestamp: p.timestamp,
                                    kind: MediaKind::Audio,
                                    keyframe: false,
                                    payload: p.payload,
                                    ttl_ms: None,
                                },
                            ),
                        ),
                        None => (false, None),
                    }
                },
                None => (false, None),
            },
        }
    }

    /// Scans missing media, where a scan is due.
    pub fn scan(&mut self, now: Instant, ttl_ms: u16) -> (r: (
        Vec<Packet<'static>>,
        Option<Packet<'static>>,
    ))
        requires
            old(self)@.wf(),
        ensures
            final(self)@ == old(self)@.scan(now, ttl_ms).0,
            final(self)@.wf(),
            fragment::models(r.0@) == old(self)@.scan(now, ttl_ms).1,
            match r.1 {
                Some(p) => old(self)@.scan(now, ttl_ms).2 == Some(p@),
                None => old(self)@.scan(now, ttl_ms).2 is None,
            },
    {
        let due = match self.last_nack_at {
            Some(t) => now.saturating_duration_since(t).nanos >= 20_000_000,
            None => true,
        };
        let ghost before = self@;
        if !due {
            let none: Vec<Packet<'static>> = Vec::new();
            assert(fragment::models(none@) =~= Seq::<PacketModel>::empty());
            return (none, None);
        }
        self.last_nack_at = Some(now);
        let owed: bool = self.keyframe_owed;
        self.keyframe_owed = false;
        let batch = self.nack.process(now);
        let packets = batch.to_packets(self.stream_id, ttl_ms);
        assert(fragment::models(packets@) =~= before.scan(now, ttl_ms).1);
        if batch.ask_keyframe || owed {
            if let Some(v) = &self.video_jitter {
                return (packets, Some(v.keyframe_packet(ttl_ms)));
            }
        }
        (packets, None)
    }

    /// The smoothed gap so far, and the gap that an arrival now makes.
    pub fn gap(&self, now: Instant) -> (r: Option<(Duration, Duration)>)
        ensures
            r == self@.gap(now),
    {
        match self.kind {
            MediaKind::Video => match &self.video_jitter {
                Some(v) => v.jitter_inputs(now),
                None => None,
            },
            MediaKind::Audio => match &self.audio_jitter {
                Some(a) => a.ewma_inputs(now),
                None => None,
            },
        }
    }
}

/// Polls a video buffer until it waits or gives a frame; also says whether a
/// keyframe is to be asked for.
fn poll_video(v: &mut VideoFrameBuffer, now: Instant) -> (r: (bool, Option<AssembledFrame>))
    requires
        old(v)@.wf(),
        old(v)@.config.keyframe_interval.nanos > 0,
    ensures
        final(v)@ == next_video(old(v)@, now).0,
        r.0 == next_video(old(v)@, now).1,
        match r.1 {
            Some(f) => next_video(old(v)@, now).2 == Some(f@),
            None => next_video(old(v)@, now).2 is None,
        },
        final(v)@.wf(),
        final(v)@.config == old(v)@.config,
        final(v)@.stream_id == old(v)@.stream_id,
{
    let ghost v0 = v@;
    proof {
        lemma_next_video(v0, now);
    }
    let mut ask: bool = false;
    loop
        invariant
            v0 == old(v)@,
            v@.wf(),
            v@.config == v0.config,
            v@.stream_id == v0.stream_id,
            v0.config.keyframe_interval.nanos > 0,
            next_video(v0, now) == (
                next_video(v@, now).0,
                ask || next_video(v@, now).1,
                next_video(v@, now).2,
            ),
        decreases
                v@.frames.len(),
                if v@.may_ask(now) {
                    1int
                } else {
                    0int
                },
    {
        match v.poll(now, true) {
            VideoPoll::Decode(f) => {
                return (ask, Some(f));
            },
            VideoPoll::DroppedLate { .. } => {},
            VideoPoll::KeyframeReq { .. } => {
                ask = true;
            },
            VideoPoll::Wait => {
                return (ask, None);
            },
        }
    }
}

/// A generator, where there is one, as a value.
pub open spec fn generator_view(g: Option<FecGenerator>) -> Option<GeneratorModel> {
    match g {
        Some(g) => Some(g@),
        None => None,
    }
}

/// Protects the packets of one frame.
fn protect_frame(fec_gen: &mut Option<FecGenerator>, packets: &Vec<Packet<'_>>) -> (rows: Vec<
    FecPacketOwned,
>)
    requires
        generator_view(*old(fec_gen)) matches Some(g) ==> g.wf(),
    ensures
        generator_view(*final(fec_gen)) == frame_rows(
            generator_view(*old(fec_gen)),
            fragment::models(packets@),
        ).0,
        fec::row_models(rows@) == frame_rows(
            generator_view(*old(fec_gen)),
            fragment::models(packets@),
        ).1,
        generator_view(*final(fec_gen)) matches Some(g) ==> g.wf() && g.stream_id
            == generator_view(*old(fec_gen))->0.stream_id,
{
    let mut rows: Vec<FecPacketOwned> = Vec::new();
    assert(fec::row_models(rows@) =~= Seq::<PacketModel>::empty());
    match fec_gen {
        Some(generator) => {
            rows = protect_all(generator, packets);
            let ghost rows0 = rows@;
            let mut last = generator.flush();
            let ghost last0 = last@;
            rows.append(&mut last);
            assert(rows@ =~= rows0 + last0);
            assert(fec::row_models(rows@) =~= fec::row_models(rows0) + fec::row_models(last0));
        },
        None => {},
    }
    rows
}

/// Protects packets one by one, and gives the rows of full blocks.
#[verifier::rlimit(50)]
fn protect_all(g: &mut FecGenerator, packets: &Vec<Packet<'_>>) -> (rows: Vec<FecPacketOwned>)
    requires
        old(g)@.wf(),
    ensures
        final(g)@.wf(),
        final(g)@ == protect(old(g)@, fragment::models(packets@)).0,
        fec::row_models(rows@) == protect(old(g)@, fragment::models(packets@)).1,
        final(g)@.stream_id == old(g)@.stream_id,
{
    let ghost g0 = g@;
    let ghost models = fragment::models(packets@);
    let mut rows: Vec<FecPacketOwned> = Vec::new();
    let mut i: usize = 0;
    assert(fec::row_models(rows@) =~= Seq::<PacketModel>::empty());
    assert(models.take(0).len() == 0);
    while i < packets.len()
        invariant
            i <= packets@.len(),
            models == fragment::models(packets@),
            g@.wf(),
            g@ == protect(g0, models.take(i as int)).0,
            g@.stream_id == g0.stream_id,
            fec::row_models(rows@) == protect(g0, models.take(i as int)).1,
        decreases packets@.len() - i,
    {
        let ghost rows0 = rows@;
        assert(models[i as int] == packets@[i as int]@);
        assert(models.take(i + 1).drop_last() =~= models.take(i as int));
        assert(models.take(i + 1).last() == models[i as int]);
        let seq: u16 = packets[i].header().media_seq;
        let wire = seal(packets[i].to_vec());
        match g.push(seq, wire) {
            Ok(r) => {
                let mut more = r;
                let ghost more0 = more@;
                rows.append(&mut more);
                assert(rows@ =~= rows0 + more0);
                assert(fec::row_models(rows@) =~= fec::row_models(rows0) + fec::row_models(more0));
            },
            Err(_) => {},
        }
        i = i + 1;
    }
    assert(models.take(models.len() as int) =~= models);
    rows
}

} // verus!
