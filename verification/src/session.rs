//! A media session over one datagram path.
//!
//! A [`Session`] shares congestion control, pacing, retransmission, parity
//! recovery and reassembly among its tracks. It does no I/O and reads no clock:
//! the host hands in datagrams and instants, and sends what
//! [`Session::poll_datagram`] gives out.

use crate::bwe;
use crate::bwe::{
    BandwidthEstimator, BweConfig, BweModel, Delta, NetworkState, Tally, TrendSignal,
};
use crate::codec::{EncodedFrame, EncodedModel, MediaKind, PushError};
use crate::fec;
use crate::fec::{FecPacketOwned, FecReceiver, ReceiverModel, RecoveredModel, RecoveredPacket};
use crate::feedback;
use crate::feedback::{
    AdapterModel, ArrivalRecorder, FeedbackAdapter, FeedbackConfig, PacketResult, RecorderModel,
    SentPacket, TransportSeqAssigner,
};
use crate::fragment;
use crate::fragment::PayloadSizeLimits;
use crate::history;
use crate::history::{
    budget_for, HistoryModel, LimiterModel, PacketHistory, RetransRateLimiter, RetransmitModel,
    RetransmitOutcome,
};
use crate::jitter;
use crate::octets;
use crate::octets::{as_slice, seal};
use crate::pacer::{Pacer, PacerConfig, PacerModel};
use crate::packet;
use crate::packet::{Header, Packet, PacketModel, PacketType};
use crate::reassembly::{
    AssembledFrame, AssembledModel, FrameReassembler, OutcomeModel, ReassemblerModel,
    DEFAULT_COMPLETED_HISTORY, DEFAULT_MAX_INCOMPLETE_FRAMES,
};
use crate::send_queue;
use crate::send_queue::{OutModel, QueueModel};
use crate::seqs;
use crate::table::Table;
use crate::text;
use crate::text::append_decimal;
use crate::time::{cap_u64, Duration, Instant};
use crate::track;
use crate::track::{Track, TrackModel};
use bytes::Bytes;
use vstd::prelude::*;
use vstd::slice::slice_to_vec;

pub use crate::track::TrackConfig;

verus! {

/// Lifetime of a frame that names none, in milliseconds.
pub const DEFAULT_FRAME_TTL_MS: u16 = 200;

/// How long the host waits when nothing is due, in milliseconds.
pub const IDLE_WAIT_MS: u64 = 20;

/// Settings that the tracks share.
#[derive(Debug, Clone, Copy, PartialEq, Eq, Structural)]
pub struct QrtConfig {
    /// Lifetime of a frame that names none, in milliseconds.
    pub default_ttl_ms: u16,
    /// How frames are split.
    pub payload_limits: PayloadSizeLimits,
    /// Bounds of the rate.
    pub bwe: BweConfig,
    /// The pacer to begin with.
    pub pacer: PacerConfig,
    /// Arrival reports.
    pub feedback: FeedbackConfig,
    /// Bound on the datagrams kept for retransmission.
    pub history_capacity: usize,
}

impl QrtConfig {
    /// Whether the rate has room between its bounds, and probes fit under
    /// them.
    pub open spec fn sound(self) -> bool {
        self.bwe.bounded() && self.bwe.probes()
    }
}

impl Default for QrtConfig {
    fn default() -> (c: Self)
        ensures
            c.default_ttl_ms == DEFAULT_FRAME_TTL_MS,
            c.payload_limits == (PayloadSizeLimits {
                max_payload_len: fragment::DEFAULT_MAX_PAYLOAD_LEN,
                first_packet_reduction_len: 0,
                last_packet_reduction_len: 0,
                single_packet_reduction_len: 0,
            }),
            c.bwe == (BweConfig {
                start_bitrate_bps: 300_000,
                min_bitrate_bps: 30_000,
                max_bitrate_bps: 2_500_000,
            }),
            c.pacer == (PacerConfig {
                pacing_rate_bps: 330_000,
                burst_interval: Duration::from_millis(crate::pacer::DEFAULT_BURST_INTERVAL_MS),
                max_debt: Duration::from_millis(crate::pacer::DEFAULT_MAX_DEBT_MS),
                queue_time_limit: Duration::from_millis(crate::pacer::DEFAULT_QUEUE_TIME_LIMIT_MS),
                account_for_audio: false,
            }),
            c.feedback == (FeedbackConfig {
                interval: Duration::from_millis(feedback::DEFAULT_FEEDBACK_INTERVAL_MS),
                retention: Duration::from_millis(feedback::DEFAULT_HISTORY_RETENTION_MS),
                feedback_ttl_ms: 100,
            }),
            c.history_capacity == 600,
            c.sound(),
    {
        let bwe = BweConfig::default();
        let mut pacer = PacerConfig::default();
        pacer.pacing_rate_bps = bwe.start_bitrate_bps / 10 * 11;
        QrtConfig {
            default_ttl_ms: DEFAULT_FRAME_TTL_MS,
            payload_limits: PayloadSizeLimits::default(),
            bwe,
            pacer,
            feedback: FeedbackConfig::default(),
            history_capacity: 600,
        }
    }
}

/// Congestion and queues at one instant.
#[derive(Debug, Clone, Copy, PartialEq, Eq, Structural)]
pub struct QrtInfo {
    /// The rate for the encoders together, in bits per second, after pushback.
    pub target_bitrate_bps: u64,
    /// The pacer's rate in bits per second.
    pub pacing_rate_bps: u64,
    /// The round-trip time.
    pub rtt: Duration,
    /// What the delay says of the path.
    pub network: NetworkState,
    /// Bytes that no report has covered.
    pub in_flight_bytes: usize,
    /// Datagrams that wait to leave.
    pub queued_packets: usize,
    /// Number of tracks.
    pub track_count: usize,
}

/// Why a track cannot be registered or found.
#[derive(Debug, Clone, Copy, PartialEq, Eq, Structural)]
pub enum QrtError {
    /// There is a track for the stream already.
    TrackExists {
        /// The stream.
        stream_id: u8,
    },
    /// There is no track for the stream.
    UnknownTrack {
        /// The stream.
        stream_id: u8,
    },
}

impl QrtError {
    /// The text of the error.
    pub open spec fn text(self) -> Seq<char> {
        match self {
            QrtError::TrackExists { stream_id } => "track already exists stream_id="@ + text::decimal(stream_id as nat),
            QrtError::UnknownTrack { stream_id } => "unknown track stream_id="@ + text::decimal(stream_id as nat),
        }
    }

    /// Says what is wrong.
    pub fn message(&self) -> (m: String)
        ensures
            m@ == self.text(),
    {
        match self {
            QrtError::TrackExists { stream_id } => {
                let mut m = String::from_str("track already exists stream_id=");
                append_decimal(&mut m, *stream_id as u64);
                m
            },
            QrtError::UnknownTrack { stream_id } => {
                let mut m = String::from_str("unknown track stream_id=");
                append_decimal(&mut m, *stream_id as u64);
                m
            },
        }
    }
}

/// What the rate control needs of an arrival report.
#[derive(Debug)]
pub struct ReportInputs {
    /// Delay samples, in the order in which they were taken.
    pub deltas: Vec<Delta>,
    /// What arrived and what was lost.
    pub tally: Tally,
}

/// What a received datagram asks of the host.
#[derive(Debug)]
pub struct Received {
    /// Frames that are complete now, to be handed to
    /// [`Session::deliver_frame`] in this order.
    pub frames: Vec<AssembledFrame>,
    /// An arrival report to be put through the rate control.
    pub report: Option<ReportInputs>,
    /// The stream whose encoder is asked for a keyframe.
    pub keyframe_for: Option<u8>,
}

/// A [`Received`] as a value.
#[verifier::ext_equal]
pub struct ReceivedModel {
    pub frames: Seq<AssembledModel>,
    pub report: Option<(Seq<Delta>, Tally)>,
    pub keyframe_for: Option<u8>,
}

/// Complete frames as values.
pub open spec fn frame_models(frames: Seq<AssembledFrame>) -> Seq<AssembledModel> {
    frames.map_values(|f: AssembledFrame| f@)
}

impl View for Received {
    type V = ReceivedModel;

    open spec fn view(&self) -> ReceivedModel {
        ReceivedModel {
            frames: frame_models(self.frames@),
            report: match self.report {
                Some(r) => Some((r.deltas@, r.tally)),
                None => None,
            },
            keyframe_for: self.keyframe_for,
        }
    }
}

impl ReceivedModel {
    /// Nothing is asked of the host.
    pub open spec fn nothing() -> ReceivedModel {
        ReceivedModel { frames: Seq::empty(), report: None, keyframe_for: None }
    }

    /// Only frames are complete.
    pub open spec fn only_frames(frames: Seq<AssembledModel>) -> ReceivedModel {
        ReceivedModel { frames, report: None, keyframe_for: None }
    }
}

/// The rate for the encoder of one track.
#[derive(Debug, Clone, Copy, PartialEq, Eq, Structural)]
pub struct TrackRate {
    /// Stream of the track.
    pub stream_id: u8,
    /// The rate in bits per second.
    pub target_bitrate_bps: u64,
}

/// A queue with one packet after the other queued at `now`; those whose
/// lifetime is over are left out.
pub open spec fn queue_all(q: QueueModel, packets: Seq<PacketModel>, now: Instant) -> QueueModel
    decreases packets.len(),
{
    if packets.len() == 0 {
        q
    } else {
        queue_all(q, packets.drop_last(), now).enqueue_packet(packets.last(), now).0
    }
}

/// The budget of all audio tracks: a tenth of the rate, but at least 16 kbps
/// and at most 64 kbps for each.
pub open spec fn audio_budget(target_bps: u64, audio_tracks: nat) -> int {
    let tenth = target_bps / 10;
    if audio_tracks == 0 {
        0
    } else if tenth < 16_000 {
        16_000
    } else if tenth > 64_000 * audio_tracks {
        64_000 * audio_tracks as int
    } else {
        tenth as int
    }
}

/// The rate of one track: tracks of a kind share its budget evenly, and video
/// gets what audio leaves.
pub open spec fn share(target_bps: u64, video_tracks: nat, audio_tracks: nat, kind: MediaKind) -> int {
    let audio = audio_budget(target_bps, audio_tracks);
    match kind {
        MediaKind::Audio => if audio_tracks == 0 {
            0
        } else {
            audio / (audio_tracks as int)
        },
        MediaKind::Video => {
            let rest = if audio > target_bps {
                0
            } else {
                target_bps - audio
            };
            if video_tracks == 0 {
                rest
            } else {
                rest / (video_tracks as int)
            }
        },
    }
}

/// The budget for retransmissions at a rate, for half a second.
pub open spec fn limiter_for(target_bps: u64) -> LimiterModel {
    LimiterModel::fresh(
        Duration::from_millis(500),
        history::window_budget(target_bps, Duration::from_millis(500)),
    )
}

/// The last of the matched datagrams that arrived.
pub open spec fn last_received(packets: Seq<PacketResult>) -> Option<PacketResult>
    decreases packets.len(),
{
    if packets.len() == 0 {
        None
    } else if packets.last().receive_time is Some {
        Some(packets.last())
    } else {
        last_received(packets.drop_last())
    }
}

/// The state of a [`Session`] as a value.
#[verifier::ext_equal]
pub struct SessionModel {
    /// Settings.
    pub config: QrtConfig,
    /// Tracks by stream.
    pub tracks: Map<u64, TrackModel>,
    /// Transport sequence number of the next datagram.
    pub next_seq: u16,
    /// Parity recovery.
    pub fec_rx: ReceiverModel,
    /// Pacing.
    pub pacer: PacerModel,
    /// Datagrams kept for retransmission.
    pub history: HistoryModel,
    /// Datagrams that were sent.
    pub sent: AdapterModel,
    /// Datagrams that arrived.
    pub arrivals: RecorderModel,
    /// Rate control.
    pub bwe: BweModel,
    /// Frames in the making.
    pub reasm: ReassemblerModel,
    /// Round-trip time.
    pub rtt: Duration,
    /// When probing was considered last.
    pub last_probe_at: Option<Instant>,
    /// Bytes in flight past which the encoders are pushed back.
    pub window: Option<usize>,
}

impl SessionModel {
    /// A session without tracks.
    pub open spec fn start(config: QrtConfig) -> SessionModel {
        SessionModel {
            config,
            tracks: Map::empty(),
            next_seq: 0,
            fec_rx: ReceiverModel::empty(256),
            pacer: PacerModel::empty(config.pacer),
            history: HistoryModel {
                capacity: if config.history_capacity == 0 {
                    1
                } else {
                    config.history_capacity as int
                },
                entries: Map::empty(),
                order: Seq::empty(),
                rtt: Duration::from_millis(100),
                limiter: Some(limiter_for(config.bwe.start_bitrate_bps)),
            },
            sent: AdapterModel::empty(config.feedback),
            arrivals: RecorderModel::empty(config.feedback),
            bwe: BweModel::start(config.bwe),
            reasm: ReassemblerModel::empty(
                DEFAULT_MAX_INCOMPLETE_FRAMES as int,
                DEFAULT_COMPLETED_HISTORY as int,
            ),
            rtt: Duration::from_millis(100),
            last_probe_at: None,
            window: None,
        }
    }

    /// Whether all that waits, and all that may be sent again, can be
    /// numbered when it leaves.
    pub open spec fn sendable(self) -> bool {
        self.pacer.queue.wf() && self.pacer.queue.headed() && self.history.all_media()
    }

    /// What holds of every state.
    pub open spec fn wf(self) -> bool {
        &&& self.tracks.dom().finite()
        &&& forall|k: u64| #[trigger]
            self.tracks.contains_key(k) ==> self.tracks[k].wf() && self.tracks[k].stream_id == k
        &&& self.fec_rx.wf()
        &&& self.pacer.wf()
        &&& self.history.wf()
        &&& self.sendable()
        &&& self.bwe.wf()
        &&& self.bwe.config.probes()
        &&& self.reasm.wf()
    }

    /// Whether there is a track for the stream.
    pub open spec fn has(self, stream_id: u8) -> bool {
        self.tracks.contains_key(stream_id as u64)
    }

    /// The state with another queue.
    pub open spec fn with_queue(self, queue: QueueModel) -> SessionModel {
        SessionModel { pacer: PacerModel { queue, ..self.pacer }, ..self }
    }

    /// The state with packets queued.
    pub open spec fn queued(self, packets: Seq<PacketModel>, now: Instant) -> SessionModel {
        self.with_queue(queue_all(self.pacer.queue, packets, now))
    }

    /// The state with another round-trip time; a millisecond at least.
    pub open spec fn timed(self, rtt: Duration) -> SessionModel {
        let rtt = rtt.at_least(Duration::from_millis(1));
        SessionModel {
            rtt,
            history: HistoryModel { rtt, ..self.history },
            tracks: self.tracks.map_values(
                |t: TrackModel| TrackModel { nack: crate::nack::NackModel { rtt, ..t.nack }, ..t },
            ),
            ..self
        }
    }

    /// The state and the outcome once a frame was handed in. Empty frames,
    /// frames for no track or of the other kind, and frames that cannot be
    /// split are refused; a frame without lifetime is dropped.
    pub open spec fn enqueue_frame(self, f: EncodedModel, now: Instant) -> (
        SessionModel,
        Result<(), PushError>,
    ) {
        let ttl = match f.ttl_ms {
            Some(t) => t,
            None => self.config.default_ttl_ms,
        };
        let key = f.stream_id as u64;
        if f.payload.len() == 0 {
            (self, Err(PushError::EmptyFrame))
        } else if ttl == 0 {
            (self, Ok(()))
        } else if !self.tracks.contains_key(key) {
            (self, Err(PushError::UnknownTrack { stream_id: f.stream_id }))
        } else if self.tracks[key].kind != f.kind {
            (
                self,
                Err(
                    PushError::KindMismatch {
                        stream_id: f.stream_id,
                        track: self.tracks[key].kind,
                        frame: f.kind,
                    },
                ),
            )
        } else {
            let (t, r) = self.tracks[key].split(f, ttl, self.config.payload_limits);
            let m = SessionModel { tracks: self.tracks.insert(key, t), ..self };
            match r {
                Ok(packets) => (m.queued(packets, now), Ok(())),
                Err(e) => (m, Err(PushError::Fragment(e))),
            }
        }
    }

    /// The state, and the next frame of a stream that is ready for the decoder.
    /// A keyframe that is asked for on the way is asked for at the peer.
    pub open spec fn poll_frame(self, stream_id: u8, now: Instant) -> (SessionModel, Option<
        EncodedModel,
    >) {
        let key = stream_id as u64;
        if self.tracks.contains_key(key) {
            let (t, ask, f) = self.tracks[key].poll(now);
            let m = SessionModel { tracks: self.tracks.insert(key, t), ..self };
            if ask {
                (
                    m.queued(
                        seq![jitter::keyframe_request(stream_id, self.config.default_ttl_ms)],
                        now,
                    ),
                    f,
                )
            } else {
                (m, f)
            }
        } else {
            (self, None)
        }
    }

    /// The frames and packets of a stream that wait for playout.
    pub open spec fn held(self, stream_id: u8) -> nat {
        if self.has(stream_id) {
            self.tracks[stream_id as u64].held()
        } else {
            0
        }
    }

    /// The state once every frame of a stream that is ready was given out, and
    /// those frames.
    pub open spec fn pump_track(self, stream_id: u8, now: Instant) -> (
        SessionModel,
        Seq<(u8, EncodedModel)>,
    )
        decreases self.held(stream_id),
        when self.wf()
    {
        proof {
            lemma_poll_frame(self, stream_id, now);
        }
        let (m, f) = self.poll_frame(stream_id, now);
        match f {
            None => (m, Seq::empty()),
            Some(f) => {
                let (end, rest) = m.pump_track(stream_id, now);
                (end, seq![(stream_id, f)] + rest)
            },
        }
    }

    /// The state once the streams were pumped in the order `ids`, and the
    /// frames that were given out.
    pub open spec fn pumped(self, ids: Seq<u8>, now: Instant) -> (
        SessionModel,
        Seq<(u8, EncodedModel)>,
    )
        decreases ids.len(),
    {
        if ids.len() == 0 {
            (self, Seq::empty())
        } else {
            let (m, out) = self.pumped(ids.drop_last(), now);
            let (end, more) = m.pump_track(ids.last(), now);
            (end, out + more)
        }
    }

    /// The state once the streams were polled in the order `ids` up to the
    /// first that has a frame ready, and that frame.
    pub open spec fn first_frame(self, ids: Seq<u8>, now: Instant) -> (SessionModel, Option<
        EncodedModel,
    >)
        decreases ids.len(),
    {
        if ids.len() == 0 {
            (self, None)
        } else {
            let (m, f) = self.poll_frame(ids[0], now);
            match f {
                Some(f) => (m, Some(f)),
                None => m.first_frame(ids.skip(1), now),
            }
        }
    }

    /// Whether `ids` lists the streams of the tracks, each once.
    pub open spec fn lists(self, ids: Seq<u8>) -> bool {
        &&& ids.no_duplicates()
        &&& forall|id: u8| ids.contains(id) <==> #[trigger] self.has(id)
    }

    /// The state, and the complete frame that comes of it, once a media
    /// datagram arrived or was rebuilt.
    pub open spec fn absorb(
        self,
        stream_id: u8,
        media_seq: u16,
        wire: Seq<u8>,
        now: Instant,
    ) -> (SessionModel, Option<AssembledModel>) {
        let key = stream_id as u64;
        let m = if self.tracks.contains_key(key) {
            SessionModel {
                tracks: self.tracks.insert(key, self.tracks[key].heard(media_seq, now)),
                ..self
            }
        } else {
            self
        };
        match PacketModel::parse(wire) {
            Err(_) => (m, None),
            Ok(p) => {
                let (reasm, r) = m.reasm.push(p);
                let after = SessionModel { reasm, ..m };
                match r {
                    Ok(OutcomeModel::Assembled(f)) => if m.has(f.stream_id) {
                        (after, Some(f))
                    } else {
                        (after, None)
                    },
                    _ => (after, None),
                }
            },
        }
    }

    /// The state and the complete frames once rebuilt datagrams were taken in,
    /// one after the other.
    pub open spec fn absorb_all(self, rebuilt: Seq<RecoveredModel>, now: Instant) -> (
        SessionModel,
        Seq<AssembledModel>,
    )
        decreases rebuilt.len(),
    {
        if rebuilt.len() == 0 {
            (self, Seq::empty())
        } else {
            let (m, frames) = self.absorb_all(rebuilt.drop_last(), now);
            let r = rebuilt.last();
            let (after, f) = m.absorb(r.stream_id, r.media_seq, r.wire, now);
            (
                after,
                match f {
                    Some(f) => frames.push(f),
                    None => frames,
                },
            )
        }
    }

    /// The state and the complete frames once a media datagram was taken in.
    /// What was rebuilt on its account goes first.
    pub open spec fn media_in(
        self,
        rebuilt: Seq<RecoveredModel>,
        h: Header,
        wire: Seq<u8>,
        now: Instant,
    ) -> (SessionModel, Seq<AssembledModel>) {
        let (m, frames) = self.absorb_all(rebuilt, now);
        let (after, f) = m.absorb(h.stream_id, h.media_seq, wire, now);
        (
            after,
            match f {
                Some(f) => frames.push(f),
                None => frames,
            },
        )
    }

    /// The state once media that the peer misses was queued again, where it
    /// may be.
    pub open spec fn answered(self, stream_id: u8, missing: Seq<u16>, now: Instant) -> SessionModel
        decreases missing.len(),
    {
        if missing.len() == 0 {
            self
        } else {
            let m = self.answered(stream_id, missing.drop_last(), now);
            let (history, r) = m.history.request(stream_id, missing.last(), now);
            let after = SessionModel { history, ..m };
            match r {
                RetransmitModel::Ready(out) => after.with_queue(after.pacer.queue.enqueue(out)),
                _ => after,
            }
        }
    }

    /// The state and the inputs of the rate control once an arrival report was
    /// matched. The send time of the last datagram that arrived gives the
    /// round-trip time, where it is between a millisecond and two seconds.
    pub open spec fn reported(
        self,
        first_seq: u16,
        mask: u64,
        deltas: Seq<u16>,
        now: Instant,
    ) -> (SessionModel, (Seq<Delta>, Tally)) {
        let (sent, r) = self.sent.matched(first_seq, mask, deltas, now);
        let m = SessionModel { sent, ..self };
        let timed = match last_received(r.packets) {
            Some(p) => {
                let sample = now.saturating_duration_since(p.send_time);
                if 1_000_000 < sample.nanos < 2_000_000_000 {
                    m.timed(sample)
                } else {
                    m
                }
            },
            None => m,
        };
        let (inter_arrival, samples) = timed.bwe.inter_arrival.steps(bwe::arrivals(r.packets));
        (
            SessionModel {
                bwe: BweModel {
                    rtt: timed.rtt.at_least(Duration::from_millis(1)),
                    target_before: timed.bwe.target,
                    inter_arrival,
                    ..timed.bwe
                },
                ..timed
            },
            (samples, bwe::tally_of(r.packets)),
        )
    }

    /// The state and what is asked of the host once a datagram was received.
    /// One that cannot be decoded changes nothing. Every other is noted as
    /// arrived, and one whose lifetime is over changes nothing else.
    pub open spec fn handle(self, datagram: Seq<u8>, now: Instant) -> (
        SessionModel,
        ReceivedModel,
    ) {
        match PacketModel::parse(datagram) {
            Err(_) => (self, ReceivedModel::nothing()),
            Ok(p) => {
                let m = SessionModel {
                    arrivals: self.arrivals.noted(p.header().transport_seq, now),
                    ..self
                };
                if p.header().ttl_ms == 0 {
                    (m, ReceivedModel::nothing())
                } else {
                    m.take_in(p, datagram, now)
                }
            },
        }
    }

    /// The state and what is asked of the host once a packet was taken in.
    pub open spec fn take_in(self, p: PacketModel, datagram: Seq<u8>, now: Instant) -> (
        SessionModel,
        ReceivedModel,
    ) {
        let h = p.header();
        match p {
            PacketModel::Media { .. } => {
                let (fec_rx, rebuilt) = self.fec_rx.take_media(h.stream_id, h.media_seq, datagram);
                let (end, frames) = SessionModel { fec_rx, ..self }.media_in(
                    rebuilt,
                    h,
                    datagram,
                    now,
                );
                (end, ReceivedModel::only_frames(frames))
            },
            PacketModel::Fec { .. } => {
                let (fec_rx, rebuilt) = self.fec_rx.take_row(fec::row_of(p));
                let (end, frames) = SessionModel { fec_rx, ..self }.absorb_all(rebuilt, now);
                (end, ReceivedModel::only_frames(frames))
            },
            PacketModel::Nack { base_seq, blp, .. } => (
                self.answered(h.stream_id, seqs::missing((base_seq, blp)), now),
                ReceivedModel::nothing(),
            ),
            PacketModel::ArrivalFeedback { first_seq, received_mask, recv_delta_bytes, .. } => {
                let (end, r) = self.reported(
                    first_seq,
                    received_mask,
                    packet::parse_deltas(recv_delta_bytes),
                    now,
                );
                (end, ReceivedModel { report: Some(r), ..ReceivedModel::nothing() })
            },
            PacketModel::KeyframeReq { stream_id, .. } => (
                self,
                ReceivedModel {
                    keyframe_for: if self.has(stream_id) {
                        Some(stream_id)
                    } else {
                        None
                    },
                    ..ReceivedModel::nothing()
                },
            ),
        }
    }

    /// The state once a complete frame was handed to playout; `smoothed` is the
    /// smoothed gap between arrivals of its track.
    pub open spec fn delivered(self, f: AssembledModel, now: Instant, smoothed: Duration) -> SessionModel {
        let key = f.stream_id as u64;
        if self.tracks.contains_key(key) {
            SessionModel {
                tracks: self.tracks.insert(key, self.tracks[key].deliver(f, now, smoothed)),
                ..self
            }
        } else {
            self
        }
    }

    /// Whether `ids` lists the keys of the tracks, each once.
    pub open spec fn walks(self, ids: Seq<u64>) -> bool {
        ids.no_duplicates() && ids.to_set() == self.tracks.dom()
    }

    /// The state, the requests for missing media and those for keyframes once
    /// the tracks were scanned in the order `ids`.
    pub open spec fn scanned(self, ids: Seq<u64>, now: Instant) -> (
        SessionModel,
        Seq<PacketModel>,
        Seq<PacketModel>,
    )
        decreases ids.len(),
    {
        if ids.len() == 0 {
            (self, Seq::empty(), Seq::empty())
        } else {
            let (m, nacks, keys) = self.scanned(ids.drop_last(), now);
            let k = ids.last();
            let (t, more, key) = m.tracks[k].scan(now, self.config.default_ttl_ms);
            (
                SessionModel { tracks: m.tracks.insert(k, t), ..m },
                nacks + more,
                match key {
                    Some(p) => keys.push(p),
                    None => keys,
                },
            )
        }
    }

    /// Whether probing is considered now.
    pub open spec fn probe_due(self, now: Instant) -> bool {
        match self.last_probe_at {
            None => true,
            Some(t) => now.saturating_duration_since(t).nanos >= 50_000_000,
        }
    }

    /// The state once probing was considered, where it is due: an idle sender
    /// may pace at twice the estimated rate.
    pub open spec fn probed(self, now: Instant) -> SessionModel {
        if self.probe_due(now) {
            let idle = self.pacer.queue.count() == 0;
            let bwe = self.bwe.probes(now, idle).0;
            let double = crate::time::capped(bwe.target * 2);
            let m = SessionModel { bwe, last_probe_at: Some(now), ..self };
            if idle {
                m.repaced(
                    if double > self.pacer.config.pacing_rate_bps {
                        double
                    } else {
                        self.pacer.config.pacing_rate_bps
                    },
                )
            } else {
                m
            }
        } else {
            self
        }
    }

    /// The state with another pacing rate.
    pub open spec fn repaced(self, pacing_rate_bps: u64) -> SessionModel {
        let config = PacerConfig { pacing_rate_bps, ..self.config.pacer };
        SessionModel { pacer: PacerModel { config, ..self.pacer }.clamped(), ..self }
    }

    /// The state once what is due at `now` was done, with the tracks scanned in
    /// the order `ids`: the arrival report, requests for missing media and for
    /// keyframes are queued, probing is considered, and datagrams too old to be
    /// asked for are forgotten.
    #[verifier::opaque]
    pub open spec fn maintained(self, ids: Seq<u64>, now: Instant) -> SessionModel {
        let (arrivals, report) = self.arrivals.poll(now);
        let a = SessionModel { arrivals, ..self };
        let b = match report {
            Some(r) => a.queued(seq![r.packet()], now),
            None => a,
        };
        let (c, nacks, keys) = b.scanned(ids, now);
        let d = c.queued(nacks, now).queued(keys, now).probed(now);
        SessionModel { history: d.history.cull(now), ..d }
    }

    /// The state, and the datagram that leaves at `now`. It carries the next
    /// transport sequence number; media that leaves for the first time is kept
    /// for retransmission.
    #[verifier::opaque]
    pub open spec fn departed(self, now: Instant) -> (SessionModel, Option<Seq<u8>>) {
        let (pacer, out) = self.pacer.poll(now);
        let m = SessionModel { pacer, ..self };
        match out {
            None => (m, None),
            Some(p) => match packet::parse_header(p.wire) {
                Err(_) => (m, Some(p.wire)),
                Ok(h) => {
                    let wire = feedback::stamped(p.wire, self.next_seq);
                    let s = SessionModel {
                        next_seq: seqs::seq_add(self.next_seq, 1),
                        sent: m.sent.sent(
                            SentPacket {
                                transport_seq: self.next_seq,
                                send_time: now,
                                size_bytes: wire.len() as usize,
                                audio: h.flags.audio,
                            },
                        ),
                        ..m
                    };
                    let history = if h.packet_type != PacketType::Media {
                        s.history
                    } else if h.flags.retrans {
                        s.history.mark_sent(h.stream_id, h.media_seq, now)
                    } else {
                        s.history.put_outgoing(OutModel { wire, ..p }, now)
                    };
                    (SessionModel { history, ..s }, Some(wire))
                },
            },
        }
    }

    /// How long it takes to send what waits, at the pacing rate; zero where
    /// that cannot be told.
    pub open spec fn queue_delay(self) -> Duration {
        match self.pacer.queue.queue_time(self.pacer.config.pacing_rate_bps) {
            Some(t) => t,
            None => Duration::from_millis(0),
        }
    }

    /// The rate for the encoders together: the estimated one, pushed back while
    /// the send queue is long or too much is in flight.
    pub open spec fn encoder_target(self) -> u64 {
        bwe::pushed_back(
            self.bwe.target,
            self.queue_delay(),
            self.sent.in_flight() as int,
            self.window,
        )
    }

    /// The number of tracks of a kind.
    pub open spec fn count(self, kind: MediaKind) -> nat {
        self.tracks.dom().filter(|k: u64| self.tracks[k].kind == kind).len()
    }

    /// The rate of the encoder of one track.
    pub open spec fn rate_of(self, k: u64) -> int {
        share(
            self.encoder_target(),
            self.count(MediaKind::Video),
            self.count(MediaKind::Audio),
            self.tracks[k].kind,
        )
    }

    /// The state once a new rate is in force; `scaled` is the encoder's rate
    /// times the pacing factor. The budget for retransmissions changes, not what
    /// was used of it.
    pub open spec fn rated(self, scaled: u64) -> SessionModel {
        let target = self.encoder_target();
        let m = self.repaced(
            if scaled < target {
                target
            } else {
                scaled
            },
        );
        let limiter = match self.history.limiter {
            Some(l) => LimiterModel { budget: limiter_for(target).budget, ..l },
            None => limiter_for(target),
        };
        SessionModel { history: HistoryModel { limiter: Some(limiter), ..m.history }, ..m }
    }
}

/// Polling for a frame keeps a session well-formed, and a frame that is given
/// out is gone.
pub proof fn lemma_poll_frame(m: SessionModel, stream_id: u8, now: Instant)
    requires
        m.wf(),
    ensures
        ({
            let (after, f) = m.poll_frame(stream_id, now);
            &&& after.wf()
            &&& after.held(stream_id) <= m.held(stream_id)
            &&& f is Some ==> after.held(stream_id) < m.held(stream_id)
            &&& after.tracks.dom() == m.tracks.dom()
        }),
{
    let key = stream_id as u64;
    if m.has(stream_id) {
        track::lemma_poll(m.tracks[key], now);
        lemma_queue_headed(
            m.pacer.queue,
            seq![jitter::keyframe_request(stream_id, m.config.default_ttl_ms)],
            now,
        );
        assert(m.tracks.insert(key, m.tracks[key].poll(now).0).dom() =~= m.tracks.dom());
    }
}

/// Queueing packets with headers leaves all that waits with one.
pub proof fn lemma_queue_headed(q: QueueModel, packets: Seq<PacketModel>, now: Instant)
    requires
        q.wf(),
        q.headed(),
        track::all_labelled(packets),
    ensures
        queue_all(q, packets, now).wf(),
        queue_all(q, packets, now).headed(),
    decreases packets.len(),
{
    if packets.len() > 0 {
        let front = packets.drop_last();
        assert forall|i: int| 0 <= i < front.len() implies (#[trigger] front[i]).labelled() by {
            assert(front[i] == packets[i]);
        }
        lemma_queue_headed(q, front, now);
        let p = packets.last();
        assert(packets[packets.len() - 1].labelled());
        packet::lemma_labelled(p);
        let r = queue_all(q, front, now);
        if let Some(o) = OutModel::of_packet(p, now) {
            send_queue::lemma_enqueue_headed(r, o);
        } else {
            let e = r.enqueue_packet(p, now).0;
            assert(e.lanes == r.lanes);
        }
    }
}

/// Requests for missing media and for keyframes have headers.
proof fn lemma_scanned(m: SessionModel, ids: Seq<u64>, now: Instant)
    ensures
        ({
            let (after, nacks, keys) = m.scanned(ids, now);
            &&& track::all_labelled(nacks)
            &&& track::all_labelled(keys)
            &&& after == (SessionModel { tracks: after.tracks, ..m })
        }),
    decreases ids.len(),
{
    if ids.len() > 0 {
        lemma_scanned(m, ids.drop_last(), now);
    }
}

/// What is due can be numbered, and takes no number itself.
pub proof fn lemma_maintained(m: SessionModel, ids: Seq<u64>, now: Instant)
    requires
        m.sendable(),
    ensures
        m.maintained(ids, now).sendable(),
        m.maintained(ids, now).next_seq == m.next_seq,
{
    reveal(SessionModel::maintained);
    let (arrivals, report) = m.arrivals.poll(now);
    let a = SessionModel { arrivals, ..m };
    let b = match report {
        Some(r) => a.queued(seq![r.packet()], now),
        None => a,
    };
    if let Some(r) = report {
        assert(track::all_labelled(seq![r.packet()]));
        lemma_queue_headed(a.pacer.queue, seq![r.packet()], now);
    }
    lemma_scanned(b, ids, now);
    let (c, nacks, keys) = b.scanned(ids, now);
    lemma_queue_headed(c.pacer.queue, nacks, now);
    lemma_queue_headed(c.queued(nacks, now).pacer.queue, keys, now);
}

/// What leaves carries the next number, and what stays can be numbered.
pub proof fn lemma_departed(m: SessionModel, now: Instant)
    requires
        m.sendable(),
    ensures
        m.departed(now).0.sendable(),
        match m.departed(now).1 {
            Some(w) => {
                &&& m.pacer.poll(now).1 is Some
                &&& w == feedback::stamped(m.pacer.poll(now).1->0.wire, m.next_seq)
                &&& packet::parse_header(w) is Ok
                &&& packet::parse_header(w)->Ok_0.transport_seq == m.next_seq
                &&& m.departed(now).0.next_seq == seqs::seq_add(m.next_seq, 1)
            },
            None => m.departed(now).0.next_seq == m.next_seq,
        },
{
    reveal(SessionModel::departed);
    send_queue::lemma_pop_headed(m.pacer.advanced(now).queue, now);
    if let Some(p) = m.pacer.poll(now).1 {
        packet::lemma_headed(p.wire);
        feedback::lemma_stamped(p.wire, m.next_seq);
    }
}

/// What is sent again can be numbered.
pub proof fn lemma_answered(m: SessionModel, stream_id: u8, missing: Seq<u16>, now: Instant)
    requires
        m.sendable(),
    ensures
        m.answered(stream_id, missing, now).sendable(),
        m.answered(stream_id, missing, now).next_seq == m.next_seq,
    decreases missing.len(),
{
    if missing.len() > 0 {
        lemma_answered(m, stream_id, missing.drop_last(), now);
        let a = m.answered(stream_id, missing.drop_last(), now);
        let (h, r) = a.history.request(stream_id, missing.last(), now);
        if let RetransmitModel::Ready(out) = r {
            history::lemma_retransmission(a.history, stream_id, missing.last(), now);
            packet::lemma_parsed_is_valid(out.wire);
            packet::lemma_headed(out.wire);
            send_queue::lemma_enqueue_headed(a.pacer.queue, out);
        }
    }
}

/// A frame that was handed in can be numbered, and takes no number yet.
pub proof fn lemma_enqueue_frame(m: SessionModel, f: EncodedModel, now: Instant)
    requires
        m.sendable(),
    ensures
        m.enqueue_frame(f, now).0.sendable(),
        m.enqueue_frame(f, now).0.next_seq == m.next_seq,
{
    let ttl = match f.ttl_ms {
        Some(t) => t,
        None => m.config.default_ttl_ms,
    };
    let key = f.stream_id as u64;
    let t = m.tracks[key];
    if t.split(f, ttl, m.config.payload_limits).1 is Ok {
        track::lemma_split_labelled(t, f, ttl, m.config.payload_limits);
        lemma_queue_headed(
            m.pacer.queue,
            t.split(f, ttl, m.config.payload_limits).1->Ok_0,
            now,
        );
    }
}

/// Frames that were given out, with their streams, as values.
pub open spec fn inbound_models(out: Seq<(u8, EncodedFrame)>) -> Seq<(u8, EncodedModel)> {
    out.map_values(|p: (u8, EncodedFrame)| (p.0, p.1@))
}

/// A media session over one datagram path.
#[derive(Debug)]
pub struct Session {
    config: QrtConfig,
    tracks: Table<Track>,
    transport_seqs: TransportSeqAssigner,
    fec_rx: FecReceiver,
    pacer: Pacer,
    history: PacketHistory,
    feedback_tx: FeedbackAdapter,
    arrival_rx: ArrivalRecorder,
    bwe: BandwidthEstimator,
    reasm: FrameReassembler,
    rtt: Duration,
    last_probe_at: Option<Instant>,
    congestion_window: Option<usize>,
}

/// Tracks as values.
spec fn track_models(tracks: Map<u64, Track>) -> Map<u64, TrackModel> {
    tracks.map_values(|t: Track| t@)
}

impl View for Session {
    type V = SessionModel;

    closed spec fn view(&self) -> SessionModel {
        SessionModel {
            config: self.config,
            tracks: track_models(self.tracks@),
            next_seq: self.transport_seqs@,
            fec_rx: self.fec_rx@,
            pacer: self.pacer@,
            history: self.history@,
            sent: self.feedback_tx@,
            arrivals: self.arrival_rx@,
            bwe: self.bwe@,
            reasm: self.reasm@,
            rtt: self.rtt,
            last_probe_at: self.last_probe_at,
            window: self.congestion_window,
        }
    }
}

impl Session {
    /// What every session keeps.
    pub closed spec fn wf(&self) -> bool {
        &&& self@.wf()
        &&& self.tracks.wf()
        &&& self.pacer.wf()
        &&& self.history.wf()
        &&& self.reasm.wf()
    }

    /// The state of a well-formed session is well-formed.
    pub proof fn lemma_wf(&self)
        requires
            self.wf(),
        ensures
            self@.wf(),
    {
    }

    /// A session without tracks.
    pub fn new(config: QrtConfig) -> (s: Self)
        requires
            config.sound(),
        ensures
            s.wf(),
            s@ == SessionModel::start(config),
    {
        let mut history = PacketHistory::new(config.history_capacity);
        history.set_rate_limiter(
            RetransRateLimiter::from_target_bps(
                config.bwe.start_bitrate_bps,
                Duration::from_millis(500),
            ),
        );
        let s = Session {
            config,
            tracks: Table::new(),
            transport_seqs: TransportSeqAssigner::new(),
            fec_rx: FecReceiver::new(256),
            pacer: Pacer::new(config.pacer),
            history,
            feedback_tx: FeedbackAdapter::new(config.feedback),
            arrival_rx: ArrivalRecorder::new(config.feedback),
            bwe: BandwidthEstimator::new(config.bwe),
            reasm: FrameReassembler::new(),
            rtt: Duration::from_millis(100),
            last_probe_at: None,
            congestion_window: None,
        };
        proof {
            s.pacer.lemma_wf();
            s.history.lemma_wf();
            s.reasm.lemma_wf();
            assert(s@.tracks =~= Map::<u64, TrackModel>::empty());
        }
        s
    }

    /// Registers a track. A stream can have one.
    pub fn register_track(&mut self, config: TrackConfig) -> (r: Result<(), QrtError>)
        requires
            old(self).wf(),
            config.throttled(),
        ensures
            final(self).wf(),
            match r {
                Ok(()) => !old(self)@.has(config.stream_id) && final(self)@ == (SessionModel {
                    tracks: old(self)@.tracks.insert(
                        config.stream_id as u64,
                        TrackModel::start(config, old(self)@.rtt),
                    ),
                    ..old(self)@
                }),
                Err(e) => old(self)@.has(config.stream_id) && final(self)@ == old(self)@ && e
                    == (QrtError::TrackExists { stream_id: config.stream_id }),
            },
    {
        let key: u64 = config.stream_id as u64;
        if self.tracks.contains_key(key) {
            return Err(QrtError::TrackExists { stream_id: config.stream_id });
        }
        let ghost before = self@;
        let track = Track::new(config, self.rtt);
        let ghost t = track@;
        self.tracks.insert(key, track);
        proof {
            self.lemma_put(before, key, t);
        }
        Ok(())
    }

    /// Removes a track, with its frames in the making, and says whether there
    /// was one.
    pub fn remove_track(&mut self, stream_id: u8) -> (existed: bool)
        requires
            old(self).wf(),
        ensures
            final(self).wf(),
            existed == old(self)@.has(stream_id),
            final(self)@ == (SessionModel {
                tracks: old(self)@.tracks.remove(stream_id as u64),
                reasm: old(self)@.reasm.without_stream(stream_id),
                ..old(self)@
            }),
    {
        let ghost before = self@;
        self.reasm.clear_stream(stream_id);
        let r = self.tracks.remove(stream_id as u64);
        proof {
            self.reasm.lemma_wf();
            assert(self@.tracks =~= before.tracks.remove(stream_id as u64));
        }
        r.is_some()
    }

    /// Whether there is a track for the stream.
    pub fn has_track(&self, stream_id: u8) -> (b: bool)
        ensures
            b == self@.has(stream_id),
    {
        self.tracks.contains_key(stream_id as u64)
    }

    /// The streams of the tracks, in an order that is left open.
    pub fn track_ids(&self) -> (ids: Vec<u8>)
        requires
            self.wf(),
        ensures
            self@.lists(ids@),
    {
        let keys = self.tracks.keys();
        let mut ids: Vec<u8> = Vec::new();
        let mut i: usize = 0;
        while i < keys.len()
            invariant
                i <= keys@.len(),
                keys@.no_duplicates(),
                keys@.to_set() == self@.tracks.dom(),
                self@.wf(),
                ids@.len() == i,
                forall|j: int| 0 <= j < i ==> (#[trigger] ids@[j]) as u64 == keys@[j],
            decreases keys@.len() - i,
        {
            assert(keys@.to_set().contains(keys@[i as int]));
            assert(self@.tracks.contains_key(keys@[i as int]));
            ids.push(keys[i] as u8);
            i = i + 1;
        }
        proof {
            assert forall|id: u8| ids@.contains(id) <==> #[trigger] self@.has(id) by {
                if ids@.contains(id) {
                    let j = choose|j: int| 0 <= j < ids@.len() && ids@[j] == id;
                    assert(keys@.to_set().contains(keys@[j]));
                }
                if self@.has(id) {
                    assert(keys@.to_set().contains(id as u64));
                    let j = choose|j: int| 0 <= j < keys@.len() && keys@[j] == id as u64;
                    assert(ids@[j] == id);
                }
            }
        }
        ids
    }

    /// Congestion and queues.
    pub fn info(&self) -> (i: QrtInfo)
        requires
            self.wf(),
        ensures
            i == (QrtInfo {
                target_bitrate_bps: self@.encoder_target(),
                pacing_rate_bps: self@.pacer.config.pacing_rate_bps,
                rtt: self@.rtt,
                network: self@.bwe.detector.state,
                in_flight_bytes: self@.sent.in_flight(),
                queued_packets: octets::size_capped(self@.pacer.queue.count() as int),
                track_count: self@.tracks.len() as usize,
            }),
            i.track_count == self@.tracks.len(),
    {
        assert(self@.tracks.dom() =~= self.tracks@.dom());
        QrtInfo {
            target_bitrate_bps: self.encoder_target(),
            pacing_rate_bps: self.pacer.pacing_rate_bps(),
            rtt: self.rtt,
            network: self.bwe.network_state(),
            in_flight_bytes: self.feedback_tx.in_flight_bytes(),
            queued_packets: self.pacer.queue().len(),
            track_count: self.tracks.len(),
        }
    }

    /// The estimated rate in bits per second, before pushback.
    pub fn estimated_bitrate_bps(&self) -> (r: u64)
        ensures
            r == self@.bwe.target,
    {
        self.bwe.target_bitrate_bps()
    }

    /// Sets the bytes in flight past which the encoders are pushed back; there
    /// is no such bound to begin with.
    pub fn set_congestion_window(&mut self, window: Option<usize>)
        requires
            old(self).wf(),
        ensures
            final(self).wf(),
            final(self)@ == (SessionModel { window, ..old(self)@ }),
    {
        self.congestion_window = window;
    }

    /// Sets the round-trip time; a millisecond at least.
    pub fn set_rtt(&mut self, rtt: Duration)
        requires
            old(self).wf(),
        ensures
            final(self).wf(),
            final(self)@ == old(self)@.timed(rtt),
    {
        let ghost before = self@;
        let floor = rtt.at_least(Duration::from_millis(1));
        self.rtt = floor;
        self.history.set_rtt(floor);
        let keys = self.tracks.keys();
        let ghost all = before.timed(rtt).tracks;
        assert(self.tracks@.dom() =~= before.tracks.dom());
        assert(all.dom() =~= before.tracks.dom());
        let mut i: usize = 0;
        while i < keys.len()
            invariant
                i <= keys@.len(),
                keys@.no_duplicates(),
                keys@.to_set() == before.tracks.dom(),
                before.wf(),
                all == before.timed(rtt).tracks,
                all.dom() == before.tracks.dom(),
                floor == rtt.at_least(Duration::from_millis(1)),
                self.tracks.wf(),
                self.pacer.wf(),
                self.history.wf(),
                self.reasm.wf(),
                self@ == (SessionModel {
                    rtt: floor,
                    history: HistoryModel { rtt: floor, ..before.history },
                    tracks: self@.tracks,
                    ..before
                }),
                self@.tracks.dom() == before.tracks.dom(),
                forall|k: u64| #[trigger]
                    before.tracks.contains_key(k) ==> self@.tracks[k] == (if keys@.take(
                        i as int,
                    ).contains(k) {
                        all[k]
                    } else {
                        before.tracks[k]
                    }),
            decreases keys@.len() - i,
        {
            let k: u64 = keys[i];
            let ghost m = self@.tracks;
            assert(keys@.to_set().contains(k));
            assert(!keys@.take(i as int).contains(k));
            assert(keys@.take(i + 1) =~= keys@.take(i as int).push(k));
            if let Some(t) = self.tracks.remove(k) {
                let mut track = t;
                track.set_rtt(floor);
                self.tracks.insert(k, track);
                assert(self@.tracks =~= m.insert(k, all[k]));
            }
            assert forall|j: u64| #[trigger] before.tracks.contains_key(j) implies self@.tracks[j]
                == (if keys@.take(i + 1).contains(j) {
                all[j]
            } else {
                before.tracks[j]
            }) by {
                assert(keys@.take(i + 1).contains(j) <==> keys@.take(i as int).contains(j) || j
                    == k) by {
                    if j == k {
                        assert(keys@.take(i + 1)[i as int] == k);
                    }
                    if keys@.take(i as int).contains(j) {
                        let x = choose|x: int|
                            0 <= x < i && keys@.take(i as int)[x] == j;
                        assert(keys@.take(i + 1)[x] == j);
                    }
                }
            }
            i = i + 1;
        }
        proof {
            assert(keys@.take(i as int) =~= keys@);
            assert forall|k: u64| #[trigger] before.tracks.contains_key(k) implies self@.tracks[k]
                == all[k] by {
                assert(keys@.to_set().contains(k));
            }
            assert(self@.tracks =~= all);
        }
    }

    /// Takes a frame in: it is split, protected and queued.
    pub fn enqueue_frame(&mut self, frame: &EncodedFrame, now: Instant) -> (r: Result<(), PushError>)
        requires
            old(self).wf(),
        ensures
            final(self).wf(),
            final(self)@ == old(self)@.enqueue_frame(frame@, now).0,
            r == old(self)@.enqueue_frame(frame@, now).1,
    {
        if frame.payload.len() == 0 {
            return Err(PushError::EmptyFrame);
        }
        let ttl: u16 = match frame.ttl_ms {
            Some(t) => t,
            None => self.config.default_ttl_ms,
        };
        if ttl == 0 {
            return Ok(());
        }
        let ghost before = self@;
        let key: u64 = frame.stream_id as u64;
        let kind = match self.tracks.get(key) {
            Some(t) => t.kind(),
            None => return Err(PushError::UnknownTrack { stream_id: frame.stream_id }),
        };
        if kind != frame.kind {
            return Err(
                PushError::KindMismatch {
                    stream_id: frame.stream_id,
                    track: kind,
                    frame: frame.kind,
                },
            );
        }
        let ghost t0 = before.tracks[key];
        if let Some(t) = self.tracks.remove(key) {
            let mut track = t;
            let limits = self.config.payload_limits;
            let r = track.split(frame, ttl, &limits);
            let ghost t1 = track@;
            self.tracks.insert(key, track);
            proof {
                assert(self@.tracks =~= before.tracks.insert(key, t1));
                self.lemma_put(before, key, t1);
            }
            match r {
                Ok(s) => {
                    let ghost q0 = self@.pacer.queue;
                    queue_packets(&mut self.pacer, &s.packets, now);
                    queue_rows(&mut self.pacer, &s.rows, now);
                    proof {
                        lemma_queue_all(
                            q0,
                            fragment::models(s.packets@),
                            fec::row_models(s.rows@),
                            now,
                        );
                        self.pacer.lemma_wf();
                        lemma_enqueue_frame(before, frame@, now);
                    }
                },
                Err(e) => return Err(PushError::Fragment(e)),
            }
        }
        Ok(())
    }

    /// Gives out the next frame of a stream that is ready for the decoder.
    pub fn poll_frame(&mut self, stream_id: u8, now: Instant) -> (r: Option<EncodedFrame>)
        requires
            old(self).wf(),
        ensures
            final(self).wf(),
            final(self)@ == old(self)@.poll_frame(stream_id, now).0,
            match r {
                Some(f) => old(self)@.poll_frame(stream_id, now).1 == Some(f@),
                None => old(self)@.poll_frame(stream_id, now).1 is None,
            },
    {
        let ghost before = self@;
        let key: u64 = stream_id as u64;
        assert(self.tracks@.contains_key(key) <==> before.tracks.contains_key(key));
        let mut track = match self.tracks.remove(key) {
            Some(t) => t,
            None => {
                assert(self@.tracks =~= before.tracks);
                return None;
            },
        };
        let (ask, frame) = track.poll(now);
        let ghost t1 = track@;
        self.tracks.insert(key, track);
        proof {
            track::lemma_poll(before.tracks[key], now);
            assert(self@.tracks =~= before.tracks.insert(key, t1));
            self.lemma_put(before, key, t1);
        }
        if ask {
            let packet = jitter::keyframe_packet(stream_id, self.config.default_ttl_ms);
            let ghost q0 = self@.pacer.queue;
            let ghost one = seq![packet@];
            assert(one.drop_last().len() == 0);
            assert(queue_all(q0, one, now) == queue_all(q0, one.drop_last(), now).enqueue_packet(
                one.last(),
                now,
            ).0);
            let _ = self.pacer.enqueue_packet(&packet, now);
            proof {
                self.pacer.lemma_wf();
                lemma_queue_headed(q0, one, now);
            }
        }
        frame
    }

    /// Gives out every frame that is ready, with its stream. The order of the
    /// streams is left open.
    pub fn pump_inbound(&mut self, now: Instant) -> (out: Vec<(u8, EncodedFrame)>)
        requires
            old(self).wf(),
        ensures
            final(self).wf(),
            exists|ids: Seq<u8>| #[trigger]
                old(self)@.lists(ids) && final(self)@ == old(self)@.pumped(ids, now).0
                    && inbound_models(out@) == old(self)@.pumped(ids, now).1,
    {
        let ghost before = self@;
        let ids = self.track_ids();
        let mut out: Vec<(u8, EncodedFrame)> = Vec::new();
        assert(inbound_models(out@) =~= Seq::<(u8, EncodedModel)>::empty());
        assert(ids@.take(0).len() == 0);
        let mut i: usize = 0;
        while i < ids.len()
            invariant
                i <= ids@.len(),
                self.wf(),
                self@ == before.pumped(ids@.take(i as int), now).0,
                inbound_models(out@) == before.pumped(ids@.take(i as int), now).1,
            decreases ids@.len() - i,
        {
            assert(ids@.take(i + 1).drop_last() =~= ids@.take(i as int));
            self.pump_stream(ids[i], now, &mut out);
            i = i + 1;
        }
        assert(ids@.take(i as int) =~= ids@);
        assert(before.lists(ids@));
        out
    }

    /// Gives out every frame of one stream that is ready.
    fn pump_stream(&mut self, stream_id: u8, now: Instant, out: &mut Vec<(u8, EncodedFrame)>)
        requires
            old(self).wf(),
        ensures
            final(self).wf(),
            final(self)@ == old(self)@.pump_track(stream_id, now).0,
            inbound_models(final(out)@) == inbound_models(old(out)@) + old(self)@.pump_track(
                stream_id,
                now,
            ).1,
    {
        let ghost before = self@;
        let ghost out0 = inbound_models(out@);
        assert(out0 + before.pump_track(stream_id, now).1 =~= inbound_models(out@)
            + before.pump_track(stream_id, now).1);
        loop
            invariant
                before == old(self)@,
                out0 == inbound_models(old(out)@),
                self.wf(),
                before.pump_track(stream_id, now).0 == self@.pump_track(stream_id, now).0,
                out0 + before.pump_track(stream_id, now).1 == inbound_models(out@)
                    + self@.pump_track(stream_id, now).1,
            decreases self@.held(stream_id),
        {
            let ghost m = self@;
            let ghost o = out@;
            proof {
                lemma_poll_frame(m, stream_id, now);
            }
            match self.poll_frame(stream_id, now) {
                Some(frame) => {
                    let ghost f = frame@;
                    out.push((stream_id, frame));
                    proof {
                        assert(inbound_models(out@) =~= inbound_models(o).push((stream_id, f)));
                        assert(inbound_models(out@) + self@.pump_track(stream_id, now).1
                            =~= inbound_models(o) + (seq![(stream_id, f)] + self@.pump_track(
                            stream_id,
                            now,
                        ).1));
                    }
                },
                None => {
                    assert(inbound_models(out@) + Seq::<(u8, EncodedModel)>::empty()
                        =~= inbound_models(out@));
                    return;
                },
            }
        }
    }

    /// Polls the streams, in an order that is left open, for the first frame
    /// that is ready.
    pub fn poll_any_frame(&mut self, now: Instant) -> (r: Option<EncodedFrame>)
        requires
            old(self).wf(),
        ensures
            final(self).wf(),
            exists|ids: Seq<u8>| #[trigger]
                old(self)@.lists(ids) && final(self)@ == old(self)@.first_frame(ids, now).0
                    && match r {
                    Some(f) => old(self)@.first_frame(ids, now).1 == Some(f@),
                    None => old(self)@.first_frame(ids, now).1 is None,
                },
    {
        let ghost before = self@;
        let ids = self.track_ids();
        assert(before.lists(ids@));
        assert(ids@.skip(0) =~= ids@);
        let mut i: usize = 0;
        while i < ids.len()
            invariant
                before == old(self)@,
                before.lists(ids@),
                i <= ids@.len(),
                self.wf(),
                before.first_frame(ids@, now) == self@.first_frame(ids@.skip(i as int), now),
            decreases ids@.len() - i,
        {
            assert(ids@.skip(i as int).skip(1) =~= ids@.skip(i + 1));
            if let Some(frame) = self.poll_frame(ids[i], now) {
                return Some(frame);
            }
            i = i + 1;
        }
        None
    }

    /// Takes in a media datagram that arrived or was rebuilt; gives the frame
    /// that is complete with it.
    fn absorb(&mut self, stream_id: u8, media_seq: u16, wire: &[u8], now: Instant) -> (r: Option<
        AssembledFrame,
    >)
        requires
            old(self).wf(),
        ensures
            final(self).wf(),
            final(self)@ == old(self)@.absorb(stream_id, media_seq, wire@, now).0,
            match r {
                Some(f) => old(self)@.absorb(stream_id, media_seq, wire@, now).1 == Some(f@),
                None => old(self)@.absorb(stream_id, media_seq, wire@, now).1 is None,
            },
    {
        let ghost before = self@;
        let key: u64 = stream_id as u64;
        assert(self.tracks@.contains_key(key) <==> before.tracks.contains_key(key));
        match self.tracks.remove(key) {
            Some(t) => {
                let mut track = t;
                track.heard(media_seq, now);
                let ghost t1 = track@;
                self.tracks.insert(key, track);
                proof {
                    assert(self@.tracks =~= before.tracks.insert(key, t1));
                    self.lemma_put(before, key, t1);
                }
            },
            None => {
                assert(self@.tracks =~= before.tracks);
            },
        }
        let packet = match Packet::decode(wire) {
            Ok(p) => p,
            Err(_) => return None,
        };
        let pushed = self.reasm.push(&packet);
        proof {
            self.reasm.lemma_wf();
        }
        match pushed {
            Ok(outcome) => match outcome.into_assembled() {
                Some(f) => if self.has_track(f.stream_id) {
                    Some(f)
                } else {
                    None
                },
                None => None,
            },
            Err(_) => None,
        }
    }

    /// Takes in rebuilt datagrams, one after the other; gives the frames that
    /// are complete with them.
    fn absorb_all(&mut self, rebuilt: &Vec<RecoveredPacket>, now: Instant) -> (frames: Vec<
        AssembledFrame,
    >)
        requires
            old(self).wf(),
        ensures
            final(self).wf(),
            final(self)@ == old(self)@.absorb_all(fec::recovered_models(rebuilt@), now).0,
            frame_models(frames@) == old(self)@.absorb_all(
                fec::recovered_models(rebuilt@),
                now,
            ).1,
    {
        let ghost before = self@;
        let ghost models = fec::recovered_models(rebuilt@);
        let mut frames: Vec<AssembledFrame> = Vec::new();
        assert(frame_models(frames@) =~= Seq::<AssembledModel>::empty());
        assert(models.take(0).len() == 0);
        let mut i: usize = 0;
        while i < rebuilt.len()
            invariant
                i <= rebuilt@.len(),
                models == fec::recovered_models(rebuilt@),
                self.wf(),
                self@ == before.absorb_all(models.take(i as int), now).0,
                frame_models(frames@) == before.absorb_all(models.take(i as int), now).1,
            decreases rebuilt@.len() - i,
        {
            let ghost done = frames@;
            assert(models[i as int] == rebuilt@[i as int]@);
            assert(models.take(i + 1).drop_last() =~= models.take(i as int));
            let r = &rebuilt[i];
            if let Some(f) = self.absorb(r.stream_id, r.media_seq, as_slice(&r.wire), now) {
                frames.push(f);
                assert(frame_models(frames@) =~= frame_models(done).push(f@));
            }
            i = i + 1;
        }
        assert(models.take(models.len() as int) =~= models);
        frames
    }

    /// Takes in a received media datagram.
    fn on_media(&mut self, header: Header, datagram: &[u8], now: Instant) -> (frames: Vec<
        AssembledFrame,
    >)
        requires
            old(self).wf(),
        ensures
            final(self).wf(),
            ({
                let (fec_rx, rebuilt) = old(self)@.fec_rx.take_media(
                    header.stream_id,
                    header.media_seq,
                    datagram@,
                );
                (final(self)@, frame_models(frames@)) == (SessionModel {
                    fec_rx,
                    ..old(self)@
                }).media_in(rebuilt, header, datagram@, now)
            }),
    {
        let ghost before = self@;
        let rebuilt = self.fec_rx.insert_media(
            header.stream_id,
            header.media_seq,
            Bytes::copy_from_slice(datagram),
        );
        assert(self@ == (SessionModel { fec_rx: self.fec_rx@, ..before }));
        let mut frames = self.absorb_all(&rebuilt, now);
        let ghost done = frames@;
        if let Some(f) = self.absorb(header.stream_id, header.media_seq, datagram, now) {
            frames.push(f);
            assert(frame_models(frames@) =~= frame_models(done).push(f@));
        }
        frames
    }

    /// Takes in a received parity packet.
    fn on_fec(&mut self, packet: &Packet<'_>, now: Instant) -> (frames: Vec<AssembledFrame>)
        requires
            old(self).wf(),
            packet@ is Fec,
        ensures
            final(self).wf(),
            ({
                let (fec_rx, rebuilt) = old(self)@.fec_rx.take_row(fec::row_of(packet@));
                (final(self)@, frame_models(frames@)) == (SessionModel {
                    fec_rx,
                    ..old(self)@
                }).absorb_all(rebuilt, now)
            }),
    {
        let ghost before = self@;
        match self.fec_rx.insert_fec_packet(packet) {
            Ok(rebuilt) => {
                assert(self@ == (SessionModel { fec_rx: self.fec_rx@, ..before }));
                self.absorb_all(&rebuilt, now)
            },
            Err(_) => Vec::new(),
        }
    }

    /// Queues media again that the peer misses, where it may be.
    fn answer(&mut self, stream_id: u8, missing: &Vec<u16>, now: Instant)
        requires
            old(self).wf(),
        ensures
            final(self).wf(),
            final(self)@ == old(self)@.answered(stream_id, missing@, now),
    {
        let ghost before = self@;
        assert(missing@.take(0).len() == 0);
        let mut i: usize = 0;
        while i < missing.len()
            invariant
                i <= missing@.len(),
                before.sendable(),
                self.wf(),
                self@ == before.answered(stream_id, missing@.take(i as int), now),
            decreases missing@.len() - i,
        {
            assert(missing@.take(i + 1).drop_last() =~= missing@.take(i as int));
            let r = self.history.get_retransmission(stream_id, missing[i], now);
            proof {
                self.history.lemma_wf();
            }
            if let RetransmitOutcome::Ready(out) = r {
                self.pacer.enqueue(out);
                proof {
                    self.pacer.lemma_wf();
                }
            }
            proof {
                lemma_answered(before, stream_id, missing@.take(i + 1), now);
            }
            i = i + 1;
        }
        assert(missing@.take(i as int) =~= missing@);
    }

    /// Matches an arrival report with what was sent.
    fn on_report(&mut self, packet: &Packet<'_>, now: Instant) -> (r: Option<ReportInputs>)
        requires
            old(self).wf(),
        ensures
            final(self).wf(),
            match packet@ {
                PacketModel::ArrivalFeedback {
                    first_seq,
                    received_mask,
                    recv_delta_bytes,
                    ..
                } => {
                    let (end, inputs) = old(self)@.reported(
                        first_seq,
                        received_mask,
                        packet::parse_deltas(recv_delta_bytes),
                        now,
                    );
                    &&& final(self)@ == end
                    &&& r matches Some(i) && i.deltas@ == inputs.0 && i.tally == inputs.1
                },
                _ => final(self)@ == old(self)@ && r is None,
            },
    {
        let report = match self.feedback_tx.on_feedback_packet(packet, now) {
            Some(r) => r,
            None => return None,
        };
        let ghost m = self@;
        if let Some(sent) = last_arrived(&report.packets) {
            let sample = now.saturating_duration_since(sent);
            if sample.nanos > 1_000_000 && sample.nanos < 2_000_000_000 {
                self.set_rtt(sample);
            }
        }
        let (deltas, tally) = self.bwe.on_report(&report, self.rtt);
        Some(ReportInputs { deltas, tally })
    }

    /// Takes in a received datagram, and says what it asks of the host. One
    /// that cannot be decoded is ignored; one whose lifetime is over only counts
    /// as arrived.
    pub fn handle_datagram(&mut self, datagram: &[u8], now: Instant) -> (r: Received)
        requires
            old(self).wf(),
        ensures
            final(self).wf(),
            (final(self)@, r@) == old(self)@.handle(datagram@, now),
    {
        let mut r = Received { frames: Vec::new(), report: None, keyframe_for: None };
        assert(r@ =~= ReceivedModel::nothing());
        let packet = match Packet::decode(datagram) {
            Ok(p) => p,
            Err(_) => return r,
        };
        let header = *packet.header();
        self.arrival_rx.on_packet(header.transport_seq, now, datagram.len());
        if header.ttl_ms == 0 {
            return r;
        }
        match &packet {
            Packet::Media { .. } => {
                r.frames = self.on_media(header, datagram, now);
                assert(r@ =~= ReceivedModel::only_frames(frame_models(r.frames@)));
            },
            Packet::Fec { .. } => {
                r.frames = self.on_fec(&packet, now);
                assert(r@ =~= ReceivedModel::only_frames(frame_models(r.frames@)));
            },
            Packet::Nack { base_seq, blp, .. } => {
                let missing = Packet::nack_missing_seqs(*base_seq, *blp);
                self.answer(header.stream_id, &missing, now);
            },
            Packet::ArrivalFeedback { .. } => {
                r.report = self.on_report(&packet, now);
            },
            Packet::KeyframeReq { stream_id, .. } => {
                if self.has_track(*stream_id) {
                    r.keyframe_for = Some(*stream_id);
                }
            },
        }
        r
    }

    /// The smoothed gap between arrivals on a track so far, and the gap that an
    /// arrival now makes. There is none before the first arrival.
    pub fn arrival_gap(&self, stream_id: u8, now: Instant) -> (r: Option<(Duration, Duration)>)
        ensures
            r == (if self@.has(stream_id) {
                self@.tracks[stream_id as u64].gap(now)
            } else {
                None
            }),
    {
        match self.tracks.get(stream_id as u64) {
            Some(t) => t.gap(now),
            None => None,
        }
    }

    /// Hands a complete frame to playout; `smoothed` is the smoothed gap
    /// between arrivals, this one taken in.
    pub fn deliver_frame(&mut self, frame: AssembledFrame, now: Instant, smoothed: Duration)
        requires
            old(self).wf(),
        ensures
            final(self).wf(),
            final(self)@ == old(self)@.delivered(frame@, now, smoothed),
    {
        let ghost before = self@;
        let key: u64 = frame.stream_id as u64;
        assert(self.tracks@.contains_key(key) <==> before.tracks.contains_key(key));
        match self.tracks.remove(key) {
            Some(t) => {
                let mut track = t;
                track.deliver(frame, now, smoothed);
                let ghost t1 = track@;
                self.tracks.insert(key, track);
                proof {
                    assert(self@.tracks =~= before.tracks.insert(key, t1));
                    self.lemma_put(before, key, t1);
                }
            },
            None => {
                assert(self@.tracks =~= before.tracks);
            },
        }
    }

    /// The earliest instant after `now` at which a datagram may leave; none
    /// where nothing waits, or where one may leave now.
    pub fn next_send_time(&self, now: Instant) -> (r: Option<Instant>)
        requires
            self.wf(),
        ensures
            r == (match self@.pacer.next_send_time(now) {
                Some(t) => if t.nanos > now.nanos {
                    Some(t)
                } else {
                    None
                },
                None => None,
            }),
    {
        match self.pacer.next_send_time(now) {
            Some(t) => if t.nanos > now.nanos {
                Some(t)
            } else {
                None
            },
            None => None,
        }
    }

    /// How long the host may wait for a datagram to arrive before it polls
    /// again.
    pub fn next_wait(&self, now: Instant) -> (d: Duration)
        requires
            self.wf(),
        ensures
            d == (match self@.pacer.next_send_time(now) {
                Some(t) => if t.nanos > now.nanos {
                    t.saturating_duration_since(now)
                } else {
                    Duration::from_millis(IDLE_WAIT_MS)
                },
                None => Duration::from_millis(IDLE_WAIT_MS),
            }),
    {
        match self.next_send_time(now) {
            Some(t) => t.saturating_duration_since(now),
            None => Duration::from_millis(IDLE_WAIT_MS),
        }
    }

    /// Gives out the datagram that is to leave now. Before that, what is due is
    /// queued; the order in which the tracks are scanned is left open.
    pub fn poll_datagram(&mut self, now: Instant) -> (r: Option<Bytes>)
        requires
            old(self).wf(),
        ensures
            final(self).wf(),
            exists|ids: Seq<u64>| #[trigger]
                old(self)@.walks(ids) && {
                    let (end, wire) = old(self)@.maintained(ids, now).departed(now);
                    &&& final(self)@ == end
                    &&& match r {
                        Some(b) => wire == Some(octets::octets(b)),
                        None => wire is None,
                    }
                },
            match r {
                Some(b) => {
                    &&& packet::parse_header(octets::octets(b)) is Ok
                    &&& packet::parse_header(octets::octets(b))->Ok_0.transport_seq == old(
                        self,
                    )@.next_seq
                    &&& final(self)@.next_seq == seqs::seq_add(old(self)@.next_seq, 1)
                },
                None => final(self)@.next_seq == old(self)@.next_seq,
            },
    {
        let ghost before = self@;
        self.maintain(now);
        proof {
            let ids = choose|ids: Seq<u64>| #[trigger]
                before.walks(ids) && self@ == before.maintained(ids, now);
            lemma_maintained(before, ids, now);
            lemma_departed(self@, now);
        }
        self.depart(now)
    }

    /// Does what is due: reports, requests, probing, and forgetting.
    fn maintain(&mut self, now: Instant)
        requires
            old(self).wf(),
        ensures
            final(self).wf(),
            exists|ids: Seq<u64>| #[trigger]
                old(self)@.walks(ids) && final(self)@ == old(self)@.maintained(ids, now),
    {
        proof {
            reveal(SessionModel::maintained);
        }
        let ghost before = self@;
        let report = self.arrival_rx.poll(now);
        if let Some(fb) = report {
            let packet = fb.as_packet();
            let ghost q0 = self@.pacer.queue;
            let ghost one = seq![packet@];
            assert(one.drop_last().len() == 0);
            assert(queue_all(q0, one, now) == queue_all(q0, one.drop_last(), now).enqueue_packet(
                one.last(),
                now,
            ).0);
            let _ = self.pacer.enqueue_packet(&packet, now);
            proof {
                self.pacer.lemma_wf();
                lemma_queue_headed(q0, one, now);
            }
        }
        let ghost b = self@;
        let keys = self.tracks.keys();
        assert(before.walks(keys@)) by {
            assert(self.tracks@.dom() =~= before.tracks.dom());
        }
        assert(b.walks(keys@));
        let (nacks, requests) = self.scan_tracks(&keys, now);
        let ghost q0 = self@.pacer.queue;
        queue_packets(&mut self.pacer, &nacks, now);
        let ghost q1 = self@.pacer.queue;
        queue_packets(&mut self.pacer, &requests, now);
        proof {
            self.pacer.lemma_wf();
            lemma_scanned(b, keys@, now);
            lemma_queue_headed(q0, fragment::models(nacks@), now);
            lemma_queue_headed(q1, fragment::models(requests@), now);
        }
        self.consider_probes(now);
        self.history.cull(now);
        proof {
            self.history.lemma_wf();
        }
    }

    /// Scans the tracks in the order `keys`.
    fn scan_tracks(&mut self, keys: &Vec<u64>, now: Instant) -> (r: (
        Vec<Packet<'static>>,
        Vec<Packet<'static>>,
    ))
        requires
            old(self).wf(),
            old(self)@.walks(keys@),
        ensures
            final(self).wf(),
            final(self)@ == old(self)@.scanned(keys@, now).0,
            fragment::models(r.0@) == old(self)@.scanned(keys@, now).1,
            fragment::models(r.1@) == old(self)@.scanned(keys@, now).2,
    {
        let ghost before = self@;
        let ttl: u16 = self.config.default_ttl_ms;
        let mut nacks: Vec<Packet<'static>> = Vec::new();
        let mut requests: Vec<Packet<'static>> = Vec::new();
        assert(fragment::models(nacks@) =~= Seq::<PacketModel>::empty());
        assert(fragment::models(requests@) =~= Seq::<PacketModel>::empty());
        assert(keys@.take(0).len() == 0);
        let mut i: usize = 0;
        while i < keys.len()
            invariant
                i <= keys@.len(),
                before.walks(keys@),
                self.wf(),
                self@.config == before.config,
                ttl == before.config.default_ttl_ms,
                self@.tracks.dom() == before.tracks.dom(),
                self@ == before.scanned(keys@.take(i as int), now).0,
                fragment::models(nacks@) == before.scanned(keys@.take(i as int), now).1,
                fragment::models(requests@) == before.scanned(keys@.take(i as int), now).2,
            decreases keys@.len() - i,
        {
            let ghost m = self@;
            let ghost n0 = nacks@;
            let ghost r0 = requests@;
            assert(keys@.take(i + 1).drop_last() =~= keys@.take(i as int));
            let k: u64 = keys[i];
            assert(keys@.to_set().contains(k));
            assert(m.tracks.contains_key(k));
            if let Some(t) = self.tracks.remove(k) {
                let mut track = t;
                let (packets, request) = track.scan(now, ttl);
                let ghost t1 = track@;
                self.tracks.insert(k, track);
                proof {
                    assert(self@.tracks =~= m.tracks.insert(k, t1));
                    self.lemma_put(m, k, t1);
                    assert(self@.tracks.dom() =~= m.tracks.dom());
                }
                let mut packets = packets;
                let ghost p0 = packets@;
                nacks.append(&mut packets);
                assert(nacks@ =~= n0 + p0);
                assert(fragment::models(nacks@) =~= fragment::models(n0) + fragment::models(p0));
                if let Some(p) = request {
                    requests.push(p);
                    assert(fragment::models(requests@) =~= fragment::models(r0).push(p@));
                }
            }
            i = i + 1;
        }
        assert(keys@.take(i as int) =~= keys@);
        (nacks, requests)
    }

    /// Considers probing, where it is due.
    fn consider_probes(&mut self, now: Instant)
        requires
            old(self).wf(),
        ensures
            final(self).wf(),
            final(self)@ == old(self)@.probed(now),
    {
        let due = match self.last_probe_at {
            Some(t) => now.saturating_duration_since(t).nanos >= 50_000_000,
            None => true,
        };
        if !due {
            return;
        }
        self.last_probe_at = Some(now);
        let idle = self.pacer.queue().is_empty();
        let _ = self.bwe.poll_probes(now, idle);
        if idle {
            let double: u64 = cap_u64(self.bwe.target_bitrate_bps() as u128 * 2);
            let current: u64 = self.pacer.pacing_rate_bps();
            self.repace(
                if double > current {
                    double
                } else {
                    current
                },
            );
        }
    }

    /// Changes the pacing rate.
    fn repace(&mut self, pacing_rate_bps: u64)
        requires
            old(self).wf(),
        ensures
            final(self).wf(),
            final(self)@ == old(self)@.repaced(pacing_rate_bps),
    {
        let mut config = self.config.pacer;
        config.pacing_rate_bps = pacing_rate_bps;
        self.pacer.set_config(config);
        proof {
            self.pacer.lemma_wf();
        }
    }

    /// Lets a datagram leave, where one may.
    fn depart(&mut self, now: Instant) -> (r: Option<Bytes>)
        requires
            old(self).wf(),
        ensures
            final(self).wf(),
            final(self)@ == old(self)@.departed(now).0,
            match r {
                Some(b) => old(self)@.departed(now).1 == Some(octets::octets(b)),
                None => old(self)@.departed(now).1 is None,
            },
    {
        proof {
            reveal(SessionModel::departed);
        }
        let ghost before = self@;
        let polled = self.pacer.poll(now);
        proof {
            self.pacer.lemma_wf();
            lemma_departed(before, now);
            send_queue::lemma_pop_headed(before.pacer.advanced(now).queue, now);
        }
        let mut outgoing = match polled {
            Some(p) => p,
            None => return None,
        };
        let ghost p0 = outgoing@;
        let mut wire: Vec<u8> = slice_to_vec(as_slice(&outgoing.wire));
        let header = match Header::decode(wire.as_slice()) {
            Ok(h) => h,
            Err(_) => return Some(seal(wire)),
        };
        let seq: u16 = match self.transport_seqs.stamp(wire.as_mut_slice()) {
            Some(s) => s,
            None => return Some(seal(wire)),
        };
        proof {
            feedback::lemma_stamped(p0.wire, seq);
        }
        outgoing.wire = seal(wire);
        self.feedback_tx.on_sent(seq, now, outgoing.len(), header.flags.audio);
        if header.packet_type == PacketType::Media {
            if header.flags.retrans {
                self.history.mark_sent(header.stream_id, header.media_seq, now);
            } else {
                self.history.put_outgoing(&outgoing, now);
            }
            proof {
                self.history.lemma_wf();
            }
        }
        Some(outgoing.wire)
    }

    /// Puts what a delay sample says of the trend through the rate control.
    pub fn on_trend(&mut self, signal: TrendSignal, send_delta: Duration) -> (s: NetworkState)
        requires
            old(self).wf(),
        ensures
            final(self).wf(),
            final(self)@ == (SessionModel {
                bwe: BweModel {
                    detector: old(self)@.bwe.detector.after(signal, send_delta),
                    ..old(self)@.bwe
                },
                ..old(self)@
            }),
            s == final(self)@.bwe.detector.state,
    {
        self.bwe.on_trend(signal, send_delta)
    }

    /// The span since the rate was raised last, where it may be raised now.
    pub fn growth_span(&self, now: Instant) -> (r: Option<Duration>)
        ensures
            r == (if self@.bwe.may_increase(now) {
                Some(self@.bwe.since_increase(now))
            } else {
                None
            }),
    {
        self.bwe.growth_span(now)
    }

    /// Changes the rate by what the delay says of the path.
    pub fn apply_aimd(&mut self, now: Instant, acked_bps: u64, grown: u64)
        requires
            old(self).wf(),
        ensures
            final(self).wf(),
            final(self)@ == (SessionModel {
                bwe: old(self)@.bwe.aimd_applied(now, acked_bps, grown),
                ..old(self)@
            }),
    {
        self.bwe.apply_aimd(now, acked_bps, grown);
    }

    /// Changes the rate by what was lost; says whether the report changed it.
    pub fn apply_loss(&mut self, now: Instant, reduced: Option<u64>) -> (changed: bool)
        requires
            old(self).wf(),
        ensures
            final(self).wf(),
            final(self)@ == (SessionModel {
                bwe: old(self)@.bwe.loss_applied(now, reduced),
                ..old(self)@
            }),
            changed == (final(self)@.bwe.target != old(self)@.bwe.target_before),
    {
        self.bwe.apply_loss(now, reduced)
    }

    /// The rate for the encoders together: the estimated one, pushed back while
    /// the send queue is long or too much is in flight.
    pub fn encoder_target(&self) -> (r: u64)
        requires
            self.wf(),
        ensures
            r == self@.encoder_target(),
    {
        let delay = match self.pacer.queue().expected_queue_time(self.pacer.pacing_rate_bps()) {
            Some(t) => t,
            None => Duration::from_millis(0),
        };
        bwe::send_side_pushback(
            self.bwe.target_bitrate_bps(),
            delay,
            self.feedback_tx.in_flight_bytes(),
            self.congestion_window,
        )
    }

    /// Puts a new rate in force, and gives the rate of each track's encoder, in
    /// an order that is left open. `scaled_pacing_bps` is
    /// [`Session::encoder_target`] times the pacing factor.
    pub fn apply_rate_update(&mut self, scaled_pacing_bps: u64) -> (rates: Vec<TrackRate>)
        requires
            old(self).wf(),
        ensures
            final(self).wf(),
            final(self)@ == old(self)@.rated(scaled_pacing_bps),
            old(self)@.lists(rates@.map_values(|r: TrackRate| r.stream_id)),
            forall|i: int|
                0 <= i < rates@.len() ==> (#[trigger] rates@[i]).target_bitrate_bps == old(
                    self,
                )@.rate_of(rates@[i].stream_id as u64),
    {
        let ghost before = self@;
        let target: u64 = self.encoder_target();
        self.repace(
            if scaled_pacing_bps < target {
                target
            } else {
                scaled_pacing_bps
            },
        );
        self.rebudget(target);
        let ids = self.track_ids();
        assert(before.lists(ids@)) by {
            assert forall|id: u8| ids@.contains(id) <==> #[trigger] before.has(id) by {
                assert(self@.has(id) == before.has(id));
            }
        }
        let videos: u64 = self.count_kind(&ids, MediaKind::Video);
        let audios: u64 = self.count_kind(&ids, MediaKind::Audio);
        assert(self@.count(MediaKind::Video) == before.count(MediaKind::Video));
        assert(self@.count(MediaKind::Audio) == before.count(MediaKind::Audio));
        let video: u64 = rate_share(target, videos, audios, MediaKind::Video);
        let audio: u64 = rate_share(target, videos, audios, MediaKind::Audio);
        let mut rates: Vec<TrackRate> = Vec::new();
        let mut i: usize = 0;
        while i < ids.len()
            invariant
                i <= ids@.len(),
                rates@.len() == i,
                self@.tracks == before.tracks,
                before.lists(ids@),
                target == before.encoder_target(),
                video == share(
                    target,
                    before.count(MediaKind::Video),
                    before.count(MediaKind::Audio),
                    MediaKind::Video,
                ),
                audio == share(
                    target,
                    before.count(MediaKind::Video),
                    before.count(MediaKind::Audio),
                    MediaKind::Audio,
                ),
                forall|j: int|
                    0 <= j < i ==> (#[trigger] rates@[j]).stream_id == ids@[j]
                        && rates@[j].target_bitrate_bps == before.rate_of(ids@[j] as u64),
            decreases ids@.len() - i,
        {
            let id: u8 = ids[i];
            assert(ids@.contains(id));
            assert(before.has(id));
            let bps: u64 = match self.tracks.get(id as u64) {
                Some(t) => match t.kind() {
                    MediaKind::Video => video,
                    MediaKind::Audio => audio,
                },
                None => 0,
            };
            rates.push(TrackRate { stream_id: id, target_bitrate_bps: bps });
            i = i + 1;
        }
        assert(rates@.map_values(|r: TrackRate| r.stream_id) =~= ids@);
        rates
    }

    /// Changes the budget for retransmissions.
    fn rebudget(&mut self, target_bps: u64)
        requires
            old(self).wf(),
        ensures
            final(self).wf(),
            final(self)@ == (SessionModel {
                history: HistoryModel {
                    limiter: Some(
                        match old(self)@.history.limiter {
                            Some(l) => LimiterModel { budget: limiter_for(target_bps).budget, ..l },
                            None => limiter_for(target_bps),
                        },
                    ),
                    ..old(self)@.history
                },
                ..old(self)@
            }),
    {
        let window = Duration::from_millis(500);
        if let Some(limiter) = self.history.rate_limiter_mut() {
            limiter.set_budget(budget_for(target_bps, window));
        } else {
            self.history.set_rate_limiter(RetransRateLimiter::from_target_bps(target_bps, window));
        }
        proof {
            self.history.lemma_wf();
        }
    }

    /// The number of tracks of a kind.
    fn count_kind(&self, ids: &Vec<u8>, kind: MediaKind) -> (n: u64)
        requires
            self.wf(),
            self@.lists(ids@),
        ensures
            n == self@.count(kind),
    {
        let ghost f = |k: u64| self@.tracks[k].kind == kind;
        let ghost mut seen: Set<u64> = Set::empty();
        let mut n: u64 = 0;
        let mut i: usize = 0;
        while i < ids.len()
            invariant
                i <= ids@.len(),
                n <= i,
                f == (|k: u64| self@.tracks[k].kind == kind),
                self@.lists(ids@),
                seen.finite(),
                n == seen.len(),
                forall|k: u64| #[trigger]
                    seen.contains(k) <==> f(k) && exists|j: int|
                        0 <= j < i && (#[trigger] ids@[j]) as u64 == k,
            decreases ids@.len() - i,
        {
            let id: u8 = ids[i];
            let ghost key = id as u64;
            let ghost old_seen = seen;
            assert(ids@.contains(id));
            assert(self@.has(id));
            assert(!seen.contains(key)) by {
                if seen.contains(key) {
                    let j = choose|j: int| 0 <= j < i && (#[trigger] ids@[j]) as u64 == key;
                    assert(ids@[j] == ids@[i as int]);
                }
            }
            if let Some(t) = self.tracks.get(id as u64) {
                if t.kind() == kind {
                    n = n + 1;
                    proof {
                        seen = seen.insert(key);
                    }
                }
            }
            assert forall|k: u64| #[trigger] seen.contains(k) <==> f(k) && exists|j: int|
                0 <= j < i + 1 && (#[trigger] ids@[j]) as u64 == k by {
                if f(k) && exists|j: int| 0 <= j < i + 1 && (#[trigger] ids@[j]) as u64 == k {
                    let j = choose|j: int| 0 <= j < i + 1 && (#[trigger] ids@[j]) as u64 == k;
                    if j < i {
                        assert(old_seen.contains(k));
                    }
                }
                if k == key {
                    assert(ids@[i as int] as u64 == k);
                }
            }
            i = i + 1;
        }
        proof {
            let all = self@.tracks.dom().filter(f);
            assert forall|k: u64| seen.contains(k) <==> all.contains(k) by {
                if all.contains(k) {
                    let id = self@.tracks[k].stream_id;
                    assert(self@.tracks.contains_key(k));
                    assert(self@.has(id));
                    assert(ids@.contains(id));
                    let j = choose|j: int| 0 <= j < ids@.len() && ids@[j] == id;
                    assert(ids@[j] as u64 == k);
                }
                if seen.contains(k) {
                    let j = choose|j: int| 0 <= j < ids@.len() && (#[trigger] ids@[j]) as u64 == k;
                    assert(ids@.contains(ids@[j]));
                    assert(self@.has(ids@[j]));
                }
            }
            assert(seen =~= all);
        }
        n
    }

    /// The session stays well-formed with another state of one track.
    proof fn lemma_put(&self, before: SessionModel, key: u64, t: TrackModel)
        requires
            before.wf(),
            t.wf(),
            t.stream_id == key,
            self@ == (SessionModel { tracks: self@.tracks, ..before }),
            self@.tracks =~= before.tracks.insert(key, t),
        ensures
            self@ == (SessionModel { tracks: before.tracks.insert(key, t), ..before }),
            self@.wf(),
    {
    }
}

/// Queueing one list after the other is queueing both in a row.
proof fn lemma_queue_all(
    q: QueueModel,
    first: Seq<PacketModel>,
    second: Seq<PacketModel>,
    now: Instant,
)
    ensures
        queue_all(queue_all(q, first, now), second, now) == queue_all(q, first + second, now),
    decreases second.len(),
{
    if second.len() == 0 {
        assert(first + second =~= first);
    } else {
        lemma_queue_all(q, first, second.drop_last(), now);
        assert((first + second).drop_last() =~= first + second.drop_last());
    }
}

/// When the last of the matched datagrams that arrived was sent.
fn last_arrived(packets: &Vec<PacketResult>) -> (r: Option<Instant>)
    ensures
        r == (match last_received(packets@) {
            Some(p) => Some(p.send_time),
            None => None,
        }),
{
    let mut i: usize = packets.len();
    assert(packets@.take(i as int) =~= packets@);
    while i > 0
        invariant
            i <= packets@.len(),
            last_received(packets@) == last_received(packets@.take(i as int)),
        decreases i,
    {
        let ghost front = packets@.take(i as int);
        assert(front.drop_last() =~= packets@.take(i - 1));
        i = i - 1;
        if packets[i].received() {
            return Some(packets[i].send_time);
        }
    }
    None
}

/// The rate of one track out of the rate for all.
fn rate_share(target_bps: u64, video_tracks: u64, audio_tracks: u64, kind: MediaKind) -> (bps: u64)
    ensures
        bps == share(target_bps, video_tracks as nat, audio_tracks as nat, kind),
{
    let tenth: u64 = target_bps / 10;
    let most: u128 = audio_tracks as u128 * 64_000;
    let audio: u64 = if audio_tracks == 0 {
        0
    } else if tenth < 16_000 {
        16_000
    } else if tenth as u128 > most {
        most as u64
    } else {
        tenth
    };
    match kind {
        MediaKind::Audio => if audio_tracks == 0 {
            0
        } else {
            audio / audio_tracks
        },
        MediaKind::Video => {
            let rest: u64 = if audio > target_bps {
                0
            } else {
                target_bps - audio
            };
            if video_tracks == 0 {
                rest
            } else {
                rest / video_tracks
            }
        },
    }
}

/// Queues packets one after the other.
fn queue_packets(pacer: &mut Pacer, packets: &Vec<Packet<'_>>, now: Instant)
    requires
        old(pacer).wf(),
    ensures
        final(pacer).wf(),
        final(pacer)@ == (PacerModel {
            queue: queue_all(old(pacer)@.queue, fragment::models(packets@), now),
            ..old(pacer)@
        }),
{
    let ghost p0 = pacer@;
    let ghost models = fragment::models(packets@);
    assert(models.take(0).len() == 0);
    let mut i: usize = 0;
    while i < packets.len()
        invariant
            i <= packets@.len(),
            models == fragment::models(packets@),
            pacer.wf(),
            pacer@ == (PacerModel { queue: queue_all(p0.queue, models.take(i as int), now), ..p0 }),
        decreases packets@.len() - i,
    {
        assert(models[i as int] == packets@[i as int]@);
        assert(models.take(i + 1).drop_last() =~= models.take(i as int));
        let _ = pacer.enqueue_packet(&packets[i], now);
        i = i + 1;
    }
    assert(models.take(models.len() as int) =~= models);
}

/// Queues parity rows one after the other.
fn queue_rows(pacer: &mut Pacer, rows: &Vec<FecPacketOwned>, now: Instant)
    requires
        old(pacer).wf(),
    ensures
        final(pacer).wf(),
        final(pacer)@ == (PacerModel {
            queue: queue_all(old(pacer)@.queue, fec::row_models(rows@), now),
            ..old(pacer)@
        }),
{
    let ghost p0 = pacer@;
    let ghost models = fec::row_models(rows@);
    assert(models.take(0).len() == 0);
    let mut i: usize = 0;
    while i < rows.len()
        invariant
            i <= rows@.len(),
            models == fec::row_models(rows@),
            pacer.wf(),
            pacer@ == (PacerModel { queue: queue_all(p0.queue, models.take(i as int), now), ..p0 }),
        decreases rows@.len() - i,
    {
        assert(models[i as int] == rows@[i as int]@);
        assert(models.take(i + 1).drop_last() =~= models.take(i as int));
        let packet = rows[i].as_packet();
        let _ = pacer.enqueue_packet(&packet, now);
        i = i + 1;
    }
    assert(models.take(models.len() as int) =~= models);
}

} // verus!
