//! Encoded frames at the boundary to encoders and decoders.

use crate::fragment::FragmentError;
use crate::octets;
use crate::text;
use crate::text::append_decimal;
use bytes::Bytes;
use vstd::prelude::*;

verus! {

/// Audio or video.
#[derive(Debug, Clone, Copy, PartialEq, Eq, Hash, Structural)]
pub enum MediaKind {
    /// Audio.
    Audio,
    /// Video.
    Video,
}

impl MediaKind {
    /// The name of the kind.
    pub open spec fn text(self) -> Seq<char> {
        match self {
            MediaKind::Audio => "Audio"@,
            MediaKind::Video => "Video"@,
        }
    }

    /// The name of the kind.
    pub fn name(&self) -> (s: &'static str)
        ensures
            s@ == self.text(),
    {
        match self {
            MediaKind::Audio => "Audio",
            MediaKind::Video => "Video",
        }
    }
}

/// An encoded frame; the payload is never interpreted.
#[derive(Debug, Clone, PartialEq, Eq)]
pub struct EncodedFrame {
    /// Stream of the frame.
    pub stream_id: u8,
    /// Capture time in 90 kHz ticks.
    pub timestamp: u32,
    /// Audio or video.
    pub kind: MediaKind,
    /// Whether it is a video keyframe; of no meaning for audio.
    pub keyframe: bool,
    /// The encoded media.
    pub payload: Bytes,
    /// Lifetime in milliseconds; the session's default where there is none.
    pub ttl_ms: Option<u16>,
}

/// An [`EncodedFrame`] as a value.
#[verifier::ext_equal]
pub struct EncodedModel {
    pub stream_id: u8,
    pub timestamp: u32,
    pub kind: MediaKind,
    pub keyframe: bool,
    pub payload: Seq<u8>,
    pub ttl_ms: Option<u16>,
}

impl View for EncodedFrame {
    type V = EncodedModel;

    open spec fn view(&self) -> EncodedModel {
        EncodedModel {
            stream_id: self.stream_id,
            timestamp: self.timestamp,
            kind: self.kind,
            keyframe: self.keyframe,
            payload: octets::octets(self.payload),
            ttl_ms: self.ttl_ms,
        }
    }
}

impl EncodedFrame {
    /// A frame with the session's default lifetime.
    pub fn new(
        stream_id: u8,
        timestamp: u32,
        kind: MediaKind,
        keyframe: bool,
        payload: Bytes,
    ) -> (f: Self)
        ensures
            f@ == (EncodedModel {
                stream_id,
                timestamp,
                kind,
                keyframe,
                payload: octets::octets(payload),
                ttl_ms: None,
            }),
    {
        EncodedFrame { stream_id, timestamp, kind, keyframe, payload, ttl_ms: None }
    }

    /// Whether it is a video keyframe.
    pub fn is_video_keyframe(&self) -> (b: bool)
        ensures
            b == (self@.kind == MediaKind::Video && self@.keyframe),
    {
        self.kind == MediaKind::Video && self.keyframe
    }
}

/// Lets an encoder stand where rates are observed.
#[derive(Debug, Default)]
pub struct EncoderRateObserver<E> {
    /// The encoder.
    pub encoder: E,
}

impl<E> EncoderRateObserver<E> {
    /// Wraps an encoder.
    pub fn new(encoder: E) -> (o: Self)
        ensures
            o.encoder == encoder,
    {
        EncoderRateObserver { encoder }
    }

    /// The encoder.
    pub fn into_inner(self) -> (e: E)
        ensures
            e == self.encoder,
    {
        self.encoder
    }
}

/// Why a frame is not taken in.
#[derive(Debug, Clone, Copy, PartialEq, Eq, Structural)]
pub enum PushError {
    /// The frame has no bytes.
    EmptyFrame,
    /// The frame cannot be split.
    Fragment(FragmentError),
    /// There is no track for the stream.
    UnknownTrack {
        /// The stream.
        stream_id: u8,
    },
    /// The track carries the other kind of media.
    KindMismatch {
        /// The stream.
        stream_id: u8,
        /// What the track carries.
        track: MediaKind,
        /// What the frame is.
        frame: MediaKind,
    },
}

impl PushError {
    /// The text of the error.
    pub open spec fn text(self) -> Seq<char> {
        match self {
            PushError::EmptyFrame => "empty encoded frame"@,
            PushError::Fragment(e) => "fragment: "@ + e.text(),
            PushError::UnknownTrack { stream_id } => "unknown track stream_id="@ + text::decimal(stream_id as nat),
            PushError::KindMismatch { stream_id, track, frame } => "kind mismatch on stream_id="@ + text::decimal(stream_id as nat) + ": track="@ + track.text() + " frame="@ + frame.text(),
        }
    }

    /// Says what is wrong.
    pub fn message(&self) -> (m: String)
        ensures
            m@ == self.text(),
    {
        match self {
            PushError::EmptyFrame => String::from_str("empty encoded frame"),
            PushError::Fragment(e) => {
                let mut m = String::from_str("fragment: ");
                m.append(e.message().as_str());
                m
            },
            PushError::UnknownTrack { stream_id } => {
                let mut m = String::from_str("unknown track stream_id=");
                append_decimal(&mut m, *stream_id as u64);
                m
            },
            PushError::KindMismatch { stream_id, track, frame } => {
                let mut m = String::from_str("kind mismatch on stream_id=");
                append_decimal(&mut m, *stream_id as u64);
                m.append(": track=");
                m.append(track.name());
                m.append(" frame=");
                m.append(frame.name());
                m
            },
        }
    }
}

/// The frame as the track of stream `stream_id` takes it in, or why it does
/// not.
pub open spec fn admitted(f: EncodedModel, stream_id: u8, kind: MediaKind) -> Result<
    EncodedModel,
    PushError,
> {
    if f.payload.len() == 0 {
        Err(PushError::EmptyFrame)
    } else if f.kind != kind {
        Err(PushError::KindMismatch { stream_id, track: kind, frame: f.kind })
    } else {
        Ok(EncodedModel { stream_id, ..f })
    }
}

/// Checks a frame for the track of stream `stream_id`, and labels it with that
/// stream.
pub fn admit_frame(frame: EncodedFrame, stream_id: u8, kind: MediaKind) -> (r: Result<
    EncodedFrame,
    PushError,
>)
    ensures
        match r {
            Ok(f) => admitted(frame@, stream_id, kind) == Ok::<EncodedModel, PushError>(f@),
            Err(e) => admitted(frame@, stream_id, kind) == Err::<EncodedModel, PushError>(e),
        },
{
    if frame.payload.len() == 0 {
        return Err(PushError::EmptyFrame);
    }
    if frame.kind != kind {
        return Err(PushError::KindMismatch { stream_id, track: kind, frame: frame.kind });
    }
    Ok(
        EncodedFrame {
            stream_id,
            timestamp: frame.timestamp,
            kind: frame.kind,
            keyframe: frame.keyframe,
            payload: frame.payload,
            ttl_ms: frame.ttl_ms,
        },
    )
}

} // verus!
