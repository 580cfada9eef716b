//! Fixed-layout binary codec for media and feedback datagrams.
//!
//! One datagram family carries media, retransmission requests, arrival
//! feedback, keyframe requests and parity. Every datagram begins with
//! [`HEADER_SIZE`] bytes, all integers big-endian:
//!
//! ```text
//!  0                   1                   2                   3
//!  0 1 2 3 4 5 6 7 8 9 0 1 2 3 4 5 6 7 8 9 0 1 2 3 4 5 6 7 8 9 0 1
//! +-+-+-+-+-+-+-+-+-+-+-+-+-+-+-+-+-+-+-+-+-+-+-+-+-+-+-+-+-+-+-+-+
//! |V=0|Type |Flags|   Stream ID   |         Media Seq             |
//! +-+-+-+-+-+-+-+-+-+-+-+-+-+-+-+-+-+-+-+-+-+-+-+-+-+-+-+-+-+-+-+-+
//! |       Transport Seq           |           Frame ID...         |
//! +-+-+-+-+-+-+-+-+-+-+-+-+-+-+-+-+-+-+-+-+-+-+-+-+-+-+-+-+-+-+-+-+
//! |                        ...Frame ID                            |
//! +-+-+-+-+-+-+-+-+-+-+-+-+-+-+-+-+-+-+-+-+-+-+-+-+-+-+-+-+-+-+-+-+
//! |          Frag Index           |          Frag Count           |
//! +-+-+-+-+-+-+-+-+-+-+-+-+-+-+-+-+-+-+-+-+-+-+-+-+-+-+-+-+-+-+-+-+
//! |                     Timestamp (90 kHz)                        |
//! +-+-+-+-+-+-+-+-+-+-+-+-+-+-+-+-+-+-+-+-+-+-+-+-+-+-+-+-+-+-+-+-+
//! |        TTL (ms)               |           Payload...          |
//! +-+-+-+-+-+-+-+-+-+-+-+-+-+-+-+-+-+-+-+-+-+-+-+-+-+-+-+-+-+-+-+-+
//! ```
//!
//! [`Header::media_seq`] names a media packet within its stream;
//! [`Header::transport_seq`] counts every datagram that leaves the host. The
//! two spaces are never mixed. Sequence numbers are compared with
//! [`Header::seq_ahead`], which follows the wrap.

use crate::octets;
use crate::octets::{
    get_u16, get_u32, get_u64, get_u8, put_slice, put_u16, put_u32, put_u64, put_u8,
};
use crate::seqs;
use crate::table;
use crate::text;
use crate::text::append_decimal;
use vstd::prelude::*;
use vstd::slice::{slice_subrange, slice_to_vec};

verus! {

/// Size in bytes of the header in front of every datagram.
pub const HEADER_SIZE: usize = 20;

/// Protocol version in the top two bits of the first header byte.
pub const VERSION: u8 = 0;

/// Body bytes of arrival feedback in front of the receive deltas.
pub const ARRIVAL_FEEDBACK_BODY_PREFIX: usize = 10;

/// Microseconds in one tick of a receive delta.
pub const ARRIVAL_RECV_DELTA_TICK_MICROS: u64 = 250;

/// Body bytes of a parity packet in front of the XOR bytes.
pub const FEC_BODY_HEADER_SIZE: usize = 12;

/// Why a datagram cannot be decoded.
#[derive(Debug, Clone, Copy, PartialEq, Eq, Structural)]
pub enum DecodeError {
    /// The buffer ends before the structure does.
    TooShort {
        /// Bytes required.
        need: usize,
        /// Bytes available.
        have: usize,
    },
    /// The version bits are not [`VERSION`].
    UnsupportedVersion(u8),
    /// The type field is not a known [`PacketType`].
    UnknownType(u8),
    /// A media header claims a frame of no fragments.
    InvalidFragCount,
    /// A media header claims a fragment past the last.
    InvalidFragIndex,
}

impl DecodeError {
    /// The text of the error.
    pub open spec fn text(self) -> Seq<char> {
        match self {
            DecodeError::TooShort { need, have } => "buffer too short: need "@ + text::decimal(need as nat) + ", have "@ + text::decimal(have as nat),
            DecodeError::UnsupportedVersion(v) => "unsupported version "@ + text::decimal(v as nat),
            DecodeError::UnknownType(t) => "unknown packet type "@ + text::decimal(t as nat),
            DecodeError::InvalidFragCount => "frag_count is 0"@,
            DecodeError::InvalidFragIndex => "frag_index >= frag_count"@,
        }
    }

    /// Says what is wrong.
    pub fn message(&self) -> (m: String)
        ensures
            m@ == self.text(),
    {
        match self {
            DecodeError::TooShort { need, have } => {
                let mut m = String::from_str("buffer too short: need ");
                append_decimal(&mut m, *need as u64);
                m.append(", have ");
                append_decimal(&mut m, *have as u64);
                m
            },
            DecodeError::UnsupportedVersion(v) => {
                let mut m = String::from_str("unsupported version ");
                append_decimal(&mut m, *v as u64);
                m
            },
            DecodeError::UnknownType(t) => {
                let mut m = String::from_str("unknown packet type ");
                append_decimal(&mut m, *t as u64);
                m
            },
            DecodeError::InvalidFragCount => String::from_str("frag_count is 0"),
            DecodeError::InvalidFragIndex => String::from_str("frag_index >= frag_count"),
        }
    }
}

/// What a datagram carries.
#[derive(Debug, Clone, Copy, PartialEq, Eq, Structural)]
pub enum PacketType {
    /// A fragment of encoded media.
    Media,
    /// A selective retransmission request.
    Nack,
    /// A bitmap of arrived packets.
    ArrivalFeedback,
    /// A request for a keyframe.
    KeyframeReq,
    /// Parity over media datagrams.
    Fec,
}

impl PacketType {
    /// The three-bit code of the type on the wire.
    #[verifier::allow_in_spec]
    pub fn code(self) -> (c: u8)
        returns
            (match self {
                PacketType::Media => 0u8,
                PacketType::Nack => 1u8,
                PacketType::ArrivalFeedback => 2u8,
                PacketType::KeyframeReq => 3u8,
                PacketType::Fec => 4u8,
            }),
    {
        match self {
            PacketType::Media => 0,
            PacketType::Nack => 1,
            PacketType::ArrivalFeedback => 2,
            PacketType::KeyframeReq => 3,
            PacketType::Fec => 4,
        }
    }

    /// The type with code `v`, if there is one.
    pub open spec fn of_code(v: u8) -> Result<PacketType, DecodeError> {
        if v == 0 {
            Ok(PacketType::Media)
        } else if v == 1 {
            Ok(PacketType::Nack)
        } else if v == 2 {
            Ok(PacketType::ArrivalFeedback)
        } else if v == 3 {
            Ok(PacketType::KeyframeReq)
        } else if v == 4 {
            Ok(PacketType::Fec)
        } else {
            Err(DecodeError::UnknownType(v))
        }
    }

    /// Parses a type field from the wire.
    pub fn from_u8(v: u8) -> (r: Result<Self, DecodeError>)
        ensures
            r == PacketType::of_code(v),
            forall|t: PacketType| r == Ok::<PacketType, DecodeError>(t) <==> v == t.code(),
    {
        match v {
            0 => Ok(PacketType::Media),
            1 => Ok(PacketType::Nack),
            2 => Ok(PacketType::ArrivalFeedback),
            3 => Ok(PacketType::KeyframeReq),
            4 => Ok(PacketType::Fec),
            _ => Err(DecodeError::UnknownType(v)),
        }
    }
}

/// Three flag bits in the low bits of the first header byte.
#[derive(Debug, Clone, Copy, PartialEq, Eq, Structural)]
pub struct Flags {
    /// The packet answers a retransmission request.
    pub retrans: bool,
    /// The packet carries audio; otherwise video.
    pub audio: bool,
    /// The packet belongs to a keyframe.
    pub key: bool,
}

impl Default for Flags {
    fn default() -> (f: Self)
        ensures
            f == (Flags { retrans: false, audio: false, key: false }),
    {
        Flags { retrans: false, audio: false, key: false }
    }
}

/// The value of one bit.
pub open spec fn bit_value(b: bool) -> int {
    if b {
        1
    } else {
        0
    }
}

impl Flags {
    /// No flag set.
    #[verifier::allow_in_spec]
    pub fn none() -> (f: Flags)
        returns
            (Flags { retrans: false, audio: false, key: false }),
    {
        Flags { retrans: false, audio: false, key: false }
    }

    /// The flags as three bits: `retrans`, then `audio`, then `key`.
    pub open spec fn bits(self) -> u8 {
        (bit_value(self.retrans) + 2 * bit_value(self.audio) + 4 * bit_value(self.key)) as u8
    }

    /// The flags that the low three bits of `v` stand for.
    pub open spec fn of_bits(v: u8) -> Flags {
        Flags { retrans: v % 2 == 1, audio: v / 2 % 2 == 1, key: v / 4 % 2 == 1 }
    }

    /// Packs the flags into three bits.
    pub fn pack(self) -> (v: u8)
        ensures
            v == self.bits(),
            v < 8,
            Flags::of_bits(v) == self,
    {
        let r: u8 = if self.retrans {
            1
        } else {
            0
        };
        let a: u8 = if self.audio {
            2
        } else {
            0
        };
        let k: u8 = if self.key {
            4
        } else {
            0
        };
        r + a + k
    }

    /// Unpacks the flags from the low three bits of a byte.
    pub fn unpack(v: u8) -> (f: Self)
        ensures
            f == Flags::of_bits(v),
            f.bits() == v % 8,
    {
        Flags { retrans: v % 2 == 1, audio: v / 2 % 2 == 1, key: v / 4 % 2 == 1 }
    }
}

/// The header shared by all datagrams.
#[derive(Debug, Clone, Copy, PartialEq, Eq, Structural)]
pub struct Header {
    /// What the datagram carries.
    pub packet_type: PacketType,
    /// Retransmission, audio and keyframe hints.
    pub flags: Flags,
    /// Media stream.
    pub stream_id: u8,
    /// Media sequence number within the stream; kept by retransmissions.
    pub media_seq: u16,
    /// Connection-wide sequence number, given when the datagram leaves.
    pub transport_seq: u16,
    /// Frame that the fragment belongs to.
    pub frame_id: u32,
    /// Zero-based index of the fragment within its frame.
    pub frag_index: u16,
    /// Number of fragments of the frame.
    pub frag_count: u16,
    /// Capture time in 90 kHz ticks.
    pub timestamp: u32,
    /// Remaining lifetime in milliseconds; zero is already stale.
    pub ttl_ms: u16,
}

/// Whether a header's fragment fields can be those of a media fragment.
pub open spec fn fragment_fields_valid(h: Header) -> bool {
    h.frag_index < h.frag_count
}

/// The first byte of a header.
pub open spec fn first_byte(h: Header) -> u8 {
    (VERSION * 64 + h.packet_type.code() * 8 + h.flags.bits()) as u8
}

/// The wire form of a header.
pub open spec fn header_bytes(h: Header) -> Seq<u8> {
    seq![first_byte(h), h.stream_id] + octets::be16_bytes(h.media_seq) + octets::be16_bytes(h.transport_seq)
        + octets::be32_bytes(h.frame_id) + octets::be16_bytes(h.frag_index) + octets::be16_bytes(h.frag_count)
        + octets::be32_bytes(h.timestamp) + octets::be16_bytes(h.ttl_ms)
}

/// The fields of a header of type `packet_type` as they stand in `b`.
pub open spec fn header_fields(packet_type: PacketType, b: Seq<u8>) -> Header {
    Header {
        packet_type,
        flags: Flags::of_bits((b[0] % 8) as u8),
        stream_id: b[1],
        media_seq: octets::be16(b.skip(2)),
        transport_seq: octets::be16(b.skip(4)),
        frame_id: octets::be32(b.skip(6)),
        frag_index: octets::be16(b.skip(10)),
        frag_count: octets::be16(b.skip(12)),
        timestamp: octets::be32(b.skip(14)),
        ttl_ms: octets::be16(b.skip(18)),
    }
}

/// The header that a datagram begins with, or why there is none.
pub open spec fn parse_header(b: Seq<u8>) -> Result<Header, DecodeError> {
    if b.len() < HEADER_SIZE {
        Err(DecodeError::TooShort { need: HEADER_SIZE, have: b.len() as usize })
    } else if b[0] / 64 != VERSION {
        Err(DecodeError::UnsupportedVersion((b[0] / 64) as u8))
    } else {
        match PacketType::of_code((b[0] / 8 % 8) as u8) {
            Err(e) => Err(e),
            Ok(t) => {
                let h = header_fields(t, b);
                if t == PacketType::Media && h.frag_count == 0 {
                    Err(DecodeError::InvalidFragCount)
                } else if t == PacketType::Media && h.frag_index >= h.frag_count {
                    Err(DecodeError::InvalidFragIndex)
                } else {
                    Ok(h)
                }
            },
        }
    }
}

/// Whether `a` is ahead of `b` on the circle of 16-bit numbers.
pub open spec fn ahead(a: u16, b: u16) -> bool {
    0 < (a - b) % 0x1_0000 < 0x8000
}

/// Of two distinct numbers that are not just half way round the circle from
/// one another, one is ahead of the other, and not the other way round.
pub proof fn lemma_ahead(a: u16, b: u16)
    ensures
        !ahead(a, a),
        !(ahead(a, b) && ahead(b, a)),
        a != b && (a - b) % 0x1_0000 != 0x8000 ==> ahead(a, b) || ahead(b, a),
{
}

impl Header {
    /// Whether this is the first fragment of its frame.
    pub fn is_first_frag(&self) -> (b: bool)
        ensures
            b == (self.frag_index == 0),
    {
        self.frag_index == 0
    }

    /// Whether this is the last fragment of its frame.
    pub fn is_last_frag(&self) -> (b: bool)
        ensures
            b == (self.frag_count > 0 && self.frag_index + 1 == self.frag_count),
    {
        self.frag_count > 0 && self.frag_index as u32 + 1 == self.frag_count as u32
    }

    /// Writes the header into the front of `bytes`. The fragment fields are
    /// not checked here but when a header is decoded.
    pub fn encode(&self, bytes: &mut [u8])
        requires
            old(bytes)@.len() >= HEADER_SIZE,
        ensures
            final(bytes)@ == header_bytes(*self) + old(bytes)@.skip(HEADER_SIZE as int),
    {
        let ghost all = bytes@;
        let first: u8 = VERSION * 64 + self.packet_type.code() * 8 + self.flags.pack();
        let ghost mut w = Seq::<u8>::empty();
        assert(all == w + all.skip(0));
        proof {
            octets::lemma_write_on(all, w, seq![first]);
            w = w + seq![first];
        }
        put_u8(bytes, 0, first);
        proof {
            octets::lemma_write_on(all, w, seq![self.stream_id]);
            w = w + seq![self.stream_id];
        }
        put_u8(bytes, 1, self.stream_id);
        assert(w == seq![first, self.stream_id]);
        proof {
            octets::lemma_write_on(all, w, octets::be16_bytes(self.media_seq));
            w = w + octets::be16_bytes(self.media_seq);
        }
        put_u16(bytes, 2, self.media_seq);
        proof {
            octets::lemma_write_on(all, w, octets::be16_bytes(self.transport_seq));
            w = w + octets::be16_bytes(self.transport_seq);
        }
        put_u16(bytes, 4, self.transport_seq);
        proof {
            octets::lemma_write_on(all, w, octets::be32_bytes(self.frame_id));
            w = w + octets::be32_bytes(self.frame_id);
        }
        put_u32(bytes, 6, self.frame_id);
        proof {
            octets::lemma_write_on(all, w, octets::be16_bytes(self.frag_index));
            w = w + octets::be16_bytes(self.frag_index);
        }
        put_u16(bytes, 10, self.frag_index);
        proof {
            octets::lemma_write_on(all, w, octets::be16_bytes(self.frag_count));
            w = w + octets::be16_bytes(self.frag_count);
        }
        put_u16(bytes, 12, self.frag_count);
        proof {
            octets::lemma_write_on(all, w, octets::be32_bytes(self.timestamp));
            w = w + octets::be32_bytes(self.timestamp);
        }
        put_u32(bytes, 14, self.timestamp);
        proof {
            octets::lemma_write_on(all, w, octets::be16_bytes(self.ttl_ms));
            w = w + octets::be16_bytes(self.ttl_ms);
        }
        put_u16(bytes, 18, self.ttl_ms);
    }

    /// Decodes the header at the front of `bytes`.
    pub fn decode(bytes: &[u8]) -> (r: Result<Self, DecodeError>)
        ensures
            r == parse_header(bytes@),
            r is Ok ==> bytes@.len() >= HEADER_SIZE,
    {
        if bytes.len() < HEADER_SIZE {
            return Err(DecodeError::TooShort { need: HEADER_SIZE, have: bytes.len() });
        }
        let ghost all = bytes@;
        let mut cur = bytes;
        let first = get_u8(&mut cur);
        let version: u8 = first / 64;
        if version != VERSION {
            return Err(DecodeError::UnsupportedVersion(version));
        }
        let packet_type = match PacketType::from_u8(first / 8 % 8) {
            Ok(t) => t,
            Err(e) => return Err(e),
        };
        let flags = Flags::unpack(first % 8);
        let stream_id = get_u8(&mut cur);
        assert(cur@ == all.skip(2));
        let media_seq = get_u16(&mut cur);
        assert(cur@ == all.skip(4));
        let transport_seq = get_u16(&mut cur);
        assert(cur@ == all.skip(6));
        let frame_id = get_u32(&mut cur);
        assert(cur@ == all.skip(10));
        let frag_index = get_u16(&mut cur);
        assert(cur@ == all.skip(12));
        let frag_count = get_u16(&mut cur);
        assert(cur@ == all.skip(14));
        let timestamp = get_u32(&mut cur);
        assert(cur@ == all.skip(18));
        let ttl_ms = get_u16(&mut cur);
        let header = Header {
            packet_type,
            flags,
            stream_id,
            media_seq,
            transport_seq,
            frame_id,
            frag_index,
            frag_count,
            timestamp,
            ttl_ms,
        };
        if packet_type == PacketType::Media {
            if frag_count == 0 {
                return Err(DecodeError::InvalidFragCount);
            }
            if frag_index >= frag_count {
                return Err(DecodeError::InvalidFragIndex);
            }
        }
        Ok(header)
    }

    /// Whether `a` is ahead of `b` on the circle of 16-bit sequence numbers.
    pub fn seq_ahead(a: u16, b: u16) -> (r: bool)
        ensures
            r == ahead(a, b),
    {
        let diff: u16 = a.wrapping_sub(b);
        diff != 0 && diff < 0x8000
    }
}


/// A datagram as a value: its header and the fields of its body.
#[verifier::ext_equal]
pub enum PacketModel {
    /// A media fragment.
    Media { header: Header, payload: Seq<u8> },
    /// A retransmission request.
    Nack { header: Header, base_seq: u16, blp: u16, frame_id: Option<u32> },
    /// An arrival report.
    ArrivalFeedback {
        header: Header,
        first_seq: u16,
        received_mask: u64,
        recv_delta_bytes: Seq<u8>,
    },
    /// A keyframe request.
    KeyframeReq { header: Header, stream_id: u8 },
    /// A parity row.
    Fec { header: Header, seq_base: u16, mask: u64, length_xor: u16, payload: Seq<u8> },
}

impl PacketModel {
    /// The header of the datagram.
    pub open spec fn header(self) -> Header {
        match self {
            PacketModel::Media { header, .. } => header,
            PacketModel::Nack { header, .. } => header,
            PacketModel::ArrivalFeedback { header, .. } => header,
            PacketModel::KeyframeReq { header, .. } => header,
            PacketModel::Fec { header, .. } => header,
        }
    }

    /// The wire form of the body.
    pub open spec fn body(self) -> Seq<u8> {
        self.fields() + self.load()
    }

    /// The fields of the body.
    pub open spec fn fields(self) -> Seq<u8> {
        match self {
            PacketModel::Media { .. } => Seq::empty(),
            PacketModel::Nack { base_seq, blp, frame_id, .. } => {
                let fixed = octets::be16_bytes(base_seq) + octets::be16_bytes(blp);
                match frame_id {
                    Some(id) => fixed + octets::be32_bytes(id),
                    None => fixed,
                }
            },
            PacketModel::ArrivalFeedback { first_seq, received_mask, .. } => {
                octets::be16_bytes(first_seq) + octets::be64_bytes(received_mask)
            },
            PacketModel::KeyframeReq { stream_id, .. } => seq![stream_id],
            PacketModel::Fec { seq_base, mask, length_xor, .. } => {
                octets::be16_bytes(seq_base) + octets::be64_bytes(mask) + octets::be16_bytes(
                    length_xor,
                )
            },
        }
    }

    /// The bytes behind the fields of the body.
    pub open spec fn load(self) -> Seq<u8> {
        match self {
            PacketModel::Media { payload, .. } => payload,
            PacketModel::ArrivalFeedback { recv_delta_bytes, .. } => recv_delta_bytes,
            PacketModel::Fec { payload, .. } => payload,
            _ => Seq::empty(),
        }
    }

    /// The wire form of the whole datagram.
    pub open spec fn wire(self) -> Seq<u8> {
        header_bytes(self.header()) + self.body()
    }

    /// Whether a decoder accepts the header.
    pub open spec fn labelled(self) -> bool {
        self.header().packet_type == PacketType::Media ==> fragment_fields_valid(self.header())
    }

    /// The datagram with header `header` and body `b`, or why there is none.
    pub open spec fn parse_body(header: Header, b: Seq<u8>) -> Result<PacketModel, DecodeError> {
        match header.packet_type {
            PacketType::Media => Ok(PacketModel::Media { header, payload: b }),
            PacketType::Nack => if b.len() < 4 {
                Err(DecodeError::TooShort { need: 4, have: b.len() as usize })
            } else {
                Ok(
                    PacketModel::Nack {
                        header,
                        base_seq: octets::be16(b),
                        blp: octets::be16(b.skip(2)),
                        frame_id: if b.len() >= 8 {
                            Some(octets::be32(b.skip(4)))
                        } else {
                            None
                        },
                    },
                )
            },
            PacketType::ArrivalFeedback => if b.len() < 10 {
                Err(DecodeError::TooShort { need: 10, have: b.len() as usize })
            } else if b.len() % 2 != 0 {
                Err(
                    DecodeError::TooShort {
                        need: (b.len() - 10 + 1) as usize,
                        have: (b.len() - 10) as usize,
                    },
                )
            } else {
                Ok(
                    PacketModel::ArrivalFeedback {
                        header,
                        first_seq: octets::be16(b),
                        received_mask: octets::be64(b.skip(2)),
                        recv_delta_bytes: b.skip(10),
                    },
                )
            },
            PacketType::KeyframeReq => if b.len() == 0 {
                Err(DecodeError::TooShort { need: 1, have: 0 })
            } else {
                Ok(PacketModel::KeyframeReq { header, stream_id: b[0] })
            },
            PacketType::Fec => if b.len() < FEC_BODY_HEADER_SIZE {
                Err(DecodeError::TooShort { need: FEC_BODY_HEADER_SIZE, have: b.len() as usize })
            } else {
                Ok(
                    PacketModel::Fec {
                        header,
                        seq_base: octets::be16(b),
                        mask: octets::be64(b.skip(2)),
                        length_xor: octets::be16(b.skip(10)),
                        payload: b.skip(12),
                    },
                )
            },
        }
    }

    /// The datagram that `b` is the wire form of, or why there is none.
    pub open spec fn parse(b: Seq<u8>) -> Result<PacketModel, DecodeError> {
        match parse_header(b) {
            Err(e) => Err(e),
            Ok(h) => PacketModel::parse_body(h, b.skip(HEADER_SIZE as int)),
        }
    }

    /// Whether the header names the kind of body that follows, and the fields
    /// are ones that a decoder accepts.
    pub open spec fn valid(self) -> bool {
        match self {
            PacketModel::Media { header, .. } => header.packet_type == PacketType::Media
                && fragment_fields_valid(header),
            PacketModel::Nack { header, .. } => header.packet_type == PacketType::Nack,
            PacketModel::ArrivalFeedback { header, recv_delta_bytes, .. } => header.packet_type
                == PacketType::ArrivalFeedback && recv_delta_bytes.len() % 2 == 0,
            PacketModel::KeyframeReq { header, .. } => header.packet_type
                == PacketType::KeyframeReq,
            PacketModel::Fec { header, .. } => header.packet_type == PacketType::Fec,
        }
    }
}

/// One datagram: the shared header and a body of its own kind.
#[derive(Debug, Clone, PartialEq, Eq)]
pub enum Packet<'a> {
    /// A media fragment; the payload is never interpreted.
    Media {
        /// Shared header.
        header: Header,
        /// Encoded media bytes of this fragment.
        payload: &'a [u8],
    },
    /// A selective retransmission request: `base_seq` and, for each set bit
    /// `i` of `blp`, `base_seq + 1 + i`.
    Nack {
        /// Shared header.
        header: Header,
        /// First missing sequence number.
        base_seq: u16,
        /// Bitmask of further losses behind `base_seq`.
        blp: u16,
        /// Optional frame hint.
        frame_id: Option<u32>,
    },
    /// Which datagrams arrived: bit `i` of `received_mask` stands for
    /// transport sequence number `first_seq + i`.
    ArrivalFeedback {
        /// Shared header.
        header: Header,
        /// First transport sequence number covered.
        first_seq: u16,
        /// Arrived datagrams.
        received_mask: u64,
        /// One big-endian `u16` per set bit, in ticks of
        /// [`ARRIVAL_RECV_DELTA_TICK_MICROS`]; empty when left out.
        recv_delta_bytes: &'a [u8],
    },
    /// A request that `stream_id` produce a keyframe.
    KeyframeReq {
        /// Shared header.
        header: Header,
        /// Stream that should produce it.
        stream_id: u8,
    },
    /// The XOR of the media datagrams that `mask` names, each padded with
    /// zeros to the length of `payload`.
    Fec {
        /// Shared header.
        header: Header,
        /// First media sequence number covered.
        seq_base: u16,
        /// Bit `i` set: `seq_base + i` is protected.
        mask: u64,
        /// XOR of the protected datagrams' lengths.
        length_xor: u16,
        /// XOR of the padded datagrams.
        payload: &'a [u8],
    },
}

impl<'a> View for Packet<'a> {
    type V = PacketModel;

    open spec fn view(&self) -> PacketModel {
        match *self {
            Packet::Media { header, payload } => PacketModel::Media { header, payload: payload@ },
            Packet::Nack { header, base_seq, blp, frame_id } => PacketModel::Nack {
                header,
                base_seq,
                blp,
                frame_id,
            },
            Packet::ArrivalFeedback { header, first_seq, received_mask, recv_delta_bytes } => {
                PacketModel::ArrivalFeedback {
                    header,
                    first_seq,
                    received_mask,
                    recv_delta_bytes: recv_delta_bytes@,
                }
            },
            Packet::KeyframeReq { header, stream_id } => PacketModel::KeyframeReq {
                header,
                stream_id,
            },
            Packet::Fec { header, seq_base, mask, length_xor, payload } => PacketModel::Fec {
                header,
                seq_base,
                mask,
                length_xor,
                payload: payload@,
            },
        }
    }
}

/// A decoding outcome as a value.
pub open spec fn outcome(r: Result<Packet<'_>, DecodeError>) -> Result<PacketModel, DecodeError> {
    match r {
        Ok(p) => Ok(p@),
        Err(e) => Err(e),
    }
}

impl<'a> Packet<'a> {
    /// The shared header.
    pub fn header(&self) -> (h: &Header)
        ensures
            *h == self@.header(),
    {
        match self {
            Packet::Media { header, .. } => header,
            Packet::Nack { header, .. } => header,
            Packet::ArrivalFeedback { header, .. } => header,
            Packet::KeyframeReq { header, .. } => header,
            Packet::Fec { header, .. } => header,
        }
    }

    /// The bytes that follow the fields, if any can.
    fn load(&self) -> (t: Option<&'a [u8]>)
        ensures
            self@.load() == (match t {
                Some(s) => s@,
                None => Seq::<u8>::empty(),
            }),
    {
        match self {
            Packet::Media { payload, .. } => Some(*payload),
            Packet::ArrivalFeedback { recv_delta_bytes, .. } => Some(*recv_delta_bytes),
            Packet::Fec { payload, .. } => Some(*payload),
            _ => None,
        }
    }

    /// Number of bytes of the header and the fields behind it.
    fn fields_len(&self) -> (n: usize)
        ensures
            n == HEADER_SIZE + self@.fields().len(),
            n <= 32,
    {
        match self {
            Packet::Media { .. } => HEADER_SIZE,
            Packet::Nack { frame_id, .. } => match frame_id {
                Some(_) => HEADER_SIZE + 8,
                None => HEADER_SIZE + 4,
            },
            Packet::ArrivalFeedback { .. } => HEADER_SIZE + 10,
            Packet::KeyframeReq { .. } => HEADER_SIZE + 1,
            Packet::Fec { .. } => HEADER_SIZE + FEC_BODY_HEADER_SIZE,
        }
    }

    /// Number of bytes of the encoded datagram.
    pub fn encoded_len(&self) -> (n: usize)
        requires
            self@.wire().len() <= usize::MAX,
        ensures
            n == self@.wire().len(),
    {
        proof {
            lemma_wire_parts(self@);
        }
        match self.load() {
            Some(t) => self.fields_len() + t.len(),
            None => self.fields_len(),
        }
    }

    /// Writes the header and the fields behind it into the front of `bytes`.
    #[verifier::rlimit(40)]
    fn encode_fields(&self, bytes: &mut [u8])
        requires
            old(bytes)@.len() >= HEADER_SIZE + self@.fields().len(),
        ensures
            final(bytes)@ == header_bytes(self@.header()) + self@.fields() + old(bytes)@.skip(
                HEADER_SIZE + self@.fields().len(),
            ),
    {
        let ghost all = bytes@;
        proof {
            lemma_header_len(self@.header());
        }
        self.header().encode(bytes);
        let ghost mut w = header_bytes(self@.header());
        match self {
            Packet::Media { .. } => {},
            Packet::Nack { base_seq, blp, frame_id, .. } => {
                proof {
                    octets::lemma_write_on(all, w, octets::be16_bytes(*base_seq));
                    w = w + octets::be16_bytes(*base_seq);
                }
                put_u16(bytes, HEADER_SIZE, *base_seq);
                proof {
                    octets::lemma_write_on(all, w, octets::be16_bytes(*blp));
                    w = w + octets::be16_bytes(*blp);
                }
                put_u16(bytes, HEADER_SIZE + 2, *blp);
                if let Some(id) = frame_id {
                    proof {
                        octets::lemma_write_on(all, w, octets::be32_bytes(*id));
                        w = w + octets::be32_bytes(*id);
                    }
                    put_u32(bytes, HEADER_SIZE + 4, *id);
                }
            },
            Packet::ArrivalFeedback { first_seq, received_mask, .. } => {
                proof {
                    octets::lemma_write_on(all, w, octets::be16_bytes(*first_seq));
                    w = w + octets::be16_bytes(*first_seq);
                }
                put_u16(bytes, HEADER_SIZE, *first_seq);
                proof {
                    octets::lemma_write_on(all, w, octets::be64_bytes(*received_mask));
                    w = w + octets::be64_bytes(*received_mask);
                }
                put_u64(bytes, HEADER_SIZE + 2, *received_mask);
            },
            Packet::KeyframeReq { stream_id, .. } => {
                proof {
                    octets::lemma_write_on(all, w, seq![*stream_id]);
                    w = w + seq![*stream_id];
                }
                put_u8(bytes, HEADER_SIZE, *stream_id);
            },
            Packet::Fec { seq_base, mask, length_xor, .. } => {
                proof {
                    octets::lemma_write_on(all, w, octets::be16_bytes(*seq_base));
                    w = w + octets::be16_bytes(*seq_base);
                }
                put_u16(bytes, HEADER_SIZE, *seq_base);
                proof {
                    octets::lemma_write_on(all, w, octets::be64_bytes(*mask));
                    w = w + octets::be64_bytes(*mask);
                }
                put_u64(bytes, HEADER_SIZE + 2, *mask);
                proof {
                    octets::lemma_write_on(all, w, octets::be16_bytes(*length_xor));
                    w = w + octets::be16_bytes(*length_xor);
                }
                put_u16(bytes, HEADER_SIZE + 10, *length_xor);
            },
        }
        assert(w =~= header_bytes(self@.header()) + self@.fields());
    }

    /// Writes the datagram into the front of `bytes`.
    pub fn encode(&self, bytes: &mut [u8])
        requires
            old(bytes)@.len() >= self@.wire().len(),
        ensures
            final(bytes)@ == self@.wire() + old(bytes)@.skip(self@.wire().len() as int),
    {
        let ghost all = bytes@;
        proof {
            lemma_wire_parts(self@);
        }
        let ghost w = header_bytes(self@.header()) + self@.fields();
        let n: usize = self.fields_len();
        self.encode_fields(bytes);
        if let Some(t) = self.load() {
            proof {
                octets::lemma_write_on(all, w, t@);
            }
            put_slice(bytes, n, t);
        } else {
            assert(w + self@.load() =~= w);
        }
    }

    /// The datagram as a vector of its own.
    pub fn to_vec(&self) -> (v: Vec<u8>)
        ensures
            v@ == self@.wire(),
    {
        proof {
            lemma_wire_parts(self@);
        }
        let mut v: Vec<u8> = vec![0u8; self.fields_len()];
        self.encode_fields(v.as_mut_slice());
        let ghost w = header_bytes(self@.header()) + self@.fields();
        assert(v@ =~= w);
        if let Some(t) = self.load() {
            let mut tail = slice_to_vec(t);
            v.append(&mut tail);
        } else {
            assert(w + self@.load() =~= w);
        }
        v
    }

    /// Decodes one datagram.
    pub fn decode(bytes: &'a [u8]) -> (r: Result<Self, DecodeError>)
        ensures
            outcome(r) == PacketModel::parse(bytes@),
    {
        let header = match Header::decode(bytes) {
            Ok(h) => h,
            Err(e) => return Err(e),
        };
        let payload = slice_subrange(bytes, HEADER_SIZE, bytes.len());
        let ghost body = bytes@.skip(HEADER_SIZE as int);
        assert(payload@ == body);
        let mut cur = payload;
        match header.packet_type {
            PacketType::Media => Ok(Packet::Media { header, payload }),
            PacketType::Nack => {
                if payload.len() < 4 {
                    return Err(DecodeError::TooShort { need: 4, have: payload.len() });
                }
                let base_seq = get_u16(&mut cur);
                let blp = get_u16(&mut cur);
                assert(cur@ == body.skip(4));
                let frame_id = if cur.len() >= 4 {
                    Some(get_u32(&mut cur))
                } else {
                    None
                };
                Ok(Packet::Nack { header, base_seq, blp, frame_id })
            },
            PacketType::ArrivalFeedback => {
                if payload.len() < 10 {
                    return Err(DecodeError::TooShort { need: 10, have: payload.len() });
                }
                let first_seq = get_u16(&mut cur);
                let received_mask = get_u64(&mut cur);
                assert(cur@ == body.skip(10));
                if cur.len() % 2 != 0 {
                    return Err(DecodeError::TooShort { need: cur.len() + 1, have: cur.len() });
                }
                Ok(Packet::ArrivalFeedback { header, first_seq, received_mask, recv_delta_bytes: cur })
            },
            PacketType::KeyframeReq => {
                if payload.len() == 0 {
                    return Err(DecodeError::TooShort { need: 1, have: 0 });
                }
                Ok(Packet::KeyframeReq { header, stream_id: get_u8(&mut cur) })
            },
            PacketType::Fec => {
                if payload.len() < FEC_BODY_HEADER_SIZE {
                    return Err(
                        DecodeError::TooShort { need: FEC_BODY_HEADER_SIZE, have: payload.len() },
                    );
                }
                let seq_base = get_u16(&mut cur);
                let mask = get_u64(&mut cur);
                assert(cur@ == body.skip(10));
                let length_xor = get_u16(&mut cur);
                assert(cur@ == body.skip(12));
                Ok(Packet::Fec { header, seq_base, mask, length_xor, payload: cur })
            },
        }
    }

    /// The wire form of receive deltas: each as a big-endian `u16`.
    pub fn encode_arrival_recv_deltas(deltas: &[u16]) -> (out: Vec<u8>)
        ensures
            out@ == delta_bytes(deltas@),
    {
        let mut out: Vec<u8> = Vec::new();
        let mut i: usize = 0;
        while i < deltas.len()
            invariant
                i <= deltas@.len(),
                out@ == delta_bytes(deltas@.take(i as int)),
            decreases deltas@.len() - i,
        {
            let d: u16 = deltas[i];
            let ghost before = out@;
            out.push((d / 0x100) as u8);
            out.push((d % 0x100) as u8);
            assert(out@ =~= delta_bytes(deltas@.take(i + 1)));
            i = i + 1;
        }
        assert(deltas@.take(deltas@.len() as int) =~= deltas@);
        out
    }

    /// The receive deltas that stand in `bytes`; a last odd byte is left out.
    pub fn parse_arrival_recv_deltas(bytes: &[u8]) -> (out: Vec<u16>)
        ensures
            out@ == parse_deltas(bytes@),
    {
        let len: usize = bytes.len();
        let n: usize = len / 2;
        let mut out: Vec<u16> = Vec::new();
        let mut i: usize = 0;
        while i < n
            invariant
                len == bytes@.len(),
                n == len / 2,
                i <= n,
                out@ == parse_deltas(bytes@).take(i as int),
            decreases n - i,
        {
            out.push(bytes[2 * i] as u16 * 0x100 + bytes[2 * i + 1] as u16);
            i = i + 1;
        }
        out
    }

    /// The sequence numbers that one retransmission request asks for:
    /// `base_seq`, then `base_seq + 1 + i` for each set bit `i` of `blp`.
    pub fn nack_missing_seqs(base_seq: u16, blp: u16) -> (out: Vec<u16>)
        ensures
            out@ == seqs::missing((base_seq, blp)),
    {
        seqs::expand(base_seq, blp)
    }

    /// Packs sequence numbers into `(base_seq, blp)` entries. Together the
    /// entries ask for each of them once, in ascending order, and no entry
    /// could have taken in the first number of the next.
    pub fn nack_pack_seqs(seqs: Vec<u16>) -> (out: Vec<(u16, u16)>)
        ensures
            out@ == seqs::packed(seqs::sorted(seqs@.to_set())),
            table::ascending(seqs::all_missing(out@)),
            forall|x: u16| seqs::all_missing(out@).contains(x) <==> seqs@.contains(x),
            seqs::tightly_packed(out@),
    {
        seqs::pack(&seqs)
    }
}

/// The wire form of receive deltas.
pub open spec fn delta_bytes(deltas: Seq<u16>) -> Seq<u8> {
    Seq::new(2 * deltas.len(), |i: int| octets::be16_bytes(deltas[i / 2])[i % 2])
}

/// The receive deltas that `b` is the wire form of.
pub open spec fn parse_deltas(b: Seq<u8>) -> Seq<u16> {
    Seq::new(b.len() / 2, |i: int| octets::be16(b.skip(2 * i)))
}

/// Receive deltas are read back from their wire form.
pub proof fn lemma_deltas_round_trip(deltas: Seq<u16>)
    ensures
        parse_deltas(delta_bytes(deltas)) == deltas,
{
    let b = delta_bytes(deltas);
    assert forall|i: int| 0 <= i < deltas.len() implies #[trigger] parse_deltas(b)[i]
        == deltas[i] by {
        lemma_delta_at(deltas, i);
    }
    assert(parse_deltas(b) =~= deltas);
}

proof fn lemma_delta_at(deltas: Seq<u16>, i: int)
    requires
        0 <= i < deltas.len(),
    ensures
        octets::be16(delta_bytes(deltas).skip(2 * i)) == deltas[i],
{
    let b = delta_bytes(deltas);
    let d = deltas[i];
    let two = b.skip(2 * i);
    assert(two[0] == b[2 * i]);
    assert(two[1] == b[2 * i + 1]);
    assert((2 * i) / 2 == i && (2 * i) % 2 == 0 && (2 * i + 1) / 2 == i && (2 * i + 1) % 2 == 1);
    assert(b[2 * i] == (d / 0x100) as u8);
    assert(b[2 * i + 1] == (d % 0x100) as u8);
}

/// A header that a decoder accepts is read back from its wire form, whatever
/// follows it.
#[verifier::rlimit(40)]
pub proof fn lemma_header_round_trip(h: Header, rest: Seq<u8>)
    requires
        h.packet_type == PacketType::Media ==> fragment_fields_valid(h),
    ensures
        parse_header(header_bytes(h) + rest) == Ok::<Header, DecodeError>(h),
{
    let b = header_bytes(h) + rest;
    assert(header_bytes(h).len() == HEADER_SIZE);
    let fb = first_byte(h);
    assert(b[0] == fb);
    assert(fb / 64 == VERSION && (fb / 8 % 8) as u8 == h.packet_type.code() && Flags::of_bits(
        (fb % 8) as u8,
    ) == h.flags);
    assert(b.skip(2) == octets::be16_bytes(h.media_seq) + b.skip(4));
    assert(b.skip(4) == octets::be16_bytes(h.transport_seq) + b.skip(6));
    assert(b.skip(6) == octets::be32_bytes(h.frame_id) + b.skip(10));
    assert(b.skip(10) == octets::be16_bytes(h.frag_index) + b.skip(12));
    assert(b.skip(12) == octets::be16_bytes(h.frag_count) + b.skip(14));
    assert(b.skip(14) == octets::be32_bytes(h.timestamp) + b.skip(18));
    assert(b.skip(18) == octets::be16_bytes(h.ttl_ms) + b.skip(20));
    octets::lemma_be16_round(h.media_seq, b.skip(4));
    octets::lemma_be16_round(h.transport_seq, b.skip(6));
    octets::lemma_be32_round(h.frame_id, b.skip(10));
    octets::lemma_be16_round(h.frag_index, b.skip(12));
    octets::lemma_be16_round(h.frag_count, b.skip(14));
    octets::lemma_be32_round(h.timestamp, b.skip(18));
    octets::lemma_be16_round(h.ttl_ms, b.skip(20));
}

/// A datagram is its header, its fields and what follows them.
proof fn lemma_wire_parts(p: PacketModel)
    ensures
        p.wire() == header_bytes(p.header()) + p.fields() + p.load(),
        header_bytes(p.header()).len() == HEADER_SIZE,
{
    lemma_header_len(p.header());
    assert(p.wire() =~= header_bytes(p.header()) + p.fields() + p.load());
}

/// What a decoder accepts of a header.
pub proof fn lemma_parsed_header(b: Seq<u8>)
    requires
        parse_header(b) is Ok,
    ensures
        b.len() >= HEADER_SIZE,
        parse_header(b)->Ok_0.packet_type == PacketType::Media ==> fragment_fields_valid(
            parse_header(b)->Ok_0,
        ),
{
}

/// Every header takes the same number of bytes.
pub proof fn lemma_header_len(h: Header)
    ensures
        header_bytes(h).len() == HEADER_SIZE,
{
}

/// The wire form of a decoded header is the bytes that it was decoded from.
pub proof fn lemma_header_bytes_round_trip(b: Seq<u8>)
    requires
        parse_header(b) is Ok,
    ensures
        header_bytes(parse_header(b)->Ok_0) == b.take(HEADER_SIZE as int),
{
    let h = parse_header(b)->Ok_0;
    octets::lemma_be16_bytes_round(b.skip(2));
    octets::lemma_be16_bytes_round(b.skip(4));
    octets::lemma_be32_bytes_round(b.skip(6));
    octets::lemma_be16_bytes_round(b.skip(10));
    octets::lemma_be16_bytes_round(b.skip(12));
    octets::lemma_be32_bytes_round(b.skip(14));
    octets::lemma_be16_bytes_round(b.skip(18));
    let fb = b[0];
    assert(first_byte(h) == fb);
    assert(b.take(20) == seq![b[0], b[1]] + b.skip(2).take(2) + b.skip(4).take(2) + b.skip(6).take(
        4,
    ) + b.skip(10).take(2) + b.skip(12).take(2) + b.skip(14).take(4) + b.skip(18).take(2));
}

proof fn lemma_pair_body(n: u16, m: u16, rest: Seq<u8>)
    ensures
        ({
            let b = octets::be16_bytes(n) + octets::be16_bytes(m) + rest;
            octets::be16(b) == n && octets::be16(b.skip(2)) == m && b.skip(4) == rest && b.len()
                == 4 + rest.len()
        }),
{
    let b = octets::be16_bytes(n) + octets::be16_bytes(m) + rest;
    assert(b == octets::be16_bytes(n) + b.skip(2));
    assert(b.skip(2) == octets::be16_bytes(m) + rest);
    octets::lemma_be16_round(n, b.skip(2));
    octets::lemma_be16_round(m, rest);
    assert(b.skip(4) == rest);
}

proof fn lemma_nack_body(header: Header, base_seq: u16, blp: u16, frame_id: Option<u32>)
    requires
        header.packet_type == PacketType::Nack,
    ensures
        ({
            let p = PacketModel::Nack { header, base_seq, blp, frame_id };
            PacketModel::parse_body(header, p.body()) == Ok::<PacketModel, DecodeError>(p)
        }),
{
    let b = (PacketModel::Nack { header, base_seq, blp, frame_id }).body();
    let fixed = octets::be16_bytes(base_seq) + octets::be16_bytes(blp);
    match frame_id {
        Some(id) => {
            let tail = octets::be32_bytes(id);
            lemma_pair_body(base_seq, blp, tail);
            assert(tail.len() == 4);
            assert(tail + Seq::<u8>::empty() == tail);
            octets::lemma_be32_round(id, Seq::<u8>::empty());
        },
        None => {
            lemma_pair_body(base_seq, blp, Seq::<u8>::empty());
            assert(fixed + Seq::<u8>::empty() == fixed);
            assert(b == fixed);
        },
    }
}

proof fn lemma_counted_body(n: u16, m: u64, rest: Seq<u8>)
    ensures
        ({
            let b = octets::be16_bytes(n) + octets::be64_bytes(m) + rest;
            octets::be16(b) == n && octets::be64(b.skip(2)) == m && b.skip(10) == rest && b.len()
                == 10 + rest.len()
        }),
{
    let b = octets::be16_bytes(n) + octets::be64_bytes(m) + rest;
    assert(octets::be64_bytes(m).len() == 8);
    assert(b == octets::be16_bytes(n) + b.skip(2));
    assert(b.skip(2) == octets::be64_bytes(m) + rest);
    octets::lemma_be16_round(n, b.skip(2));
    octets::lemma_be64_round(m, rest);
    assert(b.skip(10) == rest);
}

#[verifier::rlimit(40)]
proof fn lemma_fec_body(
    header: Header,
    seq_base: u16,
    mask: u64,
    length_xor: u16,
    payload: Seq<u8>,
)
    requires
        header.packet_type == PacketType::Fec,
    ensures
        ({
            let p = PacketModel::Fec { header, seq_base, mask, length_xor, payload };
            PacketModel::parse_body(header, p.body()) == Ok::<PacketModel, DecodeError>(p)
        }),
{
    let b = (PacketModel::Fec { header, seq_base, mask, length_xor, payload }).body();
    let tail = octets::be16_bytes(length_xor) + payload;
    lemma_counted_body(seq_base, mask, tail);
    octets::lemma_be16_round(length_xor, payload);
    assert(octets::be64_bytes(mask).len() == 8);
    assert(b =~= octets::be16_bytes(seq_base) + octets::be64_bytes(mask) + tail);
    assert(b.skip(12) =~= tail.skip(2));
    assert(tail.skip(2) =~= payload);
}

/// A datagram is its header, then its body.
pub proof fn lemma_parse_split(h: Header, body: Seq<u8>)
    requires
        h.packet_type == PacketType::Media ==> fragment_fields_valid(h),
    ensures
        PacketModel::parse(header_bytes(h) + body) == PacketModel::parse_body(h, body),
{
    lemma_header_round_trip(h, body);
    lemma_header_len(h);
    assert((header_bytes(h) + body).skip(HEADER_SIZE as int) == body);
}

proof fn lemma_body_round_trip(p: PacketModel)
    requires
        p.valid(),
    ensures
        PacketModel::parse_body(p.header(), p.body()) == Ok::<PacketModel, DecodeError>(p),
{
    match p {
        PacketModel::Media { .. } => {},
        PacketModel::Nack { header, base_seq, blp, frame_id } => {
            lemma_nack_body(header, base_seq, blp, frame_id);
        },
        PacketModel::ArrivalFeedback { first_seq, received_mask, recv_delta_bytes, .. } => {
            lemma_counted_body(first_seq, received_mask, recv_delta_bytes);
        },
        PacketModel::KeyframeReq { .. } => {},
        PacketModel::Fec { header, seq_base, mask, length_xor, payload } => {
            lemma_fec_body(header, seq_base, mask, length_xor, payload);
        },
    }
}

/// Decoding the wire form of a valid datagram gives the datagram back.
pub proof fn lemma_packet_round_trip(p: PacketModel)
    requires
        p.valid(),
    ensures
        PacketModel::parse(p.wire()) == Ok::<PacketModel, DecodeError>(p),
{
    lemma_parse_split(p.header(), p.body());
    lemma_body_round_trip(p);
}

/// Every datagram that decodes is valid.
pub proof fn lemma_parsed_is_valid(b: Seq<u8>)
    requires
        PacketModel::parse(b) is Ok,
    ensures
        PacketModel::parse(b)->Ok_0.valid(),
        PacketModel::parse(b)->Ok_0.header() == parse_header(b)->Ok_0,
        b.len() >= HEADER_SIZE,
{
    lemma_parsed_header(b);
}

/// The wire form of a decoded datagram is the bytes that it was decoded from.
/// What may follow the fields of a retransmission request or of a keyframe
/// request is not kept; every other datagram is kept whole.
#[verifier::rlimit(50)]
pub proof fn lemma_wire_round_trip(b: Seq<u8>)
    requires
        PacketModel::parse(b) is Ok,
    ensures
        ({
            let p = PacketModel::parse(b)->Ok_0;
            &&& p.wire().len() <= b.len()
            &&& p.wire() == b.take(p.wire().len() as int)
            &&& p is Nack || p is KeyframeReq || p.wire() == b
        }),
{
    let p = PacketModel::parse(b)->Ok_0;
    let h = parse_header(b)->Ok_0;
    let body = b.skip(HEADER_SIZE as int);
    lemma_parsed_header(b);
    lemma_header_len(h);
    lemma_header_bytes_round_trip(b);
    lemma_body_bytes(h, body);
    assert(b =~= b.take(HEADER_SIZE as int) + body);
    assert(p.wire() =~= b.take(HEADER_SIZE as int) + body.take(p.body().len() as int));
}

#[verifier::rlimit(40)]
proof fn lemma_body_bytes(h: Header, body: Seq<u8>)
    requires
        PacketModel::parse_body(h, body) is Ok,
    ensures
        ({
            let p = PacketModel::parse_body(h, body)->Ok_0;
            &&& p.header() == h
            &&& p.body().len() <= body.len()
            &&& p.body() == body.take(p.body().len() as int)
            &&& p is Nack || p is KeyframeReq || p.body() == body
        }),
{
    let p = PacketModel::parse_body(h, body)->Ok_0;
    match p {
        PacketModel::Media { .. } => {},
        PacketModel::Nack { frame_id, .. } => {
            octets::lemma_be16_bytes_round(body);
            octets::lemma_be16_bytes_round(body.skip(2));
            assert(body.take(4) == body.take(2) + body.skip(2).take(2));
            if frame_id is Some {
                octets::lemma_be32_bytes_round(body.skip(4));
                assert(body.take(8) == body.take(4) + body.skip(4).take(4));
                assert(p.body() == body.take(8));
            } else {
                assert(p.body() == body.take(4));
            }
        },
        PacketModel::ArrivalFeedback { .. } => {
            octets::lemma_be16_bytes_round(body);
            octets::lemma_be64_bytes_round(body.skip(2));
            assert(body == body.take(2) + body.skip(2).take(8) + body.skip(10));
        },
        PacketModel::KeyframeReq { .. } => {
            assert(p.body() == body.take(1));
        },
        PacketModel::Fec { .. } => {
            octets::lemma_be16_bytes_round(body);
            octets::lemma_be64_bytes_round(body.skip(2));
            octets::lemma_be16_bytes_round(body.skip(10));
            assert(body == body.take(2) + body.skip(2).take(8) + body.skip(10).take(2) + body.skip(
                12,
            ));
        },
    }
}

/// Whether a datagram begins with a header that a decoder accepts.
#[verifier::opaque]
pub open spec fn headed(wire: Seq<u8>) -> bool {
    parse_header(wire) is Ok
}

/// What [`headed`] means.
pub proof fn lemma_headed(wire: Seq<u8>)
    ensures
        headed(wire) <==> parse_header(wire) is Ok,
{
    reveal(headed);
}

/// The wire form of a packet with an acceptable header begins with it.
pub proof fn lemma_labelled(p: PacketModel)
    requires
        p.labelled(),
    ensures
        headed(p.wire()),
{
    reveal(headed);
    lemma_header_round_trip(p.header(), p.body());
}

} // verus!
