//! XOR parity over media datagrams.
//!
//! The sender gathers the datagrams of a protection block and emits parity
//! rows over them; each row covers a share of the block. The receiver keeps
//! recent datagrams and rows, and rebuilds the missing datagram of any row
//! that lacks just one. Parity itself is never requested again.

use crate::bits;
use crate::bits::{has_bit64, set_bit64};
use crate::octets;
use crate::octets::{as_slice, seal};
use crate::packet;
use crate::packet::{
    DecodeError, Flags, Header, Packet, PacketModel, PacketType, FEC_BODY_HEADER_SIZE, HEADER_SIZE,
};
use crate::parity;
use crate::parity::xor_bytes;
use crate::seqs;
use crate::table::{stream_key, Table};
use crate::text;
use crate::text::append_decimal;
use bytes::Bytes;
use std::collections::VecDeque;
use vstd::prelude::*;
use vstd::slice::slice_to_vec;

verus! {

/// Most media datagrams in one protection block.
pub const MAX_MEDIA_PACKETS: usize = 48;

/// How much parity is sent.
#[derive(Debug, Clone, Copy, PartialEq, Eq, Structural)]
pub struct FecProtectionParams {
    /// Parity rows per 256 media datagrams; none at zero.
    pub fec_rate: u8,
}

impl Default for FecProtectionParams {
    fn default() -> (p: Self)
        ensures
            p.fec_rate == 64,
    {
        FecProtectionParams { fec_rate: 64 }
    }
}

/// The number of parity rows for a block: the rate's share, rounded, but at
/// least one and at most one for each datagram.
pub open spec fn row_count(num_media: int, fec_rate: int) -> int {
    let n = (num_media * fec_rate + 128) / 256;
    if num_media == 0 || fec_rate == 0 {
        0
    } else if n < 1 {
        1
    } else if n > num_media {
        num_media
    } else {
        n
    }
}

/// The number of parity rows for a block of `num_media` datagrams.
pub fn num_fec_packets(num_media: usize, fec_rate: u8) -> (n: usize)
    ensures
        n == row_count(num_media as int, fec_rate as int),
        n <= num_media,
{
    if num_media == 0 || fec_rate == 0 {
        return 0;
    }
    assert(num_media * fec_rate <= num_media * 255) by (nonlinear_arith)
        requires
            fec_rate <= 255,
            num_media >= 0,
    ;
    let n: u128 = (num_media as u128 * fec_rate as u128 + 128) / 256;
    if n < 1 {
        1
    } else if n > num_media as u128 {
        num_media
    } else {
        n as usize
    }
}

/// Why a datagram cannot be protected, or a row cannot be taken in.
#[derive(Debug, Clone, Copy, PartialEq, Eq, Structural)]
pub enum FecError {
    /// The datagram is not of the kind that is asked for.
    NotMedia,
    /// The datagram belongs to another stream.
    StreamMismatch {
        /// Stream of the datagram.
        got: u8,
        /// Stream that is protected.
        expected: u8,
    },
    /// The block holds [`MAX_MEDIA_PACKETS`] datagrams.
    BlockFull,
    /// The block's sequence numbers would not fit one mask.
    SeqOutOfWindow {
        /// Least sequence number of the block.
        seq_base: u16,
        /// Sequence number that does not fit.
        media_seq: u16,
    },
    /// The sequence number given is not that of the datagram.
    SeqMismatch {
        /// Sequence number given.
        arg: u16,
        /// Sequence number of the datagram.
        header: u16,
    },
    /// The bytes do not decode.
    Decode(DecodeError),
}

impl FecError {
    /// The text of the error.
    pub open spec fn text(self) -> Seq<char> {
        match self {
            FecError::NotMedia => "datagram is not Packet::Media"@,
            FecError::StreamMismatch { got, expected } => "stream_id "@ + text::decimal(got as nat) + " != expected "@ + text::decimal(expected as nat),
            FecError::BlockFull => "FEC block already has 48 media packets"@,
            FecError::SeqOutOfWindow { seq_base, media_seq } => "media_seq "@ + text::decimal(media_seq as nat) + " outside 48-bit window from seq_base "@ + text::decimal(seq_base as nat),
            FecError::SeqMismatch { arg, header } => "media_seq arg "@ + text::decimal(arg as nat) + " != header "@ + text::decimal(header as nat),
            FecError::Decode(e) => "decode error: "@ + e.text(),
        }
    }

    /// Says what is wrong.
    pub fn message(&self) -> (m: String)
        ensures
            m@ == self.text(),
    {
        match self {
            FecError::NotMedia => String::from_str("datagram is not Packet::Media"),
            FecError::StreamMismatch { got, expected } => {
                let mut m = String::from_str("stream_id ");
                append_decimal(&mut m, *got as u64);
                m.append(" != expected ");
                append_decimal(&mut m, *expected as u64);
                m
            },
            FecError::BlockFull => String::from_str("FEC block already has 48 media packets"),
            FecError::SeqOutOfWindow { seq_base, media_seq } => {
                let mut m = String::from_str("media_seq ");
                append_decimal(&mut m, *media_seq as u64);
                m.append(" outside 48-bit window from seq_base ");
                append_decimal(&mut m, *seq_base as u64);
                m
            },
            FecError::SeqMismatch { arg, header } => {
                let mut m = String::from_str("media_seq arg ");
                append_decimal(&mut m, *arg as u64);
                m.append(" != header ");
                append_decimal(&mut m, *header as u64);
                m
            },
            FecError::Decode(e) => {
                let mut m = String::from_str("decode error: ");
                m.append(e.message().as_str());
                m
            },
        }
    }
}

impl From<DecodeError> for FecError {
    fn from(value: DecodeError) -> (e: Self) {
        FecError::Decode(value)
    }
}

impl vstd::std_specs::convert::FromSpecImpl<DecodeError> for FecError {
    open spec fn obeys_from_spec() -> bool {
        true
    }

    open spec fn from_spec(value: DecodeError) -> FecError {
        FecError::Decode(value)
    }
}

/// A parity packet, ready to be encoded. Its transport sequence number is
/// given when it leaves.
#[derive(Debug, Clone, PartialEq, Eq)]
pub struct FecPacketOwned {
    /// Shared header.
    pub header: Header,
    /// First media sequence number covered.
    pub seq_base: u16,
    /// Bit `i` set: `seq_base + i` is protected.
    pub mask: u64,
    /// XOR of the protected datagrams' lengths.
    pub length_xor: u16,
    /// XOR of the padded datagrams.
    pub payload: Bytes,
}

impl View for FecPacketOwned {
    type V = PacketModel;

    open spec fn view(&self) -> PacketModel {
        PacketModel::Fec {
            header: self.header,
            seq_base: self.seq_base,
            mask: self.mask,
            length_xor: self.length_xor,
            payload: octets::octets(self.payload),
        }
    }
}

impl FecPacketOwned {
    /// The packet, borrowed.
    pub fn as_packet(&self) -> (p: Packet<'_>)
        ensures
            p@ == self@,
    {
        Packet::Fec {
            header: self.header,
            seq_base: self.seq_base,
            mask: self.mask,
            length_xor: self.length_xor,
            payload: as_slice(&self.payload),
        }
    }

    /// The encoded datagram.
    pub fn to_wire(&self) -> (b: Bytes)
        ensures
            octets::octets(b) == self@.wire(),
    {
        seal(self.as_packet().to_vec())
    }

    /// Number of bytes of the encoded datagram.
    pub fn encoded_len(&self) -> (n: usize)
        requires
            self@.wire().len() <= usize::MAX,
        ensures
            n == self@.wire().len(),
            n == HEADER_SIZE + FEC_BODY_HEADER_SIZE + octets::octets(self.payload).len(),
    {
        proof {
            packet::lemma_header_len(self@.header());
        }
        self.as_packet().encoded_len()
    }
}

/// A media datagram rebuilt from parity.
#[derive(Debug, Clone, PartialEq, Eq)]
pub struct RecoveredPacket {
    /// Stream of the datagram.
    pub stream_id: u8,
    /// Its media sequence number.
    pub media_seq: u16,
    /// The whole datagram.
    pub wire: Bytes,
}

/// A [`RecoveredPacket`] as a value.
#[verifier::ext_equal]
pub struct RecoveredModel {
    pub stream_id: u8,
    pub media_seq: u16,
    pub wire: Seq<u8>,
}

impl View for RecoveredPacket {
    type V = RecoveredModel;

    open spec fn view(&self) -> RecoveredModel {
        RecoveredModel {
            stream_id: self.stream_id,
            media_seq: self.media_seq,
            wire: octets::octets(self.wire),
        }
    }
}

/// The position of `seq` in a window that begins at `base`.
pub open spec fn bit_of(seq: u16, base: u16) -> int {
    (seq - base) % 0x1_0000
}

/// Whether all of `seqs` lie in the window of a mask that begins at `base`.
pub open spec fn fits(seqs: Seq<u16>, base: u16) -> bool {
    forall|j: int| 0 <= j < seqs.len() ==> bit_of(#[trigger] seqs[j], base) < MAX_MEDIA_PACKETS
}

/// The first of `seqs` from position `i` on whose window holds them all.
pub open spec fn base_from(seqs: Seq<u16>, i: int) -> Option<u16>
    decreases seqs.len() - i,
{
    if i < 0 || i >= seqs.len() {
        None
    } else if fits(seqs, seqs[i]) {
        Some(seqs[i])
    } else {
        base_from(seqs, i + 1)
    }
}

/// The one of `seqs` whose window holds them all.
pub open spec fn base_of(seqs: Seq<u16>) -> Option<u16> {
    if seqs.len() == 0 {
        Some(0)
    } else {
        base_from(seqs, 0)
    }
}

/// A window base is found just when one of the numbers is one, and there is
/// no other.
pub proof fn lemma_base_of(seqs: Seq<u16>, base: u16)
    requires
        seqs.contains(base),
        fits(seqs, base),
    ensures
        base_of(seqs) == Some(base),
{
    let j = choose|j: int| 0 <= j < seqs.len() && seqs[j] == base;
    lemma_base_from(seqs, 0, j);
}

proof fn lemma_base_from(seqs: Seq<u16>, i: int, j: int)
    requires
        0 <= i <= j < seqs.len(),
        fits(seqs, seqs[j]),
    ensures
        base_from(seqs, i) == Some(seqs[j]),
    decreases j - i,
{
    if fits(seqs, seqs[i]) {
        assert(bit_of(seqs[i], seqs[j]) < MAX_MEDIA_PACKETS);
        assert(bit_of(seqs[j], seqs[i]) < MAX_MEDIA_PACKETS);
    } else {
        lemma_base_from(seqs, i + 1, j);
    }
}

/// The window that is found holds all of the numbers.
pub proof fn lemma_base_fits(seqs: Seq<u16>, i: int)
    requires
        i >= 0,
        base_from(seqs, i) is Some,
    ensures
        fits(seqs, base_from(seqs, i)->0),
    decreases seqs.len() - i,
{
    if i < seqs.len() && !fits(seqs, seqs[i]) {
        lemma_base_fits(seqs, i + 1);
    }
}

/// The least of `seqs`, or `last` when it is less than all of them.
pub open spec fn least(seqs: Seq<u16>, last: u16) -> u16
    decreases seqs.len(),
{
    if seqs.len() == 0 {
        last
    } else {
        let m = least(seqs.drop_last(), last);
        if seqs.last() < m {
            seqs.last()
        } else {
            m
        }
    }
}

/// The sequence number of the window of a mask that holds all of `seqs`.
fn window_base(seqs: &Vec<u16>) -> (r: Option<u16>)
    ensures
        r == base_of(seqs@),
{
    if seqs.len() == 0 {
        return Some(0);
    }
    let mut i: usize = 0;
    while i < seqs.len()
        invariant
            i <= seqs@.len(),
            base_from(seqs@, 0) == base_from(seqs@, i as int),
        decreases seqs@.len() - i,
    {
        let base: u16 = seqs[i];
        let mut all: bool = true;
        let mut j: usize = 0;
        while j < seqs.len()
            invariant
                j <= seqs@.len(),
                all == (forall|k: int|
                    0 <= k < j ==> bit_of(#[trigger] seqs@[k], base) < MAX_MEDIA_PACKETS),
            decreases seqs@.len() - j,
        {
            let d: u16 = seqs[j].wrapping_sub(base);
            assert(d == bit_of(seqs@[j as int], base));
            if d >= MAX_MEDIA_PACKETS as u16 {
                all = false;
            }
            j = j + 1;
        }
        if all {
            return Some(base);
        }
        i = i + 1;
    }
    None
}

/// A block's datagrams with their sequence numbers.
pub type Block = Seq<(u16, Seq<u8>)>;

/// The sequence numbers of a block.
pub open spec fn block_seqs(block: Block) -> Seq<u16> {
    block.map_values(|p: (u16, Seq<u8>)| p.0)
}

/// The datagram at position `bit` of the window: the last that was pushed
/// there.
pub open spec fn wire_at(block: Block, base: u16, bit: int) -> Option<Seq<u8>>
    decreases block.len(),
{
    if block.len() == 0 {
        None
    } else if bit_of(block.last().0, base) == bit {
        Some(block.last().1)
    } else {
        wire_at(block.drop_last(), base, bit)
    }
}

/// How many positions below `bit` hold a datagram.
pub open spec fn rank(block: Block, base: u16, bit: int) -> nat
    decreases bit,
{
    if bit <= 0 {
        0
    } else {
        rank(block, base, bit - 1) + if wire_at(block, base, bit - 1) is Some {
            1nat
        } else {
            0nat
        }
    }
}

/// The datagrams that row `r` of `n` covers: those whose turn it is when the
/// rows take turns.
pub open spec fn row_members(block: Block, base: u16, n: int, r: int) -> spec_fn(int) -> Option<
    Seq<u8>,
> {
    |b: int|
        if 0 <= b < MAX_MEDIA_PACKETS && rank(block, base, b) as int % n == r {
            wire_at(block, base, b)
        } else {
            None
        }
}

/// Header fields that a block's rows share.
pub struct BlockMeta {
    pub timestamp: u32,
    pub ttl_ms: u16,
    pub key: bool,
    pub audio: bool,
    pub frame_id: u32,
}

/// The header of a datagram.
pub open spec fn header_of(wire: Seq<u8>) -> Header {
    packet::parse_header(wire)->Ok_0
}

/// The latest timestamp, the shortest lifetime, whether any datagram is of a
/// keyframe or of audio, and the frame of the last.
pub open spec fn meta_of(block: Block) -> BlockMeta
    decreases block.len(),
{
    if block.len() == 0 {
        BlockMeta { timestamp: 0, ttl_ms: u16::MAX, key: false, audio: false, frame_id: 0 }
    } else {
        let m = meta_of(block.drop_last());
        let h = header_of(block.last().1);
        BlockMeta {
            timestamp: if h.timestamp > m.timestamp {
                h.timestamp
            } else {
                m.timestamp
            },
            ttl_ms: if h.ttl_ms < m.ttl_ms {
                h.ttl_ms
            } else {
                m.ttl_ms
            },
            key: m.key || h.flags.key,
            audio: m.audio || h.flags.audio,
            frame_id: h.frame_id,
        }
    }
}

/// The header of a block's rows.
pub open spec fn row_header(stream_id: u8, m: BlockMeta) -> Header {
    Header {
        packet_type: PacketType::Fec,
        flags: Flags { retrans: false, audio: m.audio, key: m.key },
        stream_id,
        media_seq: 0,
        transport_seq: 0,
        frame_id: m.frame_id,
        frag_index: 0,
        frag_count: 1,
        timestamp: m.timestamp,
        ttl_ms: if m.ttl_ms == u16::MAX {
            0
        } else {
            m.ttl_ms
        },
    }
}

/// The parity row over the datagrams that `sel` names.
pub open spec fn row_packet(
    header: Header,
    base: u16,
    sel: spec_fn(int) -> Option<Seq<u8>>,
) -> PacketModel {
    PacketModel::Fec {
        header,
        seq_base: base,
        mask: parity::mask_of(sel, MAX_MEDIA_PACKETS as int),
        length_xor: parity::len_parity(sel, MAX_MEDIA_PACKETS as int),
        payload: parity::xor_all(sel, MAX_MEDIA_PACKETS as int),
    }
}

/// The first `k` of `n` rows over a block, but for those that cover nothing.
pub open spec fn rows_up_to(stream_id: u8, block: Block, n: int, k: int) -> Seq<PacketModel>
    decreases k,
{
    if k <= 0 {
        Seq::empty()
    } else {
        let base = base_of(block_seqs(block))->0;
        let sel = row_members(block, base, n, k - 1);
        let front = rows_up_to(stream_id, block, n, k - 1);
        if parity::mask_of(sel, MAX_MEDIA_PACKETS as int) == 0 {
            front
        } else {
            front.push(row_packet(row_header(stream_id, meta_of(block)), base, sel))
        }
    }
}

/// The state of a [`FecGenerator`] as a value.
#[verifier::ext_equal]
pub struct GeneratorModel {
    /// Stream that is protected.
    pub stream_id: u8,
    /// How much parity is sent.
    pub fec_rate: u8,
    /// The block that is gathered.
    pub block: Block,
}

impl GeneratorModel {
    /// Why `wire` cannot be protected under the sequence number `media_seq`.
    pub open spec fn refused(self, media_seq: u16, wire: Seq<u8>) -> Option<FecError> {
        match PacketModel::parse(wire) {
            Err(e) => Some(FecError::Decode(e)),
            Ok(PacketModel::Media { header, .. }) => if header.stream_id != self.stream_id {
                Some(
                    FecError::StreamMismatch { got: header.stream_id, expected: self.stream_id },
                )
            } else if header.media_seq != media_seq {
                Some(FecError::SeqMismatch { arg: media_seq, header: header.media_seq })
            } else {
                None
            },
            Ok(_) => Some(FecError::NotMedia),
        }
    }

    /// What holds of every state.
    pub open spec fn wf(self) -> bool {
        &&& self.block.len() <= MAX_MEDIA_PACKETS
        &&& base_of(block_seqs(self.block)) is Some
        &&& forall|i: int|
            0 <= i < self.block.len() ==> self.refused(
                (#[trigger] self.block[i]).0,
                self.block[i].1,
            ) is None
    }

    /// The rows over the block.
    pub open spec fn rows(self) -> Seq<PacketModel> {
        let n = row_count(self.block.len() as int, self.fec_rate as int);
        rows_up_to(self.stream_id, self.block, n, n)
    }

    /// The state with an empty block.
    pub open spec fn flushed(self) -> GeneratorModel {
        GeneratorModel { block: Seq::empty(), ..self }
    }

    /// The state and the outcome once `wire` was offered: a full block gives
    /// its rows first.
    pub open spec fn push(self, media_seq: u16, wire: Seq<u8>) -> (
        GeneratorModel,
        Result<Seq<PacketModel>, FecError>,
    ) {
        if let Some(e) = self.refused(media_seq, wire) {
            (self, Err(e))
        } else if self.block.len() >= MAX_MEDIA_PACKETS {
            (
                GeneratorModel { block: seq![(media_seq, wire)], ..self },
                Ok(self.rows()),
            )
        } else if base_of(block_seqs(self.block).push(media_seq)) is None {
            (
                self,
                Err(
                    FecError::SeqOutOfWindow {
                        seq_base: least(block_seqs(self.block), media_seq),
                        media_seq,
                    },
                ),
            )
        } else {
            (
                GeneratorModel { block: self.block.push((media_seq, wire)), ..self },
                Ok(Seq::empty()),
            )
        }
    }
}

/// Parity packets as values.
pub open spec fn row_models(rows: Seq<FecPacketOwned>) -> Seq<PacketModel> {
    rows.map_values(|r: FecPacketOwned| r@)
}

/// Gathers media datagrams and emits parity rows over them.
#[derive(Debug, Clone)]
pub struct FecGenerator {
    stream_id: u8,
    params: FecProtectionParams,
    pending: Vec<(u16, Bytes)>,
}

/// A block as values.
pub open spec fn block_of(pending: Seq<(u16, Bytes)>) -> Block {
    pending.map_values(|p: (u16, Bytes)| (p.0, octets::octets(p.1)))
}

impl View for FecGenerator {
    type V = GeneratorModel;

    closed spec fn view(&self) -> GeneratorModel {
        GeneratorModel {
            stream_id: self.stream_id,
            fec_rate: self.params.fec_rate,
            block: block_of(self.pending@),
        }
    }
}

/// Where each position of the window finds its datagram in the block.
spec fn indexed(by_bit: Seq<Option<usize>>, block: Block, base: u16) -> bool {
    &&& by_bit.len() == MAX_MEDIA_PACKETS
    &&& forall|b: int|
        0 <= b < MAX_MEDIA_PACKETS ==> match #[trigger] by_bit[b] {
            Some(i) => i < block.len() && wire_at(block, base, b) == Some(block[i as int].1),
            None => wire_at(block, base, b) is None,
        }
}

impl FecGenerator {
    /// A generator for one stream, with an empty block.
    pub fn new(stream_id: u8, params: FecProtectionParams) -> (g: Self)
        ensures
            g@ == (GeneratorModel { stream_id, fec_rate: params.fec_rate, block: Seq::empty() }),
            g@.wf(),
    {
        let g = FecGenerator { stream_id, params, pending: Vec::new() };
        assert(g@.block =~= Seq::<(u16, Seq<u8>)>::empty());
        assert(block_seqs(g@.block).len() == 0);
        g
    }

    /// Stream that is protected.
    pub fn stream_id(&self) -> (id: u8)
        ensures
            id == self@.stream_id,
    {
        self.stream_id
    }

    /// How much parity is sent.
    pub fn params(&self) -> (p: FecProtectionParams)
        ensures
            p.fec_rate == self@.fec_rate,
    {
        self.params
    }

    /// Changes how much parity is sent, from the next flush on.
    pub fn set_params(&mut self, params: FecProtectionParams)
        ensures
            final(self)@ == (GeneratorModel { fec_rate: params.fec_rate, ..old(self)@ }),
    {
        self.params = params;
    }

    /// Number of datagrams in the block.
    pub fn pending_count(&self) -> (n: usize)
        ensures
            n == self@.block.len(),
    {
        self.pending.len()
    }

    fn validate_media(&self, media_seq: u16, wire: &Bytes) -> (r: Result<(), FecError>)
        ensures
            match r {
                Ok(()) => self@.refused(media_seq, octets::octets(*wire)) is None,
                Err(e) => self@.refused(media_seq, octets::octets(*wire)) == Some(e),
            },
    {
        match Packet::decode(as_slice(wire)) {
            Err(e) => Err(FecError::from(e)),
            Ok(Packet::Media { header, .. }) => {
                if header.stream_id != self.stream_id {
                    return Err(
                        FecError::StreamMismatch {
                            got: header.stream_id,
                            expected: self.stream_id,
                        },
                    );
                }
                if header.media_seq != media_seq {
                    return Err(
                        FecError::SeqMismatch { arg: media_seq, header: header.media_seq },
                    );
                }
                Ok(())
            },
            Ok(_) => Err(FecError::NotMedia),
        }
    }

    fn pending_seqs(&self) -> (v: Vec<u16>)
        ensures
            v@ == block_seqs(self@.block),
    {
        let mut v: Vec<u16> = Vec::new();
        let mut i: usize = 0;
        while i < self.pending.len()
            invariant
                i <= self.pending@.len(),
                v@ == block_seqs(self@.block).take(i as int),
            decreases self.pending@.len() - i,
        {
            v.push(self.pending[i].0);
            i = i + 1;
        }
        v
    }

    /// Adds a media datagram to the block. A full block gives its rows first,
    /// which are returned.
    #[verifier::rlimit(50)]
    pub fn push(&mut self, media_seq: u16, wire: Bytes) -> (r: Result<
        Vec<FecPacketOwned>,
        FecError,
    >)
        requires
            old(self)@.wf(),
        ensures
            final(self)@.wf(),
            final(self)@ == old(self)@.push(media_seq, octets::octets(wire)).0,
            match r {
                Ok(rows) => old(self)@.push(media_seq, octets::octets(wire)).1 == Ok::<
                    Seq<PacketModel>,
                    FecError,
                >(row_models(rows@)),
                Err(e) => old(self)@.push(media_seq, octets::octets(wire)).1 == Err::<
                    Seq<PacketModel>,
                    FecError,
                >(e),
            },
    {
        let ghost before = self@;
        let ghost bytes = octets::octets(wire);
        if let Err(e) = self.validate_media(media_seq, &wire) {
            return Err(e);
        }
        let mut produced: Vec<FecPacketOwned> = Vec::new();
        assert(row_models(produced@) =~= Seq::<PacketModel>::empty());
        if self.pending.len() >= MAX_MEDIA_PACKETS {
            produced = self.flush();
        }
        let ghost mid = self@;
        let mut seqs = self.pending_seqs();
        let ghost seqs0 = seqs@;
        seqs.push(media_seq);
        if window_base(&seqs).is_none() {
            assert(seqs0.len() > 0) by {
                if seqs0.len() == 0 {
                    assert(seqs@ =~= seq![media_seq]);
                    assert(seqs@[0] == media_seq);
                    lemma_base_of(seqs@, media_seq);
                }
            }
            let mut seq_base: u16 = media_seq;
            let mut i: usize = 0;
            while i < seqs.len() - 1
                invariant
                    seqs@ == seqs0.push(media_seq),
                    i <= seqs0.len(),
                    seq_base == least(seqs0.take(i as int), media_seq),
                decreases seqs0.len() - i,
            {
                assert(seqs0.take(i + 1).drop_last() =~= seqs0.take(i as int));
                if seqs[i] < seq_base {
                    seq_base = seqs[i];
                }
                i = i + 1;
            }
            assert(seqs0.take(seqs0.len() as int) =~= seqs0);
            return Err(FecError::SeqOutOfWindow { seq_base, media_seq });
        }
        let ghost p0 = self.pending@;
        self.pending.push((media_seq, wire));
        proof {
            assert(block_of(self.pending@) =~= mid.block.push((media_seq, bytes)));
            assert(block_seqs(self@.block) =~= seqs0.push(media_seq));
            if before.block.len() >= MAX_MEDIA_PACKETS {
                assert(self@.block =~= seq![(media_seq, bytes)]);
            }
            assert forall|i: int| 0 <= i < self@.block.len() implies self@.refused(
                (#[trigger] self@.block[i]).0,
                self@.block[i].1,
            ) is None by {
                if i < mid.block.len() {
                    assert(self@.block[i] == mid.block[i]);
                    assert(mid.refused(mid.block[i].0, mid.block[i].1) is None);
                } else {
                    assert(self@.block[i] == (media_seq, bytes));
                }
            }
        }
        Ok(produced)
    }

    /// Builds the parity rows over the block and empties it. The datagrams, in
    /// window order, take turns over the rows.
    pub fn flush(&mut self) -> (rows: Vec<FecPacketOwned>)
        requires
            old(self)@.wf(),
        ensures
            final(self)@ == old(self)@.flushed(),
            final(self)@.wf(),
            row_models(rows@) == old(self)@.rows(),
    {
        let ghost g = self@;
        let ghost block = g.block;
        let mut rows: Vec<FecPacketOwned> = Vec::new();
        let n: usize = num_fec_packets(self.pending.len(), self.params.fec_rate);
        let seqs = self.pending_seqs();
        let mut media: Vec<(u16, Bytes)> = Vec::new();
        std::mem::swap(&mut media, &mut self.pending);
        assert(self@.block =~= Seq::<(u16, Seq<u8>)>::empty());
        assert(block_seqs(self@.block).len() == 0);
        assert(block == block_of(media@));
        assert(row_models(rows@) =~= Seq::<PacketModel>::empty());
        if n == 0 {
            return rows;
        }
        let seq_base: u16 = match window_base(&seqs) {
            Some(b) => b,
            None => 0,
        };
        proof {
            lemma_base_fits(block_seqs(block), 0);
            assert(seq_base == base_of(block_seqs(block))->0);
        }
        let by_bit = index_block(&media, seq_base);
        proof {
            assert forall|i: int| 0 <= i < media@.len() implies PacketModel::parse(
                octets::octets((#[trigger] media@[i]).1),
            ) matches Ok(PacketModel::Media { .. }) by {
                assert(block[i] == (media@[i].0, octets::octets(media@[i].1)));
                assert(g.refused(block[i].0, block[i].1) is None);
            }
        }
        let header = block_header(self.stream_id, &media);
        let mut r: usize = 0;
        while r < n
            invariant
                n > 0,
                r <= n,
                block == block_of(media@),
                indexed(by_bit@, block, seq_base),
                seq_base == base_of(block_seqs(block))->0,
                header == row_header(self.stream_id, meta_of(block)),
                self.stream_id == g.stream_id,
                row_models(rows@) == rows_up_to(g.stream_id, block, n as int, r as int),
            decreases n - r,
        {
            let ghost rows0 = rows@;
            if let Some(row) = build_row(header, seq_base, &media, &by_bit, n, r) {
                rows.push(row);
                assert(row_models(rows@) =~= row_models(rows0).push(row@));
            }
            r = r + 1;
        }
        rows
    }
}

/// Finds each position's datagram.
fn index_block(media: &Vec<(u16, Bytes)>, seq_base: u16) -> (by_bit: Vec<Option<usize>>)
    requires
        fits(block_seqs(block_of(media@)), seq_base),
    ensures
        indexed(by_bit@, block_of(media@), seq_base),
{
    let ghost block = block_of(media@);
    let mut by_bit: Vec<Option<usize>> = Vec::new();
    let mut b: usize = 0;
    while b < MAX_MEDIA_PACKETS
        invariant
            b <= MAX_MEDIA_PACKETS,
            by_bit@.len() == b,
            forall|k: int| 0 <= k < b ==> #[trigger] by_bit@[k] is None,
        decreases MAX_MEDIA_PACKETS - b,
    {
        by_bit.push(None);
        b = b + 1;
    }
    let mut j: usize = 0;
    assert(block.take(0).len() == 0);
    while j < media.len()
        invariant
            j <= media@.len(),
            block == block_of(media@),
            fits(block_seqs(block), seq_base),
            indexed(by_bit@, block.take(j as int), seq_base),
        decreases media@.len() - j,
    {
        let bit: usize = media[j].0.wrapping_sub(seq_base) as usize;
        proof {
            assert(block_seqs(block)[j as int] == media@[j as int].0);
            assert(bit == bit_of(media@[j as int].0, seq_base));
        }
        let ghost old_bits = by_bit@;
        by_bit.set(bit, Some(j));
        proof {
            let t = block.take(j as int);
            let t1 = block.take(j + 1);
            assert(t1.drop_last() =~= t);
            assert(t1.last() == block[j as int]);
            assert forall|b: int| 0 <= b < MAX_MEDIA_PACKETS implies match #[trigger] by_bit@[b] {
                Some(i) => i < t1.len() && wire_at(t1, seq_base, b) == Some(t1[i as int].1),
                None => wire_at(t1, seq_base, b) is None,
            } by {
                if b != bit {
                    assert(by_bit@[b] == old_bits[b]);
                    if let Some(i) = old_bits[b] {
                        assert(t[i as int] == t1[i as int]);
                    }
                }
            }
        }
        j = j + 1;
    }
    assert(block.take(block.len() as int) =~= block);
    by_bit
}

/// The header of a block's rows.
fn block_header(stream_id: u8, media: &Vec<(u16, Bytes)>) -> (h: Header)
    requires
        forall|i: int|
            0 <= i < media@.len() ==> PacketModel::parse(
                octets::octets((#[trigger] media@[i]).1),
            ) matches Ok(PacketModel::Media { .. }),
    ensures
        h == row_header(stream_id, meta_of(block_of(media@))),
{
    let ghost block = block_of(media@);
    let mut timestamp: u32 = 0;
    let mut ttl: u16 = u16::MAX;
    let mut key: bool = false;
    let mut audio: bool = false;
    let mut frame_id: u32 = 0;
    let mut j: usize = 0;
    assert(block.take(0).len() == 0);
    while j < media.len()
        invariant
            j <= media@.len(),
            block == block_of(media@),
            forall|i: int|
                0 <= i < media@.len() ==> PacketModel::parse(
                    octets::octets((#[trigger] media@[i]).1),
                ) matches Ok(PacketModel::Media { .. }),
            meta_of(block.take(j as int)) == (BlockMeta {
                timestamp,
                ttl_ms: ttl,
                key,
                audio,
                frame_id,
            }),
        decreases media@.len() - j,
    {
        assert(block.take(j + 1).drop_last() =~= block.take(j as int));
        assert(block.take(j + 1).last() == block[j as int]);
        assert(block[j as int].1 == octets::octets(media@[j as int].1));
        if let Ok(Packet::Media { header, .. }) = Packet::decode(as_slice(&media[j].1)) {
            if header.timestamp > timestamp {
                timestamp = header.timestamp;
            }
            if header.ttl_ms < ttl {
                ttl = header.ttl_ms;
            }
            key = key || header.flags.key;
            audio = audio || header.flags.audio;
            frame_id = header.frame_id;
        }
        j = j + 1;
    }
    assert(block.take(block.len() as int) =~= block);
    Header {
        packet_type: PacketType::Fec,
        flags: Flags { retrans: false, audio, key },
        stream_id,
        media_seq: 0,
        transport_seq: 0,
        frame_id,
        frag_index: 0,
        frag_count: 1,
        timestamp,
        ttl_ms: if ttl == u16::MAX {
            0
        } else {
            ttl
        },
    }
}

/// Builds row `r` of `n`, unless it covers nothing.
fn build_row(
    header: Header,
    seq_base: u16,
    media: &Vec<(u16, Bytes)>,
    by_bit: &Vec<Option<usize>>,
    n: usize,
    r: usize,
) -> (row: Option<FecPacketOwned>)
    requires
        n > 0,
        indexed(by_bit@, block_of(media@), seq_base),
    ensures
        ({
            let sel = row_members(block_of(media@), seq_base, n as int, r as int);
            match row {
                Some(p) => parity::mask_of(sel, MAX_MEDIA_PACKETS as int) != 0 && p@ == row_packet(
                    header,
                    seq_base,
                    sel,
                ),
                None => parity::mask_of(sel, MAX_MEDIA_PACKETS as int) == 0,
            }
        }),
{
    let ghost block = block_of(media@);
    let ghost sel = row_members(block, seq_base, n as int, r as int);
    let mut mask: u64 = 0;
    let mut length_xor: u16 = 0;
    let mut max_len: usize = 0;
    let mut round: usize = 0;
    let mut b: u16 = 0;
    while b < 48
        invariant
            n > 0,
            b <= 48,
            block == block_of(media@),
            indexed(by_bit@, block, seq_base),
            sel == row_members(block, seq_base, n as int, r as int),
            round == rank(block, seq_base, b as int),
            round <= b,
            mask == parity::mask_of(sel, b as int),
            length_xor == parity::len_parity(sel, b as int),
            max_len == parity::longest(sel, b as int),
        decreases 48 - b,
    {
        if let Some(i) = by_bit[b as usize] {
            let w = &media[i].1;
            assert(block[i as int].1 == octets::octets(media@[i as int].1));
            if round % n == r {
                assert(sel(b as int) == Some(octets::octets(*w)));
                mask = set_bit64(mask, b);
                length_xor = length_xor ^ ((w.len() % 0x1_0000) as u16);
                if w.len() > max_len {
                    max_len = w.len();
                }
            } else {
                assert(sel(b as int) is None);
            }
            round = round + 1;
        } else {
            assert(sel(b as int) is None);
        }
        b = b + 1;
    }
    if mask == 0 {
        return None;
    }
    proof {
        parity::lemma_mask_of(sel, 48);
    }
    let mut payload: Vec<u8> = vec![0u8; max_len];
    let mut b: u16 = 0;
    while b < 48
        invariant
            b <= 48,
            block == block_of(media@),
            indexed(by_bit@, block, seq_base),
            sel == row_members(block, seq_base, n as int, r as int),
            forall|j: int| #[trigger] bits::bit64(mask, j) <==> 0 <= j < 48 && sel(j) is Some,
            payload@.len() == max_len,
            forall|i: int|
                0 <= i < max_len ==> #[trigger] payload@[i] == parity::parity(sel, b as int, i),
        decreases 48 - b,
    {
        assert(bits::bit64(mask, b as int) <==> sel(b as int) is Some);
        if has_bit64(mask, b) {
            if let Some(i) = by_bit[b as usize] {
                assert(block[i as int].1 == octets::octets(media@[i as int].1));
                xor_bytes(&mut payload, as_slice(&media[i].1));
            }
        }
        b = b + 1;
    }
    let payload = seal(payload);
    assert(octets::octets(payload) =~= parity::xor_all(sel, 48));
    Some(FecPacketOwned { header, seq_base, mask, length_xor, payload })
}

/// A parity row as the receiver keeps it.
#[verifier::ext_equal]
pub struct RowModel {
    pub stream_id: u8,
    pub seq_base: u16,
    pub mask: u64,
    pub length_xor: u16,
    pub payload: Seq<u8>,
}

/// Datagrams under their stream and sequence number.
pub type MediaMap = Map<u64, Seq<u8>>;

impl RowModel {
    /// The key of the datagram at position `bit`.
    pub open spec fn key(self, bit: int) -> u64 {
        stream_key(self.stream_id, seqs::seq_add(self.seq_base, bit) as u32)
    }

    /// Whether the row covers position `bit`.
    pub open spec fn covers(self, bit: int) -> bool {
        0 <= bit < MAX_MEDIA_PACKETS && bits::bit64(self.mask, bit)
    }

    /// The covered datagrams at hand.
    pub open spec fn present(self, media: MediaMap) -> spec_fn(int) -> Option<Seq<u8>> {
        |b: int|
            if self.covers(b) && media.contains_key(self.key(b)) {
                Some(media[self.key(b)])
            } else {
                None
            }
    }

    /// The covered positions below `k` whose datagram is missing.
    pub open spec fn holes(self, media: MediaMap, k: int) -> Seq<int>
        decreases k,
    {
        if k <= 0 {
            Seq::empty()
        } else if self.covers(k - 1) && !media.contains_key(self.key(k - 1)) {
            self.holes(media, k - 1).push(k - 1)
        } else {
            self.holes(media, k - 1)
        }
    }

    /// Whether none of the covered datagrams at hand is longer than the row.
    pub open spec fn holds_all(self, media: MediaMap) -> bool {
        forall|b: int|
            #![trigger self.key(b)]
            self.covers(b) && media.contains_key(self.key(b)) ==> media[self.key(b)].len()
                <= self.payload.len()
    }

    /// The length that the missing datagram must have.
    pub open spec fn missing_len(self, media: MediaMap) -> u16 {
        self.length_xor ^ parity::len_parity(self.present(media), MAX_MEDIA_PACKETS as int)
    }

    /// What the row and the datagrams at hand XOR to.
    pub open spec fn residue(self, media: MediaMap) -> Seq<u8> {
        Seq::new(
            self.payload.len(),
            |i: int|
                self.payload[i] ^ parity::parity(
                    self.present(media),
                    MAX_MEDIA_PACKETS as int,
                    i,
                ),
        )
    }

    /// The missing datagram: the row lacks just one, and what is left of the
    /// XOR is a media datagram with the stream and sequence number of the
    /// hole, and zeros behind it.
    pub open spec fn rebuilt(self, media: MediaMap) -> Option<RecoveredModel> {
        let holes = self.holes(media, MAX_MEDIA_PACKETS as int);
        let n = self.missing_len(media) as int;
        let rest = self.residue(media);
        if holes.len() != 1 || !self.holds_all(media) || n > rest.len() {
            None
        } else if exists|i: int| n <= i < rest.len() && #[trigger] rest[i] != 0 {
            None
        } else {
            let seq = seqs::seq_add(self.seq_base, holes[0]);
            match PacketModel::parse(rest.take(n)) {
                Ok(PacketModel::Media { header, .. }) => if header.stream_id == self.stream_id
                    && header.media_seq == seq {
                    Some(
                        RecoveredModel {
                            stream_id: self.stream_id,
                            media_seq: seq,
                            wire: rest.take(n),
                        },
                    )
                } else {
                    None
                },
                _ => None,
            }
        }
    }
}

/// The key of a rebuilt datagram.
pub open spec fn recovered_key(r: RecoveredModel) -> u64 {
    stream_key(r.stream_id, r.media_seq as u32)
}

/// What is at hand, and what was rebuilt, once the first `k` rows were tried
/// in turn.
pub open spec fn pass(media: MediaMap, fec: Seq<RowModel>, k: int) -> (
    MediaMap,
    Seq<RecoveredModel>,
)
    decreases k,
{
    if k <= 0 {
        (media, Seq::empty())
    } else {
        let (m, out) = pass(media, fec, k - 1);
        match fec[k - 1].rebuilt(m) {
            Some(r) => (m.insert(recovered_key(r), r.wire), out.push(r)),
            None => (m, out),
        }
    }
}

/// How many datagrams the rows lack in all.
pub open spec fn lacking(media: MediaMap, fec: Seq<RowModel>) -> nat
    decreases fec.len(),
{
    if fec.len() == 0 {
        0
    } else {
        lacking(media, fec.drop_last()) + fec.last().holes(media, MAX_MEDIA_PACKETS as int).len()
    }
}

/// What is at hand, and what was rebuilt, once the rows were tried over and
/// over until nothing more came of it.
pub open spec fn recover_all(media: MediaMap, fec: Seq<RowModel>) -> (
    MediaMap,
    Seq<RecoveredModel>,
)
    decreases lacking(media, fec),
{
    let (m, out) = pass(media, fec, fec.len() as int);
    if out.len() == 0 {
        (m, out)
    } else {
        proof {
            lemma_pass_progress(media, fec);
        }
        let (m2, rest) = recover_all(m, fec);
        (m2, out + rest)
    }
}

proof fn lemma_holes_member(row: RowModel, media: MediaMap, k: int, b: int)
    ensures
        row.holes(media, k).contains(b) <==> 0 <= b < k && row.covers(b) && !media.contains_key(
            row.key(b),
        ),
    decreases k,
{
    let h = row.holes(media, k);
    if k > 0 {
        let f = row.holes(media, k - 1);
        lemma_holes_member(row, media, k - 1, b);
        if f.contains(b) {
            let i = choose|i: int| 0 <= i < f.len() && f[i] == b;
            assert(h[i] == b);
        }
        if h.contains(b) {
            let i = choose|i: int| 0 <= i < h.len() && h[i] == b;
            if i < f.len() {
                assert(f[i] == b);
                assert(f.contains(b));
            }
        }
        if b == k - 1 && row.covers(b) && !media.contains_key(row.key(b)) {
            assert(h[h.len() - 1] == b);
        }
    }
}

/// With more at hand no row lacks more, and a row lacks less if one of its
/// holes is filled.
proof fn lemma_holes_fewer(row: RowModel, media: MediaMap, more: MediaMap, k: int)
    requires
        media.dom().subset_of(more.dom()),
    ensures
        row.holes(more, k).len() <= row.holes(media, k).len(),
        (exists|b: int|
            0 <= b < k && row.covers(b) && !media.contains_key(#[trigger] row.key(b))
                && more.contains_key(row.key(b))) ==> row.holes(more, k).len() < row.holes(
            media,
            k,
        ).len(),
    decreases k,
{
    if k > 0 {
        lemma_holes_fewer(row, media, more, k - 1);
        assert(media.dom().contains(row.key(k - 1)) ==> more.dom().contains(row.key(k - 1)));
    }
}

proof fn lemma_lacking_fewer(media: MediaMap, more: MediaMap, fec: Seq<RowModel>, i: int, b: int)
    requires
        media.dom().subset_of(more.dom()),
        0 <= i < fec.len(),
        fec[i].covers(b),
        !media.contains_key(fec[i].key(b)),
        more.contains_key(fec[i].key(b)),
    ensures
        lacking(more, fec) < lacking(media, fec),
    decreases fec.len(),
{
    let front = fec.drop_last();
    lemma_holes_fewer(fec.last(), media, more, MAX_MEDIA_PACKETS as int);
    if i == fec.len() - 1 {
        lemma_lacking_no_more(media, more, front);
    } else {
        assert(front[i] == fec[i]);
        lemma_lacking_fewer(media, more, front, i, b);
    }
}

proof fn lemma_lacking_no_more(media: MediaMap, more: MediaMap, fec: Seq<RowModel>)
    requires
        media.dom().subset_of(more.dom()),
    ensures
        lacking(more, fec) <= lacking(media, fec),
    decreases fec.len(),
{
    if fec.len() > 0 {
        lemma_holes_fewer(fec.last(), media, more, MAX_MEDIA_PACKETS as int);
        lemma_lacking_no_more(media, more, fec.drop_last());
    }
}

/// A rebuilt datagram fills the hole of its row.
proof fn lemma_rebuilt_fills(row: RowModel, media: MediaMap)
    requires
        row.rebuilt(media) is Some,
    ensures
        ({
            let b = row.holes(media, MAX_MEDIA_PACKETS as int)[0];
            &&& row.covers(b)
            &&& recovered_key(row.rebuilt(media)->0) == row.key(b)
            &&& !media.contains_key(row.key(b))
        }),
{
    let holes = row.holes(media, MAX_MEDIA_PACKETS as int);
    assert(holes.contains(holes[0]));
    lemma_holes_member(row, media, MAX_MEDIA_PACKETS as int, holes[0]);
}

/// A pass only adds datagrams; where it rebuilds one, a hole is filled.
proof fn lemma_pass(media: MediaMap, fec: Seq<RowModel>, k: int)
    requires
        0 <= k <= fec.len(),
    ensures
        ({
            let (m, out) = pass(media, fec, k);
            &&& media.submap_of(m)
            &&& out.len() == 0 ==> m == media
            &&& out.len() > 0 ==> exists|i: int, b: int|
                0 <= i < fec.len() && #[trigger] fec[i].covers(b) && !media.contains_key(
                    fec[i].key(b),
                ) && m.contains_key(fec[i].key(b))
        }),
    decreases k,
{
    if k > 0 {
        lemma_pass(media, fec, k - 1);
        let (m0, out0) = pass(media, fec, k - 1);
        let (m, out) = pass(media, fec, k);
        let row = fec[k - 1];
        if row.rebuilt(m0) is Some {
            lemma_rebuilt_fills(row, m0);
            let b = row.holes(m0, MAX_MEDIA_PACKETS as int)[0];
            assert(fec[k - 1].covers(b));
            assert(!media.contains_key(row.key(b)));
        } else if out0.len() > 0 {
            let (i, b) = choose|i: int, b: int|
                0 <= i < fec.len() && #[trigger] fec[i].covers(b) && !media.contains_key(
                    fec[i].key(b),
                ) && m0.contains_key(fec[i].key(b));
            assert(fec[i].covers(b));
        }
    }
}

/// A pass that rebuilds a datagram leaves the rows lacking fewer.
pub proof fn lemma_pass_progress(media: MediaMap, fec: Seq<RowModel>)
    ensures
        pass(media, fec, fec.len() as int).1.len() > 0 ==> lacking(
            pass(media, fec, fec.len() as int).0,
            fec,
        ) < lacking(media, fec),
{
    lemma_pass(media, fec, fec.len() as int);
    let (m, out) = pass(media, fec, fec.len() as int);
    if out.len() > 0 {
        let (i, b) = choose|i: int, b: int|
            0 <= i < fec.len() && #[trigger] fec[i].covers(b) && !media.contains_key(fec[i].key(b))
                && m.contains_key(fec[i].key(b));
        assert(media.dom().subset_of(m.dom()));
        lemma_lacking_fewer(media, m, fec, i, b);
    }
}

/// The state of a [`FecReceiver`] as a value.
#[verifier::ext_equal]
pub struct ReceiverModel {
    /// Datagrams at hand, received or rebuilt.
    pub media: MediaMap,
    /// Their keys, in the order in which they came to hand.
    pub order: Seq<u64>,
    /// Recent parity rows, oldest first.
    pub fec: Seq<RowModel>,
    /// Bound on the datagrams, and on the rows.
    pub capacity: int,
}

/// The keys of rebuilt datagrams.
pub open spec fn recovered_keys(out: Seq<RecoveredModel>) -> Seq<u64> {
    out.map_values(|r: RecoveredModel| recovered_key(r))
}

impl ReceiverModel {
    /// A state with nothing at hand.
    pub open spec fn empty(capacity: int) -> ReceiverModel {
        ReceiverModel { media: Map::empty(), order: Seq::empty(), fec: Seq::empty(), capacity }
    }

    /// What holds of every state.
    pub open spec fn wf(self) -> bool {
        &&& self.capacity >= 1
        &&& self.fec.len() <= self.capacity
        &&& self.order.no_duplicates()
        &&& self.order.to_set() == self.media.dom()
        &&& self.order.len() <= self.capacity
    }

    /// The state with just as many datagrams gone as it takes to keep to the
    /// capacity: those that came to hand first.
    pub open spec fn evicted(self) -> ReceiverModel {
        if self.order.len() > self.capacity {
            let order = self.order.skip(self.order.len() - self.capacity);
            ReceiverModel { media: self.media.restrict(order.to_set()), order, ..self }
        } else {
            self
        }
    }

    /// The state and what was rebuilt once the rows were tried.
    pub open spec fn settled(self) -> (ReceiverModel, Seq<RecoveredModel>) {
        let (media, found) = recover_all(self.media, self.fec);
        (
            ReceiverModel {
                media,
                order: self.order + recovered_keys(found),
                ..self
            }.evicted(),
            found,
        )
    }

    /// The state and what was rebuilt once a datagram was received. One that
    /// is at hand already changes nothing.
    pub open spec fn take_media(self, stream_id: u8, media_seq: u16, wire: Seq<u8>) -> (
        ReceiverModel,
        Seq<RecoveredModel>,
    ) {
        let key = stream_key(stream_id, media_seq as u32);
        if self.media.contains_key(key) {
            (self, Seq::empty())
        } else {
            ReceiverModel {
                media: self.media.insert(key, wire),
                order: self.order.push(key),
                ..self
            }.evicted().settled()
        }
    }

    /// The state with one more row; the oldest makes way.
    pub open spec fn with_row(self, row: RowModel) -> ReceiverModel {
        ReceiverModel {
            fec: if self.fec.len() >= self.capacity {
                self.fec.drop_first().push(row)
            } else {
                self.fec.push(row)
            },
            ..self
        }
    }

    /// The state and what was rebuilt once a row was received.
    pub open spec fn take_row(self, row: RowModel) -> (ReceiverModel, Seq<RecoveredModel>) {
        self.with_row(row).settled()
    }
}

/// The row that a parity packet stands for.
pub open spec fn row_of(p: PacketModel) -> RowModel {
    RowModel {
        stream_id: p.header().stream_id,
        seq_base: p->seq_base,
        mask: p->mask,
        length_xor: p->length_xor,
        payload: p->Fec_payload,
    }
}

/// Rebuilt datagrams as values.
pub open spec fn recovered_models(out: Seq<RecoveredPacket>) -> Seq<RecoveredModel> {
    out.map_values(|r: RecoveredPacket| r@)
}

/// A parity row as the receiver keeps it.
#[derive(Debug, Clone)]
struct StoredFec {
    stream_id: u8,
    seq_base: u16,
    mask: u64,
    length_xor: u16,
    payload: Bytes,
}

impl StoredFec {
    closed spec fn model(&self) -> RowModel {
        RowModel {
            stream_id: self.stream_id,
            seq_base: self.seq_base,
            mask: self.mask,
            length_xor: self.length_xor,
            payload: octets::octets(self.payload),
        }
    }
}

spec fn media_model(media: Map<u64, Bytes>) -> MediaMap {
    media.map_values(|b: Bytes| octets::octets(b))
}

proof fn lemma_holes_grow(row: RowModel, media: MediaMap, a: int, b: int)
    requires
        a <= b,
    ensures
        row.holes(media, a).len() <= row.holes(media, b).len(),
    decreases b - a,
{
    if a < b {
        lemma_holes_grow(row, media, a, b - 1);
    }
}

/// Rebuilds the datagram that a row lacks, if it lacks just one.
fn try_recover_row(row: &StoredFec, media: &Table<Bytes>) -> (r: Option<RecoveredPacket>)
    ensures
        match r {
            Some(p) => row.model().rebuilt(media_model(media@)) == Some(p@),
            None => row.model().rebuilt(media_model(media@)) is None,
        },
{
    let ghost rm = row.model();
    let ghost mm = media_model(media@);
    let ghost sel = rm.present(mm);
    let mut missing: u32 = 0;
    let mut missing_bit: u16 = 0;
    let mut length_acc: u16 = row.length_xor;
    let mut buf: Vec<u8> = slice_to_vec(as_slice(&row.payload));
    let ghost p = rm.payload;
    let mut bit: u16 = 0;
    proof {
        parity::lemma_xor16(length_acc, 0, 0);
        assert forall|i: int| 0 <= i < p.len() implies p[i] ^ 0 == p[i] by {
            parity::lemma_xor8(p[i], 0, 0);
        }
    }
    while bit < 48
        invariant
            bit <= 48,
            rm == row.model(),
            mm == media_model(media@),
            sel == rm.present(mm),
            p == rm.payload,
            missing <= 1,
            missing == rm.holes(mm, bit as int).len(),
            missing == 1 ==> rm.holes(mm, bit as int)[0] == missing_bit && missing_bit < 48,
            length_acc == rm.length_xor ^ parity::len_parity(sel, bit as int),
            buf@.len() == p.len(),
            forall|i: int|
                0 <= i < p.len() ==> #[trigger] buf@[i] == p[i] ^ parity::parity(
                    sel,
                    bit as int,
                    i,
                ),
            forall|b: int|
                #![trigger rm.key(b)]
                b < bit && rm.covers(b) && mm.contains_key(rm.key(b)) ==> mm[rm.key(b)].len()
                    <= p.len(),
        decreases 48 - bit,
    {
        if has_bit64(row.mask, bit) {
            assert(rm.covers(bit as int));
            let seq: u16 = row.seq_base.wrapping_add(bit);
            let key = stream_key(row.stream_id, seq as u32);
            assert(key == rm.key(bit as int));
            match media.get(key) {
                Some(wire) => {
                    assert(mm[key] == octets::octets(*wire));
                    assert(sel(bit as int) == Some(octets::octets(*wire)));
                    proof {
                        parity::lemma_xor16(
                            rm.length_xor,
                            parity::len_parity(sel, bit as int),
                            parity::len16(octets::octets(*wire)),
                        );
                    }
                    length_acc = length_acc ^ ((wire.len() % 0x1_0000) as u16);
                    if wire.len() > buf.len() {
                        assert(!rm.holds_all(mm));
                        return None;
                    }
                    let ghost buf0 = buf@;
                    xor_bytes(&mut buf, as_slice(wire));
                    proof {
                        assert forall|i: int| 0 <= i < p.len() implies #[trigger] buf@[i] == p[i]
                            ^ parity::parity(sel, bit + 1, i) by {
                            assert(buf0[i] == p[i] ^ parity::parity(sel, bit as int, i));
                            parity::lemma_xor8(
                                p[i],
                                parity::parity(sel, bit as int, i),
                                parity::byte_at(octets::octets(*wire), i),
                            );
                        }
                    }
                },
                None => {
                    assert(sel(bit as int) is None);
                    missing = missing + 1;
                    if missing > 1 {
                        proof {
                            assert(rm.holes(mm, bit + 1).len() == 2);
                            lemma_holes_grow(rm, mm, bit + 1, 48);
                        }
                        return None;
                    }
                    missing_bit = bit;
                },
            }
        } else {
            assert(!rm.covers(bit as int));
            assert(sel(bit as int) is None);
        }
        bit = bit + 1;
    }
    assert(buf@ =~= rm.residue(mm));
    assert(rm.holds_all(mm)) by {
        assert forall|b: int|
            #![trigger rm.key(b)]
            rm.covers(b) && mm.contains_key(rm.key(b)) implies mm[rm.key(b)].len() <= p.len() by {
            assert(b < 48);
        }
    }
    if missing != 1 {
        return None;
    }
    let miss_len: usize = length_acc as usize;
    if miss_len > buf.len() {
        return None;
    }
    let ghost rest = buf@;
    let mut i: usize = miss_len;
    while i < buf.len()
        invariant
            miss_len <= i <= buf@.len(),
            rm == row.model(),
            mm == media_model(media@),
            buf@ == rest,
            rest == rm.residue(mm),
            miss_len == rm.missing_len(mm),
            forall|j: int| miss_len <= j < i ==> #[trigger] rest[j] == 0,
        decreases buf@.len() - i,
    {
        if buf[i] != 0 {
            assert(rm.residue(mm)[i as int] != 0);
            return None;
        }
        i = i + 1;
    }
    buf.truncate(miss_len);
    assert(buf@ =~= rest.take(miss_len as int));
    let media_seq: u16 = row.seq_base.wrapping_add(missing_bit);
    match Packet::decode(buf.as_slice()) {
        Ok(Packet::Media { header, .. }) => {
            if header.stream_id == row.stream_id && header.media_seq == media_seq {
                Some(
                    RecoveredPacket { stream_id: row.stream_id, media_seq, wire: seal(buf) },
                )
            } else {
                None
            }
        },
        _ => None,
    }
}

/// Keeps recent datagrams and parity rows, and rebuilds what it can.
#[derive(Debug, Clone)]
pub struct FecReceiver {
    media: Table<Bytes>,
    order: VecDeque<u64>,
    fec: VecDeque<StoredFec>,
    capacity: usize,
}

impl View for FecReceiver {
    type V = ReceiverModel;

    closed spec fn view(&self) -> ReceiverModel {
        ReceiverModel {
            media: media_model(self.media@),
            order: self.order@,
            fec: self.fec@.map_values(|r: StoredFec| r.model()),
            capacity: self.capacity as int,
        }
    }
}

impl FecReceiver {
    /// A receiver that keeps up to `capacity` datagrams and as many rows; at
    /// least one of each.
    pub fn new(capacity: usize) -> (r: Self)
        ensures
            r@.wf(),
            r@ == ReceiverModel::empty(
                if capacity == 0 {
                    1
                } else {
                    capacity as int
                },
            ),
    {
        let r = FecReceiver {
            media: Table::new(),
            order: VecDeque::new(),
            fec: VecDeque::new(),
            capacity: if capacity == 0 {
                1
            } else {
                capacity
            },
        };
        assert(r@.media =~= Map::<u64, Seq<u8>>::empty());
        assert(r@.fec =~= Seq::<RowModel>::empty());
        assert(r@.order =~= Seq::<u64>::empty());
        assert(r@.order.to_set() =~= r@.media.dom());
        r
    }

    /// Number of datagrams at hand.
    pub fn media_count(&self) -> (n: usize)
        ensures
            n == self@.media.len(),
    {
        assert(self@.media.dom() =~= self.media@.dom());
        self.media.len()
    }

    /// Number of rows kept.
    pub fn fec_count(&self) -> (n: usize)
        ensures
            n == self@.fec.len(),
    {
        self.fec.len()
    }

    /// Whether a datagram is at hand, received or rebuilt.
    pub fn has_media(&self, stream_id: u8, media_seq: u16) -> (b: bool)
        ensures
            b == self@.media.contains_key(stream_key(stream_id, media_seq as u32)),
    {
        self.media.contains_key(stream_key(stream_id, media_seq as u32))
    }

    /// Takes in a received datagram and rebuilds what has become possible. A
    /// datagram that is at hand already is left out.
    pub fn insert_media(&mut self, stream_id: u8, media_seq: u16, wire: Bytes) -> (out: Vec<
        RecoveredPacket,
    >)
        requires
            old(self)@.wf(),
        ensures
            final(self)@.wf(),
            (final(self)@, recovered_models(out@)) == old(self)@.take_media(
                stream_id,
                media_seq,
                octets::octets(wire),
            ),
    {
        let key = stream_key(stream_id, media_seq as u32);
        let ghost before = self@;
        let ghost w = octets::octets(wire);
        assert(self.media@.dom() =~= self@.media.dom());
        if self.media.contains_key(key) {
            let none: Vec<RecoveredPacket> = Vec::new();
            assert(recovered_models(none@) =~= Seq::<RecoveredModel>::empty());
            return none;
        }
        self.media.insert(key, wire);
        self.order.push_back(key);
        proof {
            assert(self@.media =~= before.media.insert(key, w));
            lemma_key_added(before.order, before.media.dom(), key);
            assert(self@.media.dom() =~= before.media.dom().insert(key));
        }
        self.evict_if_needed();
        self.recover_all()
    }

    /// Takes in a parity packet and rebuilds what has become possible.
    pub fn insert_fec_owned(&mut self, fec: &FecPacketOwned) -> (out: Vec<RecoveredPacket>)
        requires
            old(self)@.wf(),
        ensures
            final(self)@.wf(),
            (final(self)@, recovered_models(out@)) == old(self)@.take_row(row_of(fec@)),
    {
        self.insert_fec(
            fec.header.stream_id,
            fec.seq_base,
            fec.mask,
            fec.length_xor,
            fec.payload.clone(),
        )
    }

    /// Takes in a decoded parity packet. Any other packet is refused.
    pub fn insert_fec_packet(&mut self, packet: &Packet<'_>) -> (r: Result<
        Vec<RecoveredPacket>,
        FecError,
    >)
        requires
            old(self)@.wf(),
        ensures
            final(self)@.wf(),
            match r {
                Ok(out) => packet@ is Fec && (final(self)@, recovered_models(out@)) == old(
                    self,
                )@.take_row(row_of(packet@)),
                Err(e) => !(packet@ is Fec) && e == FecError::NotMedia && final(self)@ == old(
                    self,
                )@,
            },
    {
        match packet {
            Packet::Fec { header, seq_base, mask, length_xor, payload } => Ok(
                self.insert_fec(
                    header.stream_id,
                    *seq_base,
                    *mask,
                    *length_xor,
                    Bytes::copy_from_slice(payload),
                ),
            ),
            _ => Err(FecError::NotMedia),
        }
    }

    /// Takes in the fields of a parity packet.
    pub fn insert_fec(
        &mut self,
        stream_id: u8,
        seq_base: u16,
        mask: u64,
        length_xor: u16,
        payload: Bytes,
    ) -> (out: Vec<RecoveredPacket>)
        requires
            old(self)@.wf(),
        ensures
            final(self)@.wf(),
            (final(self)@, recovered_models(out@)) == old(self)@.take_row(
                RowModel {
                    stream_id,
                    seq_base,
                    mask,
                    length_xor,
                    payload: octets::octets(payload),
                },
            ),
    {
        let ghost before = self@;
        let ghost rows0 = self.fec@;
        let row = StoredFec { stream_id, seq_base, mask, length_xor, payload };
        let ghost rm = row.model();
        if self.fec.len() >= self.capacity {
            let _ = self.fec.pop_front();
        }
        self.fec.push_back(row);
        assert(self@.fec =~= before.with_row(rm).fec);
        assert(self@ == before.with_row(rm));
        self.recover_all()
    }

    fn recover_all(&mut self) -> (out: Vec<RecoveredPacket>)
        requires
            old(self)@.wf(),
        ensures
            final(self)@.wf(),
            (final(self)@, recovered_models(out@)) == old(self)@.settled(),
    {
        let ghost before = self@;
        let ghost fec = self@.fec;
        let mut out: Vec<RecoveredPacket> = Vec::new();
        let mut progressed: bool = true;
        assert(recovered_models(out@) =~= Seq::<RecoveredModel>::empty());
        assert(before.order + recovered_keys(recovered_models(out@)) =~= before.order);
        assert(recover_all(self@.media, fec).1 =~= Seq::<RecoveredModel>::empty() + recover_all(
            self@.media,
            fec,
        ).1);
        assert(self.media@.dom() =~= self@.media.dom());
        while progressed
            invariant
                before.wf(),
                self.media.wf(),
                self@ == (ReceiverModel { media: self@.media, order: self@.order, ..before }),
                self@.order == before.order + recovered_keys(recovered_models(out@)),
                self@.order.no_duplicates(),
                self@.order.to_set() == self@.media.dom(),
                fec == before.fec,
                self.fec@.len() == fec.len(),
                progressed ==> recover_all(before.media, fec).0 == recover_all(
                    self@.media,
                    fec,
                ).0,
                progressed ==> recover_all(before.media, fec).1 == recovered_models(out@)
                    + recover_all(self@.media, fec).1,
                !progressed ==> recover_all(before.media, fec) == (
                    self@.media,
                    recovered_models(out@),
                ),
            decreases lacking(self@.media, fec), (if progressed {
                    1int
                } else {
                    0
                }),
        {
            let ghost m0 = self@.media;
            let ghost out0 = recovered_models(out@);
            progressed = false;
            let mut i: usize = 0;
            assert(pass(m0, fec, 0).0 == m0);
            assert(out0 =~= out0 + pass(m0, fec, 0).1);
            while i < self.fec.len()
                invariant
                    self.media.wf(),
                    self@ == (ReceiverModel { media: self@.media, order: self@.order, ..before }),
                    self@.order == before.order + recovered_keys(recovered_models(out@)),
                    self@.order.no_duplicates(),
                    self@.order.to_set() == self@.media.dom(),
                    fec == before.fec,
                    self.fec@.len() == fec.len(),
                    i <= fec.len(),
                    self@.media == pass(m0, fec, i as int).0,
                    recovered_models(out@) == out0 + pass(m0, fec, i as int).1,
                    progressed == (pass(m0, fec, i as int).1.len() > 0),
                decreases fec.len() - i,
            {
                let ghost m1 = self@.media;
                let ghost out1 = out@;
                assert(fec[i as int] == self.fec@[i as int].model());
                if let Some(r) = try_recover_row(&self.fec[i], &self.media) {
                    let key = stream_key(r.stream_id, r.media_seq as u32);
                    let ghost rm = r@;
                    let ghost order1 = self@.order;
                    proof {
                        lemma_rebuilt_missing(fec[i as int], m1);
                        lemma_key_added(order1, m1.dom(), key);
                    }
                    self.media.insert(key, r.wire.clone());
                    self.order.push_back(key);
                    out.push(r);
                    progressed = true;
                    assert(self@.media =~= m1.insert(key, rm.wire));
                    assert(self@.media.dom() =~= m1.dom().insert(key));
                    assert(recovered_models(out@) =~= recovered_models(out1).push(rm));
                    assert(before.order + recovered_keys(recovered_models(out@)) =~= (before.order
                        + recovered_keys(recovered_models(out1))).push(key));
                    assert(out0 + pass(m0, fec, i as int).1.push(rm) =~= (out0 + pass(
                        m0,
                        fec,
                        i as int,
                    ).1).push(rm));
                }
                i = i + 1;
            }
            proof {
                lemma_pass_progress(m0, fec);
                lemma_pass(m0, fec, fec.len() as int);
                let p = pass(m0, fec, fec.len() as int);
                if progressed {
                    assert(out0 + (p.1 + recover_all(p.0, fec).1) =~= (out0 + p.1) + recover_all(
                        p.0,
                        fec,
                    ).1);
                } else {
                    assert(out0 + p.1 =~= out0);
                    assert(recover_all(m0, fec) == (m0, p.1));
                    assert(out0 + recover_all(m0, fec).1 =~= out0);
                }
            }
        }
        assert(self.media@.dom() =~= self@.media.dom());
        self.evict_if_needed();
        out
    }

    fn evict_if_needed(&mut self)
        requires
            old(self).media.wf(),
            old(self).capacity >= 1,
            old(self)@.fec.len() <= old(self)@.capacity,
            old(self)@.order.no_duplicates(),
            old(self)@.order.to_set() == old(self)@.media.dom(),
        ensures
            final(self)@.wf(),
            final(self)@ == old(self)@.evicted(),
    {
        let ghost start = self@;
        let ghost n = start.order.len() - start.capacity;
        let ghost mut k: int = 0;
        proof {
            assert(start.order.skip(0) =~= start.order);
            assert(start.media.restrict(start.order.to_set()) =~= start.media);
        }
        while self.order.len() > self.capacity
            invariant
                self.media.wf(),
                self.capacity == start.capacity,
                start.order.no_duplicates(),
                start.order.to_set() == start.media.dom(),
                n == start.order.len() - start.capacity,
                start.capacity >= 1,
                0 <= k <= start.order.len(),
                n <= 0 ==> k == 0,
                n > 0 ==> k <= n,
                self@ == (ReceiverModel {
                    media: start.media.restrict(start.order.skip(k).to_set()),
                    order: start.order.skip(k),
                    ..start
                }),
            decreases self.order@.len(),
        {
            let ghost m0 = self@.media;
            if let Some(victim) = self.order.pop_front() {
                proof {
                    lemma_kept_on(start.order, start.media, k);
                }
                let _ = self.media.remove(victim);
                proof {
                    assert(self@.media =~= m0.remove(victim));
                    assert(start.order.skip(k).drop_first() =~= start.order.skip(k + 1));
                    k = k + 1;
                }
            }
        }
        proof {
            let o = start.order.skip(k);
            assert(o.to_set().subset_of(start.order.to_set())) by {
                assert forall|x: u64| o.to_set().contains(x) implies start.order.to_set().contains(
                    x,
                ) by {
                    let j = choose|j: int| 0 <= j < o.len() && o[j] == x;
                    assert(start.order[k + j] == x);
                }
            }
            assert(self@.order.to_set() =~= self@.media.dom());
        }
    }
}

/// A key that was not listed is listed once when it is put behind the others.
proof fn lemma_key_added(order: Seq<u64>, keys: Set<u64>, key: u64)
    requires
        order.no_duplicates(),
        order.to_set() == keys,
        !keys.contains(key),
    ensures
        order.push(key).no_duplicates(),
        order.push(key).to_set() == keys.insert(key),
{
    let o = order.push(key);
    assert(!order.contains(key)) by {
        assert(order.to_set().contains(key) == order.contains(key));
    }
    assert forall|x: u64| o.to_set().contains(x) <==> keys.insert(key).contains(x) by {
        if order.contains(x) {
            let j = choose|j: int| 0 <= j < order.len() && order[j] == x;
            assert(o[j] == x);
        }
        assert(order.to_set().contains(x) == order.contains(x));
        if x == key {
            assert(o[order.len() as int] == key);
        }
        if o.contains(x) {
            let j = choose|j: int| 0 <= j < o.len() && o[j] == x;
            if j < order.len() {
                assert(order[j] == x);
            }
        }
    }
    assert(o.to_set() =~= keys.insert(key));
}

/// One more of the oldest goes.
proof fn lemma_kept_on(order: Seq<u64>, media: MediaMap, k: int)
    requires
        order.no_duplicates(),
        0 <= k < order.len(),
    ensures
        media.restrict(order.skip(k).to_set()).remove(order[k]) == media.restrict(
            order.skip(k + 1).to_set(),
        ),
{
    let a = order.skip(k);
    let b = order.skip(k + 1);
    assert forall|x: u64| b.to_set().contains(x) <==> a.to_set().contains(x) && x != order[k] by {
        if b.contains(x) {
            let j = choose|j: int| 0 <= j < b.len() && b[j] == x;
            assert(a[j + 1] == x);
            assert(order[k + 1 + j] == x);
        }
        if a.contains(x) && x != order[k] {
            let j = choose|j: int| 0 <= j < a.len() && a[j] == x;
            assert(b[j - 1] == x);
        }
    }
    assert(media.restrict(a.to_set()).remove(order[k]) =~= media.restrict(b.to_set()));
}

/// What a row rebuilds was not at hand.
proof fn lemma_rebuilt_missing(row: RowModel, media: MediaMap)
    requires
        row.rebuilt(media) is Some,
    ensures
        !media.contains_key(recovered_key(row.rebuilt(media)->0)),
{
    let holes = row.holes(media, MAX_MEDIA_PACKETS as int);
    assert(holes.contains(holes[0]));
    lemma_holes_member(row, media, MAX_MEDIA_PACKETS as int, holes[0]);
}

/// The datagrams that came to hand last are kept, and no others.
pub proof fn lemma_newest_kept(m: ReceiverModel, i: int)
    requires
        m.order.no_duplicates(),
        m.order.to_set() == m.media.dom(),
        0 <= i < m.order.len(),
        m.capacity >= 1,
    ensures
        m.evicted().media.contains_key(m.order[i]) <==> i >= m.order.len() - m.capacity,
{
    let n = m.order.len() - m.capacity;
    assert(m.order.to_set().contains(m.order[i]));
    if n > 0 {
        let o = m.order.skip(n);
        if i >= n {
            assert(o[i - n] == m.order[i]);
        }
        if o.contains(m.order[i]) {
            let j = choose|j: int| 0 <= j < o.len() && o[j] == m.order[i];
            assert(m.order[n + j] == m.order[i]);
        }
    }
}

/// Trying the rows only adds datagrams.
pub proof fn lemma_recover_grows(media: MediaMap, fec: Seq<RowModel>)
    ensures
        media.submap_of(recover_all(media, fec).0),
        recover_all(media, fec).1.len() == 0 ==> recover_all(media, fec).0 == media,
    decreases lacking(media, fec),
{
    lemma_pass(media, fec, fec.len() as int);
    let (m, out) = pass(media, fec, fec.len() as int);
    if out.len() > 0 {
        lemma_pass_progress(media, fec);
        lemma_recover_grows(m, fec);
        let all = recover_all(media, fec).0;
        assert(all == recover_all(m, fec).0);
        assert forall|k: u64| media.contains_key(k) implies #[trigger] all.contains_key(k)
            && all[k] == media[k] by {
            assert(media.dom().contains(k));
            assert(m.dom().contains(k) && m[k] == media[k]);
            assert(all.dom().contains(k));
        }
    }
}

/// The datagrams that a row covers and that are at hand decide what the row
/// rebuilds, as long as its hole stays open.
proof fn lemma_rebuilt_stable(row: RowModel, media: MediaMap, more: MediaMap)
    requires
        media.submap_of(more),
        row.rebuilt(media) is Some,
        !more.contains_key(recovered_key(row.rebuilt(media)->0)),
    ensures
        row.rebuilt(more) == row.rebuilt(media),
{
    lemma_rebuilt_fills(row, media);
    let holes = row.holes(media, MAX_MEDIA_PACKETS as int);
    let hole = holes[0];
    assert forall|b: int| row.covers(b) implies #[trigger] media.contains_key(row.key(b))
        == more.contains_key(row.key(b)) by {
        lemma_holes_member(row, media, MAX_MEDIA_PACKETS as int, b);
        if !media.contains_key(row.key(b)) {
            assert(holes.contains(b));
            let i = choose|i: int| 0 <= i < holes.len() && holes[i] == b;
            assert(b == hole);
        } else {
            assert(media.dom().contains(row.key(b)));
        }
    }
    lemma_holes_same(row, media, more, MAX_MEDIA_PACKETS as int);
    let p = row.present(media);
    let q = row.present(more);
    assert forall|b: int| #[trigger] p(b) == q(b) by {
        if row.covers(b) && media.contains_key(row.key(b)) {
            assert(media.dom().contains(row.key(b)));
        }
    }
    assert forall|i: int| parity::parity(p, MAX_MEDIA_PACKETS as int, i) == parity::parity(
        q,
        MAX_MEDIA_PACKETS as int,
        i,
    ) by {
        parity::lemma_agree(p, q, MAX_MEDIA_PACKETS as int, i);
    }
    parity::lemma_agree(p, q, MAX_MEDIA_PACKETS as int, 0);
    assert(row.residue(media) =~= row.residue(more));
    assert(row.holds_all(more)) by {
        assert forall|b: int|
            #![trigger row.key(b)]
            row.covers(b) && more.contains_key(row.key(b)) implies more[row.key(b)].len()
            <= row.payload.len() by {
            assert(media.contains_key(row.key(b)));
            assert(media.dom().contains(row.key(b)));
        }
    }
}

proof fn lemma_holes_same(row: RowModel, media: MediaMap, more: MediaMap, k: int)
    requires
        forall|b: int|
            row.covers(b) ==> #[trigger] media.contains_key(row.key(b)) == more.contains_key(
                row.key(b),
            ),
    ensures
        row.holes(media, k) == row.holes(more, k),
    decreases k,
{
    if k > 0 {
        lemma_holes_same(row, media, more, k - 1);
        if row.covers(k - 1) {
            assert(media.contains_key(row.key(k - 1)) == more.contains_key(row.key(k - 1)));
        }
    }
}

/// A pass that rebuilds nothing finds no row that it could rebuild.
proof fn lemma_pass_idle(media: MediaMap, fec: Seq<RowModel>, k: int, i: int)
    requires
        0 <= i < k <= fec.len(),
        pass(media, fec, k).1.len() == 0,
    ensures
        fec[i].rebuilt(media) is None,
    decreases k,
{
    lemma_pass(media, fec, k - 1);
    if i < k - 1 {
        lemma_pass_idle(media, fec, k - 1, i);
    }
}

/// Once the rows were tried, no row is left that could rebuild anything.
pub proof fn lemma_recover_complete(media: MediaMap, fec: Seq<RowModel>, i: int)
    requires
        0 <= i < fec.len(),
    ensures
        fec[i].rebuilt(recover_all(media, fec).0) is None,
    decreases lacking(media, fec),
{
    let (m, out) = pass(media, fec, fec.len() as int);
    if out.len() == 0 {
        lemma_pass(media, fec, fec.len() as int);
        lemma_pass_idle(media, fec, fec.len() as int, i);
    } else {
        lemma_pass_progress(media, fec);
        lemma_recover_complete(m, fec, i);
    }
}

/// Whatever a row can rebuild is at hand once the rows were tried.
pub proof fn lemma_recover_rebuilds(media: MediaMap, fec: Seq<RowModel>, i: int)
    requires
        0 <= i < fec.len(),
        fec[i].rebuilt(media) is Some,
    ensures
        recover_all(media, fec).0.contains_key(recovered_key(fec[i].rebuilt(media)->0)),
{
    let all = recover_all(media, fec).0;
    lemma_recover_grows(media, fec);
    lemma_recover_complete(media, fec, i);
    if !all.contains_key(recovered_key(fec[i].rebuilt(media)->0)) {
        lemma_rebuilt_stable(fec[i], media, all);
    }
}

/// Whether `w` is a media datagram of a stream with the sequence number `seq`.
#[verifier::opaque]
spec fn is_media(w: Seq<u8>, stream_id: u8, seq: u16) -> bool {
    &&& PacketModel::parse(w) matches Ok(PacketModel::Media { .. })
    &&& header_of(w).stream_id == stream_id
    &&& header_of(w).media_seq == seq
}

/// The row over the datagrams of `sel` gives back the one that is not at hand.
proof fn lemma_sel_rebuilds(
    row: RowModel,
    sel: spec_fn(int) -> Option<Seq<u8>>,
    media: MediaMap,
    hole: int,
)
    requires
        row.mask == parity::mask_of(sel, MAX_MEDIA_PACKETS as int),
        row.length_xor == parity::len_parity(sel, MAX_MEDIA_PACKETS as int),
        row.payload == parity::xor_all(sel, MAX_MEDIA_PACKETS as int),
        0 <= hole < MAX_MEDIA_PACKETS,
        sel(hole) is Some,
        sel(hole)->0.len() <= 0xffff,
        !media.contains_key(row.key(hole)),
        forall|b: int|
            #![trigger sel(b)]
            0 <= b < MAX_MEDIA_PACKETS && b != hole && sel(b) is Some ==> media.contains_key(
                row.key(b),
            ) && media[row.key(b)] == sel(b)->0,
        is_media(sel(hole)->0, row.stream_id, seqs::seq_add(row.seq_base, hole)),
    ensures
        row.rebuilt(media) == Some(
            RecoveredModel {
                stream_id: row.stream_id,
                media_seq: seqs::seq_add(row.seq_base, hole),
                wire: sel(hole)->0,
            },
        ),
{
    let w = sel(hole)->0;
    let k = MAX_MEDIA_PACKETS as int;
    lemma_sel_covers(row, sel);
    lemma_sel_residue(row, sel, media, hole);
    lemma_one_hole(row, media, hole, k);
    lemma_sel_holds(row, sel, media, hole);
    lemma_rebuilt_is(row, media, hole, w);
}

proof fn lemma_rebuilt_is(row: RowModel, media: MediaMap, hole: int, w: Seq<u8>)
    requires
        row.holes(media, MAX_MEDIA_PACKETS as int) == seq![hole],
        row.holds_all(media),
        row.missing_len(media) == w.len(),
        w.len() <= row.residue(media).len(),
        forall|i: int|
            0 <= i < row.residue(media).len() ==> #[trigger] row.residue(media)[i]
                == parity::byte_at(w, i),
        is_media(w, row.stream_id, seqs::seq_add(row.seq_base, hole)),
    ensures
        row.rebuilt(media) == Some(
            RecoveredModel {
                stream_id: row.stream_id,
                media_seq: seqs::seq_add(row.seq_base, hole),
                wire: w,
            },
        ),
{
    reveal(is_media);
    let left = row.residue(media);
    assert(left.take(w.len() as int) =~= w);
    packet::lemma_parsed_is_valid(w);
}

proof fn lemma_sel_holds(
    row: RowModel,
    sel: spec_fn(int) -> Option<Seq<u8>>,
    media: MediaMap,
    hole: int,
)
    requires
        row.payload == parity::xor_all(sel, MAX_MEDIA_PACKETS as int),
        forall|b: int| #[trigger]
            row.covers(b) <==> 0 <= b < MAX_MEDIA_PACKETS && sel(b) is Some,
        !media.contains_key(row.key(hole)),
        forall|b: int|
            #![trigger sel(b)]
            0 <= b < MAX_MEDIA_PACKETS && b != hole && sel(b) is Some ==> media.contains_key(
                row.key(b),
            ) && media[row.key(b)] == sel(b)->0,
    ensures
        row.holds_all(media),
{
    let k = MAX_MEDIA_PACKETS as int;
    assert forall|b: int|
        #![trigger row.key(b)]
        row.covers(b) && media.contains_key(row.key(b)) implies media[row.key(b)].len()
        <= row.payload.len() by {
        assert(row.covers(b) <==> 0 <= b < k && sel(b) is Some);
        parity::lemma_longest(sel, k, b);
    }
}

proof fn lemma_sel_covers(row: RowModel, sel: spec_fn(int) -> Option<Seq<u8>>)
    requires
        row.mask == parity::mask_of(sel, MAX_MEDIA_PACKETS as int),
    ensures
        forall|b: int| #[trigger]
            row.covers(b) <==> 0 <= b < MAX_MEDIA_PACKETS && sel(b) is Some,
{
    parity::lemma_mask_of(sel, MAX_MEDIA_PACKETS as int);
    assert forall|b: int| #[trigger] row.covers(b) <==> 0 <= b < MAX_MEDIA_PACKETS && sel(
        b,
    ) is Some by {
        assert(bits::bit64(row.mask, b) <==> 0 <= b < MAX_MEDIA_PACKETS && sel(b) is Some);
    }
}

proof fn lemma_sel_residue(
    row: RowModel,
    sel: spec_fn(int) -> Option<Seq<u8>>,
    media: MediaMap,
    hole: int,
)
    requires
        row.length_xor == parity::len_parity(sel, MAX_MEDIA_PACKETS as int),
        row.payload == parity::xor_all(sel, MAX_MEDIA_PACKETS as int),
        forall|b: int| #[trigger]
            row.covers(b) <==> 0 <= b < MAX_MEDIA_PACKETS && sel(b) is Some,
        0 <= hole < MAX_MEDIA_PACKETS,
        sel(hole) is Some,
        !media.contains_key(row.key(hole)),
        forall|b: int|
            #![trigger sel(b)]
            0 <= b < MAX_MEDIA_PACKETS && b != hole && sel(b) is Some ==> media.contains_key(
                row.key(b),
            ) && media[row.key(b)] == sel(b)->0,
    ensures
        row.missing_len(media) == parity::len16(sel(hole)->0),
        sel(hole)->0.len() <= row.residue(media).len(),
        forall|i: int|
            0 <= i < row.residue(media).len() ==> #[trigger] row.residue(media)[i]
                == parity::byte_at(sel(hole)->0, i),
{
    let k = MAX_MEDIA_PACKETS as int;
    let rest = row.present(media);
    assert forall|b: int| 0 <= b < k && b != hole implies #[trigger] sel(b) == rest(b) by {
        assert(row.covers(b) <==> sel(b) is Some);
    }
    assert(rest(hole) is None);
    parity::lemma_without_one(sel, rest, hole, k, 0);
    parity::lemma_longest(sel, k, hole);
    let left = row.residue(media);
    assert forall|i: int| 0 <= i < left.len() implies #[trigger] left[i] == parity::byte_at(
        sel(hole)->0,
        i,
    ) by {
        parity::lemma_without_one(sel, rest, hole, k, i);
    }
}

/// A row that covers anything is among the rows.
pub proof fn lemma_row_listed(stream_id: u8, block: Block, n: int, k: int, r: int)
    requires
        0 <= r < k,
        ({
            let base = base_of(block_seqs(block))->0;
            parity::mask_of(row_members(block, base, n, r), MAX_MEDIA_PACKETS as int) != 0
        }),
    ensures
        ({
            let base = base_of(block_seqs(block))->0;
            rows_up_to(stream_id, block, n, k).contains(
                row_packet(
                    row_header(stream_id, meta_of(block)),
                    base,
                    row_members(block, base, n, r),
                ),
            )
        }),
    decreases k,
{
    let base = base_of(block_seqs(block))->0;
    let row = row_packet(
        row_header(stream_id, meta_of(block)),
        base,
        row_members(block, base, n, r),
    );
    let front = rows_up_to(stream_id, block, n, k - 1);
    let all = rows_up_to(stream_id, block, n, k);
    if r == k - 1 {
        assert(all[all.len() - 1] == row);
    } else {
        lemma_row_listed(stream_id, block, n, k - 1, r);
        let i = choose|i: int| 0 <= i < front.len() && front[i] == row;
        assert(all[i] == row);
    }
}

/// Row `r` over the block of a generator.
pub open spec fn block_row(g: GeneratorModel, r: int) -> PacketModel {
    let n = row_count(g.block.len() as int, g.fec_rate as int);
    let base = base_of(block_seqs(g.block))->0;
    row_packet(
        row_header(g.stream_id, meta_of(g.block)),
        base,
        row_members(g.block, base, n, r),
    )
}

/// The datagrams that row `r` over the block of a generator covers.
pub open spec fn block_row_members(g: GeneratorModel, r: int) -> spec_fn(int) -> Option<Seq<u8>> {
    let n = row_count(g.block.len() as int, g.fec_rate as int);
    row_members(g.block, base_of(block_seqs(g.block))->0, n, r)
}

/// A row that a generator emits gives back the one datagram that is missing
/// from those it covers. Lengths travel as 16-bit numbers, so the datagram
/// must not be longer than those count.
pub proof fn lemma_row_rebuilds(g: GeneratorModel, r: int, media: MediaMap, hole: int)
    requires
        g.wf(),
        0 <= r < row_count(g.block.len() as int, g.fec_rate as int),
        0 <= hole < MAX_MEDIA_PACKETS,
        block_row_members(g, r)(hole) is Some,
        block_row_members(g, r)(hole)->0.len() <= 0xffff,
        !media.contains_key(row_of(block_row(g, r)).key(hole)),
        forall|b: int|
            #![trigger block_row_members(g, r)(b)]
            0 <= b < MAX_MEDIA_PACKETS && b != hole && block_row_members(g, r)(b) is Some
                ==> media.contains_key(row_of(block_row(g, r)).key(b)) && media[row_of(
                block_row(g, r),
            ).key(b)] == block_row_members(g, r)(b)->0,
    ensures
        g.rows().contains(block_row(g, r)),
        row_of(block_row(g, r)).rebuilt(media) == Some(
            RecoveredModel {
                stream_id: g.stream_id,
                media_seq: seqs::seq_add(base_of(block_seqs(g.block))->0, hole),
                wire: block_row_members(g, r)(hole)->0,
            },
        ),
{
    let n = row_count(g.block.len() as int, g.fec_rate as int);
    let base = base_of(block_seqs(g.block))->0;
    let sel = block_row_members(g, r);
    let row = row_of(block_row(g, r));
    lemma_wire_at(g, base, hole);
    reveal(is_media);
    lemma_sel_rebuilds(row, sel, media, hole);
    assert(parity::mask_of(sel, MAX_MEDIA_PACKETS as int) != 0) by {
        parity::lemma_mask_of(sel, MAX_MEDIA_PACKETS as int);
        assert(bits::bit64(parity::mask_of(sel, MAX_MEDIA_PACKETS as int), hole));
        bits::lemma_zero64();
    }
    lemma_row_listed(g.stream_id, g.block, n, n, r);
}

/// Whether two datagrams differ in their transport sequence number at most.
pub open spec fn alike(a: Seq<u8>, b: Seq<u8>) -> bool {
    &&& a.len() == b.len()
    &&& forall|i: int| 0 <= i < a.len() && i != 4 && i != 5 ==> #[trigger] a[i] == b[i]
}

/// A datagram that is like a media datagram carries the same fragment.
pub proof fn lemma_alike(a: Seq<u8>, b: Seq<u8>)
    requires
        alike(a, b),
        PacketModel::parse(b) matches Ok(PacketModel::Media { .. }),
    ensures
        PacketModel::parse(a) == Ok::<PacketModel, DecodeError>(
            PacketModel::Media {
                header: Header {
                    transport_seq: octets::be16(a.skip(4)),
                    ..PacketModel::parse(b)->Ok_0.header()
                },
                payload: PacketModel::parse(b)->Ok_0->Media_payload,
            },
        ),
{
    assert(a.len() >= HEADER_SIZE);
    assert(a[0] == b[0] && a[1] == b[1]);
    lemma_alike16(a, b, 2);
    lemma_alike16(a, b, 6);
    lemma_alike16(a, b, 8);
    lemma_alike16(a, b, 10);
    lemma_alike16(a, b, 12);
    lemma_alike16(a, b, 14);
    lemma_alike16(a, b, 16);
    lemma_alike16(a, b, 18);
    assert(a.skip(6).skip(2) =~= a.skip(8));
    assert(b.skip(6).skip(2) =~= b.skip(8));
    assert(a.skip(14).skip(2) =~= a.skip(16));
    assert(b.skip(14).skip(2) =~= b.skip(16));
    assert(a.skip(HEADER_SIZE as int) =~= b.skip(HEADER_SIZE as int));
}

proof fn lemma_alike16(a: Seq<u8>, b: Seq<u8>, at: int)
    requires
        alike(a, b),
        0 <= at <= a.len() - 2,
        at + 1 < 4 || at > 5,
    ensures
        octets::be16(a.skip(at)) == octets::be16(b.skip(at)),
{
    assert(a[at] == b[at] && a[at + 1] == b[at + 1]);
}

/// A row that a generator emits makes up for the one datagram that is missing
/// from those it covers, also when those at hand were numbered after the row
/// was made. What comes back then differs from the missing datagram in its
/// transport sequence number at most.
pub proof fn lemma_row_rebuilds_numbered(g: GeneratorModel, r: int, media: MediaMap, hole: int)
    requires
        g.wf(),
        0 <= r < row_count(g.block.len() as int, g.fec_rate as int),
        0 <= hole < MAX_MEDIA_PACKETS,
        block_row_members(g, r)(hole) is Some,
        block_row_members(g, r)(hole)->0.len() <= 0xffff,
        !media.contains_key(row_of(block_row(g, r)).key(hole)),
        forall|b: int|
            #![trigger block_row_members(g, r)(b)]
            0 <= b < MAX_MEDIA_PACKETS && b != hole && block_row_members(g, r)(b) is Some
                ==> media.contains_key(row_of(block_row(g, r)).key(b)) && alike(
                media[row_of(block_row(g, r)).key(b)],
                block_row_members(g, r)(b)->0,
            ),
    ensures
        row_of(block_row(g, r)).rebuilt(media) matches Some(x) && {
            &&& x.stream_id == g.stream_id
            &&& x.media_seq == seqs::seq_add(base_of(block_seqs(g.block))->0, hole)
            &&& alike(x.wire, block_row_members(g, r)(hole)->0)
        },
{
    let sel = block_row_members(g, r);
    let row = row_of(block_row(g, r));
    lemma_wire_at(g, base_of(block_seqs(g.block))->0, hole);
    lemma_sel_rebuilds_alike(row, sel, media, hole);
}

proof fn lemma_sel_rebuilds_alike(
    row: RowModel,
    sel: spec_fn(int) -> Option<Seq<u8>>,
    media: MediaMap,
    hole: int,
)
    requires
        row.mask == parity::mask_of(sel, MAX_MEDIA_PACKETS as int),
        row.length_xor == parity::len_parity(sel, MAX_MEDIA_PACKETS as int),
        row.payload == parity::xor_all(sel, MAX_MEDIA_PACKETS as int),
        0 <= hole < MAX_MEDIA_PACKETS,
        sel(hole) is Some,
        sel(hole)->0.len() <= 0xffff,
        !media.contains_key(row.key(hole)),
        forall|b: int|
            #![trigger sel(b)]
            0 <= b < MAX_MEDIA_PACKETS && b != hole && sel(b) is Some ==> media.contains_key(
                row.key(b),
            ) && alike(media[row.key(b)], sel(b)->0),
        PacketModel::parse(sel(hole)->0) matches Ok(PacketModel::Media { .. }),
        header_of(sel(hole)->0).stream_id == row.stream_id,
        header_of(sel(hole)->0).media_seq == seqs::seq_add(row.seq_base, hole),
    ensures
        row.rebuilt(media) matches Some(x) && {
            &&& x.stream_id == row.stream_id
            &&& x.media_seq == seqs::seq_add(row.seq_base, hole)
            &&& alike(x.wire, sel(hole)->0)
        },
{
    lemma_sel_covers(row, sel);
    lemma_alike_residue(row, sel, media, hole);
    lemma_one_hole(row, media, hole, MAX_MEDIA_PACKETS as int);
    lemma_rebuilt_alike(row, media, hole, sel(hole)->0);
}

proof fn lemma_rebuilt_alike(row: RowModel, media: MediaMap, hole: int, w: Seq<u8>)
    requires
        row.holes(media, MAX_MEDIA_PACKETS as int) == seq![hole],
        row.holds_all(media),
        row.missing_len(media) == w.len(),
        w.len() <= row.residue(media).len(),
        forall|i: int|
            0 <= i < row.residue(media).len() && i != 4 && i != 5 ==> #[trigger] row.residue(
                media,
            )[i] == parity::byte_at(w, i),
        PacketModel::parse(w) matches Ok(PacketModel::Media { .. }),
        header_of(w).stream_id == row.stream_id,
        header_of(w).media_seq == seqs::seq_add(row.seq_base, hole),
    ensures
        row.rebuilt(media) matches Some(x) && {
            &&& x.stream_id == row.stream_id
            &&& x.media_seq == seqs::seq_add(row.seq_base, hole)
            &&& alike(x.wire, w)
        },
{
    let left = row.residue(media);
    let v = left.take(w.len() as int);
    packet::lemma_parsed_is_valid(w);
    assert(alike(v, w)) by {
        assert forall|i: int| 0 <= i < v.len() && i != 4 && i != 5 implies #[trigger] v[i]
            == w[i] by {
            assert(left[i] == parity::byte_at(w, i));
        }
    }
    lemma_alike(v, w);
    let n = row.missing_len(media) as int;
    assert(!(exists|i: int| n <= i < left.len() && #[trigger] left[i] != 0)) by {
        if exists|i: int| n <= i < left.len() && #[trigger] left[i] != 0 {
            let i = choose|i: int| n <= i < left.len() && #[trigger] left[i] != 0;
            assert(left[i] == parity::byte_at(w, i));
        }
    }
}

proof fn lemma_alike_residue(
    row: RowModel,
    sel: spec_fn(int) -> Option<Seq<u8>>,
    media: MediaMap,
    hole: int,
)
    requires
        row.length_xor == parity::len_parity(sel, MAX_MEDIA_PACKETS as int),
        row.payload == parity::xor_all(sel, MAX_MEDIA_PACKETS as int),
        forall|b: int| #[trigger]
            row.covers(b) <==> 0 <= b < MAX_MEDIA_PACKETS && sel(b) is Some,
        0 <= hole < MAX_MEDIA_PACKETS,
        sel(hole) is Some,
        !media.contains_key(row.key(hole)),
        forall|b: int|
            #![trigger sel(b)]
            0 <= b < MAX_MEDIA_PACKETS && b != hole && sel(b) is Some ==> media.contains_key(
                row.key(b),
            ) && alike(media[row.key(b)], sel(b)->0),
    ensures
        row.missing_len(media) == parity::len16(sel(hole)->0),
        sel(hole)->0.len() <= row.residue(media).len(),
        row.holds_all(media),
        forall|i: int|
            0 <= i < row.residue(media).len() && i != 4 && i != 5 ==> #[trigger] row.residue(
                media,
            )[i] == parity::byte_at(sel(hole)->0, i),
{
    let k = MAX_MEDIA_PACKETS as int;
    let rest = row.present(media);
    let full = |b: int|
        if b == hole {
            None
        } else {
            sel(b)
        };
    assert forall|b: int| 0 <= b < k && b != hole implies #[trigger] sel(b) == full(b) by {}
    assert forall|b: int| 0 <= b < k implies ({
        &&& (#[trigger] rest(b)) is Some == full(b) is Some
        &&& rest(b) is Some ==> alike(rest(b)->0, full(b)->0)
    }) by {
        assert(row.covers(b) <==> sel(b) is Some);
    }
    lemma_len_alike(rest, full, k);
    parity::lemma_without_one(sel, full, hole, k, 0);
    parity::lemma_longest(sel, k, hole);
    let left = row.residue(media);
    assert forall|i: int| 0 <= i < left.len() && i != 4 && i != 5 implies #[trigger] left[i]
        == parity::byte_at(sel(hole)->0, i) by {
        parity::lemma_without_one(sel, full, hole, k, i);
        lemma_parity_alike(rest, full, k, i);
    }
    assert forall|b: int|
        #![trigger row.key(b)]
        row.covers(b) && media.contains_key(row.key(b)) implies media[row.key(b)].len()
        <= row.payload.len() by {
        assert(row.covers(b) <==> 0 <= b < k && sel(b) is Some);
        parity::lemma_longest(sel, k, b);
        assert(alike(media[row.key(b)], sel(b)->0));
    }
}

proof fn lemma_parity_alike(
    a: spec_fn(int) -> Option<Seq<u8>>,
    b: spec_fn(int) -> Option<Seq<u8>>,
    k: int,
    i: int,
)
    requires
        forall|j: int|
            0 <= j < k ==> ({
                &&& (#[trigger] a(j)) is Some == b(j) is Some
                &&& a(j) is Some ==> alike(a(j)->0, b(j)->0)
            }),
        i != 4,
        i != 5,
    ensures
        parity::parity(a, k, i) == parity::parity(b, k, i),
    decreases k,
{
    if k > 0 {
        lemma_parity_alike(a, b, k - 1, i);
        assert(a(k - 1) is Some == b(k - 1) is Some);
    }
}

proof fn lemma_len_alike(
    a: spec_fn(int) -> Option<Seq<u8>>,
    b: spec_fn(int) -> Option<Seq<u8>>,
    k: int,
)
    requires
        forall|j: int|
            0 <= j < k ==> ({
                &&& (#[trigger] a(j)) is Some == b(j) is Some
                &&& a(j) is Some ==> alike(a(j)->0, b(j)->0)
            }),
    ensures
        parity::len_parity(a, k) == parity::len_parity(b, k),
    decreases k,
{
    if k > 0 {
        lemma_len_alike(a, b, k - 1);
        assert(a(k - 1) is Some == b(k - 1) is Some);
    }
}

proof fn lemma_one_hole(row: RowModel, media: MediaMap, hole: int, k: int)
    requires
        row.covers(hole),
        !media.contains_key(row.key(hole)),
        forall|b: int| b != hole && #[trigger] row.covers(b) ==> media.contains_key(row.key(b)),
    ensures
        row.holes(media, k) == (if hole < k {
            seq![hole]
        } else {
            Seq::<int>::empty()
        }),
    decreases k,
{
    if k > 0 {
        lemma_one_hole(row, media, hole, k - 1);
        if k - 1 != hole && row.covers(k - 1) {
            assert(media.contains_key(row.key(k - 1)));
        }
        assert(row.holes(media, k) =~= if hole < k {
            seq![hole]
        } else {
            Seq::<int>::empty()
        });
    }
}

/// A datagram stands at the position that its sequence number says.
proof fn lemma_wire_at(g: GeneratorModel, base: u16, bit: int)
    requires
        forall|i: int|
            0 <= i < g.block.len() ==> g.refused((#[trigger] g.block[i]).0, g.block[i].1) is None,
        0 <= bit < 0x1_0000,
        wire_at(g.block, base, bit) is Some,
    ensures
        ({
            let w = wire_at(g.block, base, bit)->0;
            &&& PacketModel::parse(w) matches Ok(PacketModel::Media { .. })
            &&& header_of(w).stream_id == g.stream_id
            &&& header_of(w).media_seq == seqs::seq_add(base, bit)
        }),
    decreases g.block.len(),
{
    let last = g.block.len() - 1;
    assert(g.refused(g.block[last].0, g.block[last].1) is None);
    if bit_of(g.block.last().0, base) != bit {
        let h = GeneratorModel { block: g.block.drop_last(), ..g };
        assert forall|i: int| 0 <= i < h.block.len() implies h.refused(
            (#[trigger] h.block[i]).0,
            h.block[i].1,
        ) is None by {
            assert(h.block[i] == g.block[i]);
            assert(g.refused(g.block[i].0, g.block[i].1) is None);
        }
        lemma_wire_at(h, base, bit);
    }
}

/// Rows carry headers that a decoder accepts.
pub proof fn lemma_rows_labelled(stream_id: u8, block: Block, n: int, k: int, i: int)
    requires
        0 <= i < rows_up_to(stream_id, block, n, k).len(),
    ensures
        rows_up_to(stream_id, block, n, k)[i].labelled(),
    decreases k,
{
    if k > 0 {
        let front = rows_up_to(stream_id, block, n, k - 1);
        if i < front.len() {
            lemma_rows_labelled(stream_id, block, n, k - 1, i);
        }
    }
}

} // verus!
