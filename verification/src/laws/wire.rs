//! Where each field of a datagram stands, byte by byte.

use crate::octets;
use crate::packet;
use crate::packet::{Header, PacketModel, PacketType};
use vstd::prelude::*;

verus! {

/// The number that two bytes at `i` stand for, high byte first.
pub open spec fn two(b: Seq<u8>, i: int) -> int {
    b[i] * 256 + b[i + 1]
}

/// The number that four bytes at `i` stand for, high byte first.
pub open spec fn four(b: Seq<u8>, i: int) -> int {
    b[i] * 16_777_216 + b[i + 1] * 65_536 + b[i + 2] * 256 + b[i + 3]
}

/// The number that eight bytes at `i` stand for, high byte first.
pub open spec fn eight(b: Seq<u8>, i: int) -> int {
    four(b, i) * 4_294_967_296 + four(b, i + 4)
}

/// Whether the first byte tells a type and flags.
pub open spec fn labels(byte: u8, h: Header) -> bool {
    let kind = match h.packet_type {
        PacketType::Media => 0int,
        PacketType::Nack => 8,
        PacketType::ArrivalFeedback => 16,
        PacketType::KeyframeReq => 24,
        PacketType::Fec => 32,
    };
    let retrans = if h.flags.retrans {
        1int
    } else {
        0
    };
    let audio = if h.flags.audio {
        2int
    } else {
        0
    };
    let key = if h.flags.key {
        4int
    } else {
        0
    };
    byte == kind + retrans + audio + key
}

/// Whether the first twenty bytes are those of a header.
pub open spec fn heads(b: Seq<u8>, h: Header) -> bool {
    &&& b.len() >= 20
    &&& labels(b[0], h)
    &&& b[1] == h.stream_id
    &&& two(b, 2) == h.media_seq
    &&& two(b, 4) == h.transport_seq
    &&& four(b, 6) == h.frame_id
    &&& two(b, 10) == h.frag_index
    &&& two(b, 12) == h.frag_count
    &&& four(b, 14) == h.timestamp
    &&& two(b, 18) == h.ttl_ms
}

proof fn lemma_be16(n: u16)
    ensures
        octets::be16_bytes(n).len() == 2,
        two(octets::be16_bytes(n), 0) == n,
{
}

proof fn lemma_be32(n: u32)
    ensures
        octets::be32_bytes(n).len() == 4,
        four(octets::be32_bytes(n), 0) == n,
{
    let hi = (n / 0x1_0000) as u16;
    let lo = (n % 0x1_0000) as u16;
    lemma_be16(hi);
    lemma_be16(lo);
    let b = octets::be32_bytes(n);
    assert(b[0] == octets::be16_bytes(hi)[0]);
    assert(b[1] == octets::be16_bytes(hi)[1]);
    assert(b[2] == octets::be16_bytes(lo)[0]);
    assert(b[3] == octets::be16_bytes(lo)[1]);
}

proof fn lemma_be64(n: u64)
    ensures
        octets::be64_bytes(n).len() == 8,
        eight(octets::be64_bytes(n), 0) == n,
{
    let hi = (n / 0x1_0000_0000) as u32;
    let lo = (n % 0x1_0000_0000) as u32;
    lemma_be32(hi);
    lemma_be32(lo);
    let b = octets::be64_bytes(n);
    assert forall|i: int| 0 <= i < 4 implies #[trigger] b[i] == octets::be32_bytes(hi)[i] by {}
    assert forall|i: int| 4 <= i < 8 implies #[trigger] b[i] == octets::be32_bytes(lo)[i - 4] by {}
}

/// Where the fields of a header are written.
pub proof fn lemma_header_written(h: Header)
    ensures
        packet::header_bytes(h).len() == 20,
        heads(packet::header_bytes(h), h),
{
    lemma_be16(h.media_seq);
    lemma_be16(h.transport_seq);
    lemma_be32(h.frame_id);
    lemma_be16(h.frag_index);
    lemma_be16(h.frag_count);
    lemma_be32(h.timestamp);
    lemma_be16(h.ttl_ms);
    let b = packet::header_bytes(h);
    assert(b[2] == octets::be16_bytes(h.media_seq)[0]);
    assert(b[3] == octets::be16_bytes(h.media_seq)[1]);
    assert(b[4] == octets::be16_bytes(h.transport_seq)[0]);
    assert(b[5] == octets::be16_bytes(h.transport_seq)[1]);
    assert(b[6] == octets::be32_bytes(h.frame_id)[0]);
    assert(b[7] == octets::be32_bytes(h.frame_id)[1]);
    assert(b[8] == octets::be32_bytes(h.frame_id)[2]);
    assert(b[9] == octets::be32_bytes(h.frame_id)[3]);
    assert(b[10] == octets::be16_bytes(h.frag_index)[0]);
    assert(b[11] == octets::be16_bytes(h.frag_index)[1]);
    assert(b[12] == octets::be16_bytes(h.frag_count)[0]);
    assert(b[13] == octets::be16_bytes(h.frag_count)[1]);
    assert(b[14] == octets::be32_bytes(h.timestamp)[0]);
    assert(b[15] == octets::be32_bytes(h.timestamp)[1]);
    assert(b[16] == octets::be32_bytes(h.timestamp)[2]);
    assert(b[17] == octets::be32_bytes(h.timestamp)[3]);
    assert(b[18] == octets::be16_bytes(h.ttl_ms)[0]);
    assert(b[19] == octets::be16_bytes(h.ttl_ms)[1]);
}

proof fn lemma_read16(b: Seq<u8>, i: int)
    requires
        0 <= i,
        i + 2 <= b.len(),
    ensures
        octets::be16(b.skip(i)) == two(b, i),
{
    assert(b.skip(i)[0] == b[i]);
    assert(b.skip(i)[1] == b[i + 1]);
}

proof fn lemma_read32(b: Seq<u8>, i: int)
    requires
        0 <= i,
        i + 4 <= b.len(),
    ensures
        octets::be32(b.skip(i)) == four(b, i),
{
    lemma_read16(b, i);
    lemma_read16(b, i + 2);
    assert(b.skip(i).skip(2) =~= b.skip(i + 2));
}

proof fn lemma_read64(b: Seq<u8>, i: int)
    requires
        0 <= i,
        i + 8 <= b.len(),
    ensures
        octets::be64(b.skip(i)) == eight(b, i),
{
    lemma_read32(b, i);
    lemma_read32(b, i + 4);
    assert(b.skip(i).skip(4) =~= b.skip(i + 4));
}

/// Which bytes a header is read from, and which bytes are refused: fewer than
/// twenty, another version, an unknown type, and a media fragment of no
/// fragments or past the last.
pub proof fn lemma_header_read(b: Seq<u8>)
    ensures
        ({
            let r = packet::parse_header(b);
            let version = b[0] as int / 64;
            let kind = b[0] as int / 8 % 8;
            &&& b.len() < 20 <==> r is Err && r->Err_0 is TooShort
            &&& b.len() >= 20 && version != 0 <==> r is Err && r->Err_0 is UnsupportedVersion
            &&& r is Err && r->Err_0 is UnsupportedVersion ==> r->Err_0->UnsupportedVersion_0
                == version
            &&& b.len() >= 20 && version == 0 && kind > 4 <==> r is Err
                && r->Err_0 is UnknownType
            &&& r is Err && r->Err_0 is UnknownType ==> r->Err_0->UnknownType_0 == kind
            &&& b.len() >= 20 && b[0] < 8 && two(b, 12) == 0 <==> r is Err
                && r->Err_0 is InvalidFragCount
            &&& b.len() >= 20 && b[0] < 8 && two(b, 12) > 0 && two(b, 10) >= two(b, 12)
                <==> r is Err && r->Err_0 is InvalidFragIndex
            &&& r matches Ok(h) ==> heads(b, h)
        }),
{
    if b.len() >= 20 {
        lemma_read16(b, 2);
        lemma_read16(b, 4);
        lemma_read32(b, 6);
        lemma_read16(b, 10);
        lemma_read16(b, 12);
        lemma_read32(b, 14);
        lemma_read16(b, 18);
    }
}

/// Where the fields of a body are written, behind the twenty bytes of the
/// header.
pub proof fn lemma_body_written(p: PacketModel)
    ensures
        ({
            let w = p.wire();
            &&& heads(w, p.header())
            &&& match p {
                PacketModel::Media { payload, .. } => w.skip(20) == payload,
                PacketModel::Nack { base_seq, blp, frame_id, .. } => {
                    &&& two(w, 20) == base_seq
                    &&& two(w, 22) == blp
                    &&& frame_id is None ==> w.len() == 24
                    &&& frame_id matches Some(id) ==> w.len() == 28 && four(w, 24) == id
                },
                PacketModel::ArrivalFeedback { first_seq, received_mask, recv_delta_bytes, .. } => {
                    &&& two(w, 20) == first_seq
                    &&& eight(w, 22) == received_mask
                    &&& w.skip(30) == recv_delta_bytes
                },
                PacketModel::KeyframeReq { stream_id, .. } => w.len() == 21 && w[20] == stream_id,
                PacketModel::Fec { seq_base, mask, length_xor, payload, .. } => {
                    &&& two(w, 20) == seq_base
                    &&& eight(w, 22) == mask
                    &&& two(w, 30) == length_xor
                    &&& w.skip(32) == payload
                },
            }
        }),
{
    let h = packet::header_bytes(p.header());
    lemma_header_written(p.header());
    let w = p.wire();
    let b = p.body();
    assert(w.skip(20) =~= b);
    assert forall|i: int| 0 <= i < 20 implies #[trigger] w[i] == h[i] by {}
    assert forall|i: int| 20 <= i < w.len() implies #[trigger] w[i] == b[i - 20] by {}
    match p {
        PacketModel::Media { payload, .. } => {
            assert(b =~= payload);
        },
        PacketModel::Nack { base_seq, blp, frame_id, .. } => {
            lemma_be16(base_seq);
            lemma_be16(blp);
            assert(b[0] == octets::be16_bytes(base_seq)[0]);
            assert(b[1] == octets::be16_bytes(base_seq)[1]);
            assert(b[2] == octets::be16_bytes(blp)[0]);
            assert(b[3] == octets::be16_bytes(blp)[1]);
            if let Some(id) = frame_id {
                lemma_be32(id);
                assert forall|i: int| 0 <= i < 4 implies b[i + 4] == #[trigger] octets::be32_bytes(
                    id,
                )[i] by {}
                assert(four(w, 24) == four(octets::be32_bytes(id), 0));
            }
        },
        PacketModel::ArrivalFeedback { first_seq, received_mask, recv_delta_bytes, .. } => {
            lemma_be16(first_seq);
            lemma_be64(received_mask);
            assert(b[0] == octets::be16_bytes(first_seq)[0]);
            assert(b[1] == octets::be16_bytes(first_seq)[1]);
            assert forall|i: int| 0 <= i < 8 implies b[i + 2] == #[trigger] octets::be64_bytes(
                received_mask,
            )[i] by {}
            assert(eight(w, 22) == eight(octets::be64_bytes(received_mask), 0));
            assert(w.skip(30) =~= recv_delta_bytes);
        },
        PacketModel::KeyframeReq { stream_id, .. } => {
            assert(b[0] == stream_id);
        },
        PacketModel::Fec { seq_base, mask, length_xor, payload, .. } => {
            lemma_be16(seq_base);
            lemma_be64(mask);
            lemma_be16(length_xor);
            assert(b[0] == octets::be16_bytes(seq_base)[0]);
            assert(b[1] == octets::be16_bytes(seq_base)[1]);
            assert forall|i: int| 0 <= i < 8 implies b[i + 2] == #[trigger] octets::be64_bytes(
                mask,
            )[i] by {}
            assert(eight(w, 22) == eight(octets::be64_bytes(mask), 0));
            assert(b[10] == octets::be16_bytes(length_xor)[0]);
            assert(b[11] == octets::be16_bytes(length_xor)[1]);
            assert(w.skip(32) =~= payload);
        },
    }
}

/// How many bytes the body of a type takes at least.
pub open spec fn least_body(t: PacketType) -> int {
    match t {
        PacketType::Media => 0,
        PacketType::Nack => 4,
        PacketType::ArrivalFeedback => 10,
        PacketType::KeyframeReq => 1,
        PacketType::Fec => 12,
    }
}

/// Behind a header that is read, a body is read that is long enough; the bytes
/// behind an arrival report come in pairs.
pub proof fn lemma_body_read(w: Seq<u8>)
    requires
        packet::parse_header(w) is Ok,
    ensures
        ({
            let h = packet::parse_header(w)->Ok_0;
            let r = PacketModel::parse(w);
            let body = w.len() - 20;
            &&& r is Ok <==> body >= least_body(h.packet_type) && (h.packet_type
                == PacketType::ArrivalFeedback ==> body % 2 == 0)
            &&& r is Err ==> r->Err_0 is TooShort
            &&& r matches Ok(p) ==> p.header() == h && match p {
                PacketModel::Media { payload, .. } => h.packet_type == PacketType::Media
                    && payload == w.skip(20),
                PacketModel::Nack { base_seq, blp, frame_id, .. } => {
                    &&& h.packet_type == PacketType::Nack
                    &&& base_seq == two(w, 20)
                    &&& blp == two(w, 22)
                    &&& frame_id is Some <==> body >= 8
                    &&& frame_id matches Some(id) ==> id == four(w, 24)
                },
                PacketModel::ArrivalFeedback { first_seq, received_mask, recv_delta_bytes, .. } => {
                    &&& h.packet_type == PacketType::ArrivalFeedback
                    &&& first_seq == two(w, 20)
                    &&& received_mask == eight(w, 22)
                    &&& recv_delta_bytes == w.skip(30)
                },
                PacketModel::KeyframeReq { stream_id, .. } => h.packet_type
                    == PacketType::KeyframeReq && stream_id == w[20],
                PacketModel::Fec { seq_base, mask, length_xor, payload, .. } => {
                    &&& h.packet_type == PacketType::Fec
                    &&& seq_base == two(w, 20)
                    &&& mask == eight(w, 22)
                    &&& length_xor == two(w, 30)
                    &&& payload == w.skip(32)
                },
            }
        }),
{
    let h = packet::parse_header(w)->Ok_0;
    let b = w.skip(20);
    let body = w.len() - 20;
    assert(b.skip(0) =~= b);
    if body >= 4 {
        assert(b.skip(2) =~= w.skip(22));
        assert(b.skip(4) =~= w.skip(24));
        lemma_read16(w, 20);
        lemma_read16(w, 22);
    }
    if body >= 8 {
        lemma_read32(w, 24);
    }
    if body >= 10 {
        assert(b.skip(10) =~= w.skip(30));
        lemma_read64(w, 22);
    }
    if body >= 12 {
        assert(b.skip(12) =~= w.skip(32));
        lemma_read16(w, 30);
    }
}

/// Receive deltas stand one behind the other, two bytes each, high byte first.
pub proof fn lemma_deltas(deltas: Seq<u16>, b: Seq<u8>, i: int)
    ensures
        packet::delta_bytes(deltas).len() == 2 * deltas.len(),
        0 <= i < deltas.len() ==> two(packet::delta_bytes(deltas), 2 * i) == deltas[i],
        packet::parse_deltas(b).len() == b.len() / 2,
        0 <= i < b.len() / 2 ==> packet::parse_deltas(b)[i] == two(b, 2 * i),
{
    if 0 <= i < deltas.len() {
        let d = packet::delta_bytes(deltas);
        assert((2 * i) / 2 == i && (2 * i) % 2 == 0 && (2 * i + 1) / 2 == i && (2 * i + 1) % 2
            == 1);
        assert(d[2 * i] == octets::be16_bytes(deltas[i])[0]);
        assert(d[2 * i + 1] == octets::be16_bytes(deltas[i])[1]);
    }
    if 0 <= i < b.len() / 2 {
        lemma_read16(b, 2 * i);
    }
}

/// Which of two numbers is ahead: going up from the other one, it is reached in
/// less than half the circle.
pub proof fn lemma_ahead(a: u16, n: int)
    requires
        0 <= n < 0x1_0000,
    ensures
        packet::ahead(((a + n) % 0x1_0000) as u16, a) <==> 0 < n < 0x8000,
{
}

} // verus!
