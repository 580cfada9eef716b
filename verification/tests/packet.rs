use qrt::packet::{DecodeError, Flags, Header, Packet, PacketType, HEADER_SIZE};

fn header(packet_type: PacketType) -> Header {
    Header {
        packet_type,
        flags: Flags::default(),
        stream_id: 1,
        media_seq: 0x0102,
        transport_seq: 0x0304,
        frame_id: 0x0506_0708,
        frag_index: 0,
        frag_count: 1,
        timestamp: 0x090a_0b0c,
        ttl_ms: 0x0d0e,
    }
}

#[test]
fn header_is_twenty_bytes() {
    assert_eq!(HEADER_SIZE, 20);
}

#[test]
fn header_layout() {
    let mut h = header(PacketType::Fec);
    h.flags = Flags { retrans: true, audio: false, key: true };
    let mut buf = [0xffu8; HEADER_SIZE + 1];
    h.encode(&mut buf);
    assert_eq!(
        buf.to_vec(),
        vec![
            0b00_100_101, 1, 1, 2, 3, 4, 5, 6, 7, 8, 0, 0, 0, 1, 9, 10, 11, 12, 13, 14, 0xff
        ]
    );
    assert_eq!(Header::decode(&buf), Ok(h));
}

#[test]
fn short_and_foreign_headers_are_refused() {
    assert_eq!(
        Header::decode(&b"hi"[..]),
        Err(DecodeError::TooShort { need: HEADER_SIZE, have: 2 })
    );
    let mut bad = [0u8; HEADER_SIZE];
    bad[0] = 0b01_000_000;
    assert_eq!(Header::decode(&bad), Err(DecodeError::UnsupportedVersion(1)));
    bad[0] = 0b00_111_000;
    assert_eq!(Header::decode(&bad), Err(DecodeError::UnknownType(7)));
}

#[test]
fn fragment_fields_are_checked_when_decoding() {
    let mut h = header(PacketType::Media);
    let mut wire = [0u8; HEADER_SIZE];
    h.frag_count = 0;
    h.encode(&mut wire);
    assert_eq!(Header::decode(&wire), Err(DecodeError::InvalidFragCount));
    h.frag_count = 2;
    h.frag_index = 2;
    h.encode(&mut wire);
    assert_eq!(Header::decode(&wire), Err(DecodeError::InvalidFragIndex));
    h.frag_index = 1;
    h.encode(&mut wire);
    assert_eq!(Header::decode(&wire), Ok(h));
    assert!(h.is_last_frag());
    assert!(!h.is_first_frag());
}

#[test]
fn type_codes() {
    assert_eq!(PacketType::from_u8(0), Ok(PacketType::Media));
    assert_eq!(PacketType::from_u8(1), Ok(PacketType::Nack));
    assert_eq!(PacketType::from_u8(2), Ok(PacketType::ArrivalFeedback));
    assert_eq!(PacketType::from_u8(3), Ok(PacketType::KeyframeReq));
    assert_eq!(PacketType::from_u8(4), Ok(PacketType::Fec));
    assert_eq!(PacketType::from_u8(5), Err(DecodeError::UnknownType(5)));
}

#[test]
fn flag_bits() {
    let f = Flags { retrans: true, audio: false, key: true };
    assert_eq!(f.pack() & 0b111, 0b101);
    assert_eq!(Flags::unpack(0b101), f);
    assert_eq!(Flags::unpack(0b010), Flags { retrans: false, audio: true, key: false });
}

#[test]
fn sequence_order_wraps() {
    assert!(Header::seq_ahead(1, 0));
    assert!(Header::seq_ahead(0, 0xFFFF));
    assert!(!Header::seq_ahead(0, 1));
    assert!(!Header::seq_ahead(5, 5));
    assert!(Header::seq_ahead(0x7fff, 0));
    assert!(!Header::seq_ahead(0x8000, 0));
}

#[test]
fn media_round_trip() {
    let pkt = Packet::Media { header: header(PacketType::Media), payload: b"codec" };
    let mut wire = [0u8; HEADER_SIZE + 5];
    pkt.encode(&mut wire);
    assert_eq!(&wire[HEADER_SIZE..], b"codec");
    assert_eq!(Packet::decode(&wire).unwrap(), pkt);
}

#[test]
fn nack_round_trip() {
    let pkt = Packet::Nack {
        header: header(PacketType::Nack),
        base_seq: 100,
        blp: 0b0101,
        frame_id: Some(9),
    };
    assert_eq!(pkt.encoded_len(), HEADER_SIZE + 8);
    let wire = pkt.to_vec();
    assert_eq!(&wire[HEADER_SIZE..], &[0, 100, 0, 5, 0, 0, 0, 9]);
    assert_eq!(Packet::decode(&wire).unwrap(), pkt);
    let bare = Packet::Nack {
        header: header(PacketType::Nack),
        base_seq: 100,
        blp: 0,
        frame_id: None,
    };
    assert_eq!(Packet::decode(&bare.to_vec()).unwrap(), bare);
    assert_eq!(
        Packet::decode(&bare.to_vec()[..HEADER_SIZE + 3]),
        Err(DecodeError::TooShort { need: 4, have: 3 })
    );
}

#[test]
fn feedback_and_requests_round_trip() {
    let deltas = Packet::encode_arrival_recv_deltas(&[0, 4]);
    assert_eq!(deltas, vec![0, 0, 0, 4]);
    assert_eq!(Packet::parse_arrival_recv_deltas(&deltas), vec![0, 4]);
    let fb = Packet::ArrivalFeedback {
        header: header(PacketType::ArrivalFeedback),
        first_seq: 10,
        received_mask: 0x8000_0000_0000_0005,
        recv_delta_bytes: &deltas,
    };
    assert_eq!(Packet::decode(&fb.to_vec()).unwrap(), fb);
    let key = Packet::KeyframeReq { header: header(PacketType::KeyframeReq), stream_id: 3 };
    assert_eq!(Packet::decode(&key.to_vec()).unwrap(), key);
    let fec = Packet::Fec {
        header: header(PacketType::Fec),
        seq_base: 0xfffe,
        mask: 0b111,
        length_xor: 21,
        payload: &[1, 2, 3],
    };
    assert_eq!(Packet::decode(&fec.to_vec()).unwrap(), fec);
}

#[test]
fn what_follows_a_request_is_not_kept() {
    let nack = Packet::Nack {
        header: header(PacketType::Nack),
        base_seq: 100,
        blp: 1,
        frame_id: Some(9),
    };
    let key = Packet::KeyframeReq { header: header(PacketType::KeyframeReq), stream_id: 3 };
    for pkt in [nack, key] {
        let mut wire = pkt.to_vec();
        let n = wire.len();
        wire.extend_from_slice(&[7, 7]);
        assert_eq!(Packet::decode(&wire).unwrap(), pkt);
        assert_eq!(Packet::decode(&wire).unwrap().to_vec(), wire[..n].to_vec());
    }
    let bare = Packet::Nack {
        header: header(PacketType::Nack),
        base_seq: 100,
        blp: 1,
        frame_id: None,
    };
    let mut wire = bare.to_vec();
    wire.extend_from_slice(&[7, 7, 7]);
    assert_eq!(Packet::decode(&wire).unwrap(), bare);
    let media = Packet::Media { header: header(PacketType::Media), payload: b"xy" }.to_vec();
    assert_eq!(Packet::decode(&media).unwrap().to_vec(), media);
}

#[test]
fn missing_numbers_expand_and_pack() {
    assert_eq!(Packet::nack_missing_seqs(100, 0b0101), vec![100, 101, 103]);
    let packed = Packet::nack_pack_seqs(vec![30, 10, 13, 11, 10]);
    assert_eq!(packed, vec![(10, 0b101), (30, 0)]);
    assert_eq!(Packet::nack_missing_seqs(packed[0].0, packed[0].1), vec![10, 11, 13]);
    assert_eq!(Packet::nack_missing_seqs(packed[1].0, packed[1].1), vec![30]);
    assert_eq!(Packet::nack_missing_seqs(0xffff, 0b1), vec![0xffff, 0]);
}

#[test]
fn decode_messages() {
    assert_eq!(
        DecodeError::TooShort { need: 20, have: 2 }.message(),
        "buffer too short: need 20, have 2"
    );
    assert_eq!(DecodeError::UnsupportedVersion(1).message(), "unsupported version 1");
    assert_eq!(DecodeError::UnknownType(7).message(), "unknown packet type 7");
    assert_eq!(DecodeError::InvalidFragCount.message(), "frag_count is 0");
    assert_eq!(DecodeError::InvalidFragIndex.message(), "frag_index >= frag_count");
}
