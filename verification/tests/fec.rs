use bytes::Bytes;
use qrt::fec::{
    num_fec_packets, FecError, FecGenerator, FecProtectionParams, FecReceiver, MAX_MEDIA_PACKETS,
};
use qrt::packet::{DecodeError, Flags, Header, Packet, PacketType};

fn media(stream_id: u8, seq: u16, transport_seq: u16, payload: &[u8]) -> Bytes {
    let pkt = Packet::Media {
        header: Header {
            packet_type: PacketType::Media,
            flags: Flags::default(),
            stream_id,
            media_seq: seq,
            transport_seq,
            frame_id: 1,
            frag_index: 0,
            frag_count: 1,
            timestamp: 1,
            ttl_ms: 80,
        },
        payload,
    };
    Bytes::from(pkt.to_vec())
}

#[test]
fn row_counts() {
    assert_eq!(FecProtectionParams::default().fec_rate, 64);
    assert_eq!(num_fec_packets(4, 0), 0);
    assert_eq!(num_fec_packets(0, 64), 0);
    assert_eq!(num_fec_packets(4, 64), 1);
    assert_eq!(num_fec_packets(4, 128), 2);
    assert_eq!(num_fec_packets(4, 255), 4);
    assert_eq!(num_fec_packets(1, 1), 1);
}

#[test]
fn generator_starts_empty() {
    let mut g = FecGenerator::new(2, FecProtectionParams::default());
    assert_eq!(g.stream_id(), 2);
    assert_eq!(g.pending_count(), 0);
    assert!(g.flush().is_empty());
    g.set_params(FecProtectionParams { fec_rate: 10 });
    assert_eq!(g.params().fec_rate, 10);
}

#[test]
fn one_row_is_the_xor() {
    let mut g = FecGenerator::new(0, FecProtectionParams { fec_rate: 1 });
    let a = media(0, 7, 0, b"abc");
    let b = media(0, 8, 0, b"z");
    assert!(g.push(7, a.clone()).unwrap().is_empty());
    assert!(g.push(8, b.clone()).unwrap().is_empty());
    assert_eq!(g.pending_count(), 2);
    let rows = g.flush();
    assert_eq!(rows.len(), 1);
    assert_eq!(g.pending_count(), 0);
    let row = &rows[0];
    assert_eq!(row.seq_base, 7);
    assert_eq!(row.mask, 0b11);
    assert_eq!(row.length_xor, 23 ^ 21);
    let mut want = a.to_vec();
    for (i, x) in b.iter().enumerate() {
        want[i] ^= x;
    }
    assert_eq!(row.payload.as_ref(), want.as_slice());
    assert_eq!(row.encoded_len(), row.to_wire().len());
    assert!(matches!(row.as_packet(), Packet::Fec { .. }));
    assert_eq!(Packet::decode(&row.to_wire()).unwrap(), row.as_packet());
}

#[test]
fn two_rows_rebuild_two_datagrams() {
    let wires: Vec<Bytes> = (0..4u16).map(|s| media(0, s, s, &[s as u8; 4])).collect();
    let mut g = FecGenerator::new(0, FecProtectionParams { fec_rate: 128 });
    for (s, w) in wires.iter().enumerate() {
        assert!(g.push(s as u16, w.clone()).unwrap().is_empty());
    }
    let rows = g.flush();
    assert_eq!(rows.len(), 2);
    let mut rx = FecReceiver::new(32);
    assert_eq!(rx.media_count(), 0);
    rx.insert_media(0, 2, wires[2].clone());
    rx.insert_media(0, 3, wires[3].clone());
    let mut got = Vec::new();
    for row in &rows {
        got.extend(rx.insert_fec_owned(row));
    }
    assert_eq!(rx.fec_count(), 2);
    let mut seqs: Vec<u16> = got.iter().map(|r| r.media_seq).collect();
    seqs.sort_unstable();
    assert_eq!(seqs, vec![0, 1]);
    for r in &got {
        assert_eq!(r.stream_id, 0);
        assert_eq!(r.wire, wires[r.media_seq as usize]);
        assert!(rx.has_media(0, r.media_seq));
    }
}

#[test]
fn one_rebuilt_datagram_lets_another_row_rebuild() {
    let wires: Vec<Bytes> = (0..3u16).map(|s| media(4, s, 0, &[9, s as u8])).collect();
    let mut wide = FecGenerator::new(4, FecProtectionParams { fec_rate: 1 });
    for (s, w) in wires.iter().enumerate() {
        wide.push(s as u16, w.clone()).unwrap();
    }
    let mut narrow = FecGenerator::new(4, FecProtectionParams { fec_rate: 1 });
    narrow.push(0, wires[0].clone()).unwrap();
    let wide = wide.flush();
    let narrow = narrow.flush();
    let mut rx = FecReceiver::new(32);
    assert!(rx.insert_media(4, 2, wires[2].clone()).is_empty());
    assert!(rx.insert_fec_owned(&wide[0]).is_empty());
    let got = rx.insert_fec_packet(&narrow[0].as_packet()).unwrap();
    let seqs: Vec<u16> = got.iter().map(|r| r.media_seq).collect();
    assert_eq!(seqs, vec![0, 1]);
    assert_eq!(got[1].wire, wires[1]);
}

#[test]
fn numbered_datagrams_still_rebuild() {
    let plain: Vec<Bytes> = (0..3u16).map(|s| media(0, s, 0, &[s as u8; 3])).collect();
    let mut g = FecGenerator::new(0, FecProtectionParams { fec_rate: 1 });
    for (s, w) in plain.iter().enumerate() {
        g.push(s as u16, w.clone()).unwrap();
    }
    let row = &g.flush()[0];
    let mut rx = FecReceiver::new(8);
    rx.insert_media(0, 0, media(0, 0, 500, &[0; 3]));
    rx.insert_media(0, 2, media(0, 2, 502, &[2; 3]));
    let got = rx.insert_fec_owned(row);
    assert_eq!(got.len(), 1);
    let mut wire = got[0].wire.to_vec();
    assert_eq!(&wire[4..6], &(500u16 ^ 502).to_be_bytes());
    wire[4] = 0;
    wire[5] = 0;
    assert_eq!(wire.as_slice(), plain[1].as_ref());
}

#[test]
fn full_block_is_flushed() {
    let mut g = FecGenerator::new(0, FecProtectionParams::default());
    for s in 0..MAX_MEDIA_PACKETS as u16 {
        assert!(g.push(s, media(0, s, 0, b"x")).unwrap().is_empty());
    }
    let rows = g.push(48, media(0, 48, 0, b"x")).unwrap();
    assert_eq!(rows.len(), 12);
    assert_eq!(g.pending_count(), 1);
}

#[test]
fn unfit_datagrams_are_refused() {
    let mut g = FecGenerator::new(0, FecProtectionParams::default());
    assert_eq!(
        g.push(1, Bytes::from(vec![0u8; 3])).unwrap_err(),
        FecError::Decode(DecodeError::TooShort { need: 20, have: 3 })
    );
    assert_eq!(
        g.push(1, media(5, 1, 0, b"x")).unwrap_err(),
        FecError::StreamMismatch { got: 5, expected: 0 }
    );
    assert_eq!(
        g.push(2, media(0, 1, 0, b"x")).unwrap_err(),
        FecError::SeqMismatch { arg: 2, header: 1 }
    );
    g.push(10, media(0, 10, 0, b"x")).unwrap();
    assert_eq!(
        g.push(58, media(0, 58, 0, b"x")).unwrap_err(),
        FecError::SeqOutOfWindow { seq_base: 10, media_seq: 58 }
    );
    let key = Packet::KeyframeReq {
        header: Header {
            packet_type: PacketType::KeyframeReq,
            flags: Flags::default(),
            stream_id: 0,
            media_seq: 0,
            transport_seq: 0,
            frame_id: 0,
            frag_index: 0,
            frag_count: 1,
            timestamp: 0,
            ttl_ms: 1,
        },
        stream_id: 0,
    };
    assert_eq!(g.push(0, Bytes::from(key.to_vec())).unwrap_err(), FecError::NotMedia);
    let mut rx = FecReceiver::new(4);
    assert_eq!(rx.insert_fec_packet(&key).unwrap_err(), FecError::NotMedia);
}

#[test]
fn old_media_makes_way() {
    let mut rx = FecReceiver::new(2);
    for s in 0..3u16 {
        rx.insert_media(0, s, media(0, s, 0, b"x"));
    }
    assert_eq!(rx.media_count(), 2);
    assert!(!rx.has_media(0, 0));
    assert!(rx.has_media(0, 2));
}

#[test]
fn fec_messages() {
    assert_eq!(FecError::NotMedia.message(), "datagram is not Packet::Media");
    assert_eq!(
        FecError::StreamMismatch { got: 5, expected: 0 }.message(),
        "stream_id 5 != expected 0"
    );
    assert_eq!(FecError::BlockFull.message(), "FEC block already has 48 media packets");
    assert_eq!(
        FecError::SeqOutOfWindow { seq_base: 10, media_seq: 58 }.message(),
        "media_seq 58 outside 48-bit window from seq_base 10"
    );
    assert_eq!(
        FecError::SeqMismatch { arg: 2, header: 1 }.message(),
        "media_seq arg 2 != header 1"
    );
    assert_eq!(
        FecError::Decode(DecodeError::InvalidFragCount).message(),
        "decode error: frag_count is 0"
    );
}

#[test]
fn media_makes_way_in_the_order_it_came() {
    let mut rx = FecReceiver::new(2);
    rx.insert_media(1, 5, media(1, 5, 0, b"x"));
    rx.insert_media(1, 6, media(1, 6, 0, b"x"));
    let kept = rx.clone();
    rx.insert_media(0, 0, media(0, 0, 0, b"x"));
    assert!(rx.has_media(0, 0));
    assert!(rx.has_media(1, 6));
    assert!(!rx.has_media(1, 5));
    rx.insert_media(0, 65535, media(0, 65535, 0, b"x"));
    assert!(rx.has_media(0, 65535));
    assert!(rx.has_media(0, 0));
    assert!(!rx.has_media(1, 6));
    assert!(kept.has_media(1, 5));
    assert_eq!(kept.media_count(), 2);
}
