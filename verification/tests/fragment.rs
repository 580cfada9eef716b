use qrt::fragment::{
    fragment, split_about_equally, FragmentError, FragmentParams, PayloadSizeLimits,
    DEFAULT_MAX_PAYLOAD_LEN,
};
use qrt::packet::{Flags, Header, Packet, PacketType};
use qrt::reassembly::{FrameReassembler, InsertOutcome, ReassemblyError};

fn params(frame_id: u32) -> FragmentParams {
    FragmentParams {
        stream_id: 1,
        frame_id,
        timestamp: 90_000,
        ttl_ms: 120,
        flags: Flags { key: true, ..Flags::default() },
        first_media_seq: 10,
        first_transport_seq: 10,
    }
}

#[test]
fn splits_about_equally() {
    let limits = PayloadSizeLimits {
        max_payload_len: 30,
        single_packet_reduction_len: 10,
        first_packet_reduction_len: 29,
        last_packet_reduction_len: 29,
    };
    assert_eq!(split_about_equally(20, &limits), vec![20]);
    let limits = PayloadSizeLimits {
        max_payload_len: 29,
        first_packet_reduction_len: 3,
        last_packet_reduction_len: 1,
        single_packet_reduction_len: 10,
    };
    assert_eq!(split_about_equally(20, &limits), vec![9, 11]);
}

#[test]
fn frame_is_covered_without_overlap() {
    let frame: Vec<u8> = (0..2500u32).map(|i| i as u8).collect();
    let packets = fragment(&frame, &params(7), &PayloadSizeLimits::default()).unwrap();
    assert_eq!(packets.len(), 3);
    let mut rebuilt = Vec::new();
    for (i, p) in packets.iter().enumerate() {
        let h = p.header();
        assert_eq!(h.packet_type, PacketType::Media);
        assert_eq!(h.media_seq, 10 + i as u16);
        assert_eq!(h.transport_seq, 10 + i as u16);
        assert_eq!(h.frag_index, i as u16);
        assert_eq!(h.frag_count, 3);
        if let Packet::Media { payload, .. } = p {
            assert!(payload.len() <= DEFAULT_MAX_PAYLOAD_LEN);
            rebuilt.extend_from_slice(payload);
        }
    }
    assert_eq!(rebuilt, frame);
}

#[test]
fn one_byte_over_makes_two_fragments() {
    let frame = vec![7u8; DEFAULT_MAX_PAYLOAD_LEN + 1];
    let packets = fragment(&frame, &params(1), &PayloadSizeLimits::default()).unwrap();
    assert_eq!(packets.len(), 2);
    assert!(packets[0].header().is_first_frag());
    assert!(packets[1].header().is_last_frag());
}

#[test]
fn impossible_frames_are_refused() {
    let limits = PayloadSizeLimits::default();
    assert_eq!(fragment(&[], &params(1), &limits).unwrap_err(), FragmentError::EmptyPayload);
    let none = PayloadSizeLimits { max_payload_len: 0, ..limits };
    assert_eq!(fragment(&[1], &params(1), &none).unwrap_err(), FragmentError::ImpossibleLimits);
    let tiny = PayloadSizeLimits { max_payload_len: 1, ..limits };
    assert_eq!(
        fragment(&vec![0u8; 70_000], &params(1), &tiny).unwrap_err(),
        FragmentError::TooManyFragments
    );
    assert_eq!(FragmentError::EmptyPayload.message(), "empty frame payload");
    assert_eq!(
        FragmentError::ImpossibleLimits.message(),
        "payload size limits cannot carry this frame"
    );
    assert_eq!(FragmentError::TooManyFragments.message(), "fragment count exceeds u16::MAX");
}

#[test]
fn reassembles_out_of_order_and_with_copies() {
    let frame: Vec<u8> = (0..3700u32).map(|i| (i / 7) as u8).collect();
    let packets = fragment(&frame, &params(3), &PayloadSizeLimits::default()).unwrap();
    assert_eq!(packets.len(), 4);
    let mut r = FrameReassembler::new();
    assert!(r.push(&packets[3]).unwrap().is_incomplete());
    assert_eq!(r.push(&packets[3]), Ok(InsertOutcome::DuplicateFragment));
    assert_eq!(r.push(&packets[0]), Ok(InsertOutcome::Incomplete { have: 2, need: 4 }));
    assert!(r.push(&packets[1]).unwrap().is_incomplete());
    assert_eq!(r.incomplete_len(), 1);
    let done = r.push(&packets[2]).unwrap().into_assembled().unwrap();
    assert_eq!(done.payload.as_ref(), frame.as_slice());
    assert_eq!(done.frame_id, 3);
    assert_eq!(done.first_media_seq, Some(10));
    assert!(done.flags.key);
    assert_eq!(r.incomplete_len(), 0);
    assert_eq!(r.push(&packets[2]), Ok(InsertOutcome::DuplicateFrame));
}

#[test]
fn conflicting_fragments_are_refused() {
    let frame = vec![1u8; 2000];
    let packets = fragment(&frame, &params(5), &PayloadSizeLimits::default()).unwrap();
    let mut r = FrameReassembler::new();
    assert!(r.push(&packets[0]).unwrap().is_incomplete());
    let mut h = *packets[1].header();
    h.frag_count = 3;
    let other = Packet::Media { header: h, payload: b"x" };
    assert_eq!(r.push(&other), Err(ReassemblyError::Conflict("frag_count mismatch")));
    h.frag_count = 2;
    h.timestamp = 1;
    let other = Packet::Media { header: h, payload: b"x" };
    assert_eq!(r.push(&other), Err(ReassemblyError::Conflict("timestamp mismatch")));
    h.packet_type = PacketType::KeyframeReq;
    let other = Packet::KeyframeReq { header: h, stream_id: 1 };
    assert_eq!(r.push(&other), Err(ReassemblyError::NotMedia));
    assert_eq!(ReassemblyError::NotMedia.message(), "packet is not Media");
    assert_eq!(
        ReassemblyError::Conflict("timestamp mismatch").message(),
        "reassembly conflict: timestamp mismatch"
    );
}

#[test]
fn oldest_frame_makes_way() {
    let frame = vec![1u8; 2000];
    let limits = PayloadSizeLimits::default();
    let a = fragment(&frame, &params(1), &limits).unwrap();
    let b = fragment(&frame, &params(2), &limits).unwrap();
    let c = fragment(&frame, &params(3), &limits).unwrap();
    let mut r = FrameReassembler::with_limits(2, 8);
    assert_eq!(r.max_incomplete_frames(), 2);
    assert!(r.push(&a[0]).unwrap().is_incomplete());
    assert!(r.push(&b[0]).unwrap().is_incomplete());
    assert!(r.push(&c[0]).unwrap().is_incomplete());
    assert_eq!(r.incomplete_len(), 2);
    assert!(r.push(&b[1]).unwrap().into_assembled().is_some());
    assert!(r.push(&a[1]).unwrap().is_incomplete());
    r.clear_stream(1);
    assert_eq!(r.incomplete_len(), 0);
}

#[test]
fn single_packet_frame() {
    let frame = b"one".to_vec();
    let packets = fragment(&frame, &params(9), &PayloadSizeLimits::default()).unwrap();
    let mut r = FrameReassembler::default();
    let done = r.push(&packets[0]).unwrap().into_assembled().unwrap();
    assert_eq!(done.payload.as_ref(), b"one");
    assert_eq!(done.first_media_seq, Some(10));
    r.clear_incomplete();
}

#[test]
fn flags_are_those_of_the_fragment_that_came_first() {
    let h = Header {
        packet_type: PacketType::Media,
        flags: Flags::default(),
        stream_id: 0,
        media_seq: 11,
        transport_seq: 0,
        frame_id: 4,
        frag_index: 1,
        frag_count: 2,
        timestamp: 5,
        ttl_ms: 80,
    };
    let last = Packet::Media { header: h, payload: b"b" };
    let key = Flags { key: true, ..Flags::default() };
    let first = Packet::Media {
        header: Header { flags: key, media_seq: 10, frag_index: 0, ..h },
        payload: b"a",
    };
    let mut r = FrameReassembler::new();
    assert_eq!(r.push(&last), Ok(InsertOutcome::Incomplete { have: 1, need: 2 }));
    let done = r.push(&first).unwrap().into_assembled().unwrap();
    assert_eq!(done.flags, Flags::default());
    assert_eq!(done.payload.as_ref(), b"ab");
    assert_eq!(done.first_media_seq, Some(10));
    let mut r = FrameReassembler::new();
    assert!(r.push(&first).unwrap().is_incomplete());
    let done = r.push(&last).unwrap().into_assembled().unwrap();
    assert_eq!(done.flags, key);
}
