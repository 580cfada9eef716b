use qrt::feedback::{ArrivalRecorder, FeedbackAdapter, FeedbackConfig, TransportSeqAssigner};
use qrt::packet::{Flags, Header, Packet, PacketType};
use qrt::time::{Duration, Instant};

fn at(ms: u64) -> Instant {
    Instant { nanos: 5_000_000_000 }.after(Duration::from_millis(ms))
}

#[test]
fn report_tells_what_arrived() {
    let mut rx = ArrivalRecorder::new(FeedbackConfig::default());
    rx.on_packet(10, at(0), 100);
    rx.on_packet(12, at(2), 100);
    assert_eq!(rx.pending_count(), 2);
    let fb = rx.poll(at(100)).expect("feedback due");
    assert_eq!(fb.first_seq, 10);
    assert_eq!(fb.received_mask, 0b101);
    assert_eq!(fb.recv_deltas_250us, vec![0, 8]);
    assert_eq!(rx.pending_count(), 0);

    let mut tx = FeedbackAdapter::new(FeedbackConfig::default());
    assert_eq!(tx.in_flight_bytes(), 0);
    tx.on_sent(10, at(0), 100, false);
    tx.on_sent(11, at(1), 100, false);
    tx.on_sent(12, at(2), 100, true);
    assert_eq!(tx.in_flight_bytes(), 300);
    let report = tx.on_feedback(fb.first_seq, fb.received_mask, &fb.recv_deltas_250us, at(120));
    assert_eq!(report.packets.len(), 3);
    assert!(report.packets[0].received());
    assert!(!report.packets[1].received());
    assert!(report.packets[2].received());
    assert_eq!(report.packets[2].receive_time, Some(at(120)));
    assert_eq!(report.packets[0].receive_time, Some(at(118)));
    assert_eq!(report.data_in_flight, 0);
    assert_eq!(tx.in_flight_bytes(), 0);
}

#[test]
fn report_travels_as_a_packet() {
    let mut rx = ArrivalRecorder::new(FeedbackConfig::default());
    for s in [65535u16, 0, 3] {
        rx.on_packet(s, at(s as u64 % 7), 1);
    }
    let fb = rx.force_build(at(9)).unwrap();
    assert_eq!(fb.first_seq, 65535);
    assert_eq!(fb.received_mask, 0b10011);
    let wire = fb.to_wire();
    let packet = Packet::decode(&wire).unwrap();
    assert_eq!(packet, fb.as_packet());
    let mut tx = FeedbackAdapter::new(FeedbackConfig::default());
    tx.on_sent(0, at(0), 50, false);
    let report = tx.on_feedback_packet(&packet, at(20)).unwrap();
    assert_eq!(report.packets.len(), 1);
    assert!(report.packets[0].received());
    let media = Packet::Media { header: *packet.header(), payload: b"" };
    assert!(tx.on_feedback_packet(&media, at(20)).is_none());
}

#[test]
fn reports_keep_their_interval() {
    let mut rx = ArrivalRecorder::new(FeedbackConfig::default());
    assert!(rx.poll(at(0)).is_none());
    rx.on_packet(1, at(0), 1);
    assert!(rx.poll(at(0)).is_some());
    rx.on_packet(2, at(1), 1);
    assert!(rx.poll(at(50)).is_none());
    assert!(rx.poll(at(100)).is_some());
}

#[test]
fn numbers_follow_one_another() {
    let mut a = TransportSeqAssigner::new();
    assert_eq!(a.next(), 0);
    assert_eq!(a.next(), 1);
    let pkt = Packet::Media {
        header: Header {
            packet_type: PacketType::Media,
            flags: Flags::default(),
            stream_id: 0,
            media_seq: 9,
            transport_seq: 77,
            frame_id: 1,
            frag_index: 0,
            frag_count: 1,
            timestamp: 0,
            ttl_ms: 5,
        },
        payload: b"pay",
    };
    let mut wire = pkt.to_vec();
    assert_eq!(a.stamp(&mut wire), Some(2));
    let h = Header::decode(&wire).unwrap();
    assert_eq!(h.transport_seq, 2);
    assert_eq!(h.media_seq, 9);
    assert_eq!(&wire[20..], b"pay");
    let mut junk = [1u8; 4];
    assert_eq!(a.stamp(&mut junk), None);
    assert_eq!(junk, [1u8; 4]);
    assert_eq!(a.next(), 3);
}

#[test]
fn what_a_report_covers_is_no_longer_in_flight() {
    let mut tx = FeedbackAdapter::new(FeedbackConfig::default());
    for s in [9u16, 10, 11, 12, 73, 74] {
        tx.on_sent(s, at(u64::from(s)), 100 + s as usize, false);
    }
    let before = tx.clone();
    assert_eq!(tx.in_flight_bytes(), 789);
    // A report covers the 64 numbers from ten on; those that did not arrive
    // were lost.
    tx.on_feedback(10, 0b101, &[0, 8], at(150));
    assert_eq!(tx.in_flight_bytes(), 109 + 174);
    tx.on_feedback(10, 0b101, &[0, 8], at(160));
    assert_eq!(tx.in_flight_bytes(), 109 + 174);
    tx.on_sent(75, at(170), 7, false);
    assert_eq!(tx.in_flight_bytes(), 109 + 174 + 7);
    tx.on_feedback(74, 0b11, &[0, 8], at(180));
    assert_eq!(tx.in_flight_bytes(), 109);
    assert_eq!(before.in_flight_bytes(), 789);
}

#[test]
fn recorders_can_be_copied() {
    let mut rx = ArrivalRecorder::new(FeedbackConfig::default());
    rx.on_packet(10, at(0), 100);
    let kept = rx.clone();
    assert!(rx.force_build(at(1)).is_some());
    assert_eq!(rx.pending_count(), 0);
    assert_eq!(kept.pending_count(), 1);
}
