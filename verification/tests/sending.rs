use bytes::Bytes;
use qrt::history::{
    PacketHistory, RetransRateLimiter, RetransmitOutcome, DEFAULT_HISTORY_CAPACITY,
};
use qrt::pacer::{Pacer, PacerConfig};
use qrt::packet::{Flags, Header, Packet, PacketType};
use qrt::send_queue::{OutgoingPacket, Priority, SendQueue};
use qrt::time::{Duration, Instant};

fn at(ms: u64) -> Instant {
    Instant { nanos: 5_000_000_000 }.after(Duration::from_millis(ms))
}

fn header(flags: Flags, media_seq: u16, ttl_ms: u16) -> Header {
    Header {
        packet_type: PacketType::Media,
        flags,
        stream_id: 1,
        media_seq,
        transport_seq: 0,
        frame_id: 0,
        frag_index: 0,
        frag_count: 1,
        timestamp: 0,
        ttl_ms,
    }
}

fn video(media_seq: u16, ttl_ms: u16, payload: &[u8]) -> Packet<'_> {
    Packet::Media { header: header(Flags::default(), media_seq, ttl_ms), payload }
}

fn audio(media_seq: u16, ttl_ms: u16, payload: &[u8]) -> Packet<'_> {
    let flags = Flags { audio: true, ..Flags::default() };
    Packet::Media { header: header(flags, media_seq, ttl_ms), payload }
}

#[test]
fn priorities() {
    let mut h = header(Flags { audio: true, ..Flags::default() }, 0, 40);
    assert_eq!(Priority::of(&h), Priority::Audio);
    h.flags = Flags { retrans: true, ..Flags::default() };
    assert_eq!(Priority::of(&h), Priority::Retransmission);
    h.flags = Flags::default();
    assert_eq!(Priority::of(&h), Priority::Video);
    h.packet_type = PacketType::Fec;
    assert_eq!(Priority::of(&h), Priority::Video);
    h.packet_type = PacketType::Nack;
    assert_eq!(Priority::of(&h), Priority::Feedback);
    h.packet_type = PacketType::ArrivalFeedback;
    assert_eq!(Priority::of(&h), Priority::Feedback);
    h.packet_type = PacketType::KeyframeReq;
    assert_eq!(Priority::of(&h), Priority::Feedback);
}

#[test]
fn outgoing_packets() {
    let out = OutgoingPacket::from_packet(&video(0, 100, b"x"), at(0)).unwrap();
    assert_eq!(out.priority, Priority::Video);
    assert_eq!(out.stream_id, 1);
    assert_eq!(out.deadline, at(100));
    assert_eq!(out.len(), 21);
    assert!(OutgoingPacket::from_packet(&video(0, 0, b"x"), at(0)).is_none());
}

#[test]
fn audio_goes_first_and_overdue_video_is_dropped() {
    let mut q = SendQueue::new();
    assert!(q.is_empty());
    assert!(q.enqueue_packet(&video(1, 50, b"v"), at(0)));
    assert!(q.enqueue_packet(&video(2, 500, b"w"), at(0)));
    assert!(q.enqueue_packet(&audio(3, 50, b"a"), at(0)));
    assert!(!q.enqueue_packet(&audio(4, 0, b"b"), at(0)));
    assert_eq!(q.len(), 3);
    assert_eq!(q.queued_bytes(), 63);
    assert_eq!(q.peek_priority(), Some(Priority::Audio));
    assert_eq!(q.pop(at(0)).unwrap().priority, Priority::Audio);
    let next = q.pop(at(50)).unwrap();
    assert_eq!(Header::decode(&next.wire).unwrap().media_seq, 2);
    assert!(q.pop(at(50)).is_none());
    let s = q.stats();
    assert_eq!(s.enqueued, 3);
    assert_eq!(s.dropped_ttl_zero, 1);
    assert_eq!(s.dropped_expired, 1);
    assert_eq!(s.dequeued, 2);
}

#[test]
fn queue_time_is_the_time_to_drain() {
    let mut q = SendQueue::new();
    assert!(q.enqueue_packet(&video(1, 500, &[0; 980]), at(0)));
    assert_eq!(q.expected_queue_time(8_000), Some(Duration::from_millis(1000)));
    assert_eq!(q.expected_queue_time(0), None);
    q.clear();
    assert_eq!(q.len(), 0);
}

#[test]
fn pacer_waits_when_in_debt() {
    let config = PacerConfig { pacing_rate_bps: 80_000, ..PacerConfig::default() };
    let mut p = Pacer::new(config);
    let body = [0u8; 500];
    assert_eq!(p.next_send_time(at(0)), None);
    assert!(p.enqueue_packet(&video(0, 200, &body), at(0)));
    assert_eq!(p.next_send_time(at(0)), Some(at(0)));
    assert!(p.poll(at(0)).is_some());
    assert!(p.enqueue_packet(&video(1, 200, &body), at(0)));
    assert!(p.poll(at(0)).is_none());
    // 520 bytes of debt against 400 of budget, at ten bytes a millisecond.
    let wake = p.next_send_time(at(0)).unwrap();
    assert_eq!(wake, at(12));
    assert!(p.poll(at(11)).is_none());
    assert!(p.poll(wake).is_some());
}

#[test]
fn audio_is_not_paced() {
    let config = PacerConfig { pacing_rate_bps: 8, ..PacerConfig::default() };
    let mut p = Pacer::new(config);
    for s in 0..5 {
        assert!(p.enqueue_packet(&audio(s, 200, &[0; 900]), at(0)));
    }
    for _ in 0..5 {
        assert!(p.poll(at(0)).is_some());
    }
    assert_eq!(p.queue().len(), 0);
    assert_eq!(p.queue_stats().dequeued, 5);
    p.set_config(PacerConfig { pacing_rate_bps: 77, ..config });
    assert_eq!(p.pacing_rate_bps(), 77);
}

#[test]
fn retransmissions() {
    assert_eq!(PacketHistory::new(DEFAULT_HISTORY_CAPACITY).len(), 0);
    let mut hist = PacketHistory::new(64);
    assert!(hist.is_empty());
    hist.set_rtt(Duration::from_millis(40));
    assert_eq!(hist.rtt(), Duration::from_millis(40));
    let wire = Bytes::from(video(10, 200, b"x").to_vec());
    hist.put(1, 10, wire, at(0), at(200));
    assert_eq!(hist.get_retransmission(1, 11, at(50)), RetransmitOutcome::NotFound);
    assert_eq!(hist.get_retransmission(1, 10, at(10)), RetransmitOutcome::TooSoon);
    match hist.get_retransmission(1, 10, at(50)) {
        RetransmitOutcome::Ready(out) => {
            let h = Header::decode(&out.wire).unwrap();
            assert!(h.flags.retrans);
            assert_eq!(h.media_seq, 10);
            assert_eq!(h.ttl_ms, 150);
            assert_eq!(out.priority, Priority::Retransmission);
            assert_eq!(&out.wire[20..], b"x");
        }
        other => panic!("{:?}", other),
    }
    assert_eq!(hist.get_retransmission(1, 10, at(50)), RetransmitOutcome::AlreadyPending);
    hist.mark_sent(1, 10, at(50));
    assert_eq!(hist.get_retransmission(1, 10, at(60)), RetransmitOutcome::TooSoon);
    assert_eq!(hist.get_retransmission(1, 10, at(200)), RetransmitOutcome::Expired);
    hist.cull(at(200));
    assert!(hist.is_empty());
}

#[test]
fn retransmissions_keep_to_the_budget() {
    let mut hist = PacketHistory::new(64);
    hist.set_rate_limiter(RetransRateLimiter::new(Duration::from_millis(500), 30));
    for s in 0..2u16 {
        let out = OutgoingPacket::from_packet(&video(s, 1000, b"x"), at(0)).unwrap();
        hist.put_outgoing(&out, at(0));
    }
    assert_eq!(hist.len(), 2);
    assert!(matches!(hist.get_retransmission(1, 0, at(200)), RetransmitOutcome::Ready(_)));
    assert_eq!(hist.get_retransmission(1, 1, at(200)), RetransmitOutcome::RateLimited);
    hist.rate_limiter_mut().unwrap().set_budget(100);
    assert!(matches!(hist.get_retransmission(1, 1, at(200)), RetransmitOutcome::Ready(_)));
    hist.clear_pending(1, 1);
    hist.clear_rate_limiter();
    assert!(hist.rate_limiter_mut().is_none());
}

#[test]
fn oldest_datagram_leaves_the_history() {
    let mut hist = PacketHistory::new(2);
    for s in 0..3u16 {
        hist.put(1, s, Bytes::from(video(s, 200, b"x").to_vec()), at(0), at(200));
    }
    assert_eq!(hist.len(), 2);
    assert_eq!(hist.get_retransmission(1, 0, at(150)), RetransmitOutcome::NotFound);
}

#[test]
fn limiter_windows() {
    let l = RetransRateLimiter::from_target_bps(800_000, Duration::from_millis(500));
    assert_eq!(l.budget_bytes(), 50_000);
    let mut l = RetransRateLimiter::new(Duration::from_millis(500), 50_000);
    assert!(l.try_consume(40_000, at(0)));
    assert!(!l.try_consume(20_000, at(0)));
    assert!(l.try_consume(10_000, at(500)));
}

#[test]
fn long_queue_raises_the_rate() {
    let config = PacerConfig { pacing_rate_bps: 8_000, ..PacerConfig::default() };
    let mut p = Pacer::new(config);
    let body = [0u8; 980];
    for s in 0..10 {
        assert!(p.enqueue_packet(&video(s, 60_000, &body), at(0)));
    }
    assert!(p.poll(at(0)).is_some());
    // Nine kilobytes within two seconds are 36 kbps: 4.5 bytes a millisecond
    // against a debt of 500 bytes and a budget of 180.
    assert!(p.poll(at(71)).is_none());
    assert!(p.poll(at(72)).is_some());
    assert_eq!(p.pacing_rate_bps(), 8_000);
}

#[test]
fn budget_slides_with_time() {
    let mut l = RetransRateLimiter::new(Duration::from_millis(500), 50_000);
    assert!(l.try_consume(10_000, at(0)));
    assert!(l.try_consume(40_000, at(499)));
    // What was granted at 499 ms is one millisecond old.
    assert!(!l.try_consume(50_000, at(500)));
    assert!(l.try_consume(10_000, at(500)));
    assert!(!l.try_consume(1, at(998)));
    assert!(l.try_consume(40_000, at(999)));
    assert!(!l.try_consume(1, at(999)));
    // A lower budget counts what was granted before.
    l.set_budget(45_000);
    assert!(!l.try_consume(6_000, at(1000)));
    assert!(l.try_consume(5_000, at(1000)));
}

#[test]
fn histories_can_be_copied() {
    let mut hist = PacketHistory::new(4);
    hist.put(1, 7, Bytes::from(video(7, 200, b"x").to_vec()), at(0), at(200));
    let mut kept = hist.clone();
    hist.cull(at(200));
    assert!(hist.is_empty());
    assert!(matches!(kept.get_retransmission(1, 7, at(150)), RetransmitOutcome::Ready(_)));
}
