use bytes::Bytes;
use qrt::jitter::{
    AudioDecision, AudioJitterConfig, AudioNetEq, AudioPacket, VideoFrameBuffer,
    VideoJitterConfig, VideoPoll,
};
use qrt::nack::{NackBatch, NackConfig, NackRequester};
use qrt::packet::{Flags, Packet};
use qrt::reassembly::AssembledFrame;
use qrt::time::{Duration, Instant};

fn at(ms: u64) -> Instant {
    Instant { nanos: 5_000_000_000 }.after(Duration::from_millis(ms))
}

fn none() -> Duration {
    Duration::from_millis(0)
}

fn frame(id: u32, key: bool) -> AssembledFrame {
    AssembledFrame {
        stream_id: 0,
        frame_id: id,
        timestamp: id * 3000,
        flags: Flags { key, ..Flags::default() },
        first_media_seq: Some(id as u16),
        payload: Bytes::from_static(b"v"),
    }
}

fn sound(timestamp: u32, ms: u64) -> AudioPacket {
    AudioPacket {
        stream_id: 0,
        timestamp,
        payload: Bytes::from_static(b"a"),
        arrived_at: at(ms),
    }
}

#[test]
fn gaps_are_asked_for() {
    let mut nack = NackRequester::new(1, NackConfig::default());
    assert_eq!(nack.stream_id(), 1);
    assert_eq!(nack.pending_count(), 0);
    nack.set_rtt(Duration::from_millis(40));
    assert_eq!(nack.on_received(10, at(0)).nacks_cleared, 0);
    nack.on_received(13, at(0));
    assert_eq!(nack.pending_count(), 2);
    let batch = nack.process(at(0));
    assert_eq!(batch.entries, vec![(11, 0b1)]);
    assert!(!batch.ask_keyframe);
    assert_eq!(nack.on_received(11, at(5)).nacks_cleared, 1);
    assert_eq!(nack.process(at(40)).entries, vec![(12, 0)]);
}

#[test]
fn requests_are_a_round_trip_apart() {
    let mut nack = NackRequester::new(0, NackConfig::default());
    nack.set_rtt(Duration::from_millis(30));
    nack.on_received(1, at(0));
    nack.on_received(3, at(0));
    assert_eq!(nack.process(at(0)).entries, vec![(2, 0)]);
    assert!(nack.process(at(10)).entries.is_empty());
    assert_eq!(nack.process(at(30)).entries.len(), 1);
    nack.clear();
    assert_eq!(nack.pending_count(), 0);
}

#[test]
fn too_many_gaps_ask_for_a_keyframe() {
    let config = NackConfig { max_list_size: 4, ..NackConfig::default() };
    let mut nack = NackRequester::new(0, config);
    nack.on_received(0, at(0));
    assert!(nack.on_received(10, at(0)).ask_keyframe);
    assert_eq!(nack.pending_count(), 0);
}

#[test]
fn given_up_numbers_ask_for_a_keyframe() {
    let config = NackConfig {
        max_retries: 1,
        packet_lifetime: Duration::from_millis(10_000),
        ..NackConfig::default()
    };
    let mut nack = NackRequester::new(0, config);
    nack.set_rtt(Duration::from_millis(1));
    nack.on_received(0, at(0));
    nack.on_received(2, at(0));
    assert_eq!(nack.process(at(0)).entries.len(), 1);
    let batch = nack.process(at(10));
    assert!(batch.entries.is_empty());
    assert!(batch.ask_keyframe);
    assert_eq!(nack.pending_count(), 0);
}

#[test]
fn batches_become_packets() {
    let batch = NackBatch { entries: vec![(10, 0b1)], ask_keyframe: false };
    let pkts = batch.to_packets(1, 50);
    assert_eq!(pkts.len(), 1);
    match &pkts[0] {
        Packet::Nack { header, base_seq, blp, frame_id } => {
            assert_eq!((*base_seq, *blp, *frame_id), (10, 0b1, None));
            assert_eq!((header.stream_id, header.ttl_ms), (1, 50));
        }
        _ => panic!("expected a request"),
    }
    assert!(NackBatch::default().to_packets(0, 1).is_empty());
}

#[test]
fn keyframe_is_decoded_at_once_and_late_frames_are_dropped() {
    let config = VideoJitterConfig {
        max_delay: Duration::from_millis(80),
        ..VideoJitterConfig::default()
    };
    let mut buf = VideoFrameBuffer::new(0, config);
    assert!(buf.keyframe_required());
    buf.push(frame(0, true), at(0), none());
    assert_eq!(buf.len(), 1);
    assert!(matches!(buf.poll(at(0), true), VideoPoll::Decode(f) if f.frame_id == 0));
    assert!(!buf.keyframe_required());
    buf.push(frame(1, false), at(10), none());
    buf.push(frame(2, false), at(20), none());
    assert!(matches!(
        buf.poll(at(500), true),
        VideoPoll::DroppedLate { frame_id: 1, .. }
    ));
    assert!(buf.keyframe_required());
}

#[test]
fn stalled_video_asks_for_a_keyframe_now_and_then() {
    let mut buf = VideoFrameBuffer::new(3, VideoJitterConfig::default());
    assert_eq!(buf.stream_id(), 3);
    assert!(matches!(buf.poll(at(0), true), VideoPoll::KeyframeReq { stream_id: 3 }));
    assert!(matches!(buf.poll(at(1), true), VideoPoll::Wait));
    match buf.keyframe_packet(50) {
        Packet::KeyframeReq { stream_id, .. } => assert_eq!(stream_id, 3),
        _ => panic!("expected a request"),
    }
    buf.reset(at(2));
    assert!(buf.is_empty());
}

#[test]
fn smoothed_gaps_move_the_delay() {
    let mut buf = VideoFrameBuffer::new(0, VideoJitterConfig::default());
    assert_eq!(buf.jitter_inputs(at(0)), None);
    buf.push(frame(1, true), at(0), none());
    assert_eq!(
        buf.jitter_inputs(at(30)),
        Some((Duration::from_millis(30), Duration::from_millis(30)))
    );
    let before = buf.target_delay();
    buf.push(frame(2, false), at(30), Duration::from_millis(90));
    assert!(buf.target_delay().nanos > before.nanos);
}

#[test]
fn audio_ticks() {
    let mut n = AudioNetEq::new(0, AudioJitterConfig::default());
    assert_eq!(n.stream_id(), 0);
    n.push(sound(0, 0), none());
    let tick = n.get_decision(at(10));
    assert!(tick.packet.is_some());
    assert_ne!(tick.decision, AudioDecision::Expand);
    let plc = n.get_decision(at(20));
    assert_eq!(plc.decision, AudioDecision::Expand);
    assert!(plc.packet.is_none());
}

#[test]
fn audio_plays_in_order_of_timestamps() {
    let config = AudioJitterConfig { max_packets: 3, ..AudioJitterConfig::default() };
    let mut n = AudioNetEq::new(0, config);
    for t in [960u32, 0, 1440, 480] {
        n.push(sound(t, 1), none());
    }
    assert_eq!(n.len(), 3);
    let mut order = Vec::new();
    while let Some(p) = n.get_decision(at(5)).packet {
        order.push(p.timestamp);
    }
    assert_eq!(order, vec![480, 960, 1440]);
    n.push(sound(u32::MAX, 6), none());
    n.push(sound(1, 6), none());
    assert_eq!(n.get_decision(at(7)).packet.unwrap().timestamp, u32::MAX);
}

#[test]
fn full_audio_buffer_plays_faster() {
    let mut n = AudioNetEq::new(0, AudioJitterConfig::default());
    for i in 0..20u32 {
        n.push(sound(i * 480, 0), none());
    }
    assert_eq!(n.get_decision(at(1)).decision, AudioDecision::Accelerate);
}

#[test]
fn delay_stays_within_bounds() {
    let mut buf = VideoFrameBuffer::new(0, VideoJitterConfig::default());
    assert_eq!(buf.target_delay(), Duration::from_millis(45));
    buf.push(frame(1, true), at(0), none());
    buf.push(frame(2, false), at(1), none());
    assert_eq!(buf.target_delay(), Duration::from_millis(20));
    buf.push(frame(3, false), at(2), Duration::from_millis(900));
    assert_eq!(buf.target_delay(), Duration::from_millis(200));
}

#[test]
fn delta_frames_wait_for_their_predecessor() {
    let mut buf = VideoFrameBuffer::new(0, VideoJitterConfig::default());
    buf.push(frame(5, true), at(0), none());
    buf.push(frame(7, false), at(0), none());
    assert!(matches!(buf.poll(at(0), true), VideoPoll::Decode(f) if f.frame_id == 5));
    assert!(!matches!(buf.poll(at(0), true), VideoPoll::Decode(_)));
    let mut buf = VideoFrameBuffer::new(0, VideoJitterConfig::default());
    buf.push(frame(6, false), at(0), none());
    buf.push(frame(5, true), at(0), none());
    assert!(matches!(buf.poll(at(0), true), VideoPoll::Decode(f) if f.frame_id == 5));
    // The delay is 45 ms for the first frame and 20 ms for the second.
    assert_eq!(buf.poll(at(0), true), VideoPoll::Wait);
    assert!(matches!(buf.poll(at(40), true), VideoPoll::Decode(f) if f.frame_id == 6));
}

#[test]
fn frames_are_held_until_their_deadline_is_near() {
    let mut buf = VideoFrameBuffer::new(0, VideoJitterConfig::default());
    buf.push(frame(0, true), at(0), none());
    // The keyframe to begin with does not wait.
    assert!(matches!(buf.poll(at(0), true), VideoPoll::Decode(f) if f.frame_id == 0));
    buf.push(frame(1, false), at(10), Duration::from_millis(30));
    // Its deadline is at 55 ms, with a grace of 5 ms.
    assert_eq!(buf.poll(at(10), true), VideoPoll::Wait);
    assert_eq!(buf.poll(at(49), true), VideoPoll::Wait);
    assert_eq!(buf.len(), 1);
    assert!(matches!(buf.poll(at(50), true), VideoPoll::Decode(f) if f.frame_id == 1));
    // A later keyframe waits too.
    buf.push(frame(2, true), at(60), Duration::from_millis(30));
    assert_eq!(buf.poll(at(60), true), VideoPoll::Wait);
    assert!(matches!(buf.poll(at(100), true), VideoPoll::Decode(f) if f.frame_id == 2));
}

#[test]
fn frames_do_not_wait_without_a_least_delay() {
    let config = VideoJitterConfig { min_delay: none(), ..VideoJitterConfig::default() };
    let mut buf = VideoFrameBuffer::new(0, config);
    buf.push(frame(0, true), at(0), none());
    assert!(matches!(buf.poll(at(0), true), VideoPoll::Decode(f) if f.frame_id == 0));
    buf.push(frame(1, false), at(10), Duration::from_millis(30));
    assert!(matches!(buf.poll(at(10), true), VideoPoll::Decode(f) if f.frame_id == 1));
}

#[test]
fn dropped_keyframe_was_not_decoded() {
    let mut buf = VideoFrameBuffer::new(0, VideoJitterConfig::default());
    buf.push(frame(0, true), at(0), none());
    assert!(matches!(buf.poll(at(0), true), VideoPoll::Decode(f) if f.frame_id == 0));
    buf.push(frame(5, true), at(10), none());
    buf.push(frame(6, false), at(400), none());
    assert!(matches!(buf.poll(at(420), true), VideoPoll::DroppedLate { frame_id: 5, .. }));
    assert!(buf.keyframe_required());
    // What follows the dropped keyframe cannot be decoded.
    assert_eq!(buf.poll(at(420), true), VideoPoll::KeyframeReq { stream_id: 0 });
    assert_eq!(buf.poll(at(425), true), VideoPoll::Wait);
    buf.push(frame(7, true), at(425), none());
    assert!(matches!(buf.poll(at(425), true), VideoPoll::Decode(f) if f.frame_id == 7));
}

#[test]
fn receivers_can_be_copied() {
    let mut nack = NackRequester::new(1, NackConfig::default());
    nack.on_received(1, at(0));
    nack.on_received(3, at(0));
    let kept = nack.clone();
    nack.clear();
    assert_eq!((nack.pending_count(), kept.pending_count()), (0, 1));
    let mut video = VideoFrameBuffer::new(0, VideoJitterConfig::default());
    video.push(frame(1, true), at(0), none());
    let kept = video.clone();
    video.reset(at(1));
    assert_eq!((video.len(), kept.len()), (0, 1));
    let mut audio = AudioNetEq::new(0, AudioJitterConfig::default());
    let kept = audio.clone();
    audio.push(sound(960, 0), none());
    assert_eq!((audio.len(), kept.len()), (1, 0));
}
