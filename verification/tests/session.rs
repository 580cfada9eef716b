use bytes::Bytes;
use qrt::bwe::{NetworkState, TrendSignal};
use qrt::codec::{admit_frame, EncodedFrame, EncoderRateObserver, MediaKind, PushError};
use qrt::fragment::FragmentError;
use qrt::packet::{Flags, Header, Packet, PacketType};
use qrt::session::{QrtConfig, QrtError, Session, TrackConfig};
use qrt::time::{Duration, Instant};

fn at(ms: u64) -> Instant {
    Instant { nanos: 1_000_000_000 }.after(Duration::from_millis(ms))
}

fn video(stream_id: u8, keyframe: bool, payload: Vec<u8>) -> EncodedFrame {
    EncodedFrame::new(stream_id, 90_000, MediaKind::Video, keyframe, Bytes::from(payload))
}

/// Hands every datagram that may leave `from` at `now` to `to`.
fn carry(from: &mut Session, to: &mut Session, now: Instant, later: Instant) -> usize {
    let mut n = 0;
    while let Some(wire) = from.poll_datagram(now) {
        let r = to.handle_datagram(&wire, later);
        for f in r.frames {
            to.deliver_frame(f, later, Duration::from_millis(0));
        }
        n += 1;
    }
    n
}

#[test]
fn loopback_delivers_the_keyframe() {
    let mut sender = Session::new(QrtConfig::default());
    let mut receiver = Session::new(QrtConfig::default());
    sender.register_track(TrackConfig::video(0)).unwrap();
    receiver.register_track(TrackConfig::video(0)).unwrap();
    sender.enqueue_frame(&video(0, true, vec![7u8; 100]), at(0)).unwrap();
    assert!(carry(&mut sender, &mut receiver, at(0), at(5)) >= 1);
    let mut got = None;
    for ms in [0u64, 30, 60, 100, 150] {
        let now = at(5 + ms);
        if let Some((id, f)) = receiver.pump_inbound(now).pop() {
            assert_eq!(id, 0);
            got = Some(f);
            break;
        }
        carry(&mut receiver, &mut sender, now, now);
    }
    let frame = got.expect("receiver should emit the keyframe");
    assert_eq!(frame.payload.as_ref(), &[7u8; 100]);
    assert!(frame.keyframe);
}

#[test]
fn tracks_are_registered_once() {
    let mut s = Session::new(QrtConfig::default());
    assert_eq!(s.info().track_count, 0);
    assert_eq!(s.register_track(TrackConfig::video(0)), Ok(()));
    assert_eq!(s.register_track(TrackConfig::audio(1)), Ok(()));
    assert_eq!(s.info().track_count, 2);
    assert_eq!(
        s.register_track(TrackConfig::video(0)),
        Err(QrtError::TrackExists { stream_id: 0 })
    );
    assert!(s.has_track(1));
    assert!(s.remove_track(1));
    assert!(!s.remove_track(1));
    assert!(!s.has_track(1));
    assert_eq!(s.track_ids(), vec![0]);
}

#[test]
fn frames_are_refused() {
    let mut s = Session::new(QrtConfig::default());
    s.register_track(TrackConfig::video(0)).unwrap();
    assert_eq!(s.enqueue_frame(&video(0, true, vec![]), at(0)), Err(PushError::EmptyFrame));
    assert_eq!(
        s.enqueue_frame(&video(3, true, vec![1]), at(0)),
        Err(PushError::UnknownTrack { stream_id: 3 })
    );
}

#[test]
fn refused_frames_queue_nothing() {
    let mut s = Session::new(QrtConfig::default());
    s.register_track(TrackConfig::audio(1)).unwrap();
    assert_eq!(
        s.enqueue_frame(&video(1, true, vec![1]), at(0)),
        Err(PushError::KindMismatch {
            stream_id: 1,
            track: MediaKind::Audio,
            frame: MediaKind::Video
        })
    );
    let mut brief = EncodedFrame::new(1, 0, MediaKind::Audio, false, Bytes::from(vec![1]));
    brief.ttl_ms = Some(0);
    assert_eq!(s.enqueue_frame(&brief, at(0)), Ok(()));
    assert_eq!(s.info().queued_packets, 0);
    let mut config = QrtConfig::default();
    config.payload_limits.max_payload_len = 0;
    let mut s = Session::new(config);
    s.register_track(TrackConfig::video(0)).unwrap();
    assert_eq!(
        s.enqueue_frame(&video(0, true, vec![1]), at(0)),
        Err(PushError::Fragment(FragmentError::ImpossibleLimits))
    );
    assert_eq!(s.info().queued_packets, 0);
}

#[test]
fn large_frame_survives_the_loss_of_a_fragment() {
    let mut sender = Session::new(QrtConfig::default());
    let mut receiver = Session::new(QrtConfig::default());
    sender.register_track(TrackConfig::video(0)).unwrap();
    receiver.register_track(TrackConfig::video(0)).unwrap();
    let payload: Vec<u8> = (0..3000u32).map(|i| (i % 251) as u8).collect();
    let mut frame = video(0, true, payload.clone());
    frame.ttl_ms = Some(2000);
    sender.enqueue_frame(&frame, at(0)).unwrap();
    assert_eq!(sender.info().queued_packets, 4);
    let mut wires = Vec::new();
    for ms in 0..200 {
        while let Some(w) = sender.poll_datagram(at(ms)) {
            wires.push(w);
        }
    }
    let kinds: Vec<PacketType> =
        wires.iter().map(|w| Header::decode(w).unwrap().packet_type).collect();
    assert_eq!(
        kinds,
        vec![PacketType::Media, PacketType::Media, PacketType::Media, PacketType::Fec]
    );
    for (i, w) in wires.iter().enumerate() {
        assert_eq!(Header::decode(w).unwrap().transport_seq, i as u16);
    }
    assert!(sender.info().in_flight_bytes > 3000);
    let mut frames = Vec::new();
    for i in [3usize, 0, 2] {
        frames.extend(receiver.handle_datagram(&wires[i], at(300)).frames);
    }
    assert_eq!(frames.len(), 1);
    assert_eq!(frames[0].payload.as_ref(), payload.as_slice());
    assert!(receiver.handle_datagram(&wires[1], at(301)).frames.is_empty());
}

#[test]
fn missing_media_is_asked_for_and_sent_again() {
    let mut sender = Session::new(QrtConfig::default());
    let mut receiver = Session::new(QrtConfig::default());
    let mut config = TrackConfig::video(0);
    config.enable_fec = false;
    sender.register_track(config).unwrap();
    receiver.register_track(config).unwrap();
    sender.set_rtt(Duration::from_millis(5));
    receiver.set_rtt(Duration::from_millis(5));
    assert_eq!(sender.info().rtt, Duration::from_millis(5));
    let mut frame = video(0, true, vec![5u8; 2500]);
    frame.ttl_ms = Some(1000);
    sender.enqueue_frame(&frame, at(0)).unwrap();
    let mut wires = Vec::new();
    for ms in 0..100 {
        while let Some(w) = sender.poll_datagram(at(ms)) {
            wires.push(w);
        }
    }
    assert_eq!(wires.len(), 3);
    assert!(receiver.handle_datagram(&wires[0], at(100)).frames.is_empty());
    assert!(receiver.handle_datagram(&wires[2], at(100)).frames.is_empty());
    let mut asked = false;
    while let Some(w) = receiver.poll_datagram(at(101)) {
        asked = asked || Header::decode(&w).unwrap().packet_type == PacketType::Nack;
        sender.handle_datagram(&w, at(102));
    }
    assert!(asked);
    let again = sender.poll_datagram(at(150)).unwrap();
    let h = Header::decode(&again).unwrap();
    assert!(h.flags.retrans);
    assert_eq!((h.media_seq, h.transport_seq), (2, 3));
    let frames = receiver.handle_datagram(&again, at(160)).frames;
    assert_eq!(frames.len(), 1);
    assert_eq!(frames[0].payload.len(), 2500);
}

#[test]
fn more_than_a_block_of_fragments_is_protected() {
    let mut s = Session::new(QrtConfig::default());
    s.register_track(TrackConfig::video(0)).unwrap();
    s.enqueue_frame(&video(0, true, vec![1u8; 1200 * 50]), at(0)).unwrap();
    // Fifty fragments: twelve rows over the first 48, one over the other two.
    assert_eq!(s.info().queued_packets, 50 + 12 + 1);
}

#[test]
fn keyframe_requests_reach_the_encoder() {
    let mut sender = Session::new(QrtConfig::default());
    let mut receiver = Session::new(QrtConfig::default());
    sender.register_track(TrackConfig::video(2)).unwrap();
    receiver.register_track(TrackConfig::video(2)).unwrap();
    assert!(receiver.poll_frame(2, at(0)).is_none());
    assert!(receiver.poll_any_frame(at(0)).is_none());
    let wire = receiver.poll_datagram(at(0)).unwrap();
    assert_eq!(sender.handle_datagram(&wire, at(1)).keyframe_for, Some(2));
    sender.remove_track(2);
    assert_eq!(sender.handle_datagram(&wire, at(1)).keyframe_for, None);
}

#[test]
fn reports_give_the_round_trip_time() {
    let mut sender = Session::new(QrtConfig::default());
    let mut receiver = Session::new(QrtConfig::default());
    sender.register_track(TrackConfig::audio(1)).unwrap();
    receiver.register_track(TrackConfig::audio(1)).unwrap();
    let frame = EncodedFrame::new(1, 0, MediaKind::Audio, false, Bytes::from(vec![1; 10]));
    sender.enqueue_frame(&frame, at(0)).unwrap();
    let wire = sender.poll_datagram(at(0)).unwrap();
    assert_eq!(receiver.arrival_gap(1, at(20)), None);
    let mut frames = receiver.handle_datagram(&wire, at(20)).frames;
    receiver.deliver_frame(frames.pop().unwrap(), at(20), Duration::from_millis(0));
    assert_eq!(
        receiver.arrival_gap(1, at(25)),
        Some((Duration::from_millis(80), Duration::from_millis(5)))
    );
    let report = receiver.poll_datagram(at(20)).unwrap();
    let r = sender.handle_datagram(&report, at(41)).report.unwrap();
    assert_eq!((r.tally.received, r.tally.lost), (1, 0));
    assert_eq!(sender.info().rtt, Duration::from_millis(41));
    assert_eq!(sender.info().in_flight_bytes, 0);
    let out = receiver.pump_inbound(at(30));
    assert_eq!(out.len(), 1);
    assert_eq!(out[0].1.kind, MediaKind::Audio);
    assert!(!out[0].1.keyframe);
}

#[test]
fn rates_are_shared_among_tracks() {
    let mut s = Session::new(QrtConfig::default());
    s.register_track(TrackConfig::video(0)).unwrap();
    s.register_track(TrackConfig::video(1)).unwrap();
    s.register_track(TrackConfig::audio(2)).unwrap();
    assert_eq!(s.encoder_target(), 300_000);
    let mut rates = s.apply_rate_update(330_000);
    rates.sort_by_key(|r| r.stream_id);
    let got: Vec<(u8, u64)> = rates.iter().map(|r| (r.stream_id, r.target_bitrate_bps)).collect();
    assert_eq!(got, vec![(0, 135_000), (1, 135_000), (2, 30_000)]);
    assert_eq!(s.info().pacing_rate_bps, 330_000);
    s.apply_rate_update(1);
    assert_eq!(s.info().pacing_rate_bps, 300_000);
}

#[test]
fn rate_control_goes_through_the_session() {
    let mut s = Session::new(QrtConfig::default());
    assert_eq!(s.growth_span(at(0)), Some(Duration::from_millis(1000)));
    s.on_trend(TrendSignal::Within, Duration::from_millis(5));
    s.apply_aimd(at(0), 300_000, 310_000);
    assert!(s.apply_loss(at(0), None));
    assert_eq!(s.info().target_bitrate_bps, 310_000);
    assert_eq!(s.info().network, NetworkState::Normal);
}

#[test]
fn wait_is_told_only_when_there_is_one() {
    let mut s = Session::new(QrtConfig::default());
    assert_eq!(s.next_send_time(at(0)), None);
    s.register_track(TrackConfig::video(0)).unwrap();
    s.enqueue_frame(&video(0, true, vec![1u8; 4000]), at(0)).unwrap();
    assert_eq!(s.next_send_time(at(0)), None);
    while s.poll_datagram(at(0)).is_some() {}
    assert!(s.info().queued_packets > 0);
    let next = s.next_send_time(at(0)).unwrap();
    assert!(next.nanos > at(0).nanos);
    assert_eq!(s.next_wait(at(0)), next.saturating_duration_since(at(0)));
    assert_eq!(Session::new(QrtConfig::default()).next_wait(at(0)), Duration::from_millis(20));
}

#[test]
fn junk_is_ignored() {
    let mut s = Session::new(QrtConfig::default());
    let r = s.handle_datagram(b"junk", at(0));
    assert!(r.frames.is_empty());
    assert!(r.report.is_none());
    assert_eq!(r.keyframe_for, None);
}

#[test]
fn frames_are_admitted_for_their_track() {
    let f = EncodedFrame::new(0, 90_000, MediaKind::Audio, false, Bytes::from_static(b"opus"));
    assert!(f.ttl_ms.is_none());
    assert!(!f.is_video_keyframe());
    assert!(video(0, true, vec![1]).is_video_keyframe());
    assert_eq!(admit_frame(f.clone(), 4, MediaKind::Audio).unwrap().stream_id, 4);
    let e = admit_frame(f, 4, MediaKind::Video).unwrap_err();
    assert_eq!(e.message(), "kind mismatch on stream_id=4: track=Video frame=Audio");
    let e = admit_frame(video(0, true, vec![]), 4, MediaKind::Video).unwrap_err();
    assert_eq!(e.message(), "empty encoded frame");
    assert_eq!(EncoderRateObserver::new(3).into_inner(), 3);
}

#[test]
fn session_messages() {
    assert_eq!(
        PushError::Fragment(FragmentError::EmptyPayload).message(),
        "fragment: empty frame payload"
    );
    assert_eq!(
        PushError::UnknownTrack { stream_id: 3 }.message(),
        "unknown track stream_id=3"
    );
    assert_eq!(
        QrtError::TrackExists { stream_id: 255 }.message(),
        "track already exists stream_id=255"
    );
    assert_eq!(QrtError::UnknownTrack { stream_id: 0 }.message(), "unknown track stream_id=0");
}

#[test]
fn rebuilt_media_is_not_asked_for() {
    let mut sender = Session::new(QrtConfig::default());
    let mut receiver = Session::new(QrtConfig::default());
    sender.register_track(TrackConfig::video(0)).unwrap();
    receiver.register_track(TrackConfig::video(0)).unwrap();
    let mut frame = video(0, true, vec![8u8; 3000]);
    frame.ttl_ms = Some(2000);
    sender.enqueue_frame(&frame, at(0)).unwrap();
    let mut wires = Vec::new();
    for ms in 0..200 {
        while let Some(w) = sender.poll_datagram(at(ms)) {
            wires.push(w);
        }
    }
    receiver.set_rtt(Duration::from_millis(5));
    for i in [0usize, 2, 3] {
        receiver.handle_datagram(&wires[i], at(300));
    }
    for ms in 300..400 {
        while let Some(w) = receiver.poll_datagram(at(ms)) {
            assert_ne!(Header::decode(&w).unwrap().packet_type, PacketType::Nack);
        }
    }
}

#[test]
fn tracks_number_their_media_apart() {
    let mut s = Session::new(QrtConfig::default());
    s.register_track(TrackConfig::audio(1)).unwrap();
    s.register_track(TrackConfig::audio(2)).unwrap();
    for id in [1u8, 1, 2] {
        let f = EncodedFrame::new(id, 0, MediaKind::Audio, false, Bytes::from(vec![id]));
        s.enqueue_frame(&f, at(0)).unwrap();
    }
    let mut got = Vec::new();
    while let Some(w) = s.poll_datagram(at(0)) {
        let h = Header::decode(&w).unwrap();
        assert!(h.flags.audio);
        got.push((h.stream_id, h.media_seq, h.frame_id, h.transport_seq));
    }
    assert_eq!(got, vec![(1, 1, 1, 0), (1, 2, 2, 1), (2, 1, 1, 2)]);
}

#[test]
fn overdue_datagrams_never_leave() {
    let mut s = Session::new(QrtConfig::default());
    s.register_track(TrackConfig::audio(1)).unwrap();
    let f = EncodedFrame::new(1, 0, MediaKind::Audio, false, Bytes::from(vec![1]));
    s.enqueue_frame(&f, at(0)).unwrap();
    assert!(s.poll_datagram(at(200)).is_none());
    assert_eq!(s.info().queued_packets, 0);
}

#[test]
fn long_queue_lowers_the_encoders() {
    let mut s = Session::new(QrtConfig::default());
    s.register_track(TrackConfig::video(0)).unwrap();
    let rates = s.apply_rate_update(330_000);
    assert_eq!((rates.len(), rates[0].target_bitrate_bps), (1, 300_000));
    // Ten fragments and their parity take more than a quarter of a second.
    let mut frame = video(0, true, vec![1u8; 12_000]);
    frame.ttl_ms = Some(60_000);
    s.enqueue_frame(&frame, at(0)).unwrap();
    assert_eq!(s.encoder_target(), 270_000);
    // With three times as much, it is more than half a second.
    s.enqueue_frame(&frame, at(0)).unwrap();
    s.enqueue_frame(&frame, at(0)).unwrap();
    assert_eq!(s.encoder_target(), 225_000);
    assert_eq!(s.info().target_bitrate_bps, 225_000);
    assert_eq!(s.estimated_bitrate_bps(), 300_000);
    let rates = s.apply_rate_update(247_500);
    assert_eq!((rates.len(), rates[0].target_bitrate_bps), (1, 225_000));
    assert_eq!(s.info().pacing_rate_bps, 247_500);
    assert!(rates[0].target_bitrate_bps < s.estimated_bitrate_bps());
}

#[test]
fn full_window_lowers_the_encoders() {
    let mut s = Session::new(QrtConfig::default());
    s.register_track(TrackConfig::audio(1)).unwrap();
    s.set_congestion_window(Some(29));
    let f = EncodedFrame::new(1, 0, MediaKind::Audio, false, Bytes::from(vec![1; 10]));
    s.enqueue_frame(&f, at(0)).unwrap();
    assert_eq!(s.encoder_target(), 300_000);
    assert_eq!(s.poll_datagram(at(0)).unwrap().len(), 30);
    assert_eq!(s.info().in_flight_bytes, 30);
    assert_eq!(s.encoder_target(), 150_000);
    assert_eq!(s.info().target_bitrate_bps, 150_000);
    s.set_congestion_window(Some(30));
    assert_eq!(s.encoder_target(), 300_000);
    s.set_congestion_window(None);
    assert_eq!(s.encoder_target(), 300_000);
}

fn whole(stream_id: u8, ttl_ms: u16) -> Header {
    Header {
        packet_type: PacketType::Media,
        flags: Flags { key: true, ..Flags::default() },
        stream_id,
        media_seq: 1,
        transport_seq: 40,
        frame_id: 1,
        frag_index: 0,
        frag_count: 1,
        timestamp: 9,
        ttl_ms,
    }
}

#[test]
fn datagrams_without_lifetime_are_only_noted() {
    let mut s = Session::new(QrtConfig::default());
    s.register_track(TrackConfig::video(2)).unwrap();
    let dead = Packet::Media { header: whole(2, 0), payload: b"v" }.to_vec();
    assert!(s.handle_datagram(&dead, at(0)).frames.is_empty());
    let request = Packet::KeyframeReq {
        header: Header { packet_type: PacketType::KeyframeReq, transport_seq: 41, ..whole(2, 0) },
        stream_id: 2,
    };
    assert_eq!(s.handle_datagram(&request.to_vec(), at(0)).keyframe_for, None);
    let wire = s.poll_datagram(at(0)).unwrap();
    match Packet::decode(&wire).unwrap() {
        Packet::ArrivalFeedback { first_seq, received_mask, .. } => {
            assert_eq!((first_seq, received_mask), (40, 0b11));
        }
        other => panic!("{:?}", other),
    }
    // The same media with a lifetime is no copy of what was taken in.
    let live = Packet::Media { header: whole(2, 80), payload: b"v" }.to_vec();
    let frames = s.handle_datagram(&live, at(1)).frames;
    assert_eq!(frames.len(), 1);
    assert_eq!(frames[0].payload.as_ref(), b"v");
}

#[test]
fn numbers_run_round_the_circle() {
    let mut s = Session::new(QrtConfig::default());
    s.register_track(TrackConfig::audio(1)).unwrap();
    s.register_track(TrackConfig::video(2)).unwrap();
    let f = EncodedFrame::new(1, 0, MediaKind::Audio, false, Bytes::from(vec![1]));
    let mut n: usize = 0;
    while n < 65_600 {
        let now = at(n as u64 / 50);
        s.enqueue_frame(&f, now).unwrap();
        if n % 1000 == 0 {
            // Something of each kind leaves in between.
            assert!(s.poll_frame(2, now).is_none());
            s.enqueue_frame(&video(2, true, vec![3; 10]), now).unwrap();
        }
        while let Some(w) = s.poll_datagram(now) {
            assert_eq!(Header::decode(&w).unwrap().transport_seq as usize, n % 65_536);
            n += 1;
        }
    }
}

#[test]
fn audio_needs_no_distance_between_keyframe_requests() {
    let mut s = Session::new(QrtConfig::default());
    let mut config = TrackConfig::audio(1);
    config.video_jitter.keyframe_interval = Duration::from_millis(0);
    assert_eq!(s.register_track(config), Ok(()));
    assert!(s.has_track(1));
}

#[test]
fn too_much_missing_asks_for_a_keyframe() {
    let mut s = Session::new(QrtConfig::default());
    let mut config = TrackConfig::video(2);
    config.nack.max_list_size = 4;
    s.register_track(config).unwrap();
    for (media_seq, frame_id) in [(1u16, 1u32), (10, 2)] {
        let header = Header { media_seq, frame_id, transport_seq: media_seq, ..whole(2, 80) };
        s.handle_datagram(&Packet::Media { header, payload: b"v" }.to_vec(), at(0));
    }
    let mut asked = 0;
    for ms in [0u64, 20, 40] {
        while let Some(w) = s.poll_datagram(at(ms)) {
            match Packet::decode(&w).unwrap() {
                Packet::KeyframeReq { stream_id, .. } => {
                    assert_eq!((stream_id, ms), (2, 0));
                    asked += 1;
                }
                Packet::Nack { .. } => panic!("too much is missing to be asked for"),
                _ => {}
            }
        }
    }
    assert_eq!(asked, 1);
}
