use qrt::bwe::{
    send_side_pushback, BandwidthEstimator, BweConfig, NetworkState, TrendSignal,
    PROBE_MAX_BITRATE_BPS, PROBE_MIN_PACKETS,
};
use qrt::feedback::{PacketResult, TransportPacketsFeedback};
use qrt::time::{Duration, Instant};

fn at(ms: u64) -> Instant {
    Instant { nanos: 5_000_000_000 }.after(Duration::from_millis(ms))
}

fn report(n: u16, lost_every: u16) -> TransportPacketsFeedback {
    TransportPacketsFeedback {
        feedback_time: at(100),
        data_in_flight: 0,
        packets: (0..n)
            .map(|i| PacketResult {
                transport_seq: i,
                send_time: at(u64::from(i) * 20),
                size_bytes: 1000,
                receive_time: if lost_every > 0 && i % lost_every == 1 {
                    None
                } else {
                    Some(at(40 + u64::from(i) * 20))
                },
            })
            .collect(),
    }
}

#[test]
fn starts_at_the_start_rate() {
    let config = BweConfig::default();
    assert!(config.min_bitrate_bps < config.start_bitrate_bps);
    assert!(config.start_bitrate_bps < config.max_bitrate_bps);
    let b = BandwidthEstimator::new(config);
    assert_eq!(b.target_bitrate_bps(), 300_000);
    assert_eq!(b.network_state(), NetworkState::Normal);
}

#[test]
fn reports_are_counted() {
    let mut b = BandwidthEstimator::new(BweConfig::default());
    let (deltas, tally) = b.on_report(&report(10, 2), Duration::from_millis(50));
    assert_eq!((tally.received, tally.lost, tally.acked_bytes), (5, 5, 5000));
    assert_eq!(tally.span, Some(Duration::from_millis(160)));
    // Five groups of one; a sample needs two complete groups.
    assert_eq!(
        deltas,
        vec![(Duration::from_millis(40), Duration::from_millis(40)); 3]
    );
}

#[test]
fn loss_lowers_and_probes_raise() {
    let mut b = BandwidthEstimator::new(BweConfig::default());
    b.on_report(&report(4, 0), Duration::from_millis(50));
    assert!(b.apply_loss(at(0), Some(200_000)));
    assert_eq!(b.target_bitrate_bps(), 200_000);
    // Within 350 ms of the last cut nothing more is cut.
    b.on_report(&report(4, 0), Duration::from_millis(50));
    assert!(!b.apply_loss(at(349), Some(100_000)));
    assert!(b.apply_loss(at(350), Some(100_000)));
    b.on_probe_result(900_000, 850_000);
    assert_eq!(b.target_bitrate_bps(), 850_000);
    b.on_probe_result(900_000, 100_000);
    assert_eq!(b.target_bitrate_bps(), 850_000);
    let u = b.current_update(935_000, Vec::new());
    assert_eq!((u.target_bitrate_bps, u.pacing_rate_bps), (850_000, 935_000));
    assert_eq!(b.current_update(1, Vec::new()).pacing_rate_bps, 850_000);
}

#[test]
fn sustained_overuse_lowers_the_rate() {
    let mut b = BandwidthEstimator::new(BweConfig::default());
    assert_eq!(b.on_trend(TrendSignal::Above, Duration::from_millis(6)), NetworkState::Normal);
    assert_eq!(
        b.on_trend(TrendSignal::Above, Duration::from_millis(6)),
        NetworkState::Overusing
    );
    b.apply_aimd(at(0), 200_000, 500_000);
    assert_eq!(b.target_bitrate_bps(), 165_000);
    assert_eq!(
        b.on_trend(TrendSignal::Below, Duration::from_millis(6)),
        NetworkState::Underusing
    );
    b.apply_aimd(at(1), 2_000_000, 500_000);
    assert_eq!(b.target_bitrate_bps(), 165_000);
}

#[test]
fn normal_use_raises_the_rate_now_and_then() {
    let mut b = BandwidthEstimator::new(BweConfig::default());
    assert_eq!(b.growth_span(at(0)), Some(Duration::from_millis(1000)));
    b.apply_aimd(at(0), 300_000, 324_000);
    assert_eq!(b.target_bitrate_bps(), 324_000);
    assert_eq!(b.growth_span(at(199)), None);
    b.apply_aimd(at(199), 300_000, 400_000);
    assert_eq!(b.target_bitrate_bps(), 324_000);
    // At least a kilobit more, and at most half more than what arrives.
    b.apply_aimd(at(200), 300_000, 0);
    assert_eq!(b.target_bitrate_bps(), 325_000);
    b.apply_aimd(at(400), 300_000, 900_000);
    assert_eq!(b.target_bitrate_bps(), 460_000);
}

#[test]
fn probes_start_and_repeat_when_idle() {
    let mut b = BandwidthEstimator::new(BweConfig::default());
    let c = b.poll_probes(at(0), true);
    let rates: Vec<u64> = c.iter().map(|c| c.target_bps).collect();
    assert_eq!(rates, vec![900_000, 1_800_000, 600_000]);
    assert!(c.iter().all(|c| c.min_packets >= PROBE_MIN_PACKETS));
    assert!(c.iter().all(|c| c.target_bps <= PROBE_MAX_BITRATE_BPS));
    assert!(b.poll_probes(at(1), false).is_empty());
    assert!(b.poll_probes(at(4_999), true).is_empty());
    assert_eq!(b.poll_probes(at(5_000), true).len(), 1);
}

#[test]
fn bounds_hold_the_rate() {
    let mut b = BandwidthEstimator::new(BweConfig::default());
    b.set_config(BweConfig {
        start_bitrate_bps: 1,
        min_bitrate_bps: 10,
        max_bitrate_bps: 100_000,
    });
    assert_eq!(b.target_bitrate_bps(), 100_000);
}

#[test]
fn pushback() {
    let half = send_side_pushback(1_000_000, Duration::from_millis(800), 200_000, Some(100_000));
    assert_eq!(half, 375_000);
    assert_eq!(send_side_pushback(1_000_000, Duration::from_millis(300), 0, None), 900_000);
    assert_eq!(send_side_pushback(1_000_000, Duration::from_millis(250), 0, Some(0)), 1_000_000);
    assert_eq!(send_side_pushback(0, Duration::from_millis(0), 0, None), 1);
}

#[test]
fn polling_without_probes_needs_no_room_for_them() {
    let mut b = BandwidthEstimator::new(BweConfig::default());
    assert!(b.probes_due(at(0), false));
    assert_eq!(b.poll_probes(at(0), false).len(), 2);
    assert!(!b.probes_due(at(1), false));
    assert!(b.probes_due(at(1), true));
    b.set_config(BweConfig {
        start_bitrate_bps: PROBE_MAX_BITRATE_BPS + 1,
        min_bitrate_bps: PROBE_MAX_BITRATE_BPS + 1,
        max_bitrate_bps: PROBE_MAX_BITRATE_BPS + 1,
    });
    assert!(b.poll_probes(at(1), false).is_empty());
}
