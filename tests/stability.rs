use mindfry::stability::{ExhaustionMonitor, ExhaustionTuner, TunerConfig};

fn now_secs() -> u64 {
    std::time::SystemTime::now().duration_since(std::time::UNIX_EPOCH).map(|d| d.as_secs()).unwrap_or(0)
}
use mindfry::stability::{
    decay_resistance, ExhaustionLevel, ExhaustionThresholds, RecoveryAnalyzer,
    RecoveryState, ShutdownMarker, ShutdownReason, ShutdownTracker, WarmupState, WarmupTracker,
    COMA, COMA_THRESHOLD_SECS, RESISTANCE_DECAY_RATE, SHOCK, SHUTDOWN_FORCED,
};

#[test]
fn test_warmup_state_transitions() {
    let mut tracker = WarmupTracker::new();
    assert_eq!(tracker.state(), WarmupState::Cold);
    assert!(tracker.is_ready());

    tracker.begin_resurrection();
    assert_eq!(tracker.state(), WarmupState::Resurrecting);
    assert!(!tracker.is_ready());

    tracker.mark_ready();
    assert_eq!(tracker.state(), WarmupState::Ready);
    assert!(tracker.is_ready());

    tracker.mark_cold();
    assert_eq!(tracker.state(), WarmupState::Cold);
}

#[test]
fn test_exhaustion_levels() {
    assert_eq!(ExhaustionLevel::from_energy(1_000_000), ExhaustionLevel::Normal);
    assert_eq!(ExhaustionLevel::from_energy(500_000), ExhaustionLevel::Elevated);
    assert_eq!(ExhaustionLevel::from_energy(200_000), ExhaustionLevel::Exhausted);
    assert_eq!(ExhaustionLevel::from_energy(50_000), ExhaustionLevel::Emergency);
}

#[test]
fn exhaustion_boundaries_are_exclusive() {
    let t = ExhaustionThresholds::default();
    assert_eq!(ExhaustionLevel::from_energy_with_thresholds(700_000, &t), ExhaustionLevel::Elevated);
    assert_eq!(ExhaustionLevel::from_energy_with_thresholds(700_001, &t), ExhaustionLevel::Normal);
    assert_eq!(ExhaustionLevel::from_energy_with_thresholds(100_000, &t), ExhaustionLevel::Emergency);
}

#[test]
fn test_write_permissions() {
    assert!(ExhaustionLevel::Normal.allows_writes());
    assert!(ExhaustionLevel::Elevated.allows_writes());
    assert!(!ExhaustionLevel::Exhausted.allows_writes());
    assert!(!ExhaustionLevel::Emergency.allows_writes());
}

#[test]
fn operations_rejected_only_in_emergency() {
    assert!(ExhaustionLevel::Normal.allows_operations());
    assert!(ExhaustionLevel::Exhausted.allows_operations());
    assert!(!ExhaustionLevel::Emergency.allows_operations());
}

#[test]
fn test_shutdown_intensity() {
    assert!(ShutdownReason::Graceful.intensity() < 200_000);
    assert!(ShutdownReason::Crash { message: "test".into() }.intensity() > 700_000);
}

#[test]
fn shutdown_keys_and_descriptions() {
    assert_eq!(ShutdownReason::Signal { signal: 15 }.lineage_key(), SHUTDOWN_FORCED);
    assert_eq!(ShutdownReason::Crash { message: "x".into() }.lineage_key(), SHOCK);
    assert_eq!(ShutdownReason::Coma { downtime_seconds: 9 }.lineage_key(), COMA);
    assert_eq!(ShutdownReason::Graceful.description(), "graceful shutdown");
    assert_eq!(ShutdownReason::Signal { signal: 15 }.description(), "forced (signal 15)");
    assert_eq!(ShutdownReason::Crash { message: "boom".into() }.description(), "crash: boom");
    assert_eq!(
        ShutdownReason::Coma { downtime_seconds: 4000 }.description(),
        "coma: 4000s downtime"
    );
}

#[test]
fn test_traumatic_detection() {
    let mut tracker = ShutdownTracker::default();
    tracker.record(ShutdownReason::Graceful, 1000);
    assert!(!tracker.was_traumatic());
    tracker.record(ShutdownReason::Crash { message: "panic".into() }, 2000);
    assert!(tracker.was_traumatic());
    assert_eq!(tracker.last_timestamp, Some(2000));
}

#[test]
fn test_recovery_state_intensity() {
    assert_eq!(RecoveryState::Normal.intensity(), 0);
    assert!(RecoveryState::Shock.intensity() > 0);
    assert!(RecoveryState::Coma.intensity() > RecoveryState::Shock.intensity());
    assert_eq!(RecoveryState::Shock.intensity(), 300_000);
    assert_eq!(RecoveryState::Coma.intensity(), 500_000);
}

#[test]
fn test_analyzer_no_marker() {
    let analyzer = RecoveryAnalyzer::new(None);
    assert_eq!(analyzer.analyze(), RecoveryState::Normal);
    assert_eq!(analyzer.downtime_secs(), 0);
}

#[test]
fn test_analyzer_graceful_marker() {
    let marker = ShutdownMarker { timestamp: now_secs() - 10, graceful: true, version: "test".into() };
    let analyzer = RecoveryAnalyzer::new(Some(marker));
    assert_eq!(analyzer.analyze(), RecoveryState::Normal);
}

#[test]
fn test_analyzer_shock() {
    let marker = ShutdownMarker { timestamp: now_secs() - 10, graceful: false, version: "test".into() };
    let analyzer = RecoveryAnalyzer::new(Some(marker));
    assert_eq!(analyzer.analyze(), RecoveryState::Shock);
}

#[test]
fn test_analyzer_coma() {
    let marker = ShutdownMarker {
        timestamp: now_secs() - COMA_THRESHOLD_SECS - 100,
        graceful: true,
        version: "test".into(),
    };
    let analyzer = RecoveryAnalyzer::new(Some(marker));
    assert_eq!(analyzer.analyze(), RecoveryState::Coma);
}

#[test]
fn shutdown_classification_at_fixed_times() {
    let now = 1_000_000;
    let m = |ts: u64, graceful: bool| ShutdownMarker { timestamp: ts, graceful, version: "v".into() };
    assert_eq!(RecoveryAnalyzer::at(Some(m(now - 10, true)), now).analyze(), RecoveryState::Normal);
    assert_eq!(RecoveryAnalyzer::at(Some(m(now - 10, false)), now).analyze(), RecoveryState::Shock);
    assert_eq!(RecoveryAnalyzer::at(Some(m(now - 3700, true)), now).analyze(), RecoveryState::Coma);
    assert_eq!(RecoveryAnalyzer::at(Some(m(now - 3600, true)), now).analyze(), RecoveryState::Normal);
    assert_eq!(RecoveryAnalyzer::at(Some(m(now - 3700, true)), now).downtime_secs(), 3700);
    // a marker from the future counts as no downtime
    assert_eq!(RecoveryAnalyzer::at(Some(m(now + 50, true)), now).downtime_secs(), 0);
}

#[test]
fn graceful_marker_is_graceful() {
    let m = ShutdownMarker::graceful();
    assert!(m.graceful);
    assert_eq!(m.version, "0.1.0");
}

#[test]
fn test_resistance_decay() {
    let resistance = 500_000;
    let decayed = decay_resistance(resistance, RESISTANCE_DECAY_RATE);
    assert!(decayed < resistance);
    assert!(decayed > 0);
    let zero = decay_resistance(5_000, RESISTANCE_DECAY_RATE);
    assert_eq!(zero, 0);
}

#[test]
fn test_tuner_warmup() {
    let mut tuner = ExhaustionTuner::new(TunerConfig { warmup_ticks: 5, ..TunerConfig::default() });
    assert!(!tuner.get_stats().is_warmed_up);
    for _ in 0..5 {
        tuner.observe(800_000);
    }
    assert!(tuner.get_stats().is_warmed_up);
}

#[test]
fn test_tuner_learns_pattern() {
    let mut tuner =
        ExhaustionTuner::new(TunerConfig { warmup_ticks: 10, window_size: 20, ..TunerConfig::default() });
    for _ in 0..20 {
        tuner.observe(850_000);
    }
    let stats = tuner.get_stats();
    assert!(stats.mean > 800_000);
    assert!(stats.std_dev < 100_000);
}

#[test]
fn tuner_thresholds_stay_in_bounds() {
    let mut tuner = ExhaustionTuner::new(TunerConfig { warmup_ticks: 3, window_size: 4, ..TunerConfig::default() });
    // before warmup: defaults
    assert_eq!(tuner.compute_threshold(), ExhaustionThresholds::default());
    for e in [1_000_000, 0, 1_000_000, 0, 500_000] {
        tuner.observe(e);
    }
    let t = tuner.compute_threshold();
    assert!(100_000 <= t.exhausted && t.exhausted <= t.elevated && t.elevated <= t.normal);
    assert!(t.normal <= 900_000);
    // first sample sets the mean; the second moves it by 2/(W+1) of the gap
    tuner.reset();
    tuner.observe(500_000);
    tuner.observe(1_000_000);
    assert_eq!(tuner.get_stats().mean, 700_000);
    assert_eq!(tuner.get_level(1_000_000), ExhaustionLevel::Normal);
}

#[test]
fn operation_cost_scales_with_write_and_depth() {
    let m = ExhaustionMonitor::default();
    assert_eq!(m.calculate_cost(false, 0), 1_000);
    assert_eq!(m.calculate_cost(true, 0), 2_000);
    assert_eq!(m.calculate_cost(true, 5), 3_000);
    assert_eq!(ExhaustionMonitor::new(7, 3).calculate_cost(false, 1), 3);
}

#[test]
fn tuned_thresholds_follow_mean_and_sigma() {
    let mut tuner = ExhaustionTuner::new(TunerConfig { warmup_ticks: 1, window_size: 1, ..TunerConfig::default() });
    // window 1: the mean jumps to each sample and the variance stays 0
    tuner.observe(800_000);
    assert_eq!(tuner.get_stats().std_dev, 0);
    let t = tuner.compute_threshold();
    assert_eq!(t, ExhaustionThresholds { normal: 800_000, elevated: 800_000, exhausted: 800_000 });
    assert_eq!(tuner.get_level(800_001), ExhaustionLevel::Normal);
    assert_eq!(tuner.get_level(800_000), ExhaustionLevel::Emergency);
}
