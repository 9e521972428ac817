use mindfry::bond::Bond;
use mindfry::decay::{DecayConfig, DecayLUT, RATE_BUCKETS, TIME_BUCKETS};
use mindfry::engine::{MindFry, MindFryConfig};
use mindfry::psyche::{Lineage, LineageId, PsycheArena};
use mindfry::snapshot::{
    bond_records, newest, psyche_records, restore_bonds, restore_psyche, snapshot_key, SnapshotMeta,
};
use mindfry::stability::{
    HealthStatus, RecoveryState, SelfDiagnostic, COMA, HEALTH, INSTABILITY, RESISTANCE, SHOCK, STATE,
};

const ONE: u32 = 1_000_000;

fn flat_lut() -> DecayLUT {
    DecayLUT::new(&vec![ONE; (RATE_BUCKETS - 1) * TIME_BUCKETS], vec![1; RATE_BUCKETS]).unwrap()
}

fn small() -> MindFryConfig {
    MindFryConfig { max_lineages: 64, max_bonds: 64, strata_depth: 4, decay: DecayConfig::default() }
}

#[test]
fn test_create_mindfry() {
    let db = MindFry::with_config(small(), flat_lut(), 0);
    assert_eq!(db.psyche.len(), 0);
    assert_eq!(db.bonds.len(), 0);
}

#[test]
fn default_config_sizes() {
    let c = MindFryConfig::default();
    assert_eq!(c.max_lineages, 1 << 20);
    assert_eq!(c.max_bonds, 1 << 22);
    assert_eq!(c.strata_depth, 64);
}

#[test]
fn bootstrap_creates_system_lineages_once() {
    let mut db = MindFry::with_config(small(), flat_lut(), 0);
    db.bootstrap_system_lineages();
    assert_eq!(db.psyche.len(), 3);
    assert_eq!(db.get_system_energy(HEALTH, ONE), Some(ONE));
    assert_eq!(db.get_system_energy(STATE, ONE), Some(ONE));
    assert_eq!(db.get_system_energy(RESISTANCE, ONE), Some(ONE / 2));
    db.bootstrap_system_lineages();
    assert_eq!(db.psyche.len(), 3);
    assert_eq!(db.get_system_energy("_system.unknown", ONE), None);
}

#[test]
fn stimulate_system_lineage() {
    let mut db = MindFry::with_config(small(), flat_lut(), 0);
    db.bootstrap_system_lineages();
    assert!(db.stimulate_system(RESISTANCE, 200_000, ONE, 5));
    assert_eq!(db.get_system_energy(RESISTANCE, ONE), Some(700_000));
    assert!(!db.stimulate_system("_system.missing", 1, ONE, 5));
}

#[test]
fn test_health_status() {
    assert_eq!(HealthStatus::from_energy(1_000_000), HealthStatus::Healthy);
    assert_eq!(HealthStatus::from_energy(500_000), HealthStatus::Degraded);
    assert_eq!(HealthStatus::from_energy(100_000), HealthStatus::Unhealthy);
}

#[test]
fn test_pulse_timing() {
    let mut diag = SelfDiagnostic::new(100_000, 3);
    assert!(!diag.should_pulse());
    assert!(!diag.should_pulse());
    assert!(diag.should_pulse());
    assert!(!diag.should_pulse());
    assert_eq!(diag.pulse_delta(), 100_000);
}

#[test]
fn snapshot_round_trip_keeps_ids_and_bonds() {
    let mut psyche = PsycheArena::with_capacity(8);
    let a = psyche.allocate(Lineage::at(100_000, 500_000, 10, 1));
    let b = psyche.allocate(Lineage::at(200_000, 500_000, 20, 2));
    let c = psyche.allocate(Lineage::at(300_000, 500_000, 30, 3));
    psyche.free(b);
    let mut bonds = mindfry::bond::BondGraph::with_capacity(8, 8);
    let x = bonds.connect(Bond::at(a, c, 900_000, 0)).unwrap();
    bonds.connect(Bond::at(c, a, 100_000, 0));
    bonds.disconnect(x);
    bonds.connect(Bond::at(a, LineageId(5), 400_000, 0));

    let recs = psyche_records(&psyche);
    let restored = restore_psyche(&recs, 8).unwrap();
    for id in 0..4 {
        let id = LineageId(id);
        assert_eq!(restored.get(id), psyche.get(id));
    }
    assert_eq!(restored.len(), 2);

    let brecs = bond_records(&bonds);
    let rb = restore_bonds(&brecs, 8, 8);
    assert_eq!(bond_records(&rb), brecs);
    assert_eq!(rb.len(), 2);
}

#[test]
fn restore_rejects_repeated_ids() {
    let l = Lineage::at(1, 1, 1, 1);
    assert!(restore_psyche(&vec![(LineageId(1), l), (LineageId(1), l)], 4).is_none());
    assert!(restore_psyche(&vec![(LineageId(0xFFFF_FFFE), l)], 4).is_none());
}

#[test]
fn snapshot_keys_sort_by_id() {
    assert_eq!(snapshot_key(0x0102_0304_0506_0708), vec![1, 2, 3, 4, 5, 6, 7, 8]);
    assert!(snapshot_key(255) < snapshot_key(256));
}

#[test]
fn newest_snapshot_has_greatest_id() {
    let m = |id: u64| SnapshotMeta {
        id,
        name: None,
        created_at: 0,
        lineage_count: 0,
        bond_count: 0,
        size_bytes: 0,
        version: "v".to_string(),
    };
    assert_eq!(newest(&vec![]), None);
    assert_eq!(newest(&vec![m(5), m(9), m(7)]), Some(1));
}

#[test]
fn store_config_defaults() {
    let c = mindfry::snapshot::AkashicConfig::default();
    assert_eq!(c.path, "./mindfry_data");
    assert!(!c.sync_writes);
    assert_eq!(c.cache_size, 64 * 1024 * 1024);
}

#[test]
fn recovery_stimulates_trauma_lineages() {
    let mut db = MindFry::with_config(small(), flat_lut(), 0);
    db.bootstrap_system_lineages();
    let factors = vec![ONE; db.psyche.slot_count()];
    db.apply_recovery(RecoveryState::Normal, &factors, 1);
    assert_eq!(db.psyche.len(), 3);
    db.apply_recovery(RecoveryState::Shock, &factors, 1);
    assert_eq!(db.get_system_energy(SHOCK, ONE), Some(300_000));
    assert_eq!(db.get_system_energy(INSTABILITY, ONE), Some(300_000));
    assert_eq!(db.get_system_energy(RESISTANCE, ONE), Some(800_000));
    assert_eq!(db.get_system_energy(COMA, ONE), None);
}

#[test]
fn key_binding_and_lookup() {
    let mut db = MindFry::with_config(small(), flat_lut(), 0);
    assert_eq!(db.lookup_key("user.key"), None);
    let id = db.psyche.allocate(Lineage::new(1));
    db.bind_key("user.key", id);
    assert_eq!(db.lookup_key("user.key"), Some(id));
    db.bootstrap_system_lineages();
    assert!(db.lookup_key(HEALTH).is_some());
}

#[test]
fn cortex_entries_can_be_restored() {
    let mut c = mindfry::setun::Cortex::with_threshold(mindfry::setun::Octet::neutral(), 250_000);
    assert_eq!(c.threshold(), 250_000);
    c.set_pending(7, 2);
    assert_eq!(c.retention().remaining_ttl(7), Some(2));
    assert_eq!(c.pending_removal_count(), 1);
}
