use mindfry::bond::{Bond, BondGraph};
use mindfry::decay::{DecayConfig, DecayEngine, DecayLUT, RATE_BUCKETS, TIME_BUCKETS};
use mindfry::psyche::{Lineage, LineageId, PsycheArena};
use mindfry::setun::{Cortex, Octet, Trit, PRESERVATION};
use mindfry::synapse::{SynapseConfig, SynapseEngine};

const ONE: u32 = 1_000_000;

const TIME_BOUNDS_S: [f64; 32] = [
    0.0, 0.1, 0.2, 0.5, 1.0, 2.0, 5.0, 10.0, 20.0, 30.0, 60.0, 120.0, 300.0, 600.0, 900.0, 1800.0,
    3600.0, 7200.0, 14400.0, 21600.0, 43200.0, 86400.0, 172800.0, 259200.0, 432000.0, 604800.0,
    1209600.0, 2592000.0, 5184000.0, 7776000.0, 15552000.0, 31104000.0,
];

/// Rate of bucket `b` per second: 10^((b/255)*3 - 6).
fn bucket_rate(b: usize) -> f64 {
    10f64.powf((b as f64 / 255.0) * 3.0 - 6.0)
}

fn build_lut() -> DecayLUT {
    let mut factors = Vec::new();
    for b in 1..RATE_BUCKETS {
        for t in TIME_BOUNDS_S.iter() {
            factors.push(((-bucket_rate(b) * t).exp() * 1_000_000.0).round() as u32);
        }
    }
    let mut bounds = vec![0u32];
    for b in 1..RATE_BUCKETS {
        // lower edge of bucket b, in millionths per second
        bounds.push((10f64.powf(((b as f64 - 0.5) / 255.0) * 3.0 - 6.0) * 1_000_000.0).round() as u32);
    }
    DecayLUT::new(&factors, bounds).unwrap()
}

fn engine() -> DecayEngine {
    DecayEngine::new(DecayConfig::default(), build_lut(), 0)
}

fn setup_chain() -> (PsycheArena, BondGraph) {
    let mut psyche = PsycheArena::with_capacity(10);
    let mut bonds = BondGraph::with_capacity(10, 100);
    let a = psyche.allocate(Lineage::at(500_000, 500_000, 0, 0));
    let b = psyche.allocate(Lineage::at(100_000, 500_000, 0, 0));
    let c = psyche.allocate(Lineage::at(100_000, 500_000, 0, 0));
    let mut ab = Bond::at(a, b, ONE, 0);
    ab.polarity = Trit::True;
    bonds.connect(ab);
    let mut bc = Bond::at(b, c, ONE, 0);
    bc.polarity = Trit::True;
    bonds.connect(bc);
    (psyche, bonds)
}

#[test]
fn decay_test_decay_lut_creation() {
    let lut = build_lut();
    assert_eq!(lut.get(0, 0), ONE);
    assert!(DecayLUT::new(&vec![0; 3], vec![0; RATE_BUCKETS]).is_none());
}

#[test]
fn decay_test_decay_lut_zero_rate() {
    let lut = build_lut();
    assert_eq!(lut.get(0, 0), ONE);
    assert_eq!(lut.get(0, 3_600_000_000_000), ONE);
}

#[test]
fn decay_test_decay_lut_fast_decay() {
    let lut = build_lut();
    // 0.5 per second saturates to the fastest bucket
    let factor_1s = lut.get(500_000, 1_000_000_000);
    let factor_10s = lut.get(500_000, 10_000_000_000);
    assert!(factor_10s < factor_1s);
}

#[test]
fn lut_clamps_past_last_bound() {
    let lut = build_lut();
    let last = lut.get(1_000, 31_104_000 * 1_000_000_000);
    assert_eq!(lut.get(1_000, u64::MAX), last);
    assert!(last < ONE);
    // elapsed between bounds uses the lower bound: 1.5 s reads the 1 s bucket
    assert_eq!(lut.get(1_000, 1_500_000_000), lut.get(1_000, 1_000_000_000));
}

#[test]
fn lut_rejects_bad_tables() {
    let good = vec![ONE; (RATE_BUCKETS - 1) * TIME_BUCKETS];
    let mut too_big = good.clone();
    too_big[5] = ONE + 1;
    assert!(DecayLUT::new(&too_big, vec![1; RATE_BUCKETS]).is_none());
    let mut bounds = vec![1u32; RATE_BUCKETS];
    bounds[10] = 0;
    assert!(DecayLUT::new(&good, bounds).is_none());
    assert!(DecayLUT::new(&good, vec![1; RATE_BUCKETS]).is_some());
}

#[test]
fn decay_test_decay_engine_creation() {
    let engine = engine();
    assert!(engine.decay_factor(1_000, 0) > 990_000);
}

#[test]
fn decay_test_decay_tick() {
    let mut engine = engine();
    let mut psyche = PsycheArena::with_capacity(100);
    psyche.allocate(Lineage::new(500_000));
    psyche.allocate(Lineage::new(3_000));
    let factors = vec![ONE; psyche.slot_count()];
    let result = engine.tick_psyche(&psyche, &factors, 250_000_000);
    assert_eq!(result.processed, 2);
    assert_eq!(result.dead_count, 0);
    assert_eq!(result.elapsed_ms, 250);
    // a second tick measures from the first
    let faded = vec![300_000; psyche.slot_count()];
    let second = engine.tick_psyche(&psyche, &faded, 300_000_000);
    assert_eq!(second.elapsed_ms, 50);
    assert_eq!(second.dead_count, 1);
}

#[test]
fn prune_bonds_uses_configured_threshold() {
    let engine = engine();
    let mut bonds = BondGraph::with_capacity(4, 4);
    bonds.connect(Bond::at(LineageId(0), LineageId(1), 49_999, 0));
    bonds.connect(Bond::at(LineageId(0), LineageId(2), 50_000, 0));
    assert_eq!(engine.prune_bonds(&mut bonds, &vec![ONE, ONE]), 1);
    assert_eq!(bonds.len(), 1);
}

#[test]
fn batch_factors_give_observable_energies() {
    let engine = engine();
    let ls = [Lineage::at(800_000, 0, 0, 0), Lineage::at(400_000, 0, 0, 0)];
    assert_eq!(engine.batch_decay_factors(&ls, &vec![500_000, ONE]), vec![400_000, 400_000]);
}

#[test]
fn test_process_gc_with_retention() {
    let engine = engine();
    let mut psyche = PsycheArena::with_capacity(100);
    let mut personality = Octet::neutral();
    personality.set(PRESERVATION, Trit::True);
    let mut cortex = Cortex::new(personality);

    psyche.allocate(Lineage::new(900_000));
    psyche.allocate(Lineage::new(50_000));
    psyche.allocate(Lineage::new(30_000));
    let factors = vec![ONE; 3];

    let result1 = engine.process_gc(&mut psyche, &mut cortex, &factors);
    assert_eq!(result1.processed, 3);
    assert_eq!(result1.retained, 1);
    assert_eq!(result1.pending, 2);
    assert_eq!(result1.pruned, 0);
    assert_eq!(cortex.pending_removal_count(), 2);

    let result2 = engine.process_gc(&mut psyche, &mut cortex, &factors);
    assert_eq!(result2.pruned, 0);
    assert_eq!(result2.pending, 2);

    let result3 = engine.process_gc(&mut psyche, &mut cortex, &factors);
    assert_eq!(result3.pruned, 0);

    let result4 = engine.process_gc(&mut psyche, &mut cortex, &factors);
    assert_eq!(result4.pruned, 2);
    assert_eq!(result4.pending, 0);
    assert_eq!(psyche.len(), 1);
    assert_eq!(cortex.pending_removal_count(), 0);
}

#[test]
fn gc_reprieve_after_stimulation() {
    let engine = engine();
    let mut psyche = PsycheArena::with_capacity(4);
    let mut cortex = Cortex::new(Octet::neutral());
    let id = psyche.allocate(Lineage::at(50_000, 500_000, 0, 0));
    let factors = vec![ONE];
    assert_eq!(engine.process_gc(&mut psyche, &mut cortex, &factors).pending, 1);
    assert!(cortex.retention().is_pending(0));
    psyche.stimulate(id, 800_000, ONE, 1);
    let r = engine.process_gc(&mut psyche, &mut cortex, &factors);
    assert_eq!(r.retained, 1);
    assert!(!cortex.retention().is_pending(0));
    assert!(psyche.get(id).is_some());
}

#[test]
fn test_synergy_propagation() {
    let (mut psyche, bonds) = setup_chain();
    let engine = SynapseEngine::new();
    let factors = vec![ONE; 3];
    let affected = engine.propagate(&mut psyche, &bonds, LineageId(0), 1_000_000, &factors, 1);
    assert!(affected >= 1);
    let b = psyche.get(LineageId(1)).unwrap();
    assert!(b.energy > 100_000);
    let c = psyche.get(LineageId(2)).unwrap();
    assert!(c.energy > 100_000);
}

#[test]
fn propagation_chain_values() {
    let (mut psyche, bonds) = setup_chain();
    let engine = SynapseEngine::with_config(SynapseConfig::default());
    let factors = vec![ONE; 3];
    let (affected, visits) =
        engine.propagate_traced(&mut psyche, &bonds, LineageId(0), 1_000_000, &factors, 1);
    assert_eq!(psyche.get(LineageId(1)).unwrap().energy, 600_000);
    assert_eq!(psyche.get(LineageId(2)).unwrap().energy, 350_000);
    // B and C are each stimulated once; A started it and is not stimulated
    assert_eq!(affected, 2);
    assert_eq!(visits, 3);
}

#[test]
fn test_neutral_insulation() {
    let mut psyche = PsycheArena::with_capacity(10);
    let mut bonds = BondGraph::with_capacity(10, 100);
    let a = psyche.allocate(Lineage::at(500_000, 500_000, 0, 0));
    let b = psyche.allocate(Lineage::at(100_000, 500_000, 0, 0));
    let mut bond = Bond::at(a, b, ONE, 0);
    bond.polarity = Trit::Unknown;
    bonds.connect(bond);
    let engine = SynapseEngine::new();
    let affected = engine.propagate(&mut psyche, &bonds, a, 1_000_000, &vec![ONE; 2], 1);
    assert_eq!(affected, 0);
    assert_eq!(psyche.get(b).unwrap().energy, 100_000);
}

#[test]
fn test_antagonism_inhibition() {
    let mut psyche = PsycheArena::with_capacity(10);
    let mut bonds = BondGraph::with_capacity(10, 100);
    let a = psyche.allocate(Lineage::at(500_000, 500_000, 0, 0));
    let b = psyche.allocate(Lineage::at(800_000, 500_000, 0, 0));
    let mut bond = Bond::at(a, b, ONE, 0);
    bond.polarity = Trit::False;
    bonds.connect(bond);
    let engine = SynapseEngine::new();
    let before = psyche.get(LineageId(1)).unwrap().energy;
    engine.propagate(&mut psyche, &bonds, a, 1_000_000, &vec![ONE; 2], 1);
    let after = psyche.get(LineageId(1)).unwrap().energy;
    assert!(after < before);
    assert_eq!(after, 300_000);
}

#[test]
fn test_cutoff_stops_propagation() {
    let (mut psyche, bonds) = setup_chain();
    let engine = SynapseEngine::new();
    let affected = engine.propagate(&mut psyche, &bonds, LineageId(0), 50_000, &vec![ONE; 3], 1);
    assert_eq!(affected, 0);
}

#[test]
fn propagation_on_a_cycle_visits_each_once() {
    let mut psyche = PsycheArena::with_capacity(4);
    let mut bonds = BondGraph::with_capacity(4, 8);
    for _ in 0..4 {
        psyche.allocate(Lineage::at(0, 500_000, 0, 0));
    }
    for k in 0..4u32 {
        bonds.connect(Bond::at(LineageId(k), LineageId((k + 1) % 4), ONE, 0));
        bonds.connect(Bond::at(LineageId(k), LineageId((k + 2) % 4), ONE, 0));
    }
    let engine = SynapseEngine::with_config(SynapseConfig { resistance: 0, cutoff: 1, max_depth: 100 });
    let (_, visits) = engine.propagate_traced(&mut psyche, &bonds, LineageId(0), 1_000_000, &vec![ONE; 4], 1);
    assert!(visits <= psyche.len());
}

#[test]
fn depth_ceiling_stops_propagation() {
    let (mut psyche, bonds) = setup_chain();
    let engine = SynapseEngine::with_config(SynapseConfig { resistance: 500_000, cutoff: 100_000, max_depth: 1 });
    let affected = engine.propagate(&mut psyche, &bonds, LineageId(0), 1_000_000, &vec![ONE; 3], 1);
    assert_eq!(affected, 1);
    assert_eq!(psyche.get(LineageId(2)).unwrap().energy, 100_000);
}
