use mindfry::bond::{Bond, BondGraph};
use mindfry::psyche::{Lineage, LineageId, PsycheArena};
use mindfry::setun::Trit;
use mindfry::synapse::SynapseEngine;

const ONE: u32 = 1_000_000;

/// exp(-rate * seconds) in millionths.
fn factor(rate_per_s: f64, seconds: f64) -> u32 {
    ((-rate_per_s * seconds).exp() * 1_000_000.0).round() as u32
}

#[test]
fn decay_stimulate_retain() {
    let t0 = 1_000_000_000_000u64;
    let mut arena = PsycheArena::with_capacity(4);
    let id = arena.allocate(Lineage::at(600_000, 500_000, 100_000, t0));
    let f = factor(0.1, 5.0);
    let seen = arena.get(id).unwrap().current_energy(f);
    assert!((seen as f64 / 1e6 - 0.364).abs() < 0.001);
    assert!(seen < 500_000);
    let t5 = t0 + 5_000_000_000;
    assert!(arena.stimulate(id, 300_000, f, t5));
    let l = arena.get(id).unwrap();
    assert!((l.current_energy(ONE) as f64 / 1e6 - 0.664).abs() < 0.001);
    assert!(l.is_conscious());
}

#[test]
fn stimulate_then_read_is_clamped_sum() {
    let mut l = Lineage::at(700_000, 500_000, 0, 0);
    let before = l.current_energy(800_000);
    l.stimulate(-100_000, 800_000, 10);
    assert_eq!(l.current_energy(ONE), before - 100_000);
    l.stimulate(2_000_000, ONE, 11);
    assert_eq!(l.current_energy(ONE), ONE);
}

#[test]
fn observable_energy_does_not_grow_with_time() {
    let l = Lineage::at(900_000, 0, 200_000, 0);
    let mut last = u32::MAX;
    for s in 0..20 {
        let e = l.current_energy(factor(0.2, s as f64));
        assert!(e <= last);
        last = e;
    }
}

#[test]
fn bond_propagation_chain() {
    let mut psyche = PsycheArena::with_capacity(3);
    let mut bonds = BondGraph::with_capacity(3, 4);
    let a = psyche.allocate(Lineage::at(500_000, 500_000, 0, 0));
    let b = psyche.allocate(Lineage::at(100_000, 500_000, 0, 0));
    let c = psyche.allocate(Lineage::at(100_000, 500_000, 0, 0));
    bonds.connect(Bond::at(a, b, ONE, 0));
    bonds.connect(Bond::at(b, c, ONE, 0));
    let affected = SynapseEngine::new().propagate(&mut psyche, &bonds, a, 1_000_000, &vec![ONE; 3], 1);
    assert_eq!(psyche.get(b).unwrap().energy, 600_000);
    assert_eq!(psyche.get(c).unwrap().energy, 350_000);
    assert_eq!(affected, 2);
    assert_eq!(psyche.get(a).unwrap().energy, 500_000);
}

#[test]
fn neutral_insulator() {
    let mut psyche = PsycheArena::with_capacity(2);
    let mut bonds = BondGraph::with_capacity(2, 2);
    let a = psyche.allocate(Lineage::at(500_000, 500_000, 0, 0));
    let b = psyche.allocate(Lineage::at(100_000, 500_000, 0, 0));
    let mut bond = Bond::at(a, b, ONE, 0);
    bond.polarity = Trit::Unknown;
    bonds.connect(bond);
    let affected = SynapseEngine::new().propagate(&mut psyche, &bonds, a, 1_000_000, &vec![ONE; 2], 1);
    assert_eq!(affected, 0);
    assert_eq!(psyche.get(b).unwrap().energy, 100_000);
}

#[test]
fn antagonism_inhibits() {
    let mut psyche = PsycheArena::with_capacity(2);
    let mut bonds = BondGraph::with_capacity(2, 2);
    let a = psyche.allocate(Lineage::at(500_000, 500_000, 0, 0));
    let b = psyche.allocate(Lineage::at(800_000, 500_000, 0, 0));
    let mut bond = Bond::at(a, b, ONE, 0);
    bond.polarity = Trit::False;
    bonds.connect(bond);
    SynapseEngine::new().propagate(&mut psyche, &bonds, a, 1_000_000, &vec![ONE; 2], 1);
    assert!(psyche.get(b).unwrap().current_energy(ONE) < 800_000);
}

#[test]
fn alloc_then_get_and_fresh_ids() {
    let mut arena = PsycheArena::with_capacity(2);
    let a = arena.allocate(Lineage::new(1));
    let b = arena.allocate(Lineage::new(2));
    assert!(arena.get(a).unwrap().is_active());
    assert!(arena.get(b).unwrap().is_active());
    arena.free(a);
    assert!(arena.get(a).is_none());
    let c = arena.allocate(Lineage::new(3));
    assert_eq!(c, a);
    let d = arena.allocate(Lineage::new(4));
    assert_eq!(d, LineageId(2));
}

#[test]
fn find_bond_is_symmetric() {
    let mut g = BondGraph::with_capacity(5, 8);
    g.connect(Bond::at(LineageId(0), LineageId(1), 1, 0));
    g.connect(Bond::at(LineageId(2), LineageId(1), 1, 0));
    g.connect(Bond::at(LineageId(1), LineageId(2), 1, 0));
    for x in 0..5 {
        for y in 0..5 {
            assert_eq!(g.find_bond(LineageId(x), LineageId(y)), g.find_bond(LineageId(y), LineageId(x)));
        }
    }
}
