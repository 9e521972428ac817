use mindfry::psyche::{Lineage, LineageId, PsycheArena, ACTIVE, DIRTY, PROTECTED};
use mindfry::strata::{Engram, StrataArena};

const ONE: u32 = 1_000_000;

#[test]
fn test_lineage_default() {
    let l = Lineage::default();
    assert_eq!(l.energy, ONE);
    assert_eq!(l.threshold, 500_000);
    assert!(l.is_conscious());
    assert!(l.is_active());
}

#[test]
fn test_lineage_stimulate() {
    let mut l = Lineage::new(300_000);
    l.threshold = 500_000;
    assert!(!l.is_conscious());
    l.stimulate(300_000, ONE, l.last_access);
    assert!(l.is_conscious());
    assert_eq!(l.energy, 600_000);
    assert!(l.flags & DIRTY != 0);
}

#[test]
fn stimulate_clamps_to_unit_range() {
    let mut l = Lineage::at(900_000, 500_000, 0, 10);
    l.stimulate(500_000, ONE, 20);
    assert_eq!(l.energy, ONE);
    assert_eq!(l.last_access, 20);
    l.stimulate(-3_000_000, ONE, 30);
    assert_eq!(l.energy, 0);
    assert!(!l.is_conscious());
}

#[test]
fn decay_factor_applies_unless_protected() {
    let l = Lineage::at(600_000, 500_000, 100_000, 0);
    assert_eq!(l.current_energy(500_000), 300_000);
    let mut p = l;
    p.flags |= PROTECTED;
    assert_eq!(p.current_energy(500_000), 600_000);
    assert_eq!(l.elapsed_nanos(5_000_000_000), 5_000_000_000);
    assert_eq!(l.elapsed_nanos(0), 0);
}

#[test]
fn touch_folds_decay_into_energy() {
    let mut l = Lineage::at(800_000, 500_000, 1_000, 0);
    l.touch(500_000, 99);
    assert_eq!(l.energy, 400_000);
    assert_eq!(l.last_access, 99);
}

#[test]
fn test_psyche_arena_alloc() {
    let mut arena = PsycheArena::with_capacity(100);
    let id = arena.allocate(Lineage::new(800_000));
    assert_eq!(arena.len(), 1);
    assert!(arena.get(id).is_some());
    assert_eq!(arena.get(id).unwrap().energy, 800_000);
}

#[test]
fn test_psyche_arena_free_and_recycle() {
    let mut arena = PsycheArena::with_capacity(100);
    let id1 = arena.allocate(Lineage::new(500_000));
    let _id2 = arena.allocate(Lineage::new(700_000));
    assert_eq!(arena.len(), 2);
    arena.free(id1);
    assert_eq!(arena.len(), 1);
    assert!(arena.get(id1).is_none());
    let id3 = arena.allocate(Lineage::new(900_000));
    assert_eq!(id3, id1);
    assert_eq!(arena.len(), 2);
}

#[test]
fn alloc_marks_active_and_free_twice_is_false() {
    let mut arena = PsycheArena::with_capacity(4);
    let mut l = Lineage::new(500_000);
    l.flags = 0;
    let id = arena.allocate(l);
    assert!(arena.get(id).unwrap().flags & ACTIVE != 0);
    assert!(arena.free(id));
    let slots_after_first = arena.slot_count();
    assert!(!arena.free(id));
    assert_eq!(arena.len(), 0);
    assert_eq!(arena.slot_count(), slots_after_first);
    assert!(!arena.free(LineageId(77)));
    assert!(arena.get(LineageId(77)).is_none());
}

#[test]
fn keyed_allocation_and_lookup() {
    let mut arena = PsycheArena::with_capacity(4);
    let id = arena.alloc_with_key(0xABCD, Lineage::new(500_000));
    assert_eq!(arena.lookup(0xABCD), Some(id));
    assert_eq!(arena.lookup(0x1234), None);
}

#[test]
fn iteration_yields_active_slots_in_order() {
    let mut arena = PsycheArena::with_capacity(4);
    let a = arena.allocate(Lineage::new(100_000));
    let b = arena.allocate(Lineage::new(200_000));
    let c = arena.allocate(Lineage::new(300_000));
    arena.free(b);
    let ids: Vec<LineageId> = arena.iter().iter().map(|(id, _)| *id).collect();
    assert_eq!(ids, vec![a, c]);
    assert_eq!(arena.as_slice().len(), 3);
}

#[test]
fn arena_stimulate_and_touch_by_id() {
    let mut arena = PsycheArena::with_capacity(4);
    let id = arena.allocate(Lineage::at(200_000, 500_000, 0, 0));
    assert!(arena.stimulate(id, 400_000, ONE, 5));
    assert_eq!(arena.get(id).unwrap().energy, 600_000);
    assert!(arena.touch(id, 500_000, 6));
    assert_eq!(arena.get(id).unwrap().energy, 300_000);
    assert!(!arena.stimulate(LineageId(9), 1, ONE, 7));
}

#[test]
fn test_lineage_id_null() {
    assert!(!LineageId::null().is_valid());
    assert!(LineageId(0).is_valid());
}

#[test]
fn test_engram_default() {
    let e = Engram::default();
    assert!(!e.has_payload());
    assert!(e.is_oldest());
}

#[test]
fn engram_with_payload() {
    let e = Engram::with_payload(5, 100, 3);
    assert!(e.has_payload());
    assert_eq!(e.payload_id, 3);
}

#[test]
fn test_strata_arena_record() {
    let mut arena = StrataArena::with_capacity(10, 4);
    let lineage = LineageId(0);
    let head1 = arena.record(lineage, u32::MAX, Engram::new(1000, 500_000));
    assert_eq!(head1, 0);
    let head2 = arena.record(lineage, head1, Engram::new(2000, 700_000));
    assert_eq!(head2, 1);
    let e2 = arena.get(head2).unwrap();
    assert_eq!(e2.prev_index, head1);
}

#[test]
fn test_history_iteration() {
    let mut arena = StrataArena::with_capacity(10, 4);
    let lineage = LineageId(0);
    let head1 = arena.record(lineage, u32::MAX, Engram::new(1000, 100_000));
    let head2 = arena.record(lineage, head1, Engram::new(2000, 200_000));
    let head3 = arena.record(lineage, head2, Engram::new(3000, 300_000));
    let history = arena.history(head3);
    assert_eq!(history.len(), 3);
    assert_eq!(history[0].stimulation, 300_000);
    assert_eq!(history[1].stimulation, 200_000);
    assert_eq!(history[2].stimulation, 100_000);
}

#[test]
fn test_ring_buffer_wrap() {
    let mut arena = StrataArena::with_capacity(10, 3);
    let lineage = LineageId(0);
    let h1 = arena.record(lineage, u32::MAX, Engram::new(1000, 100_000));
    let h2 = arena.record(lineage, h1, Engram::new(2000, 200_000));
    let h3 = arena.record(lineage, h2, Engram::new(3000, 300_000));
    let h4 = arena.record(lineage, h3, Engram::new(4000, 400_000));
    assert_eq!(h4, 0);
    assert_eq!(arena.get(h4).unwrap().prev_index, h3);
}

#[test]
fn ring_wrap_history_has_depth_entries() {
    let depth = 3;
    let mut arena = StrataArena::with_capacity(4, depth);
    let lineage = LineageId(2);
    let mut head = u32::MAX;
    for k in 0..(depth as u64 + 1) {
        head = arena.record(lineage, head, Engram::new(1000 * (k + 1), 0));
    }
    // the first record (timestamp 1000) was overwritten
    assert_eq!(head, 6);
    let history = arena.history(head);
    assert_eq!(history.len(), depth);
    let stamps: Vec<u64> = history.iter().map(|e| e.timestamp).collect();
    assert_eq!(stamps, vec![4000, 3000, 2000]);
    assert_eq!(arena.depth(), depth);
    assert!(arena.get(12).is_none());
}
