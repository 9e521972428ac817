use mindfry::bond::{Bond, BondGraph, BondId, BOND_ACTIVE};
use mindfry::psyche::LineageId;
use mindfry::setun::Trit;

const ONE: u32 = 1_000_000;

#[test]
fn test_bond_default() {
    let b = Bond::default();
    assert_eq!(b.strength, ONE);
    assert!(b.is_active());
    assert!(!b.is_learned());
}

#[test]
fn test_bond_learned() {
    let b = Bond::learned(LineageId(0), LineageId(1), 500_000);
    assert!(b.is_learned());
}

#[test]
fn test_bond_reinforce() {
    let mut b = Bond::new(LineageId(0), LineageId(1), 500_000);
    b.reinforce(200_000, ONE, b.last_access);
    assert!(b.strength > 500_000);
    assert_eq!(b.strength, 700_000);
}

#[test]
fn bond_strength_decays_by_factor() {
    let b = Bond::at(LineageId(0), LineageId(1), 800_000, 0);
    assert_eq!(b.current_strength(250_000), 200_000);
    assert_eq!(b.other(LineageId(0)), LineageId(1));
    assert_eq!(b.other(LineageId(1)), LineageId(0));
    assert_eq!(b.polarity, Trit::True);
}

#[test]
fn test_bond_graph_connect() {
    let mut graph = BondGraph::with_capacity(100, 1000);
    let bond = Bond::new(LineageId(0), LineageId(1), 800_000);
    let id = graph.connect(bond).unwrap();
    assert_eq!(graph.len(), 1);
    assert!(graph.get(id).is_some());
}

#[test]
fn connect_rejects_bad_endpoints() {
    let mut graph = BondGraph::with_capacity(10, 10);
    assert!(graph.connect(Bond::new(LineageId::null(), LineageId(1), 1)).is_none());
    assert!(graph.connect(Bond::new(LineageId(0), LineageId(10), 1)).is_none());
    assert!(graph.is_empty());
}

#[test]
fn test_bond_graph_neighbors() {
    let mut graph = BondGraph::with_capacity(100, 1000);
    graph.connect(Bond::new(LineageId(0), LineageId(1), 800_000));
    graph.connect(Bond::new(LineageId(0), LineageId(2), 600_000));
    graph.connect(Bond::new(LineageId(1), LineageId(2), 400_000));
    let factors = vec![ONE; 3];
    let n0 = graph.neighbors_with_strength(LineageId(0), &factors);
    assert_eq!(n0.len(), 2);
    let n2 = graph.neighbors_with_strength(LineageId(2), &factors);
    assert_eq!(n2.len(), 2);
    assert_eq!(n2[0], (LineageId(0), 600_000));
}

#[test]
fn neighbors_drop_disconnected_bonds() {
    let mut graph = BondGraph::with_capacity(10, 10);
    let a = graph.connect(Bond::new(LineageId(0), LineageId(1), 800_000)).unwrap();
    graph.connect(Bond::new(LineageId(0), LineageId(2), 600_000));
    graph.disconnect(a);
    let n0 = graph.neighbors_with_strength(LineageId(0), &vec![ONE; 2]);
    assert_eq!(n0, vec![(LineageId(2), 600_000)]);
    assert_eq!(graph.neighbors(LineageId(1)), Vec::<BondId>::new());
}

#[test]
fn test_bond_graph_find() {
    let mut graph = BondGraph::with_capacity(100, 1000);
    let id = graph.connect(Bond::new(LineageId(5), LineageId(10), 700_000)).unwrap();
    assert_eq!(graph.find_bond(LineageId(5), LineageId(10)), Some(id));
    assert_eq!(graph.find_bond(LineageId(10), LineageId(5)), Some(id));
    assert_eq!(graph.find_bond(LineageId(0), LineageId(1)), None);
}

#[test]
fn find_bond_prefers_lowest_id_either_way() {
    let mut graph = BondGraph::with_capacity(10, 10);
    let x = graph.connect(Bond::new(LineageId(1), LineageId(2), 1)).unwrap();
    let y = graph.connect(Bond::new(LineageId(2), LineageId(1), 1)).unwrap();
    graph.connect(Bond::new(LineageId(1), LineageId(3), 1));
    graph.disconnect(x);
    let z = graph.connect(Bond::new(LineageId(2), LineageId(1), 1)).unwrap();
    assert_eq!(z, x);
    assert_eq!(graph.find_bond(LineageId(1), LineageId(2)), Some(x));
    assert_eq!(graph.find_bond(LineageId(2), LineageId(1)), Some(x));
    assert!(y.0 > x.0);
}

#[test]
fn test_bond_graph_disconnect() {
    let mut graph = BondGraph::with_capacity(100, 1000);
    let id = graph.connect(Bond::new(LineageId(0), LineageId(1), 800_000)).unwrap();
    assert_eq!(graph.len(), 1);
    assert!(graph.disconnect(id));
    assert_eq!(graph.len(), 0);
    assert!(graph.get(id).is_none());
    assert!(!graph.disconnect(id));
}

#[test]
fn adjacency_lists_both_endpoints_until_disconnect() {
    let mut graph = BondGraph::with_capacity(4, 4);
    let id = graph.connect(Bond::new(LineageId(1), LineageId(3), 1)).unwrap();
    assert_eq!(graph.neighbors(LineageId(1)), vec![id]);
    assert_eq!(graph.neighbors(LineageId(3)), vec![id]);
    assert!(graph.neighbors(LineageId(0)).is_empty());
    graph.disconnect(id);
    assert!(graph.neighbors(LineageId(1)).is_empty());
    assert!(graph.neighbors(LineageId(3)).is_empty());
}

#[test]
fn prune_removes_weak_bonds() {
    let mut graph = BondGraph::with_capacity(4, 4);
    let weak = graph.connect(Bond::new(LineageId(0), LineageId(1), 40_000)).unwrap();
    let strong = graph.connect(Bond::new(LineageId(0), LineageId(2), 900_000)).unwrap();
    let faded = graph.connect(Bond::new(LineageId(1), LineageId(2), 200_000)).unwrap();
    // the third bond has decayed to a tenth
    let pruned = graph.prune(50_000, &vec![ONE, ONE, 100_000]);
    assert_eq!(pruned, 2);
    assert!(graph.get(weak).is_none());
    assert!(graph.get(strong).is_some());
    assert!(graph.get(faded).is_none());
    let listed: Vec<BondId> = graph.iter().iter().map(|(id, _)| *id).collect();
    assert_eq!(listed, vec![strong]);
    assert!(graph.iter()[0].1.flags & BOND_ACTIVE != 0);
}

#[test]
fn disconnect_keeps_order_of_other_ids() {
    let mut graph = BondGraph::with_capacity(4, 8);
    let a = graph.connect(Bond::new(LineageId(0), LineageId(1), 1)).unwrap();
    let b = graph.connect(Bond::new(LineageId(0), LineageId(2), 1)).unwrap();
    let c = graph.connect(Bond::new(LineageId(0), LineageId(3), 1)).unwrap();
    graph.disconnect(b);
    assert_eq!(graph.neighbors(LineageId(0)), vec![a, c]);
    // the freed slot is reused and live again
    let d = graph.connect(Bond::new(LineageId(2), LineageId(3), 1)).unwrap();
    assert_eq!(d, b);
    assert!(graph.get(d).is_some());
    assert_eq!(graph.neighbors(LineageId(0)), vec![a, c]);
}
