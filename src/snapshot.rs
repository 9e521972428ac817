//! The logical snapshot: the records that are persisted, their restoration
//! into fresh arenas, and the store's key order. Turning records into bytes
//! and back is the host's part.

use vstd::prelude::*;
use vstd::string::StringExecFns;

use crate::bond::{bond_live, Bond, BondGraph, BondId, BOND_ACTIVE};
use crate::psyche::{has_flag, live, restored_from, Lineage, LineageId, PsycheArena, ACTIVE};

verus! {

/// Where and how the snapshot store keeps its data.
#[derive(Debug, Clone)]
pub struct AkashicConfig {
    /// Database directory.
    pub path: String,
    /// Flush after every write.
    pub sync_writes: bool,
    /// Cache size in bytes.
    pub cache_size: u64,
}

impl Default for AkashicConfig {
    fn default() -> (r: AkashicConfig)
        ensures
            r.path@ == "./mindfry_data"@,
            !r.sync_writes,
            r.cache_size == 67_108_864,
    {
        AkashicConfig {
            path: String::from_str("./mindfry_data"),
            sync_writes: false,
            cache_size: 67_108_864,
        }
    }
}

/// Metadata kept beside each snapshot for cheap listing.
#[derive(Debug, Clone)]
pub struct SnapshotMeta {
    /// Nanosecond timestamp; also the store key.
    pub id: u64,
    pub name: Option<String>,
    /// Unix seconds.
    pub created_at: u64,
    pub lineage_count: u32,
    pub bond_count: u32,
    pub size_bytes: u64,
    pub version: String,
}

/// `recs` lists the active lineages of `slots` with their ids, in id order.
pub open spec fn lineage_records_of(slots: Seq<Lineage>, recs: Seq<(LineageId, Lineage)>) -> bool {
    &&& forall|k: int|
        0 <= k < recs.len() ==> live(slots, #[trigger] recs[k].0) && recs[k].1 == slots[recs[k].0.0 as int]
    &&& forall|id: LineageId| #[trigger] live(slots, id) ==> exists|k: int| 0 <= k < recs.len() && recs[k].0 == id
    &&& forall|a: int, b: int| 0 <= a < b < recs.len() ==> recs[a].0.0 < recs[b].0.0
}

/// `recs` lists the active bonds of `slots`, in slot order.
pub open spec fn bond_records_of(slots: Seq<Bond>, recs: Seq<Bond>) -> bool {
    exists|ids: Seq<BondId>|
        #![trigger ids.len()]
        ids.len() == recs.len() && (forall|k: int|
            0 <= k < recs.len() ==> bond_live(slots, #[trigger] ids[k]) && recs[k] == slots[ids[k].0 as int])
            && (forall|id: BondId| #[trigger] bond_live(slots, id) ==> ids.contains(id)) && (forall|
            a: int,
            b: int,
        | 0 <= a < b < ids.len() ==> ids[a].0 < ids[b].0)
}

/// The active lineages with their ids: what a snapshot keeps of the arena.
pub fn psyche_records(psyche: &PsycheArena) -> (r: Vec<(LineageId, Lineage)>)
    requires
        psyche.wf(),
    ensures
        lineage_records_of(psyche.slots(), r@),
{
    psyche.iter()
}

/// The active bonds in slot order: what a snapshot keeps of the graph.
pub fn bond_records(bonds: &BondGraph) -> (r: Vec<Bond>)
    requires
        bonds.wf(),
    ensures
        bond_records_of(bonds.slots(), r@),
{
    let pairs = bonds.iter();
    let mut out: Vec<Bond> = Vec::new();
    let mut k: usize = 0;
    while k < pairs.len()
        invariant
            k <= pairs@.len(),
            out@.len() == k,
            forall|j: int| 0 <= j < k ==> out@[j] == (#[trigger] pairs@[j]).1,
        decreases pairs@.len() - k,
    {
        out.push(pairs[k].1);
        k = k + 1;
    }
    proof {
        let ids = Seq::new(pairs@.len(), |j: int| pairs@[j].0);
        assert forall|id: BondId| #[trigger] bond_live(bonds.slots(), id) implies ids.contains(id) by {
            let j = choose|j: int| 0 <= j < pairs@.len() && pairs@[j].0 == id;
            assert(ids[j] == id);
        }
        assert forall|k: int| 0 <= k < out@.len() implies bond_live(bonds.slots(), #[trigger] ids[k]) && out@[k]
            == bonds.slots()[ids[k].0 as int] by {
            assert(ids[k] == pairs@[k].0);
        }
        assert(ids.len() == out@.len());
        assert forall|a: int, b: int| 0 <= a < b < ids.len() implies ids[a].0 < ids[b].0 by {
            assert(bond_live(bonds.slots(), pairs@[a].0));
            lemma_iter_order(bonds, pairs@, a, b);
        }
    }
    out
}

proof fn lemma_iter_order(bonds: &BondGraph, pairs: Seq<(BondId, Bond)>, a: int, b: int)
    requires
        0 <= a < b < pairs.len(),
        forall|x: int, y: int| 0 <= x < y < pairs.len() ==> pairs[x].0.0 < pairs[y].0.0,
    ensures
        pairs[a].0.0 < pairs[b].0.0,
{
}

/// A fresh arena holding the recorded lineages at their recorded ids.
/// `None` when an id repeats or is too large.
pub fn restore_psyche(records: &Vec<(LineageId, Lineage)>, capacity: usize) -> (r: Option<PsycheArena>)
    ensures
        r is Some <==> (forall|a: int, b: int|
            0 <= a < b < records@.len() ==> (#[trigger] records@[a]).0 != (#[trigger] records@[b]).0)
            && (forall|k: int| 0 <= k < records@.len() ==> (#[trigger] records@[k]).0.0 < 0xFFFF_FFFE),
        r matches Some(a) ==> a.wf() && a.keys() == crate::psyche::no_keys() && restored_from(records@, a.slots()),
{
    PsycheArena::from_records(records, capacity)
}

/// A fresh graph over `max_lineages` lineages with the recorded bonds
/// connected in order; a bond whose endpoints are refused is skipped.
pub fn restore_bonds(records: &Vec<Bond>, max_lineages: usize, max_bonds: usize) -> (r: BondGraph)
    requires
        records@.len() + 1 < 0xFFFF_FFFF,
    ensures
        r.wf(),
        r.max_spec() == max_lineages,
        (forall|k: int|
            0 <= k < records@.len() ==> {
                let b = #[trigger] records@[k];
                &&& b.source.0 != 0xFFFF_FFFF && b.target.0 != 0xFFFF_FFFF
                &&& (b.source.0 as int) < max_lineages && (b.target.0 as int) < max_lineages
            }) ==> r.slots() == records@.map_values(|b: Bond| Bond { flags: b.flags | BOND_ACTIVE, ..b }),
{
    let mut graph = BondGraph::with_capacity(max_lineages, max_bonds);
    let ghost all_ok = forall|k: int|
        0 <= k < records@.len() ==> {
            let b = #[trigger] records@[k];
            &&& b.source.0 != 0xFFFF_FFFF && b.target.0 != 0xFFFF_FFFF
            &&& (b.source.0 as int) < max_lineages && (b.target.0 as int) < max_lineages
        };
    let mut k: usize = 0;
    while k < records.len()
        invariant
            k <= records@.len(),
            records@.len() + 1 < 0xFFFF_FFFF,
            graph.wf(),
            graph.max_spec() == max_lineages,
            graph.slots().len() <= k,
            graph.free_ids().len() == 0,
            all_ok ==> graph.slots() == records@.subrange(0, k as int).map_values(
                |b: Bond| Bond { flags: b.flags | BOND_ACTIVE, ..b },
            ),
            all_ok == forall|j: int|
                0 <= j < records@.len() ==> {
                    let b = #[trigger] records@[j];
                    &&& b.source.0 != 0xFFFF_FFFF && b.target.0 != 0xFFFF_FFFF
                    &&& (b.source.0 as int) < max_lineages && (b.target.0 as int) < max_lineages
                },
            !all_ok ==> true,
        decreases records@.len() - k,
    {
        let ghost before = graph.slots();
        let ghost before_free = graph.free_ids();
        let res = graph.connect(records[k]);
        proof {
            match res {
                Some(id) => {
                    assert(graph.slots().len() == before.len() + 1);
                },
                None => {},
            }
            if all_ok {
                let b = records@[k as int];
                assert(b.source.0 != 0xFFFF_FFFF && b.target.0 != 0xFFFF_FFFF);
                assert(records@.subrange(0, k + 1) == records@.subrange(0, k as int).push(b));
                assert(graph.slots() =~= records@.subrange(0, k + 1).map_values(
                    |b: Bond| Bond { flags: b.flags | BOND_ACTIVE, ..b },
                ));
            }
        }
        k = k + 1;
    }
    proof {
        assert(records@.subrange(0, records@.len() as int) == records@);
    }
    graph
}

/// Flags with ACTIVE already set are unchanged by setting it.
proof fn lemma_active_idempotent(f: u32)
    ensures
        has_flag(f, ACTIVE) ==> (f | ACTIVE) == f,
        has_flag(f, BOND_ACTIVE) ==> (f | BOND_ACTIVE) == f,
{
    assert((f & 1u32 != 0) ==> (f | 1u32) == f) by (bit_vector);
}

/// Restoring the lineage records of an arena gives back every active
/// lineage at its id, and no other.
pub proof fn lemma_psyche_round_trip(s: PsycheArena, recs: Seq<(LineageId, Lineage)>, r: PsycheArena)
    requires
        s.wf(),
        lineage_records_of(s.slots(), recs),
        restored_from(recs, r.slots()),
    ensures
        forall|id: LineageId| #[trigger] live(r.slots(), id) == live(s.slots(), id),
        forall|id: LineageId| #[trigger] live(s.slots(), id) ==> r.slots()[id.0 as int] == s.slots()[id.0 as int],
{
    assert forall|id: LineageId| #[trigger] live(r.slots(), id) == live(s.slots(), id) by {
        if live(s.slots(), id) {
            let k = choose|k: int| 0 <= k < recs.len() && recs[k].0 == id;
            assert(recs[k].0 == id);
        }
        if live(r.slots(), id) {
            let k = choose|k: int| 0 <= k < recs.len() && (#[trigger] recs[k]).0 == id;
            assert(live(s.slots(), recs[k].0));
        }
    }
    assert forall|id: LineageId| #[trigger] live(s.slots(), id) implies r.slots()[id.0 as int] == s.slots()[id.0 as int] by {
        let k = choose|k: int| 0 <= k < recs.len() && recs[k].0 == id;
        assert(live(s.slots(), recs[k].0));
        let l = recs[k].1;
        assert(l == s.slots()[id.0 as int]);
        lemma_active_idempotent(l.flags);
        assert(r.slots()[recs[k].0.0 as int] == (Lineage { flags: l.flags | ACTIVE, ..l }));
    }
}

/// The lineage records of a well-formed arena can always be restored.
pub proof fn lemma_psyche_records_restorable(s: PsycheArena, recs: Seq<(LineageId, Lineage)>)
    requires
        s.wf(),
        lineage_records_of(s.slots(), recs),
    ensures
        forall|a: int, b: int| 0 <= a < b < recs.len() ==> (#[trigger] recs[a]).0 != (#[trigger] recs[b]).0,
        forall|k: int| 0 <= k < recs.len() ==> (#[trigger] recs[k]).0.0 < 0xFFFF_FFFE,
{
    crate::psyche::lemma_arena_bounds(s);
    assert forall|a: int, b: int| 0 <= a < b < recs.len() implies (#[trigger] recs[a]).0 != (#[trigger] recs[b]).0 by {
        assert(recs[a].0.0 < recs[b].0.0);
    }
    assert forall|k: int| 0 <= k < recs.len() implies (#[trigger] recs[k]).0.0 < 0xFFFF_FFFE by {
        assert(live(s.slots(), recs[k].0));
    }
}

/// Restoring the bond records of a graph into a graph of the same size
/// gives exactly its active bonds, in slot order, each active.
pub proof fn lemma_bonds_round_trip(s: BondGraph, recs: Seq<Bond>, r: BondGraph)
    requires
        s.wf(),
        bond_records_of(s.slots(), recs),
        r.slots() == recs.map_values(|b: Bond| Bond { flags: b.flags | BOND_ACTIVE, ..b }),
    ensures
        r.slots() == recs,
        forall|k: int| 0 <= k < recs.len() ==> has_flag((#[trigger] r.slots()[k]).flags, BOND_ACTIVE),
{
    let ids = choose|ids: Seq<BondId>|
        #![trigger ids.len()]
        ids.len() == recs.len() && (forall|k: int|
            0 <= k < recs.len() ==> bond_live(s.slots(), #[trigger] ids[k]) && recs[k] == s.slots()[ids[k].0 as int])
            && (forall|id: BondId| #[trigger] bond_live(s.slots(), id) ==> ids.contains(id)) && (forall|
            a: int,
            b: int,
        | 0 <= a < b < ids.len() ==> ids[a].0 < ids[b].0);
    assert forall|k: int| 0 <= k < recs.len() implies (#[trigger] r.slots()[k]) == recs[k] && has_flag(recs[k].flags, BOND_ACTIVE) by {
        assert(bond_live(s.slots(), ids[k]));
        lemma_active_idempotent(recs[k].flags);
    }
    assert(r.slots() =~= recs);
}

/// The records of a well-formed graph satisfy the endpoint checks of
/// `connect` on a graph of the same size.
pub proof fn lemma_bond_records_connectable(s: BondGraph, recs: Seq<Bond>)
    requires
        s.wf(),
        bond_records_of(s.slots(), recs),
    ensures
        forall|k: int|
            0 <= k < recs.len() ==> {
                let b = #[trigger] recs[k];
                &&& b.source.0 != 0xFFFF_FFFF && b.target.0 != 0xFFFF_FFFF
                &&& (b.source.0 as int) < s.max_spec() && (b.target.0 as int) < s.max_spec()
            },
{
    let ids = choose|ids: Seq<BondId>|
        #![trigger ids.len()]
        ids.len() == recs.len() && (forall|k: int|
            0 <= k < recs.len() ==> bond_live(s.slots(), #[trigger] ids[k]) && recs[k] == s.slots()[ids[k].0 as int])
            && (forall|id: BondId| #[trigger] bond_live(s.slots(), id) ==> ids.contains(id)) && (forall|
            a: int,
            b: int,
        | 0 <= a < b < ids.len() ==> ids[a].0 < ids[b].0);
    assert forall|k: int| 0 <= k < recs.len() implies {
        let b = #[trigger] recs[k];
        &&& b.source.0 != 0xFFFF_FFFF && b.target.0 != 0xFFFF_FFFF
        &&& (b.source.0 as int) < s.max_spec() && (b.target.0 as int) < s.max_spec()
    } by {
        assert(bond_live(s.slots(), ids[k]));
        crate::bond::lemma_live_bond_endpoints(s, ids[k]);
    }
}

/// The store key of a snapshot: its id in big-endian order, so that keys
/// sort oldest first.
pub fn snapshot_key(id: u64) -> (r: Vec<u8>)
    ensures
        r@.len() == 8,
        forall|k: int| 0 <= k < 8 ==> #[trigger] r@[k] as int == (id as int / pow256(7 - k)) % 256,
{
    let mut out: Vec<u8> = Vec::new();
    let mut k: usize = 0;
    while k < 8
        invariant
            k <= 8,
            out@.len() == k,
            forall|j: int| 0 <= j < k ==> #[trigger] out@[j] as int == (id as int / pow256(7 - j)) % 256,
        decreases 8 - k,
    {
        let shift = (7 - k) as u64;
        let mut div: u64 = 1;
        let mut s: u64 = 0;
        while s < shift
            invariant
                s <= shift <= 7,
                div as int == pow256(s as int),
                div >= 1,
            decreases shift - s,
        {
            proof {
                lemma_pow256_bound(s as int);
            }
            div = div * 256;
            s = s + 1;
        }
        out.push(((id / div) % 256) as u8);
        k = k + 1;
    }
    out
}

/// 256 to the power `n`.
pub open spec fn pow256(n: int) -> int
    decreases n,
{
    if n <= 0 {
        1
    } else {
        256 * pow256(n - 1)
    }
}

proof fn lemma_pow256_bound(n: int)
    requires
        0 <= n <= 6,
    ensures
        1 <= pow256(n) <= 0x1_0000_0000_0000,
        pow256(n + 1) == 256 * pow256(n),
{
    reveal_with_fuel(pow256, 8);
}

/// The index of the newest snapshot (the greatest id), if any.
pub fn newest(metas: &Vec<SnapshotMeta>) -> (r: Option<usize>)
    ensures
        r is None <==> metas@.len() == 0,
        r matches Some(i) ==> i < metas@.len() && forall|j: int| 0 <= j < metas@.len() ==> (#[trigger] metas@[j]).id <= metas@[i as int].id,
{
    if metas.len() == 0 {
        return None;
    }
    let mut best: usize = 0;
    let mut k: usize = 1;
    while k < metas.len()
        invariant
            1 <= k <= metas@.len(),
            best < k,
            forall|j: int| 0 <= j < k ==> (#[trigger] metas@[j]).id <= metas@[best as int].id,
        decreases metas@.len() - k,
    {
        if metas[k].id > metas[best].id {
            best = k;
        }
        k = k + 1;
    }
    Some(best)
}

} // verus!
