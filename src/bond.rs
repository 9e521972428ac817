//! Bonds: weighted, polarity-bearing edges between lineages, kept in a slab
//! with free-list reuse and a per-lineage adjacency list.

use vstd::prelude::*;

use crate::psyche::{has_flag, now_nanos, LineageId};
use crate::setun::Trit;
use crate::unit::{clamp, ONE};

verus! {

/// Identifier of a bond slot; all ones is the null sentinel.
#[derive(Debug, Clone, Copy, PartialEq, Eq, Structural, Hash)]
pub struct BondId(pub u32);

impl BondId {
    /// The null sentinel.
    pub fn null() -> (r: BondId)
        ensures
            r.0 == 0xFFFF_FFFF,
    {
        BondId(0xFFFF_FFFF)
    }

    /// Whether this is not the null sentinel.
    pub fn is_valid(self) -> (r: bool)
        ensures
            r == (self.0 != 0xFFFF_FFFF),
    {
        self.0 != 0xFFFF_FFFF
    }

    /// The slot index.
    pub fn index(self) -> (r: usize)
        ensures
            r == self.0,
    {
        self.0 as usize
    }
}

/// The bond is in use.
pub const BOND_ACTIVE: u32 = 1;
/// Learned (Hebbian) rather than explicit.
pub const LEARNED: u32 = 2;
/// Bidirectional.
pub const BIDIRECTIONAL: u32 = 4;
/// Strength does not decay.
pub const BOND_PROTECTED: u32 = 8;

/// Strength below which the decay tick prunes a bond, 0.05.
pub const BOND_PRUNE_THRESHOLD: u32 = 50_000;
/// Default traversal cost, 0.1.
pub const DEFAULT_COST: u32 = 100_000;
/// Default bond decay rate, 0.0005 per second.
pub const DEFAULT_BOND_DECAY: u32 = 500;

/// A living edge; strength, cost and decay rate in millionths.
#[derive(Debug, Clone, Copy, PartialEq, Eq, Structural)]
pub struct Bond {
    pub source: LineageId,
    pub target: LineageId,
    pub strength: u32,
    pub cost: u32,
    /// Decay rate in millionths per second.
    pub decay_rate: u32,
    /// Nanoseconds since the epoch.
    pub last_access: u64,
    pub flags: u32,
    /// +1 synergy, 0 insulator, -1 antagonism.
    pub polarity: Trit,
}

/// A fresh active excitatory bond.
pub open spec fn fresh_bond(source: LineageId, target: LineageId, strength: u32, now: u64) -> Bond {
    Bond {
        source,
        target,
        strength,
        cost: DEFAULT_COST,
        decay_rate: DEFAULT_BOND_DECAY,
        last_access: now,
        flags: BOND_ACTIVE,
        polarity: Trit::True,
    }
}

/// The bond with its ACTIVE flag cleared.
pub open spec fn bond_deactivated(b: Bond) -> Bond {
    Bond { flags: b.flags & !BOND_ACTIVE, ..b }
}

/// Strength after applying a decay factor: unchanged when protected.
pub open spec fn strength_of(b: Bond, factor: int) -> int {
    if has_flag(b.flags, BOND_PROTECTED) {
        b.strength as int
    } else {
        (b.strength as int * factor) / (ONE as int)
    }
}

/// The endpoint of `b` opposite to `from`.
pub open spec fn other_end(b: Bond, from: LineageId) -> LineageId {
    if b.source == from {
        b.target
    } else {
        b.source
    }
}

/// Whether `b` joins `x` and `y`, in either direction.
pub open spec fn joins(b: Bond, x: LineageId, y: LineageId) -> bool {
    (b.source == x && b.target == y) || (b.source == y && b.target == x)
}

proof fn lemma_bond_bits(f: u32)
    ensures
        has_flag(f | BOND_ACTIVE, BOND_ACTIVE),
        !has_flag(f & !BOND_ACTIVE, BOND_ACTIVE),
        has_flag(f | LEARNED, LEARNED),
        has_flag(f | LEARNED, BOND_ACTIVE) == has_flag(f, BOND_ACTIVE),
{
    assert((f | 1u32) & 1u32 != 0) by (bit_vector);
    assert((f & !1u32) & 1u32 == 0) by (bit_vector);
    assert((f | 2u32) & 2u32 != 0) by (bit_vector);
    assert(((f | 2u32) & 1u32 != 0) == (f & 1u32 != 0)) by (bit_vector);
}

impl Default for Bond {
    /// Full strength between two null endpoints, accessed now.
    fn default() -> (r: Bond)
        ensures
            r == fresh_bond(LineageId(0xFFFF_FFFF), LineageId(0xFFFF_FFFF), ONE as u32, r.last_access),
    {
        Bond::new(LineageId(0xFFFF_FFFF), LineageId(0xFFFF_FFFF), ONE as u32)
    }
}

impl Bond {
    /// An active excitatory bond accessed at `now`.
    pub fn at(source: LineageId, target: LineageId, strength: u32, now: u64) -> (r: Bond)
        ensures
            r == fresh_bond(source, target, strength, now),
    {
        Bond {
            source,
            target,
            strength,
            cost: DEFAULT_COST,
            decay_rate: DEFAULT_BOND_DECAY,
            last_access: now,
            flags: BOND_ACTIVE,
            polarity: Trit::True,
        }
    }

    /// An active excitatory bond accessed now.
    pub fn new(source: LineageId, target: LineageId, strength: u32) -> (r: Bond)
        ensures
            r == fresh_bond(source, target, strength, r.last_access),
    {
        Bond::at(source, target, strength, now_nanos())
    }

    /// A bond marked as learned.
    pub fn learned(source: LineageId, target: LineageId, strength: u32) -> (r: Bond)
        ensures
            r == (Bond { flags: BOND_ACTIVE | LEARNED, ..fresh_bond(source, target, strength, r.last_access) }),
    {
        let mut b = Bond::new(source, target, strength);
        b.flags = b.flags | LEARNED;
        b
    }

    /// The ACTIVE flag.
    pub fn is_active(&self) -> (r: bool)
        ensures
            r == has_flag(self.flags, BOND_ACTIVE),
    {
        self.flags & BOND_ACTIVE != 0
    }

    /// The LEARNED flag.
    pub fn is_learned(&self) -> (r: bool)
        ensures
            r == has_flag(self.flags, LEARNED),
    {
        self.flags & LEARNED != 0
    }

    /// Strength given the decay factor `exp(-rate * elapsed)`.
    pub fn current_strength(&self, factor: u32) -> (r: u32)
        requires
            factor <= ONE,
        ensures
            r == strength_of(*self, factor as int),
    {
        if self.flags & BOND_PROTECTED != 0 {
            self.strength
        } else {
            proof {
                let p = self.strength as int * factor as int;
                assert(p <= self.strength as int * ONE) by (nonlinear_arith)
                    requires
                        factor <= ONE,
                        p == self.strength as int * factor as int,
                ;
                assert(p / (ONE as int) <= self.strength as int) by (nonlinear_arith)
                    requires
                        p <= self.strength as int * ONE,
                        p >= 0,
                ;
            }
            ((self.strength as u64 * factor as u64) / ONE as u64) as u32
        }
    }

    /// Adds `delta` to the current strength, clamped to `[0, ONE]`, at `now`.
    pub fn reinforce(&mut self, delta: i64, factor: u32, now: u64)
        requires
            factor <= ONE,
        ensures
            final(self).strength == clamp(strength_of(*old(self), factor as int) + delta, 0, ONE as int),
            final(self).last_access == now,
            *final(self) == (Bond {
                strength: final(self).strength,
                last_access: now,
                ..*old(self)
            }),
    {
        let cur = self.current_strength(factor) as i128 + delta as i128;
        self.strength = if cur < 0 {
            0
        } else if cur > ONE as i128 {
            ONE as u32
        } else {
            cur as u32
        };
        self.last_access = now;
    }

    /// The endpoint opposite to `from`.
    pub fn other(&self, from: LineageId) -> (r: LineageId)
        ensures
            r == other_end(*self, from),
    {
        if self.source == from {
            self.target
        } else {
            self.source
        }
    }
}


// ─── Graph ────────────────────────────────────────────────────────────────

/// Number of active bonds among the first `n` of `s`.
pub open spec fn active_bonds_upto(s: Seq<Bond>, n: int) -> nat
    decreases n,
{
    if n <= 0 {
        0
    } else {
        active_bonds_upto(s, n - 1) + if has_flag(s[n - 1].flags, BOND_ACTIVE) {
            1nat
        } else {
            0nat
        }
    }
}

/// Number of active bonds of `s`.
pub open spec fn active_bonds(s: Seq<Bond>) -> nat {
    active_bonds_upto(s, s.len() as int)
}

proof fn lemma_bonds_update(s: Seq<Bond>, i: int, x: Bond, n: int)
    requires
        0 <= i < s.len(),
        0 <= n <= s.len(),
    ensures
        active_bonds_upto(s.update(i, x), n) == if i < n {
            active_bonds_upto(s, n) - (if has_flag(s[i].flags, BOND_ACTIVE) {
                1int
            } else {
                0int
            }) + (if has_flag(x.flags, BOND_ACTIVE) {
                1int
            } else {
                0int
            })
        } else {
            active_bonds_upto(s, n) as int
        },
    decreases n,
{
    if n > 0 {
        lemma_bonds_update(s, i, x, n - 1);
    }
}

proof fn lemma_bonds_push(s: Seq<Bond>, x: Bond, n: int)
    requires
        0 <= n <= s.len(),
    ensures
        active_bonds_upto(s.push(x), n) == active_bonds_upto(s, n),
    decreases n,
{
    if n > 0 {
        lemma_bonds_push(s, x, n - 1);
    }
}

proof fn lemma_bonds_bound(s: Seq<Bond>, n: int)
    requires
        0 <= n <= s.len(),
    ensures
        active_bonds_upto(s, n) <= n,
    decreases n,
{
    if n > 0 {
        lemma_bonds_bound(s, n - 1);
    }
}

/// Whether slot `id` of `s` exists and holds an active bond.
pub open spec fn bond_live(s: Seq<Bond>, id: BondId) -> bool {
    (id.0 as int) < s.len() && has_flag(s[id.0 as int].flags, BOND_ACTIVE)
}

/// Whether bond `b` has `x` as an endpoint.
pub open spec fn touches(b: Bond, x: int) -> bool {
    b.source.0 == x || b.target.0 == x
}

/// Slot `i` of `s` is an active bond joining `a` and `b`.
pub open spec fn hits(s: Seq<Bond>, a: LineageId, b: LineageId, i: int) -> bool {
    0 <= i < s.len() && has_flag(s[i].flags, BOND_ACTIVE) && joins(s[i], a, b)
}

/// Slot `i` is the lowest such slot.
pub open spec fn least_hit(s: Seq<Bond>, a: LineageId, b: LineageId, i: int) -> bool {
    hits(s, a, b, i) && forall|j: int| 0 <= j < i ==> !#[trigger] hits(s, a, b, j)
}

/// The lowest id of an active bond joining `a` and `b`, if there is one.
pub open spec fn first_bond(s: Seq<Bond>, a: LineageId, b: LineageId) -> Option<BondId> {
    if exists|i: int| hits(s, a, b, i) {
        Some(BondId((choose|i: int| least_hit(s, a, b, i)) as u32))
    } else {
        None
    }
}

/// `v` without the entries equal to `id`, the others kept in order.
pub open spec fn drop_id(v: Seq<BondId>, id: BondId) -> Seq<BondId>
    decreases v.len(),
{
    if v.len() == 0 {
        v
    } else if v.last() == id {
        drop_id(v.drop_last(), id)
    } else {
        drop_id(v.drop_last(), id).push(v.last())
    }
}

proof fn lemma_drop_absent(v: Seq<BondId>, id: BondId)
    requires
        !v.contains(id),
    ensures
        drop_id(v, id) == v,
    decreases v.len(),
{
    if v.len() > 0 {
        assert(v.drop_last().contains(id) ==> v.contains(id)) by {
            if v.drop_last().contains(id) {
                let k = choose|k: int| 0 <= k < v.drop_last().len() && v.drop_last()[k] == id;
                assert(v[k] == id);
            }
        }
        assert(v[v.len() - 1] != id);
        lemma_drop_absent(v.drop_last(), id);
        assert(v.drop_last().push(v.last()) =~= v);
    }
}

/// `v` without `id`, other entries kept in order.
fn without(v: &Vec<BondId>, id: BondId) -> (r: Vec<BondId>)
    ensures
        forall|e: BondId| #[trigger] r@.contains(e) <==> (v@.contains(e) && e != id),
        forall|k: int| 0 <= k < r@.len() ==> v@.contains(#[trigger] r@[k]) && r@[k] != id,
        r@ == drop_id(v@, id),
{
    let mut out: Vec<BondId> = Vec::new();
    let mut i: usize = 0;
    while i < v.len()
        invariant
            i <= v@.len(),
            forall|e: BondId| #[trigger] out@.contains(e) <==> (v@.subrange(0, i as int).contains(e) && e != id),
            forall|k: int| 0 <= k < out@.len() ==> v@.contains(#[trigger] out@[k]) && out@[k] != id,
            out@ == drop_id(v@.subrange(0, i as int), id),
        decreases v@.len() - i,
    {
        let e = v[i];
        let ghost before = out@;
        if e != id {
            out.push(e);
        }
        proof {
            assert(v@.subrange(0, i + 1) == v@.subrange(0, i as int).push(e));
            assert(v@.subrange(0, i + 1).drop_last() == v@.subrange(0, i as int));
            assert(out@ == drop_id(v@.subrange(0, i + 1), id));
            assert forall|f: BondId| #[trigger] out@.contains(f) <==> (v@.subrange(0, i + 1).contains(f) && f != id) by {
                let sub = v@.subrange(0, i + 1);
                if out@.contains(f) {
                    let k = choose|k: int| 0 <= k < out@.len() && out@[k] == f;
                    if k < before.len() {
                        assert(before[k] == f);
                        assert(before.contains(f));
                        let sub0 = v@.subrange(0, i as int);
                        let k1 = choose|k1: int| 0 <= k1 < sub0.len() && #[trigger] sub0[k1] == f;
                        assert(sub[k1] == f);
                    } else {
                        assert(sub[i as int] == f);
                    }
                }
                if v@.subrange(0, i + 1).contains(f) && f != id {
                    let sub = v@.subrange(0, i + 1);
                    let k = choose|k: int| 0 <= k < sub.len() && #[trigger] sub[k] == f;
                    if k < i {
                        assert(v@.subrange(0, i as int)[k] == f);
                        assert(before.contains(f));
                        let k2 = choose|k2: int| 0 <= k2 < before.len() && before[k2] == f;
                        assert(out@[k2] == f);
                    } else {
                        assert(out@[out@.len() - 1] == f);
                    }
                }
            }
            assert forall|k: int| 0 <= k < out@.len() implies v@.contains(#[trigger] out@[k]) && out@[k] != id by {
                if k < before.len() {
                    assert(out@[k] == before[k]);
                } else {
                    assert(v@[i as int] == e);
                }
            }
        }
        i = i + 1;
    }
    proof {
        assert(v@.subrange(0, v@.len() as int) == v@);
    }
    out
}

/// The lowest active bond joining two lineages does not depend on their order.
pub proof fn lemma_find_bond_symmetric(s: Seq<Bond>, a: LineageId, b: LineageId)
    ensures
        first_bond(s, a, b) == first_bond(s, b, a),
{
    assert forall|i: int| #[trigger] hits(s, a, b, i) == hits(s, b, a, i) by {}
    if exists|i: int| hits(s, a, b, i) {
        let w = choose|i: int| hits(s, a, b, i);
        assert(hits(s, b, a, w));
        lemma_least_exists(s, a, b);
        lemma_least_exists(s, b, a);
        let c1 = choose|i: int| least_hit(s, a, b, i);
        let c2 = choose|i: int| least_hit(s, b, a, i);
        assert(least_hit(s, a, b, c1));
        assert(least_hit(s, b, a, c2));
        if c1 < c2 {
            assert(hits(s, b, a, c1));
        } else if c2 < c1 {
            assert(hits(s, a, b, c2));
        }
    } else {
        assert forall|i: int| !#[trigger] hits(s, b, a, i) by {
            assert(hits(s, a, b, i) == hits(s, b, a, i));
        }
    }
}

proof fn lemma_least_exists(s: Seq<Bond>, a: LineageId, b: LineageId)
    requires
        exists|i: int| hits(s, a, b, i),
    ensures
        exists|i: int| least_hit(s, a, b, i),
{
    let w = choose|i: int| hits(s, a, b, i);
    lemma_least_below(s, a, b, w);
}

proof fn lemma_least_below(s: Seq<Bond>, a: LineageId, b: LineageId, w: int)
    requires
        hits(s, a, b, w),
    ensures
        exists|i: int| least_hit(s, a, b, i),
    decreases w,
{
    if exists|j: int| 0 <= j < w && hits(s, a, b, j) {
        let j = choose|j: int| 0 <= j < w && hits(s, a, b, j);
        lemma_least_below(s, a, b, j);
    } else {
        assert(least_hit(s, a, b, w));
    }
}

/// An active bond has endpoints in range and not null.
pub(crate) proof fn lemma_live_bond_endpoints(g: BondGraph, id: BondId)
    requires
        g.wf(),
        bond_live(g.slots(), id),
    ensures
        (g.slots()[id.0 as int].source.0 as int) < g.max_spec(),
        (g.slots()[id.0 as int].target.0 as int) < g.max_spec(),
        g.slots()[id.0 as int].source.0 != 0xFFFF_FFFF,
        g.slots()[id.0 as int].target.0 != 0xFFFF_FFFF,
{
    assert(g.bonds@[id.0 as int] == g.slots()[id.0 as int]);
}

/// Every active bond is listed at exactly its endpoints: lineage `x` lists
/// bond `id` if and only if the bond is active and has `x` as an endpoint.
pub proof fn lemma_adjacency_exact(g: BondGraph, id: BondId, x: int)
    requires
        g.wf(),
        0 <= x < g.max_spec(),
    ensures
        g.adj(x).contains(id) <==> (bond_live(g.slots(), id) && touches(g.slots()[id.0 as int], x)),
        bond_live(g.slots(), id) ==> (g.slots()[id.0 as int].source.0 as int) < g.max_spec()
            && (g.slots()[id.0 as int].target.0 as int) < g.max_spec()
            && g.slots()[id.0 as int].source.0 != 0xFFFF_FFFF
            && g.slots()[id.0 as int].target.0 != 0xFFFF_FFFF,
{
    if g.adj(x).contains(id) {
        let k = choose|k: int| 0 <= k < g.adj(x).len() && g.adj(x)[k] == id;
        assert(g.adjacency@[x]@[k] == id);
    }
    if bond_live(g.slots(), id) {
        let i = id.0 as int;
        assert(g.bonds@[i] == g.slots()[i]);
        assert(BondId(i as u32) == id);
    }
}

/// Slab of bonds, with for each lineage the ids of the bonds it takes part in.
pub struct BondGraph {
    bonds: Vec<Bond>,
    count: usize,
    free_list: Vec<BondId>,
    adjacency: Vec<Vec<BondId>>,
    max_lineages: usize,
}

/// `v` with `id` added once for each endpoint of a bond from `s` to `t` at `x`.
pub open spec fn adj_after_connect(v: Seq<BondId>, x: int, s: LineageId, t: LineageId, id: BondId) -> Seq<
    BondId,
> {
    if x == s.0 && x == t.0 {
        v.push(id).push(id)
    } else if x == s.0 || x == t.0 {
        v.push(id)
    } else {
        v
    }
}

impl BondGraph {
    /// All slots, active or not.
    pub closed spec fn slots(&self) -> Seq<Bond> {
        self.bonds@
    }

    /// The adjacency list of lineage `x`.
    pub closed spec fn adj(&self, x: int) -> Seq<BondId> {
        self.adjacency@[x]@
    }

    /// The free list, most recently freed last.
    pub closed spec fn free_ids(&self) -> Seq<BondId> {
        self.free_list@
    }

    /// Number of lineages the adjacency covers.
    pub closed spec fn max_spec(&self) -> nat {
        self.max_lineages as nat
    }

    /// Count and free list agree with the slots; every active bond has
    /// in-range endpoints and is listed at both; every listed id is an
    /// active bond touching that lineage.
    pub closed spec fn wf(&self) -> bool {
        &&& self.count == active_bonds(self.bonds@)
        &&& self.bonds@.len() < 0xFFFF_FFFF
        &&& self.adjacency@.len() == self.max_lineages
        &&& forall|i: int|
            0 <= i < self.free_list@.len() ==> {
                let id = #[trigger] self.free_list@[i];
                &&& (id.0 as int) < self.bonds@.len()
                &&& !has_flag(self.bonds@[id.0 as int].flags, BOND_ACTIVE)
            }
        &&& forall|i: int, j: int|
            0 <= i < j < self.free_list@.len() ==> #[trigger] self.free_list@[i]
                != #[trigger] self.free_list@[j]
        &&& forall|i: int|
            #![trigger self.bonds@[i]]
            0 <= i < self.bonds@.len() && has_flag(self.bonds@[i].flags, BOND_ACTIVE) ==> {
                &&& (self.bonds@[i].source.0 as int) < self.max_lineages
                &&& (self.bonds@[i].target.0 as int) < self.max_lineages
                &&& self.bonds@[i].source.0 != 0xFFFF_FFFF
                &&& self.bonds@[i].target.0 != 0xFFFF_FFFF
                &&& self.adjacency@[self.bonds@[i].source.0 as int]@.contains(BondId(i as u32))
                &&& self.adjacency@[self.bonds@[i].target.0 as int]@.contains(BondId(i as u32))
            }
        &&& forall|x: int, k: int|
            0 <= x < self.max_lineages && 0 <= k < self.adjacency@[x]@.len() ==> {
                let id = #[trigger] self.adjacency@[x]@[k];
                &&& (id.0 as int) < self.bonds@.len()
                &&& has_flag(self.bonds@[id.0 as int].flags, BOND_ACTIVE)
                &&& touches(self.bonds@[id.0 as int], x)
            }
    }

    /// An empty graph over `max_lineages` lineages.
    pub fn with_capacity(max_lineages: usize, max_bonds: usize) -> (r: BondGraph)
        ensures
            r.wf(),
            r.slots() == Seq::<Bond>::empty(),
            r.free_ids() == Seq::<BondId>::empty(),
            r.max_spec() == max_lineages,
            forall|x: int| 0 <= x < max_lineages ==> r.adj(x) == Seq::<BondId>::empty(),
    {
        let mut adjacency: Vec<Vec<BondId>> = Vec::with_capacity(max_lineages);
        let mut i: usize = 0;
        while i < max_lineages
            invariant
                i <= max_lineages,
                adjacency@.len() == i,
                forall|x: int| 0 <= x < i ==> (#[trigger] adjacency@[x])@ == Seq::<BondId>::empty(),
            decreases max_lineages - i,
        {
            adjacency.push(Vec::new());
            i = i + 1;
        }
        BondGraph {
            bonds: Vec::with_capacity(max_bonds),
            count: 0,
            free_list: Vec::new(),
            adjacency,
            max_lineages,
        }
    }

    /// Number of active bonds.
    pub fn len(&self) -> (r: usize)
        requires
            self.wf(),
        ensures
            r == active_bonds(self.slots()),
    {
        self.count
    }

    /// Whether no bond is active.
    pub fn is_empty(&self) -> (r: bool)
        requires
            self.wf(),
        ensures
            r == (active_bonds(self.slots()) == 0),
    {
        self.count == 0
    }

    /// Stores `bond` (marked active) in the most recently freed slot, or in a
    /// new slot at the end, and lists its id at both endpoints. Refused when
    /// an endpoint is the null sentinel or not below `max_lineages`.
    pub fn connect(&mut self, bond: Bond) -> (r: Option<BondId>)
        requires
            old(self).wf(),
            old(self).free_ids().len() > 0 || old(self).slots().len() + 1 < 0xFFFF_FFFF,
        ensures
            final(self).wf(),
            final(self).max_spec() == old(self).max_spec(),
            r.is_none() == !(bond.source.0 != 0xFFFF_FFFF && bond.target.0 != 0xFFFF_FFFF && (
            bond.source.0 as int) < old(self).max_spec() && (bond.target.0 as int)
                < old(self).max_spec()),
            r.is_none() ==> *final(self) == *old(self),
            r matches Some(id) ==> {
                &&& old(self).free_ids().len() > 0 ==> {
                    &&& id == old(self).free_ids().last()
                    &&& final(self).free_ids() == old(self).free_ids().drop_last()
                    &&& final(self).slots() == old(self).slots().update(
                        id.0 as int,
                        Bond { flags: bond.flags | BOND_ACTIVE, ..bond },
                    )
                }
                &&& old(self).free_ids().len() == 0 ==> {
                    &&& id.0 == old(self).slots().len()
                    &&& final(self).free_ids() == old(self).free_ids()
                    &&& final(self).slots() == old(self).slots().push(
                        Bond { flags: bond.flags | BOND_ACTIVE, ..bond },
                    )
                }
                &&& forall|x: int|
                    0 <= x < old(self).max_spec() ==> #[trigger] final(self).adj(x)
                        == adj_after_connect(old(self).adj(x), x, bond.source, bond.target, id)
                &&& active_bonds(final(self).slots()) == active_bonds(old(self).slots()) + 1
                &&& bond_live(final(self).slots(), id)
            },
    {
        if bond.source.0 == 0xFFFF_FFFF || bond.target.0 == 0xFFFF_FFFF {
            return None;
        }
        let s = bond.source.0 as usize;
        let t = bond.target.0 as usize;
        if s >= self.max_lineages || t >= self.max_lineages {
            return None;
        }
        let stored = Bond { flags: bond.flags | BOND_ACTIVE, ..bond };
        proof {
            lemma_bond_bits(bond.flags);
        }
        let ghost b0 = self.bonds@;
        let ghost adj0 = self.adjacency@;
        let id = match self.free_list.pop() {
            Some(recycled) => {
                proof {
                    assert(old(self).free_list@[old(self).free_list@.len() - 1] == recycled);
                    lemma_bonds_update(b0, recycled.0 as int, stored, b0.len() as int);
                    lemma_bonds_bound(b0, b0.len() as int);
                }
                self.bonds.set(recycled.0 as usize, stored);
                proof {
                    assert forall|i: int| 0 <= i < self.free_list@.len() implies {
                        let id = #[trigger] self.free_list@[i];
                        &&& (id.0 as int) < self.bonds@.len()
                        &&& !has_flag(self.bonds@[id.0 as int].flags, BOND_ACTIVE)
                    } by {
                        assert(self.free_list@[i] == old(self).free_list@[i]);
                        assert(old(self).free_list@[i] != old(self).free_list@[old(self).free_list@.len() - 1]);
                    }
                    assert forall|i: int, j: int|
                        0 <= i < j < self.free_list@.len() implies #[trigger] self.free_list@[i]
                            != #[trigger] self.free_list@[j] by {
                        assert(self.free_list@[i] == old(self).free_list@[i]);
                        assert(self.free_list@[j] == old(self).free_list@[j]);
                    }
                }
                recycled
            },
            None => {
                let id = BondId(self.bonds.len() as u32);
                proof {
                    lemma_bonds_push(b0, stored, b0.len() as int);
                    lemma_bonds_bound(b0, b0.len() as int);
                }
                self.bonds.push(stored);
                id
            },
        };
        proof {
            // the id was free, so no adjacency list mentions it
            assert forall|x: int, k: int| 0 <= x < self.max_lineages && 0 <= k < adj0[x]@.len() implies
                #[trigger] adj0[x]@[k] != id by {
                let e = adj0[x]@[k];
                assert(has_flag(b0[e.0 as int].flags, BOND_ACTIVE));
            }
        }
        self.adjacency[s].push(id);
        self.adjacency[t].push(id);
        self.count = self.count + 1;
        proof {
            assert forall|x: int| 0 <= x < self.max_lineages implies #[trigger] self.adjacency@[x]@
                == adj_after_connect(adj0[x]@, x, bond.source, bond.target, id) by {
            }
            assert forall|i: int|
                #![trigger self.bonds@[i]]
                0 <= i < self.bonds@.len() && has_flag(self.bonds@[i].flags, BOND_ACTIVE) implies {
                    &&& (self.bonds@[i].source.0 as int) < self.max_lineages
                    &&& (self.bonds@[i].target.0 as int) < self.max_lineages
                    &&& self.bonds@[i].source.0 != 0xFFFF_FFFF
                    &&& self.bonds@[i].target.0 != 0xFFFF_FFFF
                    &&& self.adjacency@[self.bonds@[i].source.0 as int]@.contains(BondId(i as u32))
                    &&& self.adjacency@[self.bonds@[i].target.0 as int]@.contains(BondId(i as u32))
                } by {
                let bi = self.bonds@[i];
                if i == id.0 as int {
                    assert(bi == stored);
                    assert(self.adjacency@[s as int]@ == adj_after_connect(adj0[s as int]@, s as int, bond.source, bond.target, id));
                    assert(self.adjacency@[t as int]@ == adj_after_connect(adj0[t as int]@, t as int, bond.source, bond.target, id));
                    assert(self.adjacency@[s as int]@[self.adjacency@[s as int]@.len() - 1] == id);
                    assert(self.adjacency@[t as int]@[self.adjacency@[t as int]@.len() - 1] == id);
                    assert(self.adjacency@[s as int]@.contains(id));
                    assert(self.adjacency@[t as int]@.contains(id));
                } else {
                    assert(bi == b0[i]);
                    let ks = choose|k: int| 0 <= k < adj0[bi.source.0 as int]@.len() && adj0[bi.source.0 as int]@[k] == BondId(i as u32);
                    let kt = choose|k: int| 0 <= k < adj0[bi.target.0 as int]@.len() && adj0[bi.target.0 as int]@[k] == BondId(i as u32);
                    assert(self.adjacency@[bi.source.0 as int]@[ks] == BondId(i as u32));
                    assert(self.adjacency@[bi.target.0 as int]@[kt] == BondId(i as u32));
                }
            }
            assert forall|x: int, k: int|
                0 <= x < self.max_lineages && 0 <= k < self.adjacency@[x]@.len() implies {
                    let e = #[trigger] self.adjacency@[x]@[k];
                    &&& (e.0 as int) < self.bonds@.len()
                    &&& has_flag(self.bonds@[e.0 as int].flags, BOND_ACTIVE)
                    &&& touches(self.bonds@[e.0 as int], x)
                } by {
                let e = self.adjacency@[x]@[k];
                if k < adj0[x]@.len() {
                    assert(e == adj0[x]@[k]);
                    assert(e != id);
                    assert(e.0 != id.0);
                } else {
                    assert(e == id);
                }
            }
        }
        Some(id)
    }

    /// Frees slot `id`: drops it from both adjacency lists, clears ACTIVE and
    /// pushes it on the free list. False, changing nothing, when the slot is
    /// absent or free.
    pub fn disconnect(&mut self, id: BondId) -> (r: bool)
        requires
            old(self).wf(),
        ensures
            final(self).wf(),
            final(self).max_spec() == old(self).max_spec(),
            r == bond_live(old(self).slots(), id),
            !r ==> *final(self) == *old(self),
            r ==> {
                &&& final(self).slots() == old(self).slots().update(
                    id.0 as int,
                    Bond {
                        flags: old(self).slots()[id.0 as int].flags & !BOND_ACTIVE,
                        ..old(self).slots()[id.0 as int]
                    },
                )
                &&& final(self).free_ids() == old(self).free_ids().push(id)
                &&& active_bonds(final(self).slots()) + 1 == active_bonds(old(self).slots())
            },
            forall|x: int, e: BondId|
                0 <= x < old(self).max_spec() ==> (#[trigger] final(self).adj(x).contains(e) <==> (
                old(self).adj(x).contains(e) && e != id)),
            forall|x: int| 0 <= x < old(self).max_spec() ==> #[trigger] final(self).adj(x) == drop_id(old(self).adj(x), id),
    {
        let i = id.0 as usize;
        if !(i < self.bonds.len() && self.bonds[i].flags & BOND_ACTIVE != 0) {
            proof {
                assert forall|x: int, e: BondId|
                    0 <= x < old(self).max_spec() && #[trigger] self.adjacency@[x]@.contains(e) implies e != id by {
                    let k = choose|k: int| 0 <= k < self.adjacency@[x]@.len() && self.adjacency@[x]@[k] == e;
                    assert(has_flag(self.bonds@[self.adjacency@[x]@[k].0 as int].flags, BOND_ACTIVE));
                }
                assert forall|x: int| 0 <= x < old(self).max_spec() implies #[trigger] self.adj(x) == drop_id(self.adj(x), id) by {
                    if self.adjacency@[x]@.contains(id) {
                        let k = choose|k: int| 0 <= k < self.adjacency@[x]@.len() && self.adjacency@[x]@[k] == id;
                        assert(has_flag(self.bonds@[self.adjacency@[x]@[k].0 as int].flags, BOND_ACTIVE));
                    }
                    lemma_drop_absent(self.adj(x), id);
                }
            }
            return false;
        }
        let b = self.bonds[i];
        let ghost b0 = self.bonds@;
        let ghost adj0 = self.adjacency@;
        let s = b.source.0 as usize;
        let t = b.target.0 as usize;
        let ns = without(&self.adjacency[s], id);
        self.adjacency.set(s, ns);
        let nt = without(&self.adjacency[t], id);
        self.adjacency.set(t, nt);
        let cleared = Bond { flags: b.flags & !BOND_ACTIVE, ..b };
        proof {
            lemma_bond_bits(b.flags);
            lemma_bonds_update(b0, i as int, cleared, b0.len() as int);
            lemma_bonds_bound(b0, b0.len() as int);
        }
        self.bonds.set(i, cleared);
        self.free_list.push(id);
        self.count = self.count - 1;
        proof {
            assert forall|x: int, e: BondId|
                0 <= x < self.max_lineages implies (#[trigger] self.adjacency@[x]@.contains(e) <==> (
                adj0[x]@.contains(e) && e != id)) by {
                if x != s as int && x != t as int {
                    if adj0[x]@.contains(e) {
                        let k = choose|k: int| 0 <= k < adj0[x]@.len() && adj0[x]@[k] == e;
                        assert(touches(b0[e.0 as int], x));
                        assert(e != id);
                    }
                }
            }
            assert forall|k: int| 0 <= k < self.free_list@.len() implies {
                let fid = #[trigger] self.free_list@[k];
                &&& (fid.0 as int) < self.bonds@.len()
                &&& !has_flag(self.bonds@[fid.0 as int].flags, BOND_ACTIVE)
            } by {
                if k < old(self).free_list@.len() {
                    assert(self.free_list@[k] == old(self).free_list@[k]);
                }
            }
            assert forall|a: int, c: int|
                0 <= a < c < self.free_list@.len() implies #[trigger] self.free_list@[a]
                    != #[trigger] self.free_list@[c] by {
                assert(self.free_list@[a] == old(self).free_list@[a]);
                if c < old(self).free_list@.len() {
                    assert(self.free_list@[c] == old(self).free_list@[c]);
                }
            }
            assert forall|j: int|
                #![trigger self.bonds@[j]]
                0 <= j < self.bonds@.len() && has_flag(self.bonds@[j].flags, BOND_ACTIVE) implies {
                    &&& (self.bonds@[j].source.0 as int) < self.max_lineages
                    &&& (self.bonds@[j].target.0 as int) < self.max_lineages
                    &&& self.bonds@[j].source.0 != 0xFFFF_FFFF
                    &&& self.bonds@[j].target.0 != 0xFFFF_FFFF
                    &&& self.adjacency@[self.bonds@[j].source.0 as int]@.contains(BondId(j as u32))
                    &&& self.adjacency@[self.bonds@[j].target.0 as int]@.contains(BondId(j as u32))
                } by {
                assert(j != i as int);
                assert(self.bonds@[j] == b0[j]);
                assert(BondId(j as u32) != id);
                assert(adj0[b0[j].source.0 as int]@.contains(BondId(j as u32)));
                assert(adj0[b0[j].target.0 as int]@.contains(BondId(j as u32)));
            }
            assert forall|x: int, k: int|
                0 <= x < self.max_lineages && 0 <= k < self.adjacency@[x]@.len() implies {
                    let e = #[trigger] self.adjacency@[x]@[k];
                    &&& (e.0 as int) < self.bonds@.len()
                    &&& has_flag(self.bonds@[e.0 as int].flags, BOND_ACTIVE)
                    &&& touches(self.bonds@[e.0 as int], x)
                } by {
                let e = self.adjacency@[x]@[k];
                assert(self.adjacency@[x]@.contains(e));
                assert(adj0[x]@.contains(e) && e != id);
                let k0 = choose|k0: int| 0 <= k0 < adj0[x]@.len() && adj0[x]@[k0] == e;
                assert(adj0[x]@[k0] == e);
                assert(e.0 != id.0);
            }
        }
        proof {
            assert forall|x: int| 0 <= x < old(self).max_spec() implies #[trigger] self.adj(x) == drop_id(old(self).adj(x), id) by {
                if x == s as int || x == t as int {
                    let mid = drop_id(adj0[s as int]@, id);
                    if s != t {
                        assert(self.adj(x) == drop_id(adj0[x]@, id));
                    } else {
                        assert(!mid.contains(id)) by {
                            if mid.contains(id) {
                                let k = choose|k: int| 0 <= k < mid.len() && mid[k] == id;
                                assert(mid[k] == id);
                            }
                        }
                        lemma_drop_absent(mid, id);
                    }
                } else {
                    if adj0[x]@.contains(id) {
                        let k = choose|k: int| 0 <= k < adj0[x]@.len() && adj0[x]@[k] == id;
                        assert(touches(b0[id.0 as int], x));
                    }
                    lemma_drop_absent(adj0[x]@, id);
                }
            }
        }
        true
    }

    /// The ids listed at `lineage`, parallel bonds included; empty outside
    /// the covered range.
    pub fn neighbors(&self, lineage: LineageId) -> (r: Vec<BondId>)
        requires
            self.wf(),
        ensures
            r@ == if (lineage.0 as int) < self.max_spec() {
                self.adj(lineage.0 as int)
            } else {
                Seq::<BondId>::empty()
            },
    {
        let i = lineage.0 as usize;
        let mut out: Vec<BondId> = Vec::new();
        if i < self.adjacency.len() {
            let list = &self.adjacency[i];
            let mut k: usize = 0;
            while k < list.len()
                invariant
                    k <= list@.len(),
                    out@ == list@.subrange(0, k as int),
                decreases list@.len() - k,
            {
                out.push(list[k]);
                k = k + 1;
                assert(out@ =~= list@.subrange(0, k as int));
            }
            assert(list@.subrange(0, list@.len() as int) =~= list@);
        }
        out
    }

    /// The lowest id of an active bond joining `a` and `b`. Only the
    /// shorter of the two adjacency lists is searched.
    pub fn find_bond(&self, a: LineageId, b: LineageId) -> (r: Option<BondId>)
        requires
            self.wf(),
        ensures
            r == first_bond(self.slots(), a, b),
    {
        let ghost s = self.bonds@;
        if (a.0 as usize) >= self.adjacency.len() || (b.0 as usize) >= self.adjacency.len() {
            proof {
                assert forall|i: int| !#[trigger] hits(s, a, b, i) by {
                    if 0 <= i < s.len() && has_flag(s[i].flags, BOND_ACTIVE) {
                        assert(self.bonds@[i] == s[i]);
                    }
                }
            }
            return None;
        }
        let la = &self.adjacency[a.0 as usize];
        let lb = &self.adjacency[b.0 as usize];
        let ghost x: int = if la.len() <= lb.len() { a.0 as int } else { b.0 as int };
        let list = if la.len() <= lb.len() {
            la
        } else {
            lb
        };
        assert(list@ == self.adjacency@[x]@);
        let mut best: Option<BondId> = None;
        let mut k: usize = 0;
        while k < list.len()
            invariant
                self.wf(),
                s == self.bonds@,
                0 <= x < self.max_lineages,
                x == a.0 || x == b.0,
                list@ == self.adjacency@[x]@,
                k <= list@.len(),
                best matches Some(bi) ==> (bi.0 as int) < s.len() && has_flag(s[bi.0 as int].flags, BOND_ACTIVE) && joins(s[bi.0 as int], a, b),
                forall|j: int| 0 <= j < k && joins(s[list@[j].0 as int], a, b) ==> (best matches Some(bi) && bi.0 <= list@[j].0),
            decreases list@.len() - k,
        {
            let id = list[k];
            let bond = &self.bonds[id.0 as usize];
            let hit = (bond.source == a && bond.target == b) || (bond.source == b && bond.target == a);
            if hit {
                match best {
                    Some(bi) => {
                        if id.0 < bi.0 {
                            best = Some(id);
                        }
                    },
                    None => {
                        best = Some(id);
                    },
                }
            }
            k = k + 1;
        }
        proof {
            assert forall|i: int| #[trigger] hits(s, a, b, i) implies
                (best matches Some(bi) && bi.0 <= i) by {
                assert(self.bonds@[i] == s[i]);
                let src = s[i].source.0 as int;
                let tgt = s[i].target.0 as int;
                assert(x == src || x == tgt);
                assert(self.adjacency@[x]@.contains(BondId(i as u32)));
                let j = choose|j: int| 0 <= j < list@.len() && list@[j] == BondId(i as u32);
                assert(joins(s[list@[j].0 as int], a, b));
            }
            match best {
                Some(bi) => {
                    let i0 = bi.0 as int;
                    assert(hits(s, a, b, i0));
                    assert(least_hit(s, a, b, i0));
                    let c = choose|i: int| least_hit(s, a, b, i);
                    assert(least_hit(s, a, b, c));
                    if c < i0 {
                        assert(!hits(s, a, b, c));
                    } else if i0 < c {
                        assert(!hits(s, a, b, i0));
                    }
                    assert(c == i0);
                    assert(BondId(c as u32) == bi);
                },
                None => {
                },
            }
        }
        best
    }

    /// For each active bond listed at `lineage`, in list order, the opposite
    /// endpoint and the current strength, given each bond's decay factor
    /// (`factors[bond id]`).
    pub fn neighbors_with_strength(&self, lineage: LineageId, factors: &Vec<u32>) -> (r: Vec<(LineageId, u32)>)
        requires
            self.wf(),
            factors@.len() == self.slots().len(),
            forall|i: int| 0 <= i < factors@.len() ==> #[trigger] factors@[i] <= ONE,
        ensures
            (lineage.0 as int) >= self.max_spec() ==> r@.len() == 0,
            (lineage.0 as int) < self.max_spec() ==> {
                let l = self.adj(lineage.0 as int);
                &&& r@.len() == l.len()
                &&& forall|k: int| 0 <= k < l.len() ==> {
                    let b = self.slots()[(#[trigger] l[k]).0 as int];
                    &&& bond_live(self.slots(), l[k])
                    &&& r@[k] == (other_end(b, lineage), strength_of(b, factors@[l[k].0 as int] as int) as u32)
                }
            },
    {
        let mut out: Vec<(LineageId, u32)> = Vec::new();
        let i = lineage.0 as usize;
        if i < self.adjacency.len() {
            let list = &self.adjacency[i];
            let mut k: usize = 0;
            while k < list.len()
                invariant
                    self.wf(),
                    (i as int) < self.max_lineages,
                    list@ == self.adjacency@[i as int]@,
                    factors@.len() == self.bonds@.len(),
                    forall|j: int| 0 <= j < factors@.len() ==> #[trigger] factors@[j] <= ONE,
                    k <= list@.len(),
                    out@.len() == k,
                    forall|j: int| 0 <= j < k ==> {
                        let b = self.bonds@[(#[trigger] list@[j]).0 as int];
                        &&& bond_live(self.bonds@, list@[j])
                        &&& out@[j] == (other_end(b, lineage), strength_of(b, factors@[list@[j].0 as int] as int) as u32)
                    },
                decreases list@.len() - k,
            {
                let id = list[k];
                let bond = &self.bonds[id.0 as usize];
                let f = factors[id.0 as usize];
                out.push((bond.other(lineage), bond.current_strength(f)));
                k = k + 1;
            }
        }
        out
    }

    /// Disconnects every active bond whose current strength, given its
    /// decay factor, is below `threshold`; returns how many.
    pub fn prune(&mut self, threshold: u32, factors: &Vec<u32>) -> (r: usize)
        requires
            old(self).wf(),
            factors@.len() == old(self).slots().len(),
            forall|i: int| 0 <= i < factors@.len() ==> #[trigger] factors@[i] <= ONE,
        ensures
            final(self).wf(),
            final(self).max_spec() == old(self).max_spec(),
            final(self).slots().len() == old(self).slots().len(),
            forall|i: int|
                0 <= i < old(self).slots().len() ==> #[trigger] bond_live(final(self).slots(), BondId(i as u32))
                    == (bond_live(old(self).slots(), BondId(i as u32)) && strength_of(
                    old(self).slots()[i],
                    factors@[i] as int,
                ) >= threshold),
            r + active_bonds(final(self).slots()) == active_bonds(old(self).slots()),
            forall|i: int|
                0 <= i < old(self).slots().len() ==> #[trigger] final(self).slots()[i] == if bond_live(
                    old(self).slots(),
                    BondId(i as u32),
                ) && !bond_live(final(self).slots(), BondId(i as u32)) {
                    bond_deactivated(old(self).slots()[i])
                } else {
                    old(self).slots()[i]
                },
    {
        let mut pruned: usize = 0;
        let mut i: usize = 0;
        let n = self.bonds.len();
        while i < n
            invariant
                self.wf(),
                self.max_lineages == old(self).max_lineages,
                n == old(self).bonds@.len(),
                self.bonds@.len() == n,
                factors@.len() == n,
                forall|j: int| 0 <= j < factors@.len() ==> #[trigger] factors@[j] <= ONE,
                i <= n,
                forall|j: int| i <= j < n ==> #[trigger] self.bonds@[j] == old(self).bonds@[j],
                forall|j: int|
                    0 <= j < i ==> #[trigger] bond_live(self.bonds@, BondId(j as u32)) == (bond_live(
                        old(self).bonds@,
                        BondId(j as u32),
                    ) && strength_of(old(self).bonds@[j], factors@[j] as int) >= threshold),
                pruned + active_bonds(self.bonds@) == active_bonds(old(self).bonds@),
                forall|j: int|
                    0 <= j < i ==> #[trigger] self.bonds@[j] == if bond_live(old(self).bonds@, BondId(j as u32))
                        && !bond_live(self.bonds@, BondId(j as u32)) {
                        bond_deactivated(old(self).bonds@[j])
                    } else {
                        old(self).bonds@[j]
                    },
            decreases n - i,
        {
            let b = self.bonds[i];
            if b.flags & BOND_ACTIVE != 0 && b.current_strength(factors[i]) < threshold {
                let ghost before = self.bonds@;
                let ok = self.disconnect(BondId(i as u32));
                proof {
                    assert(ok);
                    lemma_bonds_bound(before, before.len() as int);
                    assert forall|j: int| i < j < n implies #[trigger] self.bonds@[j] == old(self).bonds@[j] by {
                        assert(self.bonds@[j] == before[j]);
                    }
                    assert forall|j: int| 0 <= j < i implies #[trigger] bond_live(self.bonds@, BondId(j as u32))
                        == bond_live(before, BondId(j as u32)) by {
                        assert(self.bonds@[j] == before[j]);
                    }
                    assert forall|j: int|
                        0 <= j < i implies #[trigger] self.bonds@[j] == if bond_live(old(self).bonds@, BondId(j as u32))
                            && !bond_live(self.bonds@, BondId(j as u32)) {
                            bond_deactivated(old(self).bonds@[j])
                        } else {
                            old(self).bonds@[j]
                        } by {
                        assert(self.bonds@[j] == before[j]);
                        assert(bond_live(self.bonds@, BondId(j as u32)) == bond_live(before, BondId(j as u32)));
                    }
                    lemma_bond_bits(b.flags);
                    lemma_bonds_bound(old(self).bonds@, n as int);
                }
                pruned = pruned + 1;
            }
            proof {
                assert(self.bonds@[i as int] == if bond_live(old(self).bonds@, BondId(i as u32))
                    && !bond_live(self.bonds@, BondId(i as u32)) {
                    bond_deactivated(old(self).bonds@[i as int])
                } else {
                    old(self).bonds@[i as int]
                }) by {
                    lemma_bond_bits(b.flags);
                }
            }
            i = i + 1;
        }
        pruned
    }

    /// The active bonds with their ids, in slot order.
    pub fn iter(&self) -> (r: Vec<(BondId, Bond)>)
        requires
            self.wf(),
        ensures
            forall|k: int|
                0 <= k < r@.len() ==> bond_live(self.slots(), #[trigger] r@[k].0) && r@[k].1
                    == self.slots()[r@[k].0.0 as int],
            forall|id: BondId| #[trigger]
                bond_live(self.slots(), id) ==> exists|k: int| 0 <= k < r@.len() && r@[k].0 == id,
            forall|a: int, b: int| 0 <= a < b < r@.len() ==> r@[a].0.0 < r@[b].0.0,
    {
        let mut out: Vec<(BondId, Bond)> = Vec::new();
        let mut i: usize = 0;
        while i < self.bonds.len()
            invariant
                i <= self.bonds@.len(),
                self.bonds@.len() < 0xFFFF_FFFF,
                forall|k: int|
                    0 <= k < out@.len() ==> bond_live(self.slots(), #[trigger] out@[k].0) && out@[k].1
                        == self.slots()[out@[k].0.0 as int],
                forall|id: BondId| #[trigger]
                    bond_live(self.slots(), id) && id.0 < i ==> exists|k: int|
                        0 <= k < out@.len() && out@[k].0 == id,
                forall|k: int| 0 <= k < out@.len() ==> (#[trigger] out@[k]).0.0 < i,
                forall|a: int, b: int| 0 <= a < b < out@.len() ==> out@[a].0.0 < out@[b].0.0,
            decreases self.bonds@.len() - i,
        {
            let b = self.bonds[i];
            let ghost before = out@;
            if b.flags & BOND_ACTIVE != 0 {
                out.push((BondId(i as u32), b));
            }
            proof {
                assert forall|id: BondId| #[trigger]
                    bond_live(self.slots(), id) && id.0 < i + 1 implies exists|k: int|
                        0 <= k < out@.len() && out@[k].0 == id by {
                    if id.0 < i {
                        let k = choose|k: int| 0 <= k < before.len() && before[k].0 == id;
                        assert(out@[k] == before[k]);
                    } else {
                        assert(out@[out@.len() - 1].0 == id);
                    }
                }
            }
            i = i + 1;
        }
        out
    }

    /// All slots, active or not, for persistence and decay factors.
    pub fn as_slice(&self) -> (r: &[Bond])
        ensures
            r@ == self.slots(),
    {
        self.bonds.as_slice()
    }

    /// The bond in slot `id`, if that slot exists and is active.
    pub fn get(&self, id: BondId) -> (r: Option<&Bond>)
        ensures
            r == (if bond_live(self.slots(), id) {
                Some(&self.slots()[id.0 as int])
            } else {
                None
            }),
    {
        let i = id.0 as usize;
        if i < self.bonds.len() && self.bonds[i].flags & BOND_ACTIVE != 0 {
            Some(&self.bonds[i])
        } else {
            None
        }
    }
}

} // verus!
