//! The engine: the arenas, the bond graph, the decay engine, the cortex and
//! the synapse engine together, with the reserved system lineages.

use std::hash::{Hash, Hasher};
use vstd::prelude::*;

use crate::bond::BondGraph;
use crate::decay::{DecayConfig, DecayEngine, DecayLUT};
use crate::psyche::{live, observable_of, stimulated, Lineage, LineageId, PsycheArena};
use crate::setun::{Cortex, Octet, Trit, CURIOSITY, PRESERVATION};
use crate::stability::{RecoveryState, COMA, HEALTH, INSTABILITY, RESISTANCE, SHOCK, STATE};
use crate::strata::StrataArena;
use crate::synapse::SynapseEngine;
use crate::unit::{clamp, ONE};

verus! {

/// Default lineage capacity.
pub const DEFAULT_MAX_LINEAGES: usize = 1048576;
/// Default bond capacity.
pub const DEFAULT_MAX_BONDS: usize = 4194304;
/// Default engram ring depth.
pub const DEFAULT_STRATA_DEPTH: usize = 64;

/// The 64-bit hash of a key.
pub uninterp spec fn key_hash(key: Seq<char>) -> u64;

/// Relies on `Hash for str` fed to `std::collections::hash_map::DefaultHasher::new()`,
/// whose keys are fixed: the hash depends on the key's characters alone.
#[verifier::external_body]
pub(crate) fn hash_key(key: &str) -> (r: u64)
    ensures
        r == key_hash(key@),
{
    let mut hasher = std::collections::hash_map::DefaultHasher::new();
    key.hash(&mut hasher);
    hasher.finish()
}

/// Sizes and decay settings of an engine.
#[derive(Debug, Clone, Copy)]
pub struct MindFryConfig {
    pub max_lineages: usize,
    pub max_bonds: usize,
    pub strata_depth: usize,
    pub decay: DecayConfig,
}

impl Default for MindFryConfig {
    fn default() -> (r: MindFryConfig)
        ensures
            r.max_lineages == DEFAULT_MAX_LINEAGES,
            r.max_bonds == DEFAULT_MAX_BONDS,
            r.strata_depth == DEFAULT_STRATA_DEPTH,
    {
        MindFryConfig {
            max_lineages: DEFAULT_MAX_LINEAGES,
            max_bonds: DEFAULT_MAX_BONDS,
            strata_depth: DEFAULT_STRATA_DEPTH,
            decay: DecayConfig::default(),
        }
    }
}

/// The decay factor of slot `i`: `factors[i]`, or none for a slot beyond them.
pub open spec fn reserve_factor(factors: Seq<u32>, i: int) -> int {
    if 0 <= i < factors.len() {
        factors[i] as int
    } else {
        ONE as int
    }
}

/// The three key hashes differ, each one present maps to a live slot, and
/// no two present ones share a slot.
pub open spec fn reserved_apart(p: PsycheArena, a: u64, b: u64, c: u64) -> bool {
    &&& a != b && b != c && a != c
    &&& forall|h: u64|
        (h == a || h == b || h == c) && #[trigger] p.keys().contains_key(h) ==> live(p.slots(), LineageId(p.keys()[h]))
    &&& forall|h: u64, g: u64|
        (h == a || h == b || h == c) && (g == a || g == b || g == c) && h != g && #[trigger] p.keys().contains_key(h)
            && #[trigger] p.keys().contains_key(g) ==> p.keys()[h] != p.keys()[g]
}

/// Key `h` maps in `q` to a live lineage: when `p` had it, the same slot,
/// holding `p`'s record stimulated by `delta` (with the slot's decay
/// factor); when it did not, a new lineage holding `delta`, written at `now`.
pub open spec fn recovered(p: PsycheArena, q: PsycheArena, h: u64, delta: int, factors: Seq<u32>, now: u64) -> bool {
    &&& q.keys().contains_key(h)
    &&& live(q.slots(), LineageId(q.keys()[h]))
    &&& p.keys().contains_key(h) ==> q.keys()[h] == p.keys()[h] && q.slots()[q.keys()[h] as int] == stimulated(
        p.slots()[p.keys()[h] as int],
        delta,
        reserve_factor(factors, p.keys()[h] as int),
        now,
    )
    &&& !p.keys().contains_key(h) ==> q.slots()[q.keys()[h] as int].energy == clamp(delta, 0, ONE as int)
        && q.slots()[q.keys()[h] as int].last_access == now
}

/// Key `h` maps in `q` to a live lineage: when `p` had it, the same slot
/// with the same record; when it did not, a new lineage of `energy`.
pub open spec fn ensured(p: PsycheArena, q: PsycheArena, h: u64, energy: u32) -> bool {
    &&& q.keys().contains_key(h)
    &&& live(q.slots(), LineageId(q.keys()[h]))
    &&& p.keys().contains_key(h) ==> q.keys()[h] == p.keys()[h] && q.slots()[q.keys()[h] as int]
        == p.slots()[p.keys()[h] as int]
    &&& !p.keys().contains_key(h) ==> q.slots()[q.keys()[h] as int].energy == energy
}

/// One step on key `h` (among `a`, `b`, `c`) that either changes only the
/// slot of a present `h`, keeping it live, or maps an absent `h` to a slot
/// that was not live, leaves the others' slots and mappings alone.
proof fn lemma_reserved_step(p: PsycheArena, q: PsycheArena, h: u64, a: u64, b: u64, c: u64)
    requires
        reserved_apart(p, a, b, c),
        h == a || h == b || h == c,
        q.slots().len() >= p.slots().len(),
        p.keys().contains_key(h) ==> {
            &&& q.keys() == p.keys()
            &&& live(q.slots(), LineageId(p.keys()[h]))
            &&& forall|j: int| 0 <= j < p.slots().len() && j != p.keys()[h] ==> #[trigger] q.slots()[j] == p.slots()[j]
        },
        !p.keys().contains_key(h) ==> {
            &&& q.keys().contains_key(h)
            &&& q.keys() == p.keys().insert(h, q.keys()[h])
            &&& !live(p.slots(), LineageId(q.keys()[h]))
            &&& live(q.slots(), LineageId(q.keys()[h]))
            &&& forall|j: int| 0 <= j < p.slots().len() && j != q.keys()[h] ==> #[trigger] q.slots()[j] == p.slots()[j]
        },
    ensures
        reserved_apart(q, a, b, c),
        forall|g: u64|
            (g == a || g == b || g == c) && g != h ==> (#[trigger] q.keys().contains_key(g) == p.keys().contains_key(g))
                && (p.keys().contains_key(g) ==> q.keys()[g] == p.keys()[g] && q.slots()[p.keys()[g] as int]
                == p.slots()[p.keys()[g] as int]),
{
    broadcast use vstd::map::group_map_axioms;

    assert forall|g: u64|
        (g == a || g == b || g == c) && g != h implies (#[trigger] q.keys().contains_key(g) == p.keys().contains_key(g))
            && (p.keys().contains_key(g) ==> q.keys()[g] == p.keys()[g] && q.slots()[p.keys()[g] as int]
            == p.slots()[p.keys()[g] as int]) by {
        if p.keys().contains_key(g) {
            assert(live(p.slots(), LineageId(p.keys()[g])));
            if p.keys().contains_key(h) {
                assert(p.keys()[h] != p.keys()[g]);
            }
        }
    }
    assert forall|x: u64|
        (x == a || x == b || x == c) && #[trigger] q.keys().contains_key(x) implies live(q.slots(), LineageId(q.keys()[x])) by {
        if x != h {
            assert(live(p.slots(), LineageId(p.keys()[x])));
        }
    }
    assert forall|x: u64, g: u64|
        (x == a || x == b || x == c) && (g == a || g == b || g == c) && x != g && #[trigger] q.keys().contains_key(x)
            && #[trigger] q.keys().contains_key(g) implies q.keys()[x] != q.keys()[g] by {
        if x != h && g != h {
        } else if x == h {
            assert(live(p.slots(), LineageId(p.keys()[g])));
        } else {
            assert(live(p.slots(), LineageId(p.keys()[x])));
        }
    }
}

/// `p` and `q` agree on key `h`: both have it or neither, on the same slot
/// holding the same record.
pub open spec fn agree_on(p: PsycheArena, q: PsycheArena, h: u64) -> bool {
    &&& q.keys().contains_key(h) == p.keys().contains_key(h)
    &&& p.keys().contains_key(h) ==> q.keys()[h] == p.keys()[h] && q.slots()[p.keys()[h] as int]
        == p.slots()[p.keys()[h] as int]
}

/// One recovery step on `h`, as `stimulate_reserved` ensures it.
proof fn lemma_recovery_step(
    p: PsycheArena,
    q: PsycheArena,
    h: u64,
    a: u64,
    b: u64,
    c: u64,
    delta: int,
    factors: Seq<u32>,
    now: u64,
)
    requires
        reserved_apart(p, a, b, c),
        h == a || h == b || h == c,
        p.can_allocate_spec(1),
        q.slots().len() >= p.slots().len(),
        q.slots().len() <= p.slots().len() + 1,
        p.keys().contains_key(h) && live(p.slots(), LineageId(p.keys()[h])) ==> {
            &&& q.keys() == p.keys()
            &&& q.slots() == p.slots().update(
                p.keys()[h] as int,
                stimulated(p.slots()[p.keys()[h] as int], delta, reserve_factor(factors, p.keys()[h] as int), now),
            )
        },
        !p.keys().contains_key(h) ==> {
            &&& q.keys().contains_key(h)
            &&& q.keys() == p.keys().insert(h, q.keys()[h])
            &&& !live(p.slots(), LineageId(q.keys()[h]))
            &&& live(q.slots(), LineageId(q.keys()[h]))
            &&& q.slots()[q.keys()[h] as int].energy == clamp(delta, 0, ONE as int)
            &&& q.slots()[q.keys()[h] as int].last_access == now
            &&& forall|j: int| 0 <= j < p.slots().len() && j != q.keys()[h] ==> #[trigger] q.slots()[j] == p.slots()[j]
        },
    ensures
        reserved_apart(q, a, b, c),
        q.can_allocate_spec(0),
        recovered(p, q, h, delta, factors, now),
        forall|g: u64| (g == a || g == b || g == c) && g != h ==> #[trigger] agree_on(p, q, g),
{
    if p.keys().contains_key(h) {
        let id = p.keys()[h] as int;
        assert(live(p.slots(), LineageId(p.keys()[h])));
        crate::psyche::lemma_flag_bits(p.slots()[id].flags);
        assert(live(q.slots(), LineageId(p.keys()[h])));
    }
    lemma_reserved_step(p, q, h, a, b, c);
    assert forall|g: u64| (g == a || g == b || g == c) && g != h implies #[trigger] agree_on(p, q, g) by {
        assert(q.keys().contains_key(g) == p.keys().contains_key(g));
    }
}

/// One `ensure_lineage` step on `h`.
proof fn lemma_ensure_step(p: PsycheArena, q: PsycheArena, h: u64, a: u64, b: u64, c: u64, energy: u32)
    requires
        reserved_apart(p, a, b, c),
        h == a || h == b || h == c,
        p.can_allocate_spec(1),
        q.slots().len() >= p.slots().len(),
        q.slots().len() <= p.slots().len() + 1,
        p.keys().contains_key(h) ==> q == p,
        !p.keys().contains_key(h) ==> {
            &&& q.keys().contains_key(h)
            &&& q.keys() == p.keys().insert(h, q.keys()[h])
            &&& !live(p.slots(), LineageId(q.keys()[h]))
            &&& live(q.slots(), LineageId(q.keys()[h]))
            &&& q.slots()[q.keys()[h] as int].energy == energy
            &&& forall|j: int| 0 <= j < p.slots().len() && j != q.keys()[h] ==> #[trigger] q.slots()[j] == p.slots()[j]
        },
    ensures
        reserved_apart(q, a, b, c),
        ensured(p, q, h, energy),
        forall|g: u64| (g == a || g == b || g == c) && g != h ==> #[trigger] agree_on(p, q, g),
{
    if p.keys().contains_key(h) {
        assert(live(p.slots(), LineageId(p.keys()[h])));
    }
    lemma_reserved_step(p, q, h, a, b, c);
    assert forall|g: u64| (g == a || g == b || g == c) && g != h implies #[trigger] agree_on(p, q, g) by {
        assert(q.keys().contains_key(g) == p.keys().contains_key(g));
    }
}

/// An ensured key stays ensured through a step that agrees on it.
proof fn lemma_ensured_carry(p: PsycheArena, q: PsycheArena, r: PsycheArena, h: u64, energy: u32)
    requires
        ensured(p, q, h, energy),
        agree_on(q, r, h),
        r.slots().len() >= q.slots().len(),
    ensures
        ensured(p, r, h, energy),
{
}

/// A key ensured from `q` is ensured from `p` when `p` and `q` agree on it.
proof fn lemma_ensured_rebase(p: PsycheArena, q: PsycheArena, r: PsycheArena, h: u64, energy: u32)
    requires
        ensured(q, r, h, energy),
        agree_on(p, q, h),
    ensures
        ensured(p, r, h, energy),
{
}

/// A recovered key stays recovered through a step that agrees on it.
proof fn lemma_recovered_carry(p: PsycheArena, q: PsycheArena, r: PsycheArena, h: u64, delta: int, factors: Seq<u32>, now: u64)
    requires
        recovered(p, q, h, delta, factors, now),
        agree_on(q, r, h),
        r.slots().len() >= q.slots().len(),
    ensures
        recovered(p, r, h, delta, factors, now),
{
}

/// A key recovered from `q` is recovered from `p` when `p` and `q` agree on it.
proof fn lemma_recovered_rebase(p: PsycheArena, q: PsycheArena, r: PsycheArena, h: u64, delta: int, factors: Seq<u32>, now: u64)
    requires
        recovered(q, r, h, delta, factors, now),
        agree_on(p, q, h),
    ensures
        recovered(p, r, h, delta, factors, now),
{
}

/// The whole in-memory state.
pub struct MindFry {
    pub psyche: PsycheArena,
    pub strata: StrataArena,
    pub bonds: BondGraph,
    pub decay: DecayEngine,
    pub cortex: Cortex,
    pub synapse: SynapseEngine,
}

impl MindFry {
    /// Every part is well formed.
    pub open spec fn wf(&self) -> bool {
        &&& self.psyche.wf()
        &&& self.strata.wf()
        &&& self.bonds.wf()
        &&& self.cortex.wf()
    }

    /// An empty engine with the default settings.
    pub fn new(lut: DecayLUT, now: u64) -> (r: MindFry)
        ensures
            r.wf(),
            r.psyche.slots().len() == 0,
            r.bonds.slots().len() == 0,
            r.bonds.max_spec() == DEFAULT_MAX_LINEAGES,
            r.strata.depth_spec() == DEFAULT_STRATA_DEPTH,
    {
        MindFry::with_config(MindFryConfig::default(), lut, now)
    }

    /// An empty engine with the given settings and decay table, last ticked
    /// at `now`. Its personality is curious and preserving.
    pub fn with_config(config: MindFryConfig, lut: DecayLUT, now: u64) -> (r: MindFry)
        requires
            config.max_lineages * config.strata_depth < 0xFFFF_FFFF,
        ensures
            r.wf(),
            r.psyche.slots().len() == 0,
            r.psyche.keys() == crate::psyche::no_keys(),
            r.bonds.slots().len() == 0,
            r.bonds.max_spec() == config.max_lineages,
            r.strata.depth_spec() == config.strata_depth,
            r.cortex.mood_spec() == 0,
            r.cortex.personality_spec().values@[CURIOSITY as int] == Trit::True,
            r.cortex.personality_spec().values@[PRESERVATION as int] == Trit::True,
    {
        let psyche = PsycheArena::with_capacity(config.max_lineages);
        let strata = StrataArena::with_capacity(config.max_lineages, config.strata_depth);
        let bonds = BondGraph::with_capacity(config.max_lineages, config.max_bonds);
        let decay = DecayEngine::new(config.decay, lut, now);
        let mut personality = Octet::neutral();
        personality.set(CURIOSITY, Trit::True);
        personality.set(PRESERVATION, Trit::True);
        let cortex = Cortex::new(personality);
        MindFry { psyche, strata, bonds, decay, cortex, synapse: SynapseEngine::new() }
    }

    /// Creates `key` with `energy` unless it already maps to a lineage.
    /// Returns the id the key maps to, or `None` when the arena is full.
    fn ensure_lineage(&mut self, key: &str, energy: u32) -> (r: Option<LineageId>)
        requires
            old(self).wf(),
        ensures
            final(self).wf(),
            final(self).strata == old(self).strata,
            final(self).bonds == old(self).bonds,
            final(self).cortex == old(self).cortex,
            old(self).psyche.keys().contains_key(key_hash(key@)) ==> final(self).psyche == old(self).psyche
                && r == Some(LineageId(old(self).psyche.keys()[key_hash(key@)])),
            !old(self).psyche.keys().contains_key(key_hash(key@)) ==> match r {
                Some(id) => {
                    &&& final(self).psyche.keys() == old(self).psyche.keys().insert(key_hash(key@), id.0)
                    &&& live(final(self).psyche.slots(), id)
                    &&& !live(old(self).psyche.slots(), id)
                    &&& final(self).psyche.slots()[id.0 as int].energy == energy
                    &&& forall|j: int|
                        0 <= j < old(self).psyche.slots().len() && j != id.0 ==> #[trigger] final(self).psyche.slots()[j]
                            == old(self).psyche.slots()[j]
                },
                None => final(self).psyche == old(self).psyche && !old(self).psyche.can_allocate_spec(1)
                    && old(self).psyche.free_ids().len() == 0,
            },
            final(self).psyche.slots().len() <= old(self).psyche.slots().len() + 1,
            final(self).psyche.slots().len() >= old(self).psyche.slots().len(),
            forall|k: u64| #[trigger] old(self).psyche.keys().contains_key(k) ==> final(self).psyche.keys().contains_key(k),
    {
        let hash = hash_key(key);
        match self.psyche.lookup(hash) {
            Some(id) => Some(id),
            None => {
                if !self.psyche.can_allocate() {
                    return None;
                }
                let lineage = Lineage::new(energy);
                proof {
                    crate::psyche::lemma_flag_bits(lineage.flags);
                }
                let id = self.psyche.alloc_with_key(hash, lineage);
                Some(id)
            },
        }
    }

    /// Ensures the reserved lineages exist: `_system.health` and
    /// `_system.state` at full energy, `_system.resistance` at one half.
    /// Existing ones are left as they are.
    pub fn bootstrap_system_lineages(&mut self)
        requires
            old(self).wf(),
        ensures
            final(self).wf(),
            old(self).psyche.can_allocate_spec(3) ==> {
                &&& final(self).psyche.keys().contains_key(key_hash(HEALTH@))
                &&& final(self).psyche.keys().contains_key(key_hash(STATE@))
                &&& final(self).psyche.keys().contains_key(key_hash(RESISTANCE@))
            },
            old(self).psyche.can_allocate_spec(3) && reserved_apart(
                old(self).psyche,
                key_hash(HEALTH@),
                key_hash(STATE@),
                key_hash(RESISTANCE@),
            ) ==> {
                &&& ensured(old(self).psyche, final(self).psyche, key_hash(HEALTH@), ONE as u32)
                &&& ensured(old(self).psyche, final(self).psyche, key_hash(STATE@), ONE as u32)
                &&& ensured(old(self).psyche, final(self).psyche, key_hash(RESISTANCE@), (ONE / 2) as u32)
            },
    {
        broadcast use vstd::map::group_map_axioms;

        let ghost a = key_hash(HEALTH@);
        let ghost b = key_hash(STATE@);
        let ghost c = key_hash(RESISTANCE@);
        let ghost p0 = self.psyche;
        self.ensure_lineage(HEALTH, ONE as u32);
        let ghost p1 = self.psyche;
        self.ensure_lineage(STATE, ONE as u32);
        let ghost p2 = self.psyche;
        self.ensure_lineage(RESISTANCE, (ONE / 2) as u32);
        let ghost p3 = self.psyche;
        proof {
            if p0.can_allocate_spec(3) && reserved_apart(p0, a, b, c) {
                lemma_ensure_step(p0, p1, a, a, b, c, ONE as u32);
                lemma_ensure_step(p1, p2, b, a, b, c, ONE as u32);
                lemma_ensure_step(p2, p3, c, a, b, c, (ONE / 2) as u32);
                lemma_ensured_carry(p0, p1, p2, a, ONE as u32);
                lemma_ensured_carry(p0, p2, p3, a, ONE as u32);
                lemma_ensured_rebase(p0, p1, p2, b, ONE as u32);
                lemma_ensured_carry(p0, p2, p3, b, ONE as u32);
                lemma_ensured_rebase(p1, p2, p3, c, (ONE / 2) as u32);
                lemma_ensured_rebase(p0, p1, p3, c, (ONE / 2) as u32);
            }
        }
    }

    /// Creates `key` if needed (with no energy) and stimulates it by `delta`.
    /// `factors[id]` is the decay factor of slot `id` now; a slot beyond them
    /// has not decayed.
    fn stimulate_reserved(&mut self, key: &str, delta: i64, factors: &Vec<u32>, now: u64)
        requires
            old(self).wf(),
            factors@.len() <= old(self).psyche.slots().len(),
            forall|i: int| 0 <= i < factors@.len() ==> #[trigger] factors@[i] <= ONE,
        ensures
            final(self).wf(),
            final(self).psyche.slots().len() <= old(self).psyche.slots().len() + 1,
            final(self).psyche.slots().len() >= old(self).psyche.slots().len(),
            forall|k: u64| #[trigger] old(self).psyche.keys().contains_key(k) ==> final(self).psyche.keys().contains_key(k),
            old(self).psyche.can_allocate_spec(1) ==> final(self).psyche.keys().contains_key(key_hash(key@)),
            ({
                let p = old(self).psyche;
                let q = final(self).psyche;
                let h = key_hash(key@);
                &&& p.keys().contains_key(h) && live(p.slots(), LineageId(p.keys()[h])) ==> {
                    &&& q.keys() == p.keys()
                    &&& q.slots() == p.slots().update(
                        p.keys()[h] as int,
                        stimulated(p.slots()[p.keys()[h] as int], delta as int, reserve_factor(factors@, p.keys()[h] as int), now),
                    )
                }
                &&& !p.keys().contains_key(h) && p.can_allocate_spec(1) ==> {
                    &&& q.keys().contains_key(h)
                    &&& q.keys() == p.keys().insert(h, q.keys()[h])
                    &&& !live(p.slots(), LineageId(q.keys()[h]))
                    &&& live(q.slots(), LineageId(q.keys()[h]))
                    &&& q.slots()[q.keys()[h] as int].energy == clamp(delta as int, 0, ONE as int)
                    &&& q.slots()[q.keys()[h] as int].last_access == now
                    &&& forall|j: int|
                        0 <= j < p.slots().len() && j != q.keys()[h] ==> #[trigger] q.slots()[j] == p.slots()[j]
                }
            }),
    {
        broadcast use vstd::map::group_map_axioms;

        let ghost p = self.psyche;
        match self.ensure_lineage(key, 0) {
            Some(id) => {
                let f = if (id.0 as usize) < factors.len() {
                    factors[id.0 as usize]
                } else {
                    ONE as u32
                };
                let ghost mid = self.psyche;
                proof {
                    crate::psyche::lemma_flag_bits(mid.slots()[id.0 as int].flags);
                }
                self.psyche.stimulate(id, delta, f, now);
                proof {
                    if !p.keys().contains_key(key_hash(key@)) && p.can_allocate_spec(1) {
                        let l = mid.slots()[id.0 as int];
                        assert(l.energy == 0);
                        assert(crate::psyche::observable_of(l, f as int) == 0) by {
                            assert((0 * (f as int)) / (ONE as int) == 0);
                        }
                        assert forall|j: int|
                            0 <= j < p.slots().len() && j != id.0 implies #[trigger] self.psyche.slots()[j] == p.slots()[j] by {
                            assert(self.psyche.slots()[j] == mid.slots()[j]);
                        }
                    }
                }
            },
            None => {},
        }
    }

    /// Records how the previous run ended: after a shock or a coma, the
    /// matching system lineage and `_system.instability` are stimulated by
    /// the trauma intensity, and `_system.resistance` grows by it, each
    /// created first if missing. A normal restart changes nothing.
    /// `factors[id]` is the decay factor of slot `id` now. Where the three
    /// keys hash apart and map to distinct live slots, or are absent, each
    /// key ends as `recovered` states.
    pub fn apply_recovery(&mut self, state: RecoveryState, factors: &Vec<u32>, now: u64)
        requires
            old(self).wf(),
            factors@.len() == old(self).psyche.slots().len(),
            forall|i: int| 0 <= i < factors@.len() ==> #[trigger] factors@[i] <= ONE,
        ensures
            final(self).wf(),
            state == RecoveryState::Normal ==> final(self).psyche == old(self).psyche,
            state != RecoveryState::Normal && old(self).psyche.can_allocate_spec(3) ==> {
                &&& final(self).psyche.keys().contains_key(key_hash(INSTABILITY@))
                &&& final(self).psyche.keys().contains_key(key_hash(RESISTANCE@))
                &&& state == RecoveryState::Shock ==> final(self).psyche.keys().contains_key(key_hash(SHOCK@))
                &&& state == RecoveryState::Coma ==> final(self).psyche.keys().contains_key(key_hash(COMA@))
            },
            ({
                let event = if state == RecoveryState::Coma {
                    key_hash(COMA@)
                } else {
                    key_hash(SHOCK@)
                };
                let intensity = if state == RecoveryState::Coma {
                    500_000int
                } else {
                    300_000int
                };
                state != RecoveryState::Normal && old(self).psyche.can_allocate_spec(3) && reserved_apart(
                    old(self).psyche,
                    event,
                    key_hash(INSTABILITY@),
                    key_hash(RESISTANCE@),
                ) ==> {
                    &&& recovered(old(self).psyche, final(self).psyche, event, intensity, factors@, now)
                    &&& recovered(old(self).psyche, final(self).psyche, key_hash(INSTABILITY@), intensity, factors@, now)
                    &&& recovered(old(self).psyche, final(self).psyche, key_hash(RESISTANCE@), intensity, factors@, now)
                }
            }),
    {
        broadcast use vstd::map::group_map_axioms;

        let intensity = state.intensity();
        if intensity == 0 {
            return;
        }
        let key = match state {
            RecoveryState::Coma => COMA,
            _ => SHOCK,
        };
        let ghost a = key_hash(key@);
        let ghost b = key_hash(INSTABILITY@);
        let ghost c = key_hash(RESISTANCE@);
        let ghost p0 = self.psyche;
        self.stimulate_reserved(key, intensity, factors, now);
        let ghost p1 = self.psyche;
        self.stimulate_reserved(INSTABILITY, intensity, factors, now);
        let ghost p2 = self.psyche;
        self.stimulate_reserved(RESISTANCE, intensity, factors, now);
        let ghost p3 = self.psyche;
        proof {
            if p0.can_allocate_spec(3) && reserved_apart(p0, a, b, c) {
                lemma_recovery_step(p0, p1, a, a, b, c, intensity as int, factors@, now);
                lemma_recovery_step(p1, p2, b, a, b, c, intensity as int, factors@, now);
                lemma_recovery_step(p2, p3, c, a, b, c, intensity as int, factors@, now);
                lemma_recovered_carry(p0, p1, p2, a, intensity as int, factors@, now);
                lemma_recovered_carry(p0, p2, p3, a, intensity as int, factors@, now);
                lemma_recovered_rebase(p0, p1, p2, b, intensity as int, factors@, now);
                lemma_recovered_carry(p0, p2, p3, b, intensity as int, factors@, now);
                lemma_recovered_rebase(p1, p2, p3, c, intensity as int, factors@, now);
                lemma_recovered_rebase(p0, p1, p3, c, intensity as int, factors@, now);
            }
        }
    }

    /// The id that `key` maps to, if any.
    pub fn lookup_key(&self, key: &str) -> (r: Option<LineageId>)
        ensures
            r == (if self.psyche.keys().contains_key(key_hash(key@)) {
                Some(LineageId(self.psyche.keys()[key_hash(key@)]))
            } else {
                None
            }),
    {
        self.psyche.lookup(hash_key(key))
    }

    /// Maps `key` to `id`, as when rebuilding the key map after a restore.
    pub fn bind_key(&mut self, key: &str, id: LineageId)
        requires
            old(self).wf(),
        ensures
            final(self).wf(),
            final(self).psyche.keys() == old(self).psyche.keys().insert(key_hash(key@), id.0),
            final(self).psyche.slots() == old(self).psyche.slots(),
    {
        let h = hash_key(key);
        self.psyche.bind_key(h, id);
    }

    /// Observable energy of the system lineage `key`, given its decay factor.
    pub fn get_system_energy(&self, key: &str, factor: u32) -> (r: Option<u32>)
        requires
            factor <= ONE,
        ensures
            r == (if self.psyche.keys().contains_key(key_hash(key@)) && live(
                self.psyche.slots(),
                LineageId(self.psyche.keys()[key_hash(key@)]),
            ) {
                Some(
                    observable_of(
                        self.psyche.slots()[self.psyche.keys()[key_hash(key@)] as int],
                        factor as int,
                    ) as u32,
                )
            } else {
                None
            }),
    {
        let hash = hash_key(key);
        match self.psyche.lookup(hash) {
            Some(id) => match self.psyche.get(id) {
                Some(l) => Some(l.current_energy(factor)),
                None => None,
            },
            None => None,
        }
    }

    /// Stimulates the system lineage `key` at `now`; false when it is absent.
    pub fn stimulate_system(&mut self, key: &str, delta: i64, factor: u32, now: u64) -> (r: bool)
        requires
            old(self).wf(),
            factor <= ONE,
        ensures
            final(self).wf(),
            final(self).psyche.keys() == old(self).psyche.keys(),
            r == (old(self).psyche.keys().contains_key(key_hash(key@)) && live(
                old(self).psyche.slots(),
                LineageId(old(self).psyche.keys()[key_hash(key@)]),
            )),
            r ==> final(self).psyche.slots() == old(self).psyche.slots().update(
                old(self).psyche.keys()[key_hash(key@)] as int,
                stimulated(
                    old(self).psyche.slots()[old(self).psyche.keys()[key_hash(key@)] as int],
                    delta as int,
                    factor as int,
                    now,
                ),
            ),
            !r ==> final(self).psyche == old(self).psyche,
    {
        let hash = hash_key(key);
        match self.psyche.lookup(hash) {
            Some(id) => self.psyche.stimulate(id, delta, factor, now),
            None => false,
        }
    }
}

} // verus!
