//! Damped signal propagation through bonds, with polarity.
//!
//! From a source and an input energy, each active bond of the source with
//! non-zero polarity passes `input * strength * polarity * (1 - resistance)`
//! to the other endpoint, which is stimulated and propagates in turn. Three
//! rails stop it: the energy cutoff, the depth ceiling, and a visited set:
//! the source is never stimulated and every other lineage at most once.

use vstd::prelude::*;

use crate::bond::{bond_live, other_end, BondGraph, BondId};
use crate::psyche::{active_upto, has_flag, live, stimulated, LineageId, PsycheArena, ACTIVE};
use crate::setun::Trit;
use crate::unit::ONE;

verus! {

/// Default resistance, 0.5.
pub const DEFAULT_RESISTANCE: u32 = 500_000;
/// Default cutoff, 0.1.
pub const DEFAULT_CUTOFF: u32 = 100_000;
/// Default depth ceiling.
pub const DEFAULT_MAX_DEPTH: usize = 10;

/// Propagation parameters; resistance and cutoff in millionths.
#[derive(Debug, Clone, Copy, PartialEq, Eq, Structural)]
pub struct SynapseConfig {
    /// Share of the signal lost per hop, at most `ONE`.
    pub resistance: u32,
    /// Signals weaker than this stop.
    pub cutoff: u32,
    /// Hops beyond this depth stop.
    pub max_depth: usize,
}

impl Default for SynapseConfig {
    fn default() -> (r: SynapseConfig)
        ensures
            r == (SynapseConfig {
                resistance: DEFAULT_RESISTANCE,
                cutoff: DEFAULT_CUTOFF,
                max_depth: DEFAULT_MAX_DEPTH,
            }),
    {
        SynapseConfig {
            resistance: DEFAULT_RESISTANCE,
            cutoff: DEFAULT_CUTOFF,
            max_depth: DEFAULT_MAX_DEPTH,
        }
    }
}

/// `a / d` rounded toward zero.
pub open spec fn tdiv(a: int, d: int) -> int {
    if a >= 0 {
        a / d
    } else {
        -((-a) / d)
    }
}

/// The signal passed over one bond: `input * strength * polarity *
/// (1 - resistance)`, rounded toward zero and kept within `i64`.
pub open spec fn damped(input: int, strength: int, polarity: int, resistance: int) -> int {
    let v = tdiv(input * strength * polarity * (ONE - resistance), ONE * ONE);
    if v > i64::MAX {
        i64::MAX as int
    } else if v < -i64::MAX {
        -i64::MAX
    } else {
        v
    }
}

/// Number of marked entries among the first `n`.
pub open spec fn marked(v: Seq<bool>, n: int) -> nat
    decreases n,
{
    if n <= 0 {
        0
    } else {
        marked(v, n - 1) + if v[n - 1] {
            1nat
        } else {
            0nat
        }
    }
}

proof fn lemma_marked_update(v: Seq<bool>, i: int, n: int)
    requires
        0 <= i < v.len(),
        0 <= n <= v.len(),
        !v[i],
    ensures
        marked(v.update(i, true), n) == marked(v, n) + if i < n {
            1nat
        } else {
            0nat
        },
    decreases n,
{
    if n > 0 {
        lemma_marked_update(v, i, n - 1);
    }
}

proof fn lemma_marked_none(v: Seq<bool>, n: int)
    requires
        0 <= n <= v.len(),
        forall|k: int| 0 <= k < v.len() ==> !(#[trigger] v[k]),
    ensures
        marked(v, n) == 0,
    decreases n,
{
    if n > 0 {
        lemma_marked_none(v, n - 1);
    }
}

proof fn lemma_marked_bound(v: Seq<bool>, n: int)
    requires
        0 <= n <= v.len(),
    ensures
        marked(v, n) <= n,
    decreases n,
{
    if n > 0 {
        lemma_marked_bound(v, n - 1);
    }
}

/// Marked entries are at most the active slots when only active slots are marked.
proof fn lemma_marked_within_active(v: Seq<bool>, s: Seq<crate::psyche::Lineage>, n: int)
    requires
        0 <= n <= v.len(),
        v.len() == s.len(),
        forall|i: int| 0 <= i < v.len() && #[trigger] v[i] ==> has_flag(s[i].flags, ACTIVE),
    ensures
        marked(v, n) <= active_upto(s, n),
    decreases n,
{
    if n > 0 {
        lemma_marked_within_active(v, s, n - 1);
    }
}

/// Slot for slot, `after` has the liveness of `before`, and each record is
/// either unchanged or was last written at `now`.
pub open spec fn touched_at(before: Seq<crate::psyche::Lineage>, after: Seq<crate::psyche::Lineage>, now: u64) -> bool {
    &&& after.len() == before.len()
    &&& forall|i: int|
        0 <= i < before.len() ==> {
            &&& has_flag(#[trigger] after[i].flags, ACTIVE) == has_flag(before[i].flags, ACTIVE)
            &&& (after[i] == before[i] || after[i].last_access == now)
        }
}

/// `b` is `a`, or `a` after one stimulation at `now` by some signal and
/// decay factor.
pub open spec fn once_from(a: crate::psyche::Lineage, b: crate::psyche::Lineage, now: u64) -> bool {
    b == a || exists|d: int, f: int| 0 <= f <= ONE && #[trigger] stimulated(a, d, f, now) == b
}

/// Unmarked slots still hold their value from `orig`; marked ones hold it
/// or one stimulation of it.
pub open spec fn stimulated_once(orig: Seq<crate::psyche::Lineage>, v: Seq<bool>, s: Seq<crate::psyche::Lineage>, now: u64) -> bool {
    &&& orig.len() == s.len()
    &&& v.len() == s.len()
    &&& forall|i: int| 0 <= i < s.len() && !v[i] ==> #[trigger] s[i] == orig[i]
    &&& forall|i: int| 0 <= i < s.len() ==> once_from(orig[i], #[trigger] s[i], now)
}

/// Only active slots, or the root, are marked visited.
pub open spec fn marks_ok(v: Seq<bool>, s: Seq<crate::psyche::Lineage>, root: LineageId) -> bool {
    &&& v.len() == s.len()
    &&& forall|i: int| 0 <= i < v.len() && #[trigger] v[i] ==> has_flag(s[i].flags, ACTIVE) || i == root.0
}

/// The bond ids that propagation walks from `src`: its adjacency list, in
/// list order, or none outside the covered range.
pub open spec fn walk_ids(g: BondGraph, src: LineageId) -> Seq<BondId> {
    if (src.0 as int) < g.max_spec() {
        g.adj(src.0 as int)
    } else {
        Seq::empty()
    }
}

/// The decay factor used to stimulate slot `t` holding `l`: none if it was
/// already written at `now`, else `factors[t]`.
pub open spec fn hop_factor(l: crate::psyche::Lineage, factors: Seq<u32>, t: int, now: u64) -> int {
    if l.last_access == now {
        ONE as int
    } else {
        factors[t] as int
    }
}

/// Slots and visited marks after propagating `input` from `src` at `depth`:
/// nothing when the signal is below the cutoff or the depth has reached the
/// ceiling; otherwise the walk of `src`'s bonds in list order.
pub open spec fn run_from(
    cfg: SynapseConfig,
    g: BondGraph,
    factors: Seq<u32>,
    now: u64,
    src: LineageId,
    input: int,
    depth: int,
    slots: Seq<crate::psyche::Lineage>,
    marks: Seq<bool>,
) -> (Seq<crate::psyche::Lineage>, Seq<bool>)
    decreases cfg.max_depth - depth, 1int, 0int,
{
    if depth < 0 || depth >= cfg.max_depth || (if input < 0 {
        -input
    } else {
        input
    }) < cfg.cutoff {
        (slots, marks)
    } else {
        run_list(cfg, g, factors, now, src, input, depth, walk_ids(g, src), 0, slots, marks)
    }
}

/// The walk of bonds `ids[k..]` of `src`. A live bond with non-zero
/// polarity whose other end is a live, unvisited lineage marks it,
/// stimulates it by the damped signal, and propagates from it one level
/// deeper; any other bond is skipped.
pub open spec fn run_list(
    cfg: SynapseConfig,
    g: BondGraph,
    factors: Seq<u32>,
    now: u64,
    src: LineageId,
    input: int,
    depth: int,
    ids: Seq<BondId>,
    k: int,
    slots: Seq<crate::psyche::Lineage>,
    marks: Seq<bool>,
) -> (Seq<crate::psyche::Lineage>, Seq<bool>)
    decreases cfg.max_depth - depth, 0int, ids.len() - k,
{
    if depth < 0 || depth >= cfg.max_depth || k < 0 || k >= ids.len() {
        (slots, marks)
    } else {
        let id = ids[k];
        let b = g.slots()[id.0 as int];
        let t = other_end(b, src);
        let ti = t.0 as int;
        let next = if bond_live(g.slots(), id) && b.polarity != Trit::Unknown && live(slots, t) && ti
            < marks.len() && !marks[ti] {
            let d = damped(input, b.strength as int, b.polarity.w(), cfg.resistance as int);
            run_from(
                cfg,
                g,
                factors,
                now,
                t,
                d,
                depth + 1,
                slots.update(ti, stimulated(slots[ti], d, hop_factor(slots[ti], factors, ti, now), now)),
                marks.update(ti, true),
            )
        } else {
            (slots, marks)
        };
        run_list(cfg, g, factors, now, src, input, depth, ids, k + 1, next.0, next.1)
    }
}

/// The visited marks a propagation starts with: only the source.
pub open spec fn start_marks(n: nat, src: LineageId) -> Seq<bool> {
    Seq::new(n, |i: int| i == src.0 as int)
}

/// The propagation engine.
pub struct SynapseEngine {
    config: SynapseConfig,
}

impl SynapseEngine {
    pub closed spec fn config_spec(&self) -> SynapseConfig {
        self.config
    }

    /// An engine with the default configuration.
    pub fn new() -> (r: SynapseEngine)
        ensures
            r.config_spec() == (SynapseConfig {
                resistance: DEFAULT_RESISTANCE,
                cutoff: DEFAULT_CUTOFF,
                max_depth: DEFAULT_MAX_DEPTH,
            }),
    {
        SynapseEngine::with_config(SynapseConfig::default())
    }

    /// An engine with the given configuration.
    pub fn with_config(config: SynapseConfig) -> (r: SynapseEngine)
        ensures
            r.config_spec() == config,
    {
        SynapseEngine { config }
    }

    /// Propagates `input_energy` from `source`; returns how many lineages
    /// were stimulated. Each lineage is stimulated at most once, the source
    /// never. `factors[id]` is the decay factor of
    /// lineage `id` at `now`; a lineage already written at `now` decays by
    /// nothing.
    pub fn propagate(
        &self,
        psyche: &mut PsycheArena,
        bonds: &BondGraph,
        source: LineageId,
        input_energy: i64,
        factors: &Vec<u32>,
        now: u64,
    ) -> (r: usize)
        requires
            old(psyche).wf(),
            bonds.wf(),
            self.config_spec().resistance <= ONE,
            factors@.len() == old(psyche).slots().len(),
            forall|i: int| 0 <= i < factors@.len() ==> #[trigger] factors@[i] <= ONE,
        ensures
            final(psyche).wf(),
            touched_at(old(psyche).slots(), final(psyche).slots(), now),
            final(psyche).free_ids() == old(psyche).free_ids(),
            final(psyche).keys() == old(psyche).keys(),
            forall|i: int|
                0 <= i < old(psyche).slots().len() ==> once_from(
                    old(psyche).slots()[i],
                    #[trigger] final(psyche).slots()[i],
                    now,
                ),
            (source.0 as int) < old(psyche).slots().len() ==> final(psyche).slots()[source.0 as int]
                == old(psyche).slots()[source.0 as int],
            final(psyche).slots() == run_from(
                self.config_spec(),
                *bonds,
                factors@,
                now,
                source,
                input_energy as int,
                0,
                old(psyche).slots(),
                start_marks(old(psyche).slots().len(), source),
            ).0,
            r == marked(
                run_from(
                    self.config_spec(),
                    *bonds,
                    factors@,
                    now,
                    source,
                    input_energy as int,
                    0,
                    old(psyche).slots(),
                    start_marks(old(psyche).slots().len(), source),
                ).1,
                old(psyche).slots().len() as int,
            ) - marked(start_marks(old(psyche).slots().len(), source), old(psyche).slots().len() as int),
            r <= crate::psyche::active_count(old(psyche).slots()),
    {
        let (affected, _visits) = self.propagate_traced(psyche, bonds, source, input_energy, factors, now);
        affected
    }

    /// `propagate`, also returning the number of lineages that propagated:
    /// never more than the active lineages when the source is active.
    pub fn propagate_traced(
        &self,
        psyche: &mut PsycheArena,
        bonds: &BondGraph,
        source: LineageId,
        input_energy: i64,
        factors: &Vec<u32>,
        now: u64,
    ) -> (r: (usize, usize))
        requires
            old(psyche).wf(),
            bonds.wf(),
            self.config_spec().resistance <= ONE,
            factors@.len() == old(psyche).slots().len(),
            forall|i: int| 0 <= i < factors@.len() ==> #[trigger] factors@[i] <= ONE,
        ensures
            final(psyche).wf(),
            touched_at(old(psyche).slots(), final(psyche).slots(), now),
            final(psyche).free_ids() == old(psyche).free_ids(),
            final(psyche).keys() == old(psyche).keys(),
            live(old(psyche).slots(), source) ==> r.1 <= crate::psyche::active_count(old(psyche).slots()),
            forall|i: int|
                0 <= i < old(psyche).slots().len() ==> once_from(
                    old(psyche).slots()[i],
                    #[trigger] final(psyche).slots()[i],
                    now,
                ),
            (source.0 as int) < old(psyche).slots().len() ==> final(psyche).slots()[source.0 as int]
                == old(psyche).slots()[source.0 as int],
            final(psyche).slots() == run_from(
                self.config_spec(),
                *bonds,
                factors@,
                now,
                source,
                input_energy as int,
                0,
                old(psyche).slots(),
                start_marks(old(psyche).slots().len(), source),
            ).0,
            r.0 == marked(
                run_from(
                    self.config_spec(),
                    *bonds,
                    factors@,
                    now,
                    source,
                    input_energy as int,
                    0,
                    old(psyche).slots(),
                    start_marks(old(psyche).slots().len(), source),
                ).1,
                old(psyche).slots().len() as int,
            ) - marked(start_marks(old(psyche).slots().len(), source), old(psyche).slots().len() as int),
            r.0 <= crate::psyche::active_count(old(psyche).slots()),
    {
        let n = psyche.slot_count();
        let mut visited: Vec<bool> = Vec::with_capacity(n);
        let mut i: usize = 0;
        while i < n
            invariant
                i <= n,
                visited@.len() == i,
                forall|k: int| 0 <= k < i ==> !(#[trigger] visited@[k]),
            decreases n - i,
        {
            visited.push(false);
            i = i + 1;
        }
        proof {
            lemma_marked_none(visited@, n as int);
        }
        let mut visits: usize = 0;
        let si = source.0 as usize;
        if si < n {
            proof {
                lemma_marked_update(visited@, si as int, visited@.len() as int);
            }
            visited.set(si, true);
            visits = 1;
        }
        proof {
            assert(touched_at(psyche.slots(), psyche.slots(), now));
        }
        let ghost orig = psyche.slots();
        let ghost marks0 = visited@;
        proof {
            assert(marks0 =~= start_marks(orig.len(), source));
        }
        let affected = self.propagate_from(
            psyche,
            bonds,
            source,
            source,
            input_energy,
            factors,
            now,
            &mut visited,
            &mut visits,
            0,
            Ghost(orig),
        );
        proof {
            if (source.0 as int) < orig.len() {
                assert(marks0[source.0 as int]);
            }
            let fs = psyche.slots();
            lemma_same_liveness(orig, fs, fs.len() as int);
            lemma_marked_root(visited@, fs, source, fs.len() as int);
            lemma_marked_root(marks0, orig, source, orig.len() as int);
            if (source.0 as int) < orig.len() {
                assert(visited@[source.0 as int]);
                assert(has_flag(fs[source.0 as int].flags, ACTIVE) == has_flag(orig[source.0 as int].flags, ACTIVE));
            }
            if live(old(psyche).slots(), source) {
                let s = psyche.slots();
                assert forall|k: int| 0 <= k < visited@.len() && #[trigger] visited@[k] implies has_flag(s[k].flags, ACTIVE) by {
                    if k == source.0 {
                        assert(has_flag(old(psyche).slots()[k].flags, ACTIVE));
                    }
                }
                lemma_marked_within_active(visited@, s, s.len() as int);
                assert(crate::psyche::active_count(s) == crate::psyche::active_count(old(psyche).slots())) by {
                    lemma_same_liveness(old(psyche).slots(), s, s.len() as int);
                }
            }
        }
        (affected, visits)
    }

    fn propagate_from(
        &self,
        psyche: &mut PsycheArena,
        bonds: &BondGraph,
        root: LineageId,
        source: LineageId,
        input: i64,
        factors: &Vec<u32>,
        now: u64,
        visited: &mut Vec<bool>,
        visits: &mut usize,
        depth: usize,
        Ghost(orig): Ghost<Seq<crate::psyche::Lineage>>,
    ) -> (affected: usize)
        requires
            stimulated_once(orig, old(visited)@, old(psyche).slots(), now),
            old(psyche).wf(),
            bonds.wf(),
            self.config.resistance <= ONE,
            factors@.len() == old(psyche).slots().len(),
            forall|i: int| 0 <= i < factors@.len() ==> #[trigger] factors@[i] <= ONE,
            marks_ok(old(visited)@, old(psyche).slots(), root),
            *old(visits) == marked(old(visited)@, old(visited)@.len() as int),
            depth <= self.config.max_depth,
        ensures
            final(psyche).wf(),
            touched_at(old(psyche).slots(), final(psyche).slots(), now),
            final(psyche).free_ids() == old(psyche).free_ids(),
            final(psyche).keys() == old(psyche).keys(),
            marks_ok(final(visited)@, final(psyche).slots(), root),
            *final(visits) == marked(final(visited)@, final(visited)@.len() as int),
            stimulated_once(orig, final(visited)@, final(psyche).slots(), now),
            forall|i: int| 0 <= i < old(visited)@.len() && #[trigger] old(visited)@[i] ==> final(visited)@[i]
                && final(psyche).slots()[i] == old(psyche).slots()[i],
            (final(psyche).slots(), final(visited)@) == run_from(
                self.config,
                *bonds,
                factors@,
                now,
                source,
                input as int,
                depth as int,
                old(psyche).slots(),
                old(visited)@,
            ),
            affected == marked(final(visited)@, final(visited)@.len() as int) - marked(
                old(visited)@,
                old(visited)@.len() as int,
            ),
        decreases self.config.max_depth - depth,
    {
        let magnitude: i128 = if input < 0 {
            -(input as i128)
        } else {
            input as i128
        };
        if magnitude < self.config.cutoff as i128 {
            return 0;
        }
        if depth >= self.config.max_depth {
            return 0;
        }
        let ids = bonds.neighbors(source);
        let ghost s0 = psyche.slots();
        let ghost v0 = visited@;
        let ghost cfg = self.config;
        proof {
            assert(ids@ == walk_ids(*bonds, source));
            assert(run_from(cfg, *bonds, factors@, now, source, input as int, depth as int, s0, v0) == run_list(
                cfg,
                *bonds,
                factors@,
                now,
                source,
                input as int,
                depth as int,
                ids@,
                0,
                s0,
                v0,
            ));
        }
        let mut affected: usize = 0;
        let mut k: usize = 0;
        let keep = ONE as i128 - self.config.resistance as i128;
        while k < ids.len()
            invariant
                psyche.wf(),
                bonds.wf(),
                0 <= keep <= ONE,
                keep == ONE - self.config.resistance,
                self.config.resistance <= ONE,
                factors@.len() == psyche.slots().len(),
                forall|i: int| 0 <= i < factors@.len() ==> #[trigger] factors@[i] <= ONE,
                touched_at(old(psyche).slots(), psyche.slots(), now),
                psyche.free_ids() == old(psyche).free_ids(),
                psyche.keys() == old(psyche).keys(),
                marks_ok(visited@, psyche.slots(), root),
                *visits == marked(visited@, visited@.len() as int),
                depth < self.config.max_depth,
                stimulated_once(orig, visited@, psyche.slots(), now),
                visited@.len() == old(visited)@.len(),
                forall|i: int| 0 <= i < old(visited)@.len() && #[trigger] old(visited)@[i] ==> visited@[i]
                    && psyche.slots()[i] == old(psyche).slots()[i],
                cfg == self.config,
                s0 == old(psyche).slots(),
                v0 == old(visited)@,
                0 <= k <= ids@.len(),
                run_list(cfg, *bonds, factors@, now, source, input as int, depth as int, ids@, k as int, psyche.slots(), visited@)
                    == run_list(cfg, *bonds, factors@, now, source, input as int, depth as int, ids@, 0, s0, v0),
                affected == marked(visited@, visited@.len() as int) - marked(v0, v0.len() as int),
            decreases ids@.len() - k,
        {
            let id = ids[k];
            let ghost cur_s = psyche.slots();
            let ghost cur_v = visited@;
            proof {
                crate::psyche::lemma_arena_bounds(*psyche);
                lemma_marked_bound(visited@, visited@.len() as int);
            }
            match bonds.get(id) {
                Some(bond) => {
                    if bond.polarity != Trit::Unknown {
                        let p: i128 = if bond.polarity == Trit::True {
                            1
                        } else {
                            -1
                        };
                        proof {
                            assert(-0x8000_0000_0000_0000 * 0x1_0000_0000 <= input as int * bond.strength as int <= 0x8000_0000_0000_0000 * 0x1_0000_0000) by (nonlinear_arith)
                                requires
                                    -0x8000_0000_0000_0000 <= input < 0x8000_0000_0000_0000,
                                    0 <= bond.strength < 0x1_0000_0000,
                            ;
                        }
                        let a = input as i128 * bond.strength as i128;
                        proof {
                            assert(-0x8000_0000_0000_0000 * 0x1_0000_0000 * ONE <= a * keep <= 0x8000_0000_0000_0000 * 0x1_0000_0000 * ONE) by (nonlinear_arith)
                                requires
                                    -0x8000_0000_0000_0000 * 0x1_0000_0000 <= a <= 0x8000_0000_0000_0000 * 0x1_0000_0000,
                                    0 <= keep <= ONE,
                            ;
                        }
                        let raw = a * keep * p;
                        let d: i128 = 1_000_000_000_000;
                        let q = if raw >= 0 {
                            raw / d
                        } else {
                            -((-raw) / d)
                        };
                        let decayed: i64 = if q > i64::MAX as i128 {
                            i64::MAX
                        } else if q < -(i64::MAX as i128) {
                            -i64::MAX
                        } else {
                            q as i64
                        };
                        proof {
                            assert(raw == input as int * bond.strength as int * p as int * (ONE - self.config.resistance)) by (nonlinear_arith)
                                requires
                                    raw == a * keep * p,
                                    a == input as int * bond.strength as int,
                                    keep == ONE - self.config.resistance,
                            ;
                            assert(d == ONE * ONE);
                            assert(q == tdiv(raw as int, ONE * ONE));
                            assert(decayed == damped(input as int, bond.strength as int, p as int, self.config.resistance as int));
                        }
                        let target = bond.other(source);
                        let fresh = match psyche.get(target) {
                            Some(_) => !visited[target.0 as usize],
                            None => false,
                        };
                        if fresh {
                            let ti = target.0 as usize;
                            let last = psyche.get(target).unwrap().last_access;
                            let f = if last == now {
                                ONE as u32
                            } else {
                                factors[ti]
                            };
                            proof {
                                lemma_marked_update(visited@, ti as int, visited@.len() as int);
                                assert(psyche.slots()[ti as int] == orig[ti as int]);
                            }
                            let ghost vbefore = visited@;
                            visited.set(ti, true);
                            proof {
                                assert forall|i: int| 0 <= i < psyche.slots().len() && !visited@[i] implies #[trigger] psyche.slots()[i] == orig[i] by {
                                    assert(!vbefore[i]);
                                }
                                assert forall|i: int| 0 <= i < old(visited)@.len() && #[trigger] old(visited)@[i] implies visited@[i]
                                    && psyche.slots()[i] == old(psyche).slots()[i] by {
                                    assert(vbefore[i]);
                                }
                            }
                            proof {
                                lemma_marked_bound(visited@, visited@.len() as int);
                                crate::psyche::lemma_arena_bounds(*psyche);
                            }
                            *visits = *visits + 1;
                            let ghost mid = psyche.slots();
                            let ghost vmid = visited@;
                            proof {
                                crate::psyche::lemma_flag_bits(mid[ti as int].flags);
                            }
                            psyche.stimulate(target, decayed, f, now);
                            proof {
                                let t = ti as int;
                                assert(mid[t] == orig[t]);
                                assert(psyche.slots()[t] == stimulated(orig[t], decayed as int, f as int, now));
                                assert(once_from(orig[t], psyche.slots()[t], now));
                                assert forall|i: int| 0 <= i < psyche.slots().len() && !visited@[i] implies #[trigger] psyche.slots()[i] == orig[i] by {
                                    assert(i != t);
                                    assert(psyche.slots()[i] == mid[i]);
                                }
                                assert forall|i: int| 0 <= i < psyche.slots().len() implies once_from(orig[i], #[trigger] psyche.slots()[i], now) by {
                                    if i != t {
                                        assert(psyche.slots()[i] == mid[i]);
                                    }
                                }
                                assert forall|i: int| 0 <= i < old(visited)@.len() && #[trigger] old(visited)@[i] implies visited@[i]
                                    && psyche.slots()[i] == old(psyche).slots()[i] by {
                                    assert(i != t);
                                    assert(psyche.slots()[i] == mid[i]);
                                }
                            }
                            proof {
                                lemma_touched_trans(old(psyche).slots(), mid, psyche.slots(), now);
                                assert forall|i: int| 0 <= i < visited@.len() && #[trigger] visited@[i] implies
                                    has_flag(psyche.slots()[i].flags, ACTIVE) || i == root.0 by {
                                    assert(has_flag(mid[i].flags, ACTIVE) || i == root.0);
                                }
                            }
                            affected = affected + 1;
                            let ghost mid2 = psyche.slots();
                            let ghost vmid2 = visited@;
                            let sub = self.propagate_from(
                                psyche,
                                bonds,
                                root,
                                target,
                                decayed,
                                factors,
                                now,
                                visited,
                                visits,
                                depth + 1,
                                Ghost(orig),
                            );
                            proof {
                                lemma_touched_trans(old(psyche).slots(), mid2, psyche.slots(), now);
                                lemma_marked_bound(visited@, visited@.len() as int);
                                crate::psyche::lemma_arena_bounds(*psyche);
                                assert(mid2 == cur_s.update(ti as int, stimulated(cur_s[ti as int], decayed as int, f as int, now)));
                                assert(vmid2 == cur_v.update(ti as int, true));
                                assert(f as int == hop_factor(cur_s[ti as int], factors@, ti as int, now));
                            }
                            affected = affected + sub;
                        }
                    }
                },
                None => {},
            }
            proof {
                let b = bonds.slots()[id.0 as int];
                let t = other_end(b, source);
                let ti = t.0 as int;
                let hit = bond_live(bonds.slots(), id) && b.polarity != Trit::Unknown && live(cur_s, t) && ti
                    < cur_v.len() && !cur_v[ti];
                if !hit {
                    assert(psyche.slots() == cur_s && visited@ == cur_v);
                }
                assert(run_list(cfg, *bonds, factors@, now, source, input as int, depth as int, ids@, k as int, cur_s, cur_v)
                    == run_list(cfg, *bonds, factors@, now, source, input as int, depth as int, ids@, k + 1, psyche.slots(), visited@));
            }
            k = k + 1;
        }
        affected
    }
}

impl Default for SynapseEngine {
    fn default() -> (r: SynapseEngine)
        ensures
            r.config_spec() == (SynapseConfig {
                resistance: DEFAULT_RESISTANCE,
                cutoff: DEFAULT_CUTOFF,
                max_depth: DEFAULT_MAX_DEPTH,
            }),
    {
        SynapseEngine::new()
    }
}

/// With only active slots and possibly the root marked, the marks exceed
/// the active slots by at most an inactive marked root.
proof fn lemma_marked_root(v: Seq<bool>, s: Seq<crate::psyche::Lineage>, root: LineageId, n: int)
    requires
        0 <= n <= v.len(),
        v.len() == s.len(),
        forall|i: int| 0 <= i < v.len() && #[trigger] v[i] ==> has_flag(s[i].flags, ACTIVE) || i == root.0,
    ensures
        marked(v, n) <= active_upto(s, n) + if (root.0 as int) < n && v[root.0 as int] && !has_flag(
            s[root.0 as int].flags,
            ACTIVE,
        ) {
            1int
        } else {
            0int
        },
        (root.0 as int) < n && v[root.0 as int] ==> marked(v, n) >= 1,
    decreases n,
{
    if n > 0 {
        lemma_marked_root(v, s, root, n - 1);
    }
}

proof fn lemma_touched_trans(
    a: Seq<crate::psyche::Lineage>,
    b: Seq<crate::psyche::Lineage>,
    c: Seq<crate::psyche::Lineage>,
    now: u64,
)
    requires
        touched_at(a, b, now),
        touched_at(b, c, now),
    ensures
        touched_at(a, c, now),
{
    assert forall|i: int| 0 <= i < a.len() implies {
        &&& has_flag(#[trigger] c[i].flags, ACTIVE) == has_flag(a[i].flags, ACTIVE)
        &&& (c[i] == a[i] || c[i].last_access == now)
    } by {
        assert(has_flag(b[i].flags, ACTIVE) == has_flag(a[i].flags, ACTIVE));
        assert(has_flag(c[i].flags, ACTIVE) == has_flag(b[i].flags, ACTIVE));
        assert(b[i] == a[i] || b[i].last_access == now);
        assert(c[i] == b[i] || c[i].last_access == now);
    }
}

proof fn lemma_same_liveness(a: Seq<crate::psyche::Lineage>, b: Seq<crate::psyche::Lineage>, n: int)
    requires
        0 <= n <= a.len(),
        a.len() == b.len(),
        forall|i: int| 0 <= i < a.len() ==> has_flag(#[trigger] b[i].flags, ACTIVE) == has_flag(a[i].flags, ACTIVE),
    ensures
        active_upto(a, n) == active_upto(b, n),
    decreases n,
{
    if n > 0 {
        lemma_same_liveness(a, b, n - 1);
        assert(has_flag(b[n - 1].flags, ACTIVE) == has_flag(a[n - 1].flags, ACTIVE));
    }
}

} // verus!
