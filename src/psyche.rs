//! The lineage arena: a slab of lineage records with free-list reuse and a
//! key to id map.
//!
//! Observable energy decays as `energy * exp(-decay_rate * elapsed)`. The
//! exponential itself is computed by the caller, which hands in the decay
//! factor (in millionths) of a lineage at the instant of the operation.

use vstd::prelude::*;

use rustc_hash::FxHashMap;

use crate::unit::{clamp, ONE};

verus! {

/// Dense 32-bit identifier of a lineage; all ones is the null sentinel.
#[derive(Debug, Clone, Copy, PartialEq, Eq, Structural, Hash)]
pub struct LineageId(pub u32);

impl LineageId {
    /// The null sentinel.
    pub fn null() -> (r: LineageId)
        ensures
            r.0 == 0xFFFF_FFFF,
    {
        LineageId(0xFFFF_FFFF)
    }

    /// Whether this is not the null sentinel.
    pub fn is_valid(self) -> (r: bool)
        ensures
            r == (self.0 != 0xFFFF_FFFF),
    {
        self.0 != 0xFFFF_FFFF
    }

    /// The slot index.
    pub fn index(self) -> (r: usize)
        ensures
            r == self.0,
    {
        self.0 as usize
    }
}

/// The slot is in use.
pub const ACTIVE: u32 = 1;
/// Energy was at or above the threshold at the last write.
pub const CONSCIOUS: u32 = 2;
/// Energy does not decay.
pub const PROTECTED: u32 = 4;
/// Modified since the last persist.
pub const DIRTY: u32 = 8;
/// Pinned in memory.
pub const PINNED: u32 = 16;

/// No engram recorded yet.
pub const NO_HEAD: u32 = 0xFFFF_FFFF;

/// Default consciousness threshold, 0.5.
pub const DEFAULT_THRESHOLD: u32 = 500_000;
/// Default decay rate, 0.001 per second.
pub const DEFAULT_DECAY_RATE: u32 = 1_000;
/// Default rigidity, 0.5.
pub const DEFAULT_RIGIDITY: u32 = 500_000;

/// Whether `flags` has bit `bit` set.
pub open spec fn has_flag(flags: u32, bit: u32) -> bool {
    flags & bit != 0
}

/// A neuron-like record: energy, threshold and rates in millionths.
#[derive(Debug, Clone, Copy, PartialEq, Eq, Structural)]
pub struct Lineage {
    /// Energy as of `last_access`, in `[0, ONE]` once written by `stimulate`.
    pub energy: u32,
    /// Consciousness threshold.
    pub threshold: u32,
    /// Decay rate in millionths per second.
    pub decay_rate: u32,
    /// Resistance to change.
    pub rigidity: u32,
    /// Last access, nanoseconds since the epoch.
    pub last_access: u64,
    /// ACTIVE, CONSCIOUS, PROTECTED, DIRTY, PINNED.
    pub flags: u32,
    /// Head of the engram ring, or `NO_HEAD`.
    pub head_index: u32,
}

/// Relies on `std::time::SystemTime::now`: nanoseconds since the epoch, or 0
/// if the clock is before it. Nothing is known of the value.
#[verifier::external_body]
pub(crate) fn now_nanos() -> (r: u64) {
    std::time::SystemTime::now()
        .duration_since(std::time::UNIX_EPOCH)
        .map(|d| d.as_nanos() as u64)
        .unwrap_or(0)
}

/// The record with its ACTIVE flag cleared.
pub open spec fn deactivated(l: Lineage) -> Lineage {
    Lineage { flags: l.flags & !ACTIVE, ..l }
}

/// Energy after applying a decay factor: unchanged when protected.
pub open spec fn observable_of(l: Lineage, factor: int) -> int {
    if has_flag(l.flags, PROTECTED) {
        l.energy as int
    } else {
        (l.energy as int * factor) / (ONE as int)
    }
}

/// The lineage after `stimulate(delta)` at `now`, given its decay factor.
pub open spec fn stimulated(l: Lineage, delta: int, factor: int, now: u64) -> Lineage {
    let e = clamp(observable_of(l, factor) + delta, 0, ONE as int);
    let f = l.flags | DIRTY;
    Lineage {
        energy: e as u32,
        last_access: now,
        flags: if e >= l.threshold {
            f | CONSCIOUS
        } else {
            f & !CONSCIOUS
        },
        ..l
    }
}

/// What setting and clearing the flag bits does to ACTIVE, PROTECTED and
/// CONSCIOUS.
pub(crate) proof fn lemma_flag_bits(f: u32)
    ensures
        has_flag((f | DIRTY) | CONSCIOUS, ACTIVE) == has_flag(f, ACTIVE),
        has_flag((f | DIRTY) & !CONSCIOUS, ACTIVE) == has_flag(f, ACTIVE),
        has_flag((f | DIRTY) | CONSCIOUS, PROTECTED) == has_flag(f, PROTECTED),
        has_flag((f | DIRTY) & !CONSCIOUS, PROTECTED) == has_flag(f, PROTECTED),
        has_flag((f | DIRTY) | CONSCIOUS, CONSCIOUS),
        !has_flag((f | DIRTY) & !CONSCIOUS, CONSCIOUS),
        has_flag(f | ACTIVE, ACTIVE),
        !has_flag(f & !ACTIVE, ACTIVE),
{
    assert(((f | 8u32) | 2u32) & 1u32 != 0 <==> f & 1u32 != 0) by (bit_vector);
    assert(((f | 8u32) & !2u32) & 1u32 != 0 <==> f & 1u32 != 0) by (bit_vector);
    assert(((f | 8u32) | 2u32) & 4u32 != 0 <==> f & 4u32 != 0) by (bit_vector);
    assert(((f | 8u32) & !2u32) & 4u32 != 0 <==> f & 4u32 != 0) by (bit_vector);
    assert(((f | 8u32) | 2u32) & 2u32 != 0) by (bit_vector);
    assert(((f | 8u32) & !2u32) & 2u32 == 0) by (bit_vector);
    assert((f | 1u32) & 1u32 != 0) by (bit_vector);
    assert((f & !1u32) & 1u32 == 0) by (bit_vector);
}

/// A fresh active lineage.
pub open spec fn fresh(energy: u32, threshold: u32, decay_rate: u32, now: u64) -> Lineage {
    Lineage {
        energy,
        threshold,
        decay_rate,
        rigidity: DEFAULT_RIGIDITY,
        last_access: now,
        flags: ACTIVE,
        head_index: NO_HEAD,
    }
}

impl Default for Lineage {
    /// Full energy, default parameters, accessed now.
    fn default() -> (r: Lineage)
        ensures
            r == fresh(ONE as u32, DEFAULT_THRESHOLD, DEFAULT_DECAY_RATE, r.last_access),
    {
        Lineage::new(ONE as u32)
    }
}

impl Lineage {
    /// A lineage with all fields given, active.
    pub fn at(energy: u32, threshold: u32, decay_rate: u32, now: u64) -> (r: Lineage)
        ensures
            r == fresh(energy, threshold, decay_rate, now),
    {
        Lineage {
            energy,
            threshold,
            decay_rate,
            rigidity: DEFAULT_RIGIDITY,
            last_access: now,
            flags: ACTIVE,
            head_index: NO_HEAD,
        }
    }

    /// A lineage with the given energy and default parameters, accessed now.
    pub fn new(energy: u32) -> (r: Lineage)
        ensures
            r == fresh(energy, DEFAULT_THRESHOLD, DEFAULT_DECAY_RATE, r.last_access),
    {
        Lineage::at(energy, DEFAULT_THRESHOLD, DEFAULT_DECAY_RATE, now_nanos())
    }

    /// A lineage with the given energy, threshold and decay rate, accessed now.
    pub fn with_config(energy: u32, threshold: u32, decay_rate: u32) -> (r: Lineage)
        ensures
            r == fresh(energy, threshold, decay_rate, r.last_access),
    {
        Lineage::at(energy, threshold, decay_rate, now_nanos())
    }

    /// Stored energy at or above the threshold.
    pub fn is_conscious(&self) -> (r: bool)
        ensures
            r == (self.energy >= self.threshold),
    {
        self.energy >= self.threshold
    }

    /// The ACTIVE flag.
    pub fn is_active(&self) -> (r: bool)
        ensures
            r == has_flag(self.flags, ACTIVE),
    {
        self.flags & ACTIVE != 0
    }

    /// The PROTECTED flag.
    pub fn is_protected(&self) -> (r: bool)
        ensures
            r == has_flag(self.flags, PROTECTED),
    {
        self.flags & PROTECTED != 0
    }

    /// Nanoseconds from the last access to `now`; 0 if `now` is not later.
    pub fn elapsed_nanos(&self, now: u64) -> (r: u64)
        ensures
            r == if now > self.last_access {
                (now - self.last_access) as u64
            } else {
                0
            },
    {
        if now > self.last_access {
            now - self.last_access
        } else {
            0
        }
    }

    /// Observable energy given the decay factor `exp(-rate * elapsed)`.
    pub fn current_energy(&self, factor: u32) -> (r: u32)
        requires
            factor <= ONE,
        ensures
            r == observable_of(*self, factor as int),
    {
        if self.flags & PROTECTED != 0 {
            self.energy
        } else {
            proof {
                assert(self.energy as int * factor as int <= 0xFFFF_FFFF * 0xFFFF_FFFF) by (nonlinear_arith)
                    requires
                        self.energy <= 0xFFFF_FFFF,
                        factor <= 0xFFFF_FFFF,
                ;
            }
            let v = (self.energy as u64 * factor as u64) / ONE as u64;
            proof {
                let p = self.energy as int * factor as int;
                assert(p <= self.energy as int * ONE) by (nonlinear_arith)
                    requires
                        factor <= ONE,
                        p == self.energy as int * factor as int,
                ;
                assert(p / (ONE as int) <= self.energy as int) by (nonlinear_arith)
                    requires
                        p <= self.energy as int * ONE,
                        p >= 0,
                ;
            }
            v as u32
        }
    }

    /// Adds `delta` to the observable energy, clamps to `[0, ONE]`, writes it
    /// back accessed at `now`, marks the record dirty and refreshes CONSCIOUS.
    pub fn stimulate(&mut self, delta: i64, factor: u32, now: u64)
        requires
            factor <= ONE,
        ensures
            *final(self) == stimulated(*old(self), delta as int, factor as int, now),
    {
        let cur = self.current_energy(factor);
        let e = if (cur as i128) + (delta as i128) < 0 {
            0u32
        } else if (cur as i128) + (delta as i128) > ONE as i128 {
            ONE as u32
        } else {
            (cur as i128 + delta as i128) as u32
        };
        self.energy = e;
        self.last_access = now;
        let f = self.flags | DIRTY;
        if e >= self.threshold {
            self.flags = f | CONSCIOUS;
        } else {
            self.flags = f & !CONSCIOUS;
        }
    }

    /// Applies the decay to the stored energy and restarts the clock at `now`.
    pub fn touch(&mut self, factor: u32, now: u64)
        requires
            factor <= ONE,
        ensures
            final(self).energy == observable_of(*old(self), factor as int),
            final(self).last_access == now,
            final(self).flags == old(self).flags,
            final(self).threshold == old(self).threshold,
            final(self).decay_rate == old(self).decay_rate,
            final(self).rigidity == old(self).rigidity,
            final(self).head_index == old(self).head_index,
    {
        self.energy = self.current_energy(factor);
        self.last_access = now;
    }
}

/// With no intervening write, observable energy does not grow as the decay
/// factor shrinks over time.
pub proof fn lemma_decay_monotone(l: Lineage, f1: int, f2: int)
    requires
        0 <= f2 <= f1 <= ONE,
    ensures
        observable_of(l, f2) <= observable_of(l, f1),
{
    if !has_flag(l.flags, PROTECTED) {
        assert(l.energy as int * f2 <= l.energy as int * f1) by (nonlinear_arith)
            requires
                0 <= f2 <= f1,
                l.energy >= 0,
        ;
        vstd::arithmetic::div_mod::lemma_div_is_ordered(
            l.energy as int * f2,
            l.energy as int * f1,
            ONE as int,
        );
    }
}

/// A read right after `stimulate(delta)` (decay factor one) yields the
/// previous observable energy plus `delta`, clamped to `[0, ONE]`.
pub proof fn lemma_stimulate_then_read(l: Lineage, delta: int, factor: int, now: u64)
    requires
        0 <= factor <= ONE,
    ensures
        observable_of(stimulated(l, delta, factor, now), ONE as int) == clamp(
            observable_of(l, factor) + delta,
            0,
            ONE as int,
        ),
{
    let s = stimulated(l, delta, factor, now);
    lemma_flag_bits(l.flags | 0);
    lemma_flag_bits(l.flags);
    assert((s.energy as int * ONE) / (ONE as int) == s.energy as int) by (nonlinear_arith);
}


// ─── Key index ────────────────────────────────────────────────────────────

/// Map from 64-bit key hashes to slot numbers, kept in an `FxHashMap`.
#[verifier::external_body]
pub struct KeyIndex {
    map: FxHashMap<u64, u32>,
}

/// The empty key map.
pub open spec fn no_keys() -> Map<u64, u32> {
    Map::empty()
}

/// What a key index holds.
pub uninterp spec fn key_entries(k: KeyIndex) -> Map<u64, u32>;

impl KeyIndex {
    /// Relies on `FxHashMap::default`: an empty map.
    #[verifier::external_body]
    pub(crate) fn new() -> (r: KeyIndex)
        ensures
            key_entries(r) == no_keys(),
    {
        KeyIndex { map: FxHashMap::default() }
    }

    /// Relies on `HashMap::insert` (an `FxHashMap` is a std `HashMap` with the
    /// rustc-hash hasher): `key` now maps to `v`, other keys keep theirs.
    #[verifier::external_body]
    pub(crate) fn insert(&mut self, key: u64, v: u32)
        ensures
            key_entries(*final(self)) == key_entries(*old(self)).insert(key, v),
    {
        self.map.insert(key, v);
    }

    /// Relies on `HashMap::get`: the value of `key`, if any.
    #[verifier::external_body]
    pub(crate) fn get(&self, key: u64) -> (r: Option<u32>)
        ensures
            r == (if key_entries(*self).contains_key(key) {
                Some(key_entries(*self)[key])
            } else {
                None
            }),
    {
        self.map.get(&key).copied()
    }
}

// ─── Arena ────────────────────────────────────────────────────────────────

/// Number of active records among the first `n` of `s`.
pub open spec fn active_upto(s: Seq<Lineage>, n: int) -> nat
    decreases n,
{
    if n <= 0 {
        0
    } else {
        active_upto(s, n - 1) + if has_flag(s[n - 1].flags, ACTIVE) {
            1nat
        } else {
            0nat
        }
    }
}

/// Number of active records of `s`.
pub open spec fn active_count(s: Seq<Lineage>) -> nat {
    active_upto(s, s.len() as int)
}

proof fn lemma_active_update(s: Seq<Lineage>, i: int, x: Lineage, n: int)
    requires
        0 <= i < s.len(),
        0 <= n <= s.len(),
    ensures
        active_upto(s.update(i, x), n) == if i < n {
            active_upto(s, n) - (if has_flag(s[i].flags, ACTIVE) {
                1int
            } else {
                0int
            }) + (if has_flag(x.flags, ACTIVE) {
                1int
            } else {
                0int
            })
        } else {
            active_upto(s, n) as int
        },
    decreases n,
{
    if n > 0 {
        lemma_active_update(s, i, x, n - 1);
    }
}

proof fn lemma_active_prefix(s: Seq<Lineage>, t: Seq<Lineage>, n: int)
    requires
        0 <= n <= s.len(),
        n <= t.len(),
        s.subrange(0, n) == t.subrange(0, n),
    ensures
        active_upto(s, n) == active_upto(t, n),
    decreases n,
{
    if n > 0 {
        assert(s[n - 1] == s.subrange(0, n)[n - 1]);
        assert(t[n - 1] == t.subrange(0, n)[n - 1]);
        assert(s.subrange(0, n - 1) == s.subrange(0, n).subrange(0, n - 1));
        assert(t.subrange(0, n - 1) == t.subrange(0, n).subrange(0, n - 1));
        lemma_active_prefix(s, t, n - 1);
    }
}

/// At most `n` of the first `n` records are active.
pub(crate) proof fn lemma_active_bound(s: Seq<Lineage>, n: int)
    requires
        0 <= n <= s.len(),
    ensures
        active_upto(s, n) <= n,
    decreases n,
{
    if n > 0 {
        lemma_active_bound(s, n - 1);
    }
}

/// Slab of lineages with free-list reuse.
pub struct PsycheArena {
    data: Vec<Lineage>,
    count: usize,
    free_list: Vec<LineageId>,
    id_map: KeyIndex,
}

/// Whether slot `id` of `s` exists and is active.
pub open spec fn live(s: Seq<Lineage>, id: LineageId) -> bool {
    (id.0 as int) < s.len() && has_flag(s[id.0 as int].flags, ACTIVE)
}

impl PsycheArena {
    /// All slots, active or not.
    pub closed spec fn slots(&self) -> Seq<Lineage> {
        self.data@
    }

    /// The free list, most recently freed last.
    pub closed spec fn free_ids(&self) -> Seq<LineageId> {
        self.free_list@
    }

    /// The key map.
    pub closed spec fn keys(&self) -> Map<u64, u32> {
        key_entries(self.id_map)
    }

    /// The count matches the active slots; the free list holds distinct,
    /// inactive, in-range slots; every id fits below the null sentinel.
    pub closed spec fn wf(&self) -> bool {
        &&& self.count == active_count(self.data@)
        &&& self.data@.len() < 0xFFFF_FFFF
        &&& forall|i: int|
            0 <= i < self.free_list@.len() ==> {
                let id = #[trigger] self.free_list@[i];
                &&& (id.0 as int) < self.data@.len()
                &&& !has_flag(self.data@[id.0 as int].flags, ACTIVE)
            }
        &&& forall|i: int, j: int|
            0 <= i < j < self.free_list@.len() ==> #[trigger] self.free_list@[i]
                != #[trigger] self.free_list@[j]
    }

    /// The active lineages, by id.
    pub open spec fn view_map(&self) -> Map<LineageId, Lineage> {
        Map::new(|id: LineageId| live(self.slots(), id), |id: LineageId| self.slots()[id.0 as int])
    }

    /// An empty arena.
    pub fn with_capacity(capacity: usize) -> (r: PsycheArena)
        ensures
            r.wf(),
            r.slots() == Seq::<Lineage>::empty(),
            r.free_ids() == Seq::<LineageId>::empty(),
            r.keys() == Map::<u64, u32>::empty(),
    {
        PsycheArena {
            data: Vec::with_capacity(capacity),
            count: 0,
            free_list: Vec::new(),
            id_map: KeyIndex::new(),
        }
    }

    /// Number of active lineages.
    pub fn len(&self) -> (r: usize)
        requires
            self.wf(),
        ensures
            r == active_count(self.slots()),
    {
        self.count
    }

    /// Whether no lineage is active.
    pub fn is_empty(&self) -> (r: bool)
        requires
            self.wf(),
        ensures
            r == (active_count(self.slots()) == 0),
    {
        self.count == 0
    }

    /// Number of slots, active or not.
    pub fn slot_count(&self) -> (r: usize)
        ensures
            r == self.slots().len(),
    {
        self.data.len()
    }

    /// An arena whose slot `id` holds, marked active, the lineage listed
    /// with `id` in `records`, and whose other slots up to the highest id are
    /// free. `None` when an id repeats or is too large for a slot.
    pub fn from_records(records: &Vec<(LineageId, Lineage)>, capacity: usize) -> (r: Option<PsycheArena>)
        ensures
            r is Some <==> (forall|a: int, b: int|
                0 <= a < b < records@.len() ==> (#[trigger] records@[a]).0 != (#[trigger] records@[b]).0)
                && (forall|k: int| 0 <= k < records@.len() ==> (#[trigger] records@[k]).0.0 < 0xFFFF_FFFE),
            r matches Some(a) ==> {
                &&& a.wf()
                &&& a.keys() == no_keys()
                &&& restored_from(records@, a.slots())
            },
    {
        let mut n: usize = 0;
        let mut k: usize = 0;
        while k < records.len()
            invariant
                k <= records@.len(),
                n <= 0xFFFF_FFFE,
                forall|j: int| 0 <= j < k ==> (#[trigger] records@[j]).0.0 < n,
                forall|j: int| 0 <= j < k ==> (#[trigger] records@[j]).0.0 < 0xFFFF_FFFE,
            decreases records@.len() - k,
        {
            let id = records[k].0;
            if id.0 >= 0xFFFF_FFFE {
                return None;
            }
            if id.0 as usize >= n {
                n = id.0 as usize + 1;
            }
            k = k + 1;
        }
        let blank = Lineage {
            energy: 0,
            threshold: 0,
            decay_rate: 0,
            rigidity: 0,
            last_access: 0,
            flags: 0,
            head_index: NO_HEAD,
        };
        proof {
            assert(0u32 & 1u32 == 0) by (bit_vector);
            assert(!has_flag(blank.flags, ACTIVE));
        }
        let mut data: Vec<Lineage> = Vec::with_capacity(n);
        let mut i: usize = 0;
        while i < n
            invariant
                i <= n,
                data@.len() == i,
                !has_flag(blank.flags, ACTIVE),
                forall|j: int| 0 <= j < i ==> !has_flag((#[trigger] data@[j]).flags, ACTIVE),
            decreases n - i,
        {
            data.push(blank);
            i = i + 1;
        }
        let mut k: usize = 0;
        while k < records.len()
            invariant
                k <= records@.len(),
                data@.len() == n,
                n <= 0xFFFF_FFFE,
                forall|j: int| 0 <= j < records@.len() ==> (#[trigger] records@[j]).0.0 < n,
                forall|a: int, b: int| 0 <= a < b < k ==> (#[trigger] records@[a]).0 != (#[trigger] records@[b]).0,
                forall|j: int| 0 <= j < k ==> data@[(#[trigger] records@[j]).0.0 as int] == (Lineage {
                    flags: records@[j].1.flags | ACTIVE,
                    ..records@[j].1
                }),
                forall|x: int| 0 <= x < n ==> #[trigger] has_flag(data@[x].flags, ACTIVE) == exists|j: int|
                    0 <= j < k && (#[trigger] records@[j]).0.0 == x,
            decreases records@.len() - k,
        {
            let (id, l) = records[k];
            let i = id.0 as usize;
            if data[i].flags & ACTIVE != 0 {
                proof {
                    assert(has_flag(data@[i as int].flags, ACTIVE));
                    assert(exists|j: int| 0 <= j < k && (#[trigger] records@[j]).0.0 == i as int);
                    let j = choose|j: int| 0 <= j < k && (#[trigger] records@[j]).0.0 == i as int;
                    assert(records@[j].0.0 == records@[k as int].0.0);
                    assert(records@[j].0 == records@[k as int].0);
                }
                return None;
            }
            let stored = Lineage { flags: l.flags | ACTIVE, ..l };
            let ghost before = data@;
            proof {
                lemma_flag_bits(l.flags);
                assert forall|j: int| 0 <= j < k implies (#[trigger] records@[j]).0.0 != i by {
                    if records@[j].0.0 == i {
                        assert(has_flag(before[i as int].flags, ACTIVE));
                    }
                }
            }
            data.set(i, stored);
            proof {
                assert forall|x: int| 0 <= x < n implies #[trigger] has_flag(data@[x].flags, ACTIVE) == exists|j: int|
                    0 <= j < k + 1 && (#[trigger] records@[j]).0.0 == x by {
                    if x == i as int {
                        assert(records@[k as int].0.0 == x);
                    } else {
                        assert(data@[x] == before[x]);
                        if exists|j: int| 0 <= j < k + 1 && (#[trigger] records@[j]).0.0 == x {
                            let j = choose|j: int| 0 <= j < k + 1 && (#[trigger] records@[j]).0.0 == x;
                            assert(j < k);
                        }
                    }
                }
            }
            k = k + 1;
        }
        let mut free_list: Vec<LineageId> = Vec::new();
        let mut count: usize = 0;
        let mut i: usize = 0;
        while i < n
            invariant
                i <= n,
                data@.len() == n,
                n <= 0xFFFF_FFFE,
                count == active_upto(data@, i as int),
                forall|j: int| 0 <= j < free_list@.len() ==> {
                    let id = #[trigger] free_list@[j];
                    &&& (id.0 as int) < i
                    &&& !has_flag(data@[id.0 as int].flags, ACTIVE)
                },
                forall|a: int, b: int| 0 <= a < b < free_list@.len() ==> (#[trigger] free_list@[a]).0 < (#[trigger] free_list@[b]).0,
            decreases n - i,
        {
            proof {
                lemma_active_bound(data@, i as int);
            }
            if data[i].flags & ACTIVE != 0 {
                count = count + 1;
            } else {
                free_list.push(LineageId(i as u32));
            }
            i = i + 1;
        }
        let arena = PsycheArena { data, count, free_list, id_map: KeyIndex::new() };
        proof {
            assert forall|a: int, b: int|
                0 <= a < b < arena.free_list@.len() implies #[trigger] arena.free_list@[a] != #[trigger] arena.free_list@[b] by {
                assert(arena.free_list@[a].0 < arena.free_list@[b].0);
            }
            assert forall|id: LineageId| #[trigger] live(arena.data@, id) == exists|j: int|
                0 <= j < records@.len() && (#[trigger] records@[j]).0 == id by {
                if live(arena.data@, id) {
                    let j = choose|j: int| 0 <= j < records@.len() && (#[trigger] records@[j]).0.0 == id.0 as int;
                    assert(records@[j].0 == id);
                }
                if exists|j: int| 0 <= j < records@.len() && (#[trigger] records@[j]).0 == id {
                    let j = choose|j: int| 0 <= j < records@.len() && (#[trigger] records@[j]).0 == id;
                    assert(records@[j].0.0 == id.0);
                }
            }
        }
        let _ = capacity;
        Some(arena)
    }

    /// Whether `n` allocations in a row may be made.
    pub open spec fn can_allocate_spec(&self, n: int) -> bool {
        self.slots().len() + n < 0xFFFF_FFFF
    }

    /// Whether `allocate` may be called: a slot is free, or a new one still
    /// gets an id below the null sentinel.
    pub fn can_allocate(&self) -> (r: bool)
        ensures
            r == (self.free_ids().len() > 0 || self.slots().len() + 1 < 0xFFFF_FFFF),
    {
        self.free_list.len() > 0 || self.data.len() < 0xFFFF_FFFE
    }

    /// Stores `lineage` (marked active) in the most recently freed slot, or
    /// in a new slot at the end when none is free.
    pub fn allocate(&mut self, lineage: Lineage) -> (r: LineageId)
        requires
            old(self).wf(),
            old(self).free_ids().len() > 0 || old(self).slots().len() + 1 < 0xFFFF_FFFF,
        ensures
            final(self).wf(),
            final(self).keys() == old(self).keys(),
            old(self).free_ids().len() > 0 ==> {
                &&& r == old(self).free_ids().last()
                &&& final(self).free_ids() == old(self).free_ids().drop_last()
                &&& final(self).slots() == old(self).slots().update(
                    r.0 as int,
                    Lineage { flags: lineage.flags | ACTIVE, ..lineage },
                )
            },
            old(self).free_ids().len() == 0 ==> {
                &&& r.0 == old(self).slots().len()
                &&& final(self).free_ids() == old(self).free_ids()
                &&& final(self).slots() == old(self).slots().push(
                    Lineage { flags: lineage.flags | ACTIVE, ..lineage },
                )
            },
            active_count(final(self).slots()) == active_count(old(self).slots()) + 1,
            live(final(self).slots(), r),
            final(self).slots()[r.0 as int] == (Lineage { flags: lineage.flags | ACTIVE, ..lineage }),
            !live(old(self).slots(), r),
            forall|j: int|
                0 <= j < old(self).slots().len() && j != r.0 ==> #[trigger] final(self).slots()[j] == old(self).slots()[j],
            final(self).slots().len() <= old(self).slots().len() + 1,
    {
        let stored = Lineage { flags: lineage.flags | ACTIVE, ..lineage };
        proof {
            lemma_flag_bits(lineage.flags);
        }
        let ghost s0 = self.data@;
        let id = match self.free_list.pop() {
            Some(recycled) => {
                proof {
                    assert(old(self).free_list@[old(self).free_list@.len() - 1] == recycled);
                    lemma_active_update(s0, recycled.0 as int, stored, s0.len() as int);
                }
                self.data.set(recycled.0 as usize, stored);
                proof {
                    assert forall|i: int| 0 <= i < self.free_list@.len() implies {
                        let id = #[trigger] self.free_list@[i];
                        &&& (id.0 as int) < self.data@.len()
                        &&& !has_flag(self.data@[id.0 as int].flags, ACTIVE)
                    } by {
                        assert(self.free_list@[i] == old(self).free_list@[i]);
                        assert(old(self).free_list@[i] != old(self).free_list@[old(self).free_list@.len() - 1]);
                    }
                    assert forall|i: int, j: int|
                        0 <= i < j < self.free_list@.len() implies #[trigger] self.free_list@[i]
                            != #[trigger] self.free_list@[j] by {
                        assert(self.free_list@[i] == old(self).free_list@[i]);
                        assert(self.free_list@[j] == old(self).free_list@[j]);
                    }
                }
                recycled
            },
            None => {
                let id = LineageId(self.data.len() as u32);
                self.data.push(stored);
                proof {
                    assert(self.data@.subrange(0, s0.len() as int) == s0.subrange(0, s0.len() as int));
                    lemma_active_prefix(self.data@, s0, s0.len() as int);
                    assert(s0.subrange(0, s0.len() as int) == s0);
                }
                id
            },
        };
        proof {
            lemma_active_bound(s0, s0.len() as int);
        }
        self.count = self.count + 1;
        id
    }

    /// `alloc`, and maps `key` to the new id.
    pub fn alloc_with_key(&mut self, key: u64, lineage: Lineage) -> (r: LineageId)
        requires
            old(self).wf(),
            old(self).free_ids().len() > 0 || old(self).slots().len() + 1 < 0xFFFF_FFFF,
        ensures
            final(self).wf(),
            final(self).keys() == old(self).keys().insert(key, r.0),
            old(self).free_ids().len() > 0 ==> {
                &&& r == old(self).free_ids().last()
                &&& final(self).free_ids() == old(self).free_ids().drop_last()
                &&& final(self).slots() == old(self).slots().update(
                    r.0 as int,
                    Lineage { flags: lineage.flags | ACTIVE, ..lineage },
                )
            },
            old(self).free_ids().len() == 0 ==> {
                &&& r.0 == old(self).slots().len()
                &&& final(self).free_ids() == old(self).free_ids()
                &&& final(self).slots() == old(self).slots().push(
                    Lineage { flags: lineage.flags | ACTIVE, ..lineage },
                )
            },
            active_count(final(self).slots()) == active_count(old(self).slots()) + 1,
            live(final(self).slots(), r),
            final(self).slots()[r.0 as int] == (Lineage { flags: lineage.flags | ACTIVE, ..lineage }),
            !live(old(self).slots(), r),
            forall|j: int|
                0 <= j < old(self).slots().len() && j != r.0 ==> #[trigger] final(self).slots()[j] == old(self).slots()[j],
            final(self).slots().len() <= old(self).slots().len() + 1,
    {
        let id = self.allocate(lineage);
        self.id_map.insert(key, id.0);
        id
    }

    /// Maps `key` to `id`, as when rebuilding the key map from an outside
    /// key store.
    pub fn bind_key(&mut self, key: u64, id: LineageId)
        requires
            old(self).wf(),
        ensures
            final(self).wf(),
            final(self).keys() == old(self).keys().insert(key, id.0),
            final(self).slots() == old(self).slots(),
            final(self).free_ids() == old(self).free_ids(),
    {
        self.id_map.insert(key, id.0);
    }

    /// The lineage in slot `id`, if that slot exists and is active.
    pub fn get(&self, id: LineageId) -> (r: Option<&Lineage>)
        ensures
            r == (if live(self.slots(), id) {
                Some(&self.slots()[id.0 as int])
            } else {
                None
            }),
    {
        let i = id.0 as usize;
        if i < self.data.len() && self.data[i].flags & ACTIVE != 0 {
            Some(&self.data[i])
        } else {
            None
        }
    }

    /// The id mapped to `key`, if any.
    pub fn lookup(&self, key: u64) -> (r: Option<LineageId>)
        ensures
            r == (if self.keys().contains_key(key) {
                Some(LineageId(self.keys()[key]))
            } else {
                None
            }),
    {
        match self.id_map.get(key) {
            Some(v) => Some(LineageId(v)),
            None => None,
        }
    }

    /// Frees slot `id`: clears ACTIVE and pushes it on the free list.
    /// Returns false, changing nothing, when the slot is absent or free.
    pub fn free(&mut self, id: LineageId) -> (r: bool)
        requires
            old(self).wf(),
        ensures
            final(self).wf(),
            r == live(old(self).slots(), id),
            !live(final(self).slots(), id),
            r ==> {
                &&& final(self).slots() == old(self).slots().update(
                    id.0 as int,
                    Lineage {
                        flags: old(self).slots()[id.0 as int].flags & !ACTIVE,
                        ..old(self).slots()[id.0 as int]
                    },
                )
                &&& final(self).free_ids() == old(self).free_ids().push(id)
                &&& active_count(final(self).slots()) + 1 == active_count(old(self).slots())
                &&& final(self).keys() == old(self).keys()
            },
            !r ==> *final(self) == *old(self),
    {
        let i = id.0 as usize;
        if i < self.data.len() && self.data[i].flags & ACTIVE != 0 {
            let old_l = self.data[i];
            let cleared = Lineage { flags: old_l.flags & !ACTIVE, ..old_l };
            proof {
                lemma_flag_bits(old_l.flags);
                lemma_active_update(self.data@, i as int, cleared, self.data@.len() as int);
                lemma_active_bound(self.data@, self.data@.len() as int);
            }
            self.data.set(i, cleared);
            self.free_list.push(id);
            self.count = self.count - 1;
            proof {
                assert forall|k: int| 0 <= k < self.free_list@.len() implies {
                    let fid = #[trigger] self.free_list@[k];
                    &&& (fid.0 as int) < self.data@.len()
                    &&& !has_flag(self.data@[fid.0 as int].flags, ACTIVE)
                } by {
                    if k < old(self).free_list@.len() {
                        assert(self.free_list@[k] == old(self).free_list@[k]);
                    }
                }
                assert forall|a: int, b: int|
                    0 <= a < b < self.free_list@.len() implies #[trigger] self.free_list@[a]
                        != #[trigger] self.free_list@[b] by {
                    if b < old(self).free_list@.len() {
                        assert(self.free_list@[a] == old(self).free_list@[a]);
                        assert(self.free_list@[b] == old(self).free_list@[b]);
                    } else {
                        assert(self.free_list@[a] == old(self).free_list@[a]);
                    }
                }
            }
            true
        } else {
            false
        }
    }

    /// Stimulates the active lineage `id`; false when it is absent or free.
    pub fn stimulate(&mut self, id: LineageId, delta: i64, factor: u32, now: u64) -> (r: bool)
        requires
            old(self).wf(),
            factor <= ONE,
        ensures
            final(self).wf(),
            r == live(old(self).slots(), id),
            r ==> final(self).slots() == old(self).slots().update(
                id.0 as int,
                stimulated(old(self).slots()[id.0 as int], delta as int, factor as int, now),
            ),
            !r ==> *final(self) == *old(self),
            final(self).free_ids() == old(self).free_ids(),
            final(self).keys() == old(self).keys(),
    {
        let i = id.0 as usize;
        if i < self.data.len() && self.data[i].flags & ACTIVE != 0 {
            let mut l = self.data[i];
            l.stimulate(delta, factor, now);
            proof {
                lemma_flag_bits(self.data@[i as int].flags);
                lemma_active_update(self.data@, i as int, l, self.data@.len() as int);
            }
            self.data.set(i, l);
            true
        } else {
            false
        }
    }

    /// Applies decay to the active lineage `id` and restarts its clock.
    pub fn touch(&mut self, id: LineageId, factor: u32, now: u64) -> (r: bool)
        requires
            old(self).wf(),
            factor <= ONE,
        ensures
            final(self).wf(),
            r == live(old(self).slots(), id),
            r ==> final(self).slots() == old(self).slots().update(
                id.0 as int,
                Lineage {
                    energy: observable_of(old(self).slots()[id.0 as int], factor as int) as u32,
                    last_access: now,
                    ..old(self).slots()[id.0 as int]
                },
            ),
            !r ==> *final(self) == *old(self),
            final(self).free_ids() == old(self).free_ids(),
            final(self).keys() == old(self).keys(),
    {
        let i = id.0 as usize;
        if i < self.data.len() && self.data[i].flags & ACTIVE != 0 {
            let mut l = self.data[i];
            l.touch(factor, now);
            proof {
                lemma_active_update(self.data@, i as int, l, self.data@.len() as int);
            }
            self.data.set(i, l);
            true
        } else {
            false
        }
    }

    /// The active lineages with their ids, in slot order.
    pub fn iter(&self) -> (r: Vec<(LineageId, Lineage)>)
        requires
            self.wf(),
        ensures
            forall|k: int|
                0 <= k < r@.len() ==> live(self.slots(), #[trigger] r@[k].0) && r@[k].1
                    == self.slots()[r@[k].0.0 as int],
            forall|id: LineageId| #[trigger]
                live(self.slots(), id) ==> exists|k: int| 0 <= k < r@.len() && r@[k].0 == id,
            forall|a: int, b: int| 0 <= a < b < r@.len() ==> r@[a].0.0 < r@[b].0.0,
    {
        let mut out: Vec<(LineageId, Lineage)> = Vec::new();
        let mut i: usize = 0;
        while i < self.data.len()
            invariant
                i <= self.data@.len(),
                self.data@.len() <= 0xFFFF_FFFF,
                forall|k: int|
                    0 <= k < out@.len() ==> live(self.slots(), #[trigger] out@[k].0) && out@[k].1
                        == self.slots()[out@[k].0.0 as int] && out@[k].0.0 < i,
                forall|id: LineageId| #[trigger]
                    live(self.slots(), id) && id.0 < i ==> exists|k: int|
                        0 <= k < out@.len() && out@[k].0 == id,
                forall|a: int, b: int| 0 <= a < b < out@.len() ==> out@[a].0.0 < out@[b].0.0,
            decreases self.data@.len() - i,
        {
            let l = self.data[i];
            let ghost before = out@;
            if l.flags & ACTIVE != 0 {
                out.push((LineageId(i as u32), l));
            }
            proof {
                assert forall|id: LineageId| #[trigger]
                    live(self.slots(), id) && id.0 < i + 1 implies exists|k: int|
                        0 <= k < out@.len() && out@[k].0 == id by {
                    if id.0 < i {
                        let k = choose|k: int| 0 <= k < before.len() && before[k].0 == id;
                        assert(out@[k] == before[k]);
                    } else {
                        assert(out@[out@.len() - 1].0 == id);
                    }
                }
            }
            i = i + 1;
        }
        out
    }

    /// All slots, for persistence.
    pub fn as_slice(&self) -> (r: &[Lineage])
        ensures
            r@ == self.slots(),
    {
        self.data.as_slice()
    }
}

/// `slots` holds, marked active, the lineage of each record at its id, and
/// no other active slot.
pub open spec fn restored_from(records: Seq<(LineageId, Lineage)>, slots: Seq<Lineage>) -> bool {
    &&& forall|id: LineageId| #[trigger]
        live(slots, id) == exists|j: int| 0 <= j < records.len() && (#[trigger] records[j]).0 == id
    &&& forall|j: int|
        0 <= j < records.len() ==> slots[(#[trigger] records[j]).0.0 as int] == (Lineage {
            flags: records[j].1.flags | ACTIVE,
            ..records[j].1
        })
}

/// A well-formed arena has fewer slots than the null id, and no more active
/// lineages than slots.
pub(crate) proof fn lemma_arena_bounds(a: PsycheArena)
    requires
        a.wf(),
    ensures
        a.slots().len() < 0xFFFF_FFFF,
        active_count(a.slots()) <= a.slots().len(),
{
    lemma_active_bound(a.slots(), a.slots().len() as int);
}

/// After `free(id)` succeeds, the next allocation recycles `id`; any
/// allocation returns a recycled id or one past every slot seen so far.
pub proof fn lemma_free_then_alloc(before: PsycheArena, freed: PsycheArena, id: LineageId, next: LineageId)
    requires
        before.wf(),
        freed.free_ids() == before.free_ids().push(id),
        freed.free_ids().len() > 0 ==> next == freed.free_ids().last(),
    ensures
        next == id,
{
}

/// A freshly allocated id reads back as an active lineage.
pub proof fn lemma_alloc_then_get(before: PsycheArena, after: PsycheArena, l: Lineage, id: LineageId)
    requires
        before.free_ids().len() > 0 ==> id == before.free_ids().last() && after.slots()
            == before.slots().update(id.0 as int, Lineage { flags: l.flags | ACTIVE, ..l }),
        before.free_ids().len() == 0 ==> id.0 == before.slots().len() && after.slots()
            == before.slots().push(Lineage { flags: l.flags | ACTIVE, ..l }),
        before.wf(),
    ensures
        live(after.slots(), id),
{
    lemma_flag_bits(l.flags);
}

} // verus!
