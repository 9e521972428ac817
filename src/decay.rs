//! The decay engine: the decay lookup table, the decay tick, bond pruning and
//! the GC pipeline that joins decay, the cortex verdicts and the retention
//! buffer.

use vstd::prelude::*;

use crate::bond::BondGraph;
use crate::psyche::{active_count, active_upto, deactivated, live, observable_of, Lineage, LineageId, PsycheArena};
use crate::setun::{quantize_ratio, tick_spec, Cortex, Trit, PRESERVATION};
use crate::unit::ONE;

verus! {

/// Weight of the preservation trait in a GC score, 0.1.
pub const PRESERVATION_BIAS: i64 = 100_000;

/// Decay tick and GC parameters; energies in millionths.
#[derive(Debug, Clone, Copy, PartialEq, Eq, Structural)]
pub struct DecayConfig {
    pub tick_interval_ms: u64,
    /// Below this observable energy a lineage counts as dead.
    pub min_energy_threshold: u32,
    /// Bonds weaker than this are pruned.
    pub bond_prune_threshold: u32,
    pub parallel: bool,
}

impl Default for DecayConfig {
    fn default() -> (r: DecayConfig)
        ensures
            r == (DecayConfig {
                tick_interval_ms: 100,
                min_energy_threshold: 1_000,
                bond_prune_threshold: crate::bond::BOND_PRUNE_THRESHOLD,
                parallel: true,
            }),
    {
        DecayConfig {
            tick_interval_ms: 100,
            min_energy_threshold: 1_000,
            bond_prune_threshold: crate::bond::BOND_PRUNE_THRESHOLD,
            parallel: true,
        }
    }
}

/// Counts of one GC pass.
#[derive(Debug, Clone, Copy, PartialEq, Eq, Structural, Default)]
pub struct GcResult {
    pub processed: usize,
    pub retained: usize,
    pub pending: usize,
    pub pruned: usize,
}

/// Counts of one decay tick.
#[derive(Debug, Clone, Copy, PartialEq, Eq, Structural)]
pub struct DecayTickResult {
    pub processed: usize,
    pub dead_count: usize,
    pub elapsed_ms: u64,
}

/// The GC score of a lineage: observable energy above the minimum, plus the
/// preservation bias of the personality.
pub open spec fn gc_score(l: Lineage, factor: int, min_energy: int, preservation: Trit) -> int {
    observable_of(l, factor) - min_energy + PRESERVATION_BIAS * preservation.w()
}

/// The retention entry of `i`, if any.
pub open spec fn entry(m: Map<usize, u8>, i: usize) -> Option<u8> {
    if m.contains_key(i) {
        Some(m[i])
    } else {
        None
    }
}

/// The retention entry of `i` after a GC pass: untouched when the slot is not
/// live, dropped on a stable verdict, marked or ticked otherwise.
pub open spec fn gc_entry(m: Map<usize, u8>, ttl: u8, i: usize, is_live: bool, stable: bool) -> Option<u8> {
    if !is_live {
        entry(m, i)
    } else if stable {
        None
    } else {
        entry(tick_spec(m, ttl, i).0, i)
    }
}

/// Whether a GC pass frees slot `i`: live, not stable, and its entry expired.
pub open spec fn gc_frees(m: Map<usize, u8>, ttl: u8, i: usize, is_live: bool, stable: bool) -> bool {
    is_live && !stable && tick_spec(m, ttl, i).1
}

proof fn lemma_tick_elsewhere(m: Map<usize, u8>, ttl: u8, i: usize, k: usize)
    requires
        k != i,
    ensures
        entry(tick_spec(m, ttl, i).0, k) == entry(m, k),
        entry(m.remove(i), k) == entry(m, k),
{
}

proof fn lemma_tick_same_entry(m1: Map<usize, u8>, m2: Map<usize, u8>, ttl: u8, i: usize)
    requires
        entry(m1, i) == entry(m2, i),
    ensures
        entry(tick_spec(m1, ttl, i).0, i) == entry(tick_spec(m2, ttl, i).0, i),
        tick_spec(m1, ttl, i).1 == tick_spec(m2, ttl, i).1,
        entry(m1.remove(i), i) == None::<u8>,
{
    if m1.contains_key(i) {
        assert(m2.contains_key(i));
        assert(m1[i] == m2[i]);
    } else {
        assert(!m2.contains_key(i));
    }
}

/// Number of active records among the first `n` whose observable energy,
/// under their decay factors, is below `min_energy`.
pub open spec fn dead_upto(s: Seq<Lineage>, f: Seq<u32>, min_energy: int, n: int) -> nat
    decreases n,
{
    if n <= 0 {
        0
    } else {
        dead_upto(s, f, min_energy, n - 1) + if crate::psyche::has_flag(s[n - 1].flags, crate::psyche::ACTIVE)
            && observable_of(s[n - 1], f[n - 1] as int) < min_energy {
            1nat
        } else {
            0nat
        }
    }
}

proof fn lemma_dead_bound(s: Seq<Lineage>, f: Seq<u32>, min_energy: int, n: int)
    requires
        0 <= n <= s.len(),
    ensures
        dead_upto(s, f, min_energy, n) <= active_upto(s, n),
    decreases n,
{
    if n > 0 {
        lemma_dead_bound(s, f, min_energy, n - 1);
    }
}

/// Number of rate buckets of the lookup table.
pub const RATE_BUCKETS: usize = 256;
/// Number of time buckets of the lookup table.
pub const TIME_BUCKETS: usize = 32;

/// Lower bounds of the time buckets, in milliseconds: 0 s, 0.1 s, 0.2 s,
/// 0.5 s, 1 s, 2 s, 5 s, ... up to 360 days.
pub open spec fn time_bounds_ms() -> Seq<u64> {
    seq![
        0u64, 100, 200, 500, 1_000, 2_000, 5_000, 10_000, 20_000, 30_000, 60_000, 120_000,
        300_000, 600_000, 900_000, 1_800_000, 3_600_000, 7_200_000, 14_400_000, 21_600_000,
        43_200_000, 86_400_000, 172_800_000, 259_200_000, 432_000_000, 604_800_000,
        1_209_600_000, 2_592_000_000, 5_184_000_000, 7_776_000_000, 15_552_000_000,
        31_104_000_000,
    ]
}

/// Whether `b` is the time bucket of `elapsed_ms`.
pub open spec fn is_time_bucket(elapsed_ms: u64, b: int) -> bool {
    0 <= b < TIME_BUCKETS && time_bounds_ms()[b] <= elapsed_ms && (b + 1 == TIME_BUCKETS
        || elapsed_ms < time_bounds_ms()[b + 1])
}

/// The time bucket of `elapsed_ms`: the largest bound not above it.
pub open spec fn time_bucket(elapsed_ms: u64) -> int {
    choose|b: int| is_time_bucket(elapsed_ms, b)
}

/// The rate bucket of `rate`: 0 for a zero rate or one below every bound,
/// else the largest bucket `b >= 1` whose lower bound is not above it.
pub open spec fn rate_bucket(bounds: Seq<u32>, rate: u32) -> int {
    if rate == 0 || rate < bounds[1] {
        0
    } else {
        choose|b: int| is_rate_bucket(bounds, rate, b)
    }
}

/// Whether `b >= 1` is the bucket of a rate at or above the first bound.
pub open spec fn is_rate_bucket(bounds: Seq<u32>, rate: u32, b: int) -> bool {
    1 <= b < RATE_BUCKETS && bounds[b] <= rate && (b + 1 == RATE_BUCKETS || rate < bounds[b + 1])
}

/// Pre-computed decay factors `exp(-rate * t)` on a rate by time grid, in
/// millionths. Row 0 is rate zero: every factor there is `ONE`.
pub struct DecayLUT {
    data: Vec<u32>,
    rate_bounds: Vec<u32>,
    time_bounds: Vec<u64>,
}

impl DecayLUT {
    pub closed spec fn table(&self) -> Seq<u32> {
        self.data@
    }

    pub closed spec fn rate_bounds_spec(&self) -> Seq<u32> {
        self.rate_bounds@
    }

    /// Shapes agree, row 0 is all `ONE`, and the rate bounds do not decrease.
    pub closed spec fn wf(&self) -> bool {
        &&& self.data@.len() == RATE_BUCKETS * TIME_BUCKETS
        &&& self.rate_bounds@.len() == RATE_BUCKETS
        &&& self.time_bounds@ == time_bounds_ms()
        &&& forall|t: int| 0 <= t < TIME_BUCKETS ==> #[trigger] self.data@[t] == ONE
        &&& forall|a: int, b: int| 1 <= a < b < RATE_BUCKETS ==> #[trigger] self.rate_bounds@[a] <= #[trigger] self.rate_bounds@[b]
    }

    /// A table from the factors of rate buckets 1 to 255 (`factors`, row by
    /// row, 32 each) and the lower rate bound of each bucket (`rate_bounds`,
    /// 256 entries, the first unused, not decreasing from the second).
    /// `None` when the shapes or the order are wrong or a factor exceeds `ONE`.
    pub fn new(factors: &Vec<u32>, rate_bounds: Vec<u32>) -> (r: Option<DecayLUT>)
        ensures
            r is Some <==> (factors@.len() == (RATE_BUCKETS - 1) * TIME_BUCKETS
                && rate_bounds@.len() == RATE_BUCKETS
                && (forall|i: int| 0 <= i < factors@.len() ==> #[trigger] factors@[i] <= ONE)
                && (forall|a: int| 1 <= a < RATE_BUCKETS - 1 ==> #[trigger] rate_bounds@[a] <= rate_bounds@[a + 1])),
            r matches Some(lut) ==> {
                &&& lut.wf()
                &&& lut.rate_bounds_spec() == rate_bounds@
                &&& forall|i: int| 0 <= i < factors@.len() ==> #[trigger] lut.table()[TIME_BUCKETS + i] == factors@[i]
            },
    {
        if factors.len() != (RATE_BUCKETS - 1) * TIME_BUCKETS || rate_bounds.len() != RATE_BUCKETS {
            return None;
        }
        let mut k: usize = 0;
        while k < factors.len()
            invariant
                k <= factors@.len(),
                forall|i: int| 0 <= i < k ==> #[trigger] factors@[i] <= ONE,
            decreases factors@.len() - k,
        {
            if factors[k] > ONE as u32 {
                return None;
            }
            k = k + 1;
        }
        let mut a: usize = 1;
        while a + 1 < RATE_BUCKETS
            invariant
                1 <= a < RATE_BUCKETS,
                rate_bounds@.len() == RATE_BUCKETS,
                forall|x: int| 1 <= x < a ==> #[trigger] rate_bounds@[x] <= rate_bounds@[x + 1],
            decreases RATE_BUCKETS - a,
        {
            if rate_bounds[a] > rate_bounds[a + 1] {
                return None;
            }
            a = a + 1;
        }
        proof {
            assert forall|x: int, y: int| 1 <= x < y < RATE_BUCKETS implies #[trigger] rate_bounds@[x] <= #[trigger] rate_bounds@[y] by {
                lemma_increasing(rate_bounds@, x, y);
            }
        }
        let mut data: Vec<u32> = Vec::with_capacity(RATE_BUCKETS * TIME_BUCKETS);
        let mut t: usize = 0;
        while t < TIME_BUCKETS
            invariant
                t <= TIME_BUCKETS,
                data@.len() == t,
                forall|x: int| 0 <= x < t ==> #[trigger] data@[x] == ONE,
            decreases TIME_BUCKETS - t,
        {
            data.push(ONE as u32);
            t = t + 1;
        }
        let mut i: usize = 0;
        while i < factors.len()
            invariant
                factors@.len() == (RATE_BUCKETS - 1) * TIME_BUCKETS,
                i <= factors@.len(),
                data@.len() == TIME_BUCKETS + i,
                forall|x: int| 0 <= x < TIME_BUCKETS ==> #[trigger] data@[x] == ONE,
                forall|x: int| 0 <= x < i ==> #[trigger] data@[TIME_BUCKETS + x] == factors@[x],
            decreases factors@.len() - i,
        {
            data.push(factors[i]);
            i = i + 1;
        }
        let time_bounds: Vec<u64> = vec![
            0u64, 100, 200, 500, 1_000, 2_000, 5_000, 10_000, 20_000, 30_000, 60_000, 120_000,
            300_000, 600_000, 900_000, 1_800_000, 3_600_000, 7_200_000, 14_400_000, 21_600_000,
            43_200_000, 86_400_000, 172_800_000, 259_200_000, 432_000_000, 604_800_000,
            1_209_600_000, 2_592_000_000, 5_184_000_000, 7_776_000_000, 15_552_000_000,
            31_104_000_000,
        ];
        assert(time_bounds@ =~= time_bounds_ms());
        Some(DecayLUT { data, rate_bounds, time_bounds })
    }

    /// The factor of the bucket pair that `decay_rate` (millionths per
    /// second) and `elapsed_ns` fall in.
    pub fn get(&self, decay_rate: u32, elapsed_ns: u64) -> (r: u32)
        requires
            self.wf(),
        ensures
            r == self.table()[rate_bucket(self.rate_bounds_spec(), decay_rate) * TIME_BUCKETS + time_bucket(
                elapsed_ns / 1_000_000,
            )],
    {
        let rb = self.rate_to_bucket(decay_rate);
        let tb = self.time_to_bucket(elapsed_ns / 1_000_000);
        proof {
            assert(rb * TIME_BUCKETS + tb < RATE_BUCKETS * TIME_BUCKETS) by (nonlinear_arith)
                requires
                    0 <= rb < RATE_BUCKETS,
                    0 <= tb < TIME_BUCKETS,
            ;
        }
        self.data[rb * TIME_BUCKETS + tb]
    }

    fn rate_to_bucket(&self, rate: u32) -> (r: usize)
        requires
            self.wf(),
        ensures
            r == rate_bucket(self.rate_bounds_spec(), rate),
            r < RATE_BUCKETS,
    {
        if rate == 0 || rate < self.rate_bounds[1] {
            return 0;
        }
        let mut b: usize = RATE_BUCKETS - 1;
        while self.rate_bounds[b] > rate
            invariant
                self.wf(),
                1 <= b < RATE_BUCKETS,
                self.rate_bounds@[1] <= rate,
                b + 1 == RATE_BUCKETS || rate < self.rate_bounds@[b + 1],
            decreases b,
        {
            b = b - 1;
        }
        proof {
            let bounds = self.rate_bounds@;
            assert(is_rate_bucket(bounds, rate, b as int));
            let c = choose|c: int| is_rate_bucket(bounds, rate, c);
            if c < b {
                assert(bounds[c + 1] <= bounds[b as int]);
            } else if b < c {
                assert(bounds[b + 1] <= bounds[c]);
            }
        }
        b
    }

    fn time_to_bucket(&self, elapsed_ms: u64) -> (r: usize)
        requires
            self.wf(),
        ensures
            r == time_bucket(elapsed_ms),
            r < TIME_BUCKETS,
    {
        let mut b: usize = TIME_BUCKETS - 1;
        while self.time_bounds[b] > elapsed_ms
            invariant
                self.wf(),
                0 <= b < TIME_BUCKETS,
                b + 1 == TIME_BUCKETS || elapsed_ms < time_bounds_ms()[b + 1],
            decreases b,
        {
            proof {
                if b == 0 {
                    assert(time_bounds_ms()[0] == 0);
                }
            }
            b = b - 1;
        }
        proof {
            let tb = time_bounds_ms();
            assert(forall|x: int, y: int| 0 <= x < y < TIME_BUCKETS ==> #[trigger] tb[x] < #[trigger] tb[y]) by {
                reveal_with_fuel(time_bounds_ms, 1);
            }
            assert(is_time_bucket(elapsed_ms, b as int));
            let c = choose|c: int| is_time_bucket(elapsed_ms, c);
            if c < b {
                assert(tb[c + 1] <= tb[b as int]);
            } else if b < c {
                assert(tb[b + 1] <= tb[c]);
            }
        }
        b
    }
}

proof fn lemma_increasing(s: Seq<u32>, x: int, y: int)
    requires
        1 <= x < y < s.len(),
        forall|k: int| 1 <= k < s.len() - 1 ==> #[trigger] s[k] <= s[k + 1],
    ensures
        s[x] <= s[y],
    decreases y - x,
{
    if y > x + 1 {
        lemma_increasing(s, x, y - 1);
        assert(s[y - 1] <= s[y]);
    }
}

/// Rate zero reads factor one for every elapsed time.
pub proof fn lemma_zero_rate_is_one(lut: DecayLUT, elapsed_ns: u64)
    requires
        lut.wf(),
    ensures
        lut.table()[rate_bucket(lut.rate_bounds_spec(), 0) * TIME_BUCKETS + time_bucket(elapsed_ns / 1_000_000)] == ONE,
{
    lemma_time_bucket_exists(elapsed_ns / 1_000_000);
}

/// Elapsed times past the last bound read the last time bucket.
pub proof fn lemma_time_saturates(elapsed_ms: u64)
    requires
        elapsed_ms >= time_bounds_ms()[TIME_BUCKETS - 1],
    ensures
        time_bucket(elapsed_ms) == TIME_BUCKETS - 1,
{
    lemma_time_bucket_exists(elapsed_ms);
    let tb = time_bounds_ms();
    let c = time_bucket(elapsed_ms);
    assert(forall|x: int, y: int| 0 <= x < y < TIME_BUCKETS ==> #[trigger] tb[x] < #[trigger] tb[y]);
    if c < TIME_BUCKETS - 1 {
        assert(tb[c + 1] <= tb[TIME_BUCKETS - 1]);
    }
}

proof fn lemma_time_bucket_exists(elapsed_ms: u64)
    ensures
        0 <= time_bucket(elapsed_ms) < TIME_BUCKETS,
        time_bounds_ms()[time_bucket(elapsed_ms)] <= elapsed_ms,
        time_bucket(elapsed_ms) + 1 == TIME_BUCKETS || elapsed_ms < time_bounds_ms()[time_bucket(elapsed_ms) + 1],
{
    lemma_time_bucket_from(elapsed_ms, TIME_BUCKETS - 1);
}

proof fn lemma_time_bucket_from(elapsed_ms: u64, b: int)
    requires
        0 <= b < TIME_BUCKETS,
        b + 1 == TIME_BUCKETS || elapsed_ms < time_bounds_ms()[b + 1],
    ensures
        exists|c: int| is_time_bucket(elapsed_ms, c),
    decreases b,
{
    let tb = time_bounds_ms();
    if tb[b] <= elapsed_ms {
        assert(is_time_bucket(elapsed_ms, b));
    } else {
        assert(b > 0);
        lemma_time_bucket_from(elapsed_ms, b - 1);
    }
}

/// A live lineage whose verdict in a GC pass is stable is neither freed nor
/// left pending by that pass.
pub proof fn lemma_stable_is_kept(m: Map<usize, u8>, ttl: u8, i: usize)
    ensures
        !gc_frees(m, ttl, i, true, true),
        gc_entry(m, ttl, i, true, true) is None,
{
}

/// Reprieve: a lineage stimulated at `now` to an energy whose GC score
/// (observable energy minus the minimum plus the preservation bias) exceeds
/// the mood-adjusted threshold gets a stable verdict in a pass at `now`, so
/// that pass keeps it, whatever its retention entry held.
pub proof fn lemma_stimulated_reprieve(
    l: Lineage,
    delta: int,
    factor: int,
    now: u64,
    min_energy: int,
    preservation: Trit,
    base: int,
    mood: int,
)
    requires
        0 <= factor <= ONE,
        10 * gc_score(crate::psyche::stimulated(l, delta, factor, now), ONE as int, min_energy, preservation)
            > crate::setun::threshold10(base, mood),
    ensures
        quantize_ratio(
            gc_score(crate::psyche::stimulated(l, delta, factor, now), ONE as int, min_energy, preservation),
            1,
            base,
            mood,
        ) == Trit::True,
{
}

/// Among the first `n` slots, the live ones whose verdict is stable
/// (`kept`), or not stable and not yet expired (`pending`).
pub open spec fn gc_count(
    s: Seq<Lineage>,
    f: Seq<u32>,
    min_energy: int,
    pref: Trit,
    base: int,
    mood: int,
    m: Map<usize, u8>,
    ttl: u8,
    kept: bool,
    n: int,
) -> nat
    decreases n,
{
    if n <= 0 {
        0
    } else {
        let i = n - 1;
        let is_live = live(s, LineageId(i as u32));
        let stable = quantize_ratio(gc_score(s[i], f[i] as int, min_energy, pref), 1, base, mood) == Trit::True;
        let counted = if kept {
            is_live && stable
        } else {
            is_live && !stable && !tick_spec(m, ttl, i as usize).1
        };
        gc_count(s, f, min_energy, pref, base, mood, m, ttl, kept, n - 1) + if counted {
            1nat
        } else {
            0nat
        }
    }
}

/// The decay engine.
pub struct DecayEngine {
    config: DecayConfig,
    lut: DecayLUT,
    last_tick: u64,
}

impl DecayEngine {
    pub closed spec fn config_spec(&self) -> DecayConfig {
        self.config
    }

    pub closed spec fn last_tick_spec(&self) -> u64 {
        self.last_tick
    }

    pub closed spec fn lut_spec(&self) -> DecayLUT {
        self.lut
    }

    /// An engine with the given configuration and table, last ticked at `now`.
    pub fn new(config: DecayConfig, lut: DecayLUT, now: u64) -> (r: DecayEngine)
        ensures
            r.config_spec() == config,
            r.lut_spec() == lut,
            r.last_tick_spec() == now,
    {
        DecayEngine { config, lut, last_tick: now }
    }

    /// The table factor for `decay_rate` after `elapsed_ns`.
    pub fn decay_factor(&self, decay_rate: u32, elapsed_ns: u64) -> (r: u32)
        requires
            self.lut_spec().wf(),
        ensures
            r == self.lut_spec().table()[rate_bucket(self.lut_spec().rate_bounds_spec(), decay_rate) * TIME_BUCKETS
                + time_bucket(elapsed_ns / 1_000_000)],
    {
        self.lut.get(decay_rate, elapsed_ns)
    }

    /// Scans the active lineages at `now`, counting those whose observable
    /// energy is below the minimum; changes no lineage. The elapsed time is
    /// measured from the previous tick, which then moves to `now`.
    pub fn tick_psyche(&mut self, psyche: &PsycheArena, factors: &Vec<u32>, now: u64) -> (r: DecayTickResult)
        requires
            psyche.wf(),
            factors@.len() == psyche.slots().len(),
            forall|i: int| 0 <= i < factors@.len() ==> #[trigger] factors@[i] <= ONE,
        ensures
            r.processed == active_count(psyche.slots()),
            r.dead_count == dead_upto(
                psyche.slots(),
                factors@,
                old(self).config_spec().min_energy_threshold as int,
                psyche.slots().len() as int,
            ),
            r.elapsed_ms == if now > old(self).last_tick_spec() {
                ((now - old(self).last_tick_spec()) / 1_000_000) as u64
            } else {
                0
            },
            final(self).last_tick_spec() == now,
            final(self).config_spec() == old(self).config_spec(),
    {
        let n = psyche.slot_count();
        let ghost s = psyche.slots();
        let ghost min = self.config.min_energy_threshold as int;
        proof {
            crate::psyche::lemma_arena_bounds(*psyche);
        }
        let mut processed: usize = 0;
        let mut dead: usize = 0;
        let mut i: usize = 0;
        while i < n
            invariant
                n == s.len(),
                n < 0xFFFF_FFFF,
                psyche.slots() == s,
                factors@.len() == n,
                forall|j: int| 0 <= j < factors@.len() ==> #[trigger] factors@[j] <= ONE,
                min == self.config.min_energy_threshold as int,
                i <= n,
                processed == active_upto(s, i as int),
                dead == dead_upto(s, factors@, min, i as int),
            decreases n - i,
        {
            proof {
                crate::psyche::lemma_active_bound(s, i as int);
                lemma_dead_bound(s, factors@, min, i as int);
            }
            match psyche.get(LineageId(i as u32)) {
                Some(l) => {
                    processed = processed + 1;
                    if l.current_energy(factors[i]) < self.config.min_energy_threshold {
                        dead = dead + 1;
                    }
                },
                None => {},
            }
            i = i + 1;
        }
        let elapsed_ms = if now > self.last_tick {
            (now - self.last_tick) / 1_000_000
        } else {
            0
        };
        self.last_tick = now;
        DecayTickResult { processed, dead_count: dead, elapsed_ms }
    }

    /// Prunes the bonds weaker than the configured threshold.
    pub fn prune_bonds(&self, bonds: &mut BondGraph, factors: &Vec<u32>) -> (r: usize)
        requires
            old(bonds).wf(),
            factors@.len() == old(bonds).slots().len(),
            forall|i: int| 0 <= i < factors@.len() ==> #[trigger] factors@[i] <= ONE,
        ensures
            final(bonds).wf(),
            final(bonds).slots().len() == old(bonds).slots().len(),
            forall|i: int|
                0 <= i < old(bonds).slots().len() ==> #[trigger] crate::bond::bond_live(final(bonds).slots(), crate::bond::BondId(i as u32))
                    == (crate::bond::bond_live(old(bonds).slots(), crate::bond::BondId(i as u32)) && crate::bond::strength_of(
                    old(bonds).slots()[i],
                    factors@[i] as int,
                ) >= self.config_spec().bond_prune_threshold),
            r + crate::bond::active_bonds(final(bonds).slots()) == crate::bond::active_bonds(old(bonds).slots()),
            forall|i: int|
                0 <= i < old(bonds).slots().len() ==> #[trigger] final(bonds).slots()[i] == if crate::bond::bond_live(
                    old(bonds).slots(),
                    crate::bond::BondId(i as u32),
                ) && !crate::bond::bond_live(final(bonds).slots(), crate::bond::BondId(i as u32)) {
                    crate::bond::bond_deactivated(old(bonds).slots()[i])
                } else {
                    old(bonds).slots()[i]
                },
    {
        bonds.prune(self.config.bond_prune_threshold, factors)
    }

    /// The observable energy of each lineage slot, given its decay factor.
    pub fn batch_decay_factors(&self, lineages: &[Lineage], factors: &Vec<u32>) -> (r: Vec<u32>)
        requires
            factors@.len() == lineages@.len(),
            forall|i: int| 0 <= i < factors@.len() ==> #[trigger] factors@[i] <= ONE,
        ensures
            r@.len() == lineages@.len(),
            forall|i: int| 0 <= i < r@.len() ==> #[trigger] r@[i] == observable_of(lineages@[i], factors@[i] as int),
    {
        let mut out: Vec<u32> = Vec::with_capacity(lineages.len());
        let mut i: usize = 0;
        while i < lineages.len()
            invariant
                i <= lineages@.len(),
                factors@.len() == lineages@.len(),
                forall|j: int| 0 <= j < factors@.len() ==> #[trigger] factors@[j] <= ONE,
                out@.len() == i,
                forall|j: int| 0 <= j < i ==> #[trigger] out@[j] == observable_of(lineages@[j], factors@[j] as int),
            decreases lineages@.len() - i,
        {
            out.push(lineages[i].current_energy(factors[i]));
            i = i + 1;
        }
        out
    }

    /// One GC pass. For each live lineage, in slot order, the cortex judges
    /// its score (`factors[id]` is its decay factor now): a stable verdict
    /// restores it in the retention buffer; any other marks or ticks it, and
    /// the lineages whose entry expires are freed after the scan.
    pub fn process_gc(&self, psyche: &mut PsycheArena, cortex: &mut Cortex, factors: &Vec<u32>) -> (r:
        GcResult)
        requires
            old(psyche).wf(),
            old(cortex).wf(),
            factors@.len() == old(psyche).slots().len(),
            forall|i: int| 0 <= i < factors@.len() ==> #[trigger] factors@[i] <= ONE,
        ensures
            final(psyche).wf(),
            final(cortex).wf(),
            final(cortex).mood_spec() == old(cortex).mood_spec(),
            final(cortex).base_spec() == old(cortex).base_spec(),
            final(cortex).personality_spec() == old(cortex).personality_spec(),
            final(cortex).retention_spec().ttl() == old(cortex).retention_spec().ttl(),
            final(psyche).slots().len() == old(psyche).slots().len(),
            final(psyche).keys() == old(psyche).keys(),
            ({
                let s = old(psyche).slots();
                let m = old(cortex).retention_spec().pending();
                let ttl = old(cortex).retention_spec().ttl();
                let pref = old(cortex).personality_spec().values@[PRESERVATION as int];
                let stable = |i: usize|
                    quantize_ratio(
                        gc_score(s[i as int], factors@[i as int] as int, self.config_spec().min_energy_threshold as int, pref),
                        1,
                        old(cortex).base_spec(),
                        old(cortex).mood_spec(),
                    ) == Trit::True;
                &&& forall|i: usize|
                    #[trigger] entry(final(cortex).retention_spec().pending(), i) == gc_entry(
                        m,
                        ttl,
                        i,
                        (i as int) < s.len() && live(s, LineageId(i as u32)),
                        stable(i),
                    )
                &&& forall|i: usize|
                    (i as int) < s.len() ==> #[trigger] live(final(psyche).slots(), LineageId(i as u32)) == (live(
                        s,
                        LineageId(i as u32),
                    ) && !gc_frees(m, ttl, i, live(s, LineageId(i as u32)), stable(i)))
            }),
            forall|lid: LineageId|
                (lid.0 as int) < old(psyche).slots().len() ==> #[trigger] final(psyche).slots()[lid.0 as int] == if live(
                    old(psyche).slots(),
                    lid,
                ) && !live(final(psyche).slots(), lid) {
                    deactivated(old(psyche).slots()[lid.0 as int])
                } else {
                    old(psyche).slots()[lid.0 as int]
                },
            r.processed == active_count(old(psyche).slots()),
            r.retained + r.pending + r.pruned == r.processed,
            r.retained == gc_count(
                old(psyche).slots(),
                factors@,
                self.config_spec().min_energy_threshold as int,
                old(cortex).personality_spec().values@[PRESERVATION as int],
                old(cortex).base_spec(),
                old(cortex).mood_spec(),
                old(cortex).retention_spec().pending(),
                old(cortex).retention_spec().ttl(),
                true,
                old(psyche).slots().len() as int,
            ),
            r.pending == gc_count(
                old(psyche).slots(),
                factors@,
                self.config_spec().min_energy_threshold as int,
                old(cortex).personality_spec().values@[PRESERVATION as int],
                old(cortex).base_spec(),
                old(cortex).mood_spec(),
                old(cortex).retention_spec().pending(),
                old(cortex).retention_spec().ttl(),
                false,
                old(psyche).slots().len() as int,
            ),
            r.pruned + active_count(final(psyche).slots()) == active_count(old(psyche).slots()),
    {
        let pref = cortex.personality().get(PRESERVATION);
        let bias: i64 = PRESERVATION_BIAS * pref.weight() as i64;
        let n = psyche.slot_count();
        let ghost s = psyche.slots();
        let ghost m = cortex.retention_spec().pending();
        let ghost ttl = cortex.retention_spec().ttl();
        let ghost base = cortex.base_spec();
        let ghost mood = cortex.mood_spec();
        let ghost min = self.config.min_energy_threshold as int;
        proof {
            crate::psyche::lemma_arena_bounds(*psyche);
        }
        let mut processed: usize = 0;
        let mut retained: usize = 0;
        let mut pending: usize = 0;
        let mut disposables: Vec<LineageId> = Vec::new();
        let mut i: usize = 0;
        while i < n
            invariant
                n == s.len(),
                n < 0xFFFF_FFFF,
                psyche.slots() == s,
                psyche.wf(),
                cortex.wf(),
                factors@.len() == n,
                forall|j: int| 0 <= j < factors@.len() ==> #[trigger] factors@[j] <= ONE,
                cortex.mood_spec() == mood,
                cortex.base_spec() == base,
                cortex.personality_spec() == old(cortex).personality_spec(),
                cortex.retention_spec().ttl() == ttl,
                pref == old(cortex).personality_spec().values@[PRESERVATION as int],
                bias == PRESERVATION_BIAS * pref.w(),
                min == self.config.min_energy_threshold as int,
                i <= n,
                processed == active_upto(s, i as int),
                retained + pending + disposables@.len() == processed,
                retained == gc_count(s, factors@, min, pref, base, mood, m, ttl, true, i as int),
                pending == gc_count(s, factors@, min, pref, base, mood, m, ttl, false, i as int),
                forall|k: usize|
                    #[trigger] entry(cortex.retention_spec().pending(), k) == if k < i {
                        gc_entry(
                            m,
                            ttl,
                            k,
                            live(s, LineageId(k as u32)),
                            quantize_ratio(gc_score(s[k as int], factors@[k as int] as int, min, pref), 1, base, mood)
                                == Trit::True,
                        )
                    } else {
                        entry(m, k)
                    },
                forall|j: int| 0 <= j < disposables@.len() ==> (#[trigger] disposables@[j]).0 < i,
                forall|j: int| 0 <= j < disposables@.len() ==> live(s, #[trigger] disposables@[j]),
                forall|a: int, b: int| 0 <= a < b < disposables@.len() ==> (#[trigger] disposables@[a]).0 < (#[trigger] disposables@[b]).0,
                forall|k: usize|
                    k < i ==> (#[trigger] disposables@.contains(LineageId(k as u32)) == gc_frees(
                        m,
                        ttl,
                        k,
                        live(s, LineageId(k as u32)),
                        quantize_ratio(gc_score(s[k as int], factors@[k as int] as int, min, pref), 1, base, mood)
                            == Trit::True,
                    )),
            decreases n - i,
        {
            let id = LineageId(i as u32);
            let ghost before = cortex.retention_spec().pending();
            let ghost dbefore = disposables@;
            proof {
                crate::psyche::lemma_active_bound(s, i as int);
            }
            let ghost stable_i = quantize_ratio(gc_score(s[i as int], factors@[i as int] as int, min, pref), 1, base, mood) == Trit::True;
            proof {
                lemma_tick_same_entry(before, m, ttl, i);
                assert forall|k: usize| k != i implies (#[trigger] entry(tick_spec(before, ttl, i).0, k)) == entry(before, k)
                    && entry(before.remove(i), k) == entry(before, k) by {
                    lemma_tick_elsewhere(before, ttl, i, k);
                }
                assert(LineageId(i as u32) == id);
            }
            match psyche.get(id) {
                Some(l) => {
                    processed = processed + 1;
                    let e = l.current_energy(factors[i]) as i64;
                    let score = e - self.config.min_energy_threshold as i64 + bias;
                    let verdict = cortex.decide(score);
                    proof {
                        assert(*l == s[i as int]);
                        assert(e == observable_of(s[i as int], factors@[i as int] as int));
                        assert(bias == PRESERVATION_BIAS * pref.w());
                        assert(score == e - min + bias);
                        assert(gc_score(s[i as int], factors@[i as int] as int, min, pref) == observable_of(s[i as int], factors@[i as int] as int) - min + PRESERVATION_BIAS * pref.w());
                        assert(score == gc_score(s[i as int], factors@[i as int] as int, min, pref));
                        assert((verdict == Trit::True) == stable_i);
                    }
                    if verdict == Trit::True {
                        cortex.restore(i);
                        retained = retained + 1;
                        proof {
                            assert(cortex.retention_spec().pending() == before.remove(i));
                        }
                    } else {
                        let ready = cortex.mark_or_tick(i);
                        proof {
                            assert(cortex.retention_spec().pending() == tick_spec(before, ttl, i).0);
                            assert(ready == tick_spec(m, ttl, i).1);
                        }
                        if ready {
                            disposables.push(id);
                        } else {
                            pending = pending + 1;
                        }
                    }
                },
                None => {},
            }
            proof {
                assert forall|k: usize| #[trigger] entry(cortex.retention_spec().pending(), k) == if k < i + 1 {
                    gc_entry(
                        m,
                        ttl,
                        k,
                        live(s, LineageId(k as u32)),
                        quantize_ratio(gc_score(s[k as int], factors@[k as int] as int, min, pref), 1, base, mood)
                            == Trit::True,
                    )
                } else {
                    entry(m, k)
                } by {
                    if k != i {
                        assert(entry(cortex.retention_spec().pending(), k) == entry(before, k));
                    } else {
                        assert(LineageId(k as u32) == id);
                    }
                }
                assert forall|k: usize|
                    k < i + 1 implies (#[trigger] disposables@.contains(LineageId(k as u32)) == gc_frees(
                        m,
                        ttl,
                        k,
                        live(s, LineageId(k as u32)),
                        quantize_ratio(gc_score(s[k as int], factors@[k as int] as int, min, pref), 1, base, mood)
                            == Trit::True,
                    )) by {
                    if k < i {
                        assert(LineageId(k as u32) != id);
                        if disposables@.contains(LineageId(k as u32)) {
                            let w = choose|w: int| 0 <= w < disposables@.len() && disposables@[w] == LineageId(k as u32);
                            if w == dbefore.len() {
                                assert(disposables@[w] == id);
                            } else {
                                assert(dbefore[w] == disposables@[w]);
                            }
                        }
                        if dbefore.contains(LineageId(k as u32)) {
                            let w = choose|w: int| 0 <= w < dbefore.len() && dbefore[w] == LineageId(k as u32);
                            assert(disposables@[w] == dbefore[w]);
                        }
                    } else {
                        assert(LineageId(k as u32) == id);
                        if disposables@.contains(id) {
                            let w = choose|w: int| 0 <= w < disposables@.len() && disposables@[w] == id;
                            if w < dbefore.len() {
                                assert(dbefore[w] == disposables@[w]);
                            }
                        }
                        if disposables@.len() > dbefore.len() {
                            assert(disposables@[disposables@.len() - 1] == id);
                        }
                    }
                }
            }
            i = i + 1;
        }
        let pruned = disposables.len();
        let mut j: usize = 0;
        proof {
            crate::psyche::lemma_active_bound(s, n as int);
        }
        while j < disposables.len()
            invariant
                psyche.wf(),
                n == s.len(),
                psyche.slots().len() == n,
                psyche.keys() == old(psyche).keys(),
                j <= disposables@.len(),
                forall|a: int| 0 <= a < disposables@.len() ==> (#[trigger] disposables@[a]).0 < n,
                forall|a: int, b: int| 0 <= a < b < disposables@.len() ==> (#[trigger] disposables@[a]).0 < (#[trigger] disposables@[b]).0,
                forall|a: int| 0 <= a < disposables@.len() ==> live(s, #[trigger] disposables@[a]),
                forall|lid: LineageId|
                    #[trigger] live(psyche.slots(), lid) == (live(s, lid) && !disposables@.subrange(0, j as int).contains(lid)),
                active_count(psyche.slots()) + j == active_count(s),
                forall|lid: LineageId|
                    (lid.0 as int) < n ==> #[trigger] psyche.slots()[lid.0 as int] == if disposables@.subrange(0, j as int).contains(lid) {
                        deactivated(s[lid.0 as int])
                    } else {
                        s[lid.0 as int]
                    },
            decreases disposables@.len() - j,
        {
            let d = disposables[j];
            let ghost before = psyche.slots();
            proof {
                assert(live(before, d) == (live(s, d) && !disposables@.subrange(0, j as int).contains(d)));
                if disposables@.subrange(0, j as int).contains(d) {
                    let w = choose|w: int| 0 <= w < j && disposables@.subrange(0, j as int)[w] == d;
                    assert(disposables@[w] == d);
                }
            }
            let ok = psyche.free(d);
            proof {
                assert(ok);
                crate::psyche::lemma_flag_bits(before[d.0 as int].flags);
                assert(disposables@.subrange(0, j + 1) == disposables@.subrange(0, j as int).push(d));
                assert forall|lk: LineageId|
                    (lk.0 as int) < n implies #[trigger] psyche.slots()[lk.0 as int] == if disposables@.subrange(0, j + 1).contains(lk) {
                        deactivated(s[lk.0 as int])
                    } else {
                        s[lk.0 as int]
                    } by {
                    let sub = disposables@.subrange(0, j as int);
                    if lk.0 != d.0 {
                        assert(lk != d);
                        assert(psyche.slots()[lk.0 as int] == before[lk.0 as int]);
                        if sub.push(d).contains(lk) {
                            let w = choose|w: int| 0 <= w < sub.push(d).len() && sub.push(d)[w] == lk;
                            assert(w < sub.len());
                            assert(sub[w] == lk);
                        }
                        if sub.contains(lk) {
                            let w = choose|w: int| 0 <= w < sub.len() && sub[w] == lk;
                            assert(sub.push(d)[w] == lk);
                        }
                    } else {
                        assert(lk == d);
                        assert(disposables@.subrange(0, j + 1)[j as int] == d);
                        assert(!sub.contains(d));
                        assert(before[d.0 as int] == s[d.0 as int]);
                    }
                }
                assert forall|lk: LineageId|
                    #[trigger] live(psyche.slots(), lk) == (live(s, lk) && !disposables@.subrange(0, j + 1).contains(lk)) by {
                    if lk.0 != d.0 {
                        assert(live(psyche.slots(), lk) == live(before, lk));
                        assert(lk != d);
                        assert(disposables@.subrange(0, j + 1).contains(lk) == disposables@.subrange(0, j as int).contains(lk)) by {
                            let sub = disposables@.subrange(0, j as int);
                            if sub.push(d).contains(lk) {
                                let w = choose|w: int| 0 <= w < sub.push(d).len() && sub.push(d)[w] == lk;
                                assert(w < sub.len());
                                assert(sub[w] == lk);
                            }
                            if sub.contains(lk) {
                                let w = choose|w: int| 0 <= w < sub.len() && sub[w] == lk;
                                assert(sub.push(d)[w] == lk);
                            }
                        }
                    } else {
                        assert(lk == d);
                        assert(disposables@.subrange(0, j + 1)[j as int] == d);
                        assert(!live(psyche.slots(), d));
                    }
                }
            }
            j = j + 1;
        }
        proof {
            assert(disposables@.subrange(0, disposables@.len() as int) == disposables@);
            assert forall|lid: LineageId|
                (lid.0 as int) < s.len() implies #[trigger] psyche.slots()[lid.0 as int] == if live(s, lid) && !live(
                    psyche.slots(),
                    lid,
                ) {
                    deactivated(s[lid.0 as int])
                } else {
                    s[lid.0 as int]
                } by {
                assert(live(psyche.slots(), lid) == (live(s, lid) && !disposables@.subrange(0, j as int).contains(lid)));
                if disposables@.subrange(0, j as int).contains(lid) {
                    let w = choose|w: int| 0 <= w < j && disposables@.subrange(0, j as int)[w] == lid;
                    assert(disposables@[w] == lid);
                    assert(live(s, lid));
                }
            }
            assert forall|k: usize|
                (k as int) < s.len() implies #[trigger] live(psyche.slots(), LineageId(k as u32)) == (live(
                    s,
                    LineageId(k as u32),
                ) && !gc_frees(
                    m,
                    ttl,
                    k,
                    live(s, LineageId(k as u32)),
                    quantize_ratio(gc_score(s[k as int], factors@[k as int] as int, min, pref), 1, base, mood) == Trit::True,
                )) by {
                assert(live(psyche.slots(), LineageId(k as u32)) == (live(s, LineageId(k as u32))
                    && !disposables@.subrange(0, j as int).contains(LineageId(k as u32))));
            }
        }
        GcResult { processed, retained, pending, pruned }
    }
}

} // verus!
