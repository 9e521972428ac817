//! Stability layer: the warmup state machine, exhaustion levels, shutdown
//! experiences and the classifier of the previous exit.

use vstd::prelude::*;
use vstd::string::StringExecFns;

use crate::unit::{clamp, floor_div, isqrt, ONE};

verus! {

/// Reserved system lineage keys.
pub const HEALTH: &'static str = "_system.health";
pub const STATE: &'static str = "_system.state";
pub const SHUTDOWN_GRACEFUL: &'static str = "_system.shutdown.graceful";
pub const SHUTDOWN_FORCED: &'static str = "_system.shutdown.forced";
pub const SHOCK: &'static str = "_system.shock";
pub const COMA: &'static str = "_system.coma";
pub const INSTABILITY: &'static str = "_system.instability";
pub const RESISTANCE: &'static str = "_system.resistance";

// ─── Warmup ───────────────────────────────────────────────────────────────

/// Server warmup state.
#[derive(Debug, Clone, Copy, PartialEq, Eq, Structural)]
pub enum WarmupState {
    /// No snapshot: ready at once.
    Cold,
    /// A snapshot is being loaded.
    Resurrecting,
    /// Fully operational.
    Ready,
}

/// Tracks the warmup state of one lifecycle.
pub struct WarmupTracker {
    state: WarmupState,
}

impl WarmupTracker {
    pub closed spec fn state_spec(&self) -> WarmupState {
        self.state
    }

    /// A tracker in the Cold state.
    pub fn new() -> (r: WarmupTracker)
        ensures
            r.state_spec() == WarmupState::Cold,
    {
        WarmupTracker { state: WarmupState::Cold }
    }

    /// The current state.
    pub fn state(&self) -> (r: WarmupState)
        ensures
            r == self.state_spec(),
    {
        self.state
    }

    /// Requests may be served in the Cold and Ready states.
    pub fn is_ready(&self) -> (r: bool)
        ensures
            r == (self.state_spec() != WarmupState::Resurrecting),
    {
        match self.state {
            WarmupState::Resurrecting => false,
            _ => true,
        }
    }

    /// Enters the Resurrecting state.
    pub fn begin_resurrection(&mut self)
        ensures
            final(self).state_spec() == WarmupState::Resurrecting,
    {
        self.state = WarmupState::Resurrecting;
    }

    /// Enters the Ready state.
    pub fn mark_ready(&mut self)
        ensures
            final(self).state_spec() == WarmupState::Ready,
    {
        self.state = WarmupState::Ready;
    }

    /// Returns to the Cold state.
    pub fn mark_cold(&mut self)
        ensures
            final(self).state_spec() == WarmupState::Cold,
    {
        self.state = WarmupState::Cold;
    }
}

impl Default for WarmupTracker {
    fn default() -> (r: WarmupTracker)
        ensures
            r.state_spec() == WarmupState::Cold,
    {
        WarmupTracker::new()
    }
}

// ─── Exhaustion ───────────────────────────────────────────────────────────

/// Admission level derived from the `_system.state` energy.
#[derive(Debug, Clone, Copy, PartialEq, Eq, Structural)]
pub enum ExhaustionLevel {
    Normal,
    Elevated,
    Exhausted,
    Emergency,
}

/// Energy thresholds of the exhaustion levels, in millionths.
#[derive(Debug, Clone, Copy, PartialEq, Eq, Structural)]
pub struct ExhaustionThresholds {
    /// Above this: Normal.
    pub normal: i64,
    /// Above this: Elevated.
    pub elevated: i64,
    /// Above this: Exhausted; else Emergency.
    pub exhausted: i64,
}

impl Default for ExhaustionThresholds {
    fn default() -> (r: ExhaustionThresholds)
        ensures
            r == (ExhaustionThresholds { normal: 700_000, elevated: 400_000, exhausted: 100_000 }),
    {
        ExhaustionThresholds { normal: 700_000, elevated: 400_000, exhausted: 100_000 }
    }
}

/// The level of `energy` under thresholds `t`.
pub open spec fn level_of(energy: int, t: ExhaustionThresholds) -> ExhaustionLevel {
    if energy > t.normal {
        ExhaustionLevel::Normal
    } else if energy > t.elevated {
        ExhaustionLevel::Elevated
    } else if energy > t.exhausted {
        ExhaustionLevel::Exhausted
    } else {
        ExhaustionLevel::Emergency
    }
}

impl ExhaustionLevel {
    /// The level of `energy` under the default thresholds.
    pub fn from_energy(energy: i64) -> (r: ExhaustionLevel)
        ensures
            r == level_of(
                energy as int,
                ExhaustionThresholds { normal: 700_000, elevated: 400_000, exhausted: 100_000 },
            ),
    {
        let t = ExhaustionThresholds { normal: 700_000, elevated: 400_000, exhausted: 100_000 };
        ExhaustionLevel::from_energy_with_thresholds(energy, &t)
    }

    /// The level of `energy` under the given thresholds.
    pub fn from_energy_with_thresholds(energy: i64, thresholds: &ExhaustionThresholds) -> (r:
        ExhaustionLevel)
        ensures
            r == level_of(energy as int, *thresholds),
    {
        if energy > thresholds.normal {
            ExhaustionLevel::Normal
        } else if energy > thresholds.elevated {
            ExhaustionLevel::Elevated
        } else if energy > thresholds.exhausted {
            ExhaustionLevel::Exhausted
        } else {
            ExhaustionLevel::Emergency
        }
    }

    /// Writes are admitted at Normal and Elevated only.
    pub fn allows_writes(&self) -> (r: bool)
        ensures
            r == (*self == ExhaustionLevel::Normal || *self == ExhaustionLevel::Elevated),
    {
        match self {
            ExhaustionLevel::Normal | ExhaustionLevel::Elevated => true,
            _ => false,
        }
    }

    /// Every operation is rejected at Emergency.
    pub fn allows_operations(&self) -> (r: bool)
        ensures
            r == (*self != ExhaustionLevel::Emergency),
    {
        match self {
            ExhaustionLevel::Emergency => false,
            _ => true,
        }
    }
}

/// Work cost bookkeeping of the exhaustion model; amounts in millionths.
pub struct ExhaustionMonitor {
    /// Energy restored per tick.
    pub recovery_rate: i64,
    /// Cost of one read.
    pub operation_cost: i64,
}

impl Default for ExhaustionMonitor {
    fn default() -> (r: ExhaustionMonitor)
        ensures
            r.recovery_rate == 50_000,
            r.operation_cost == 1_000,
    {
        ExhaustionMonitor { recovery_rate: 50_000, operation_cost: 1_000 }
    }
}

/// Cost of an operation: the base, doubled for a write, times
/// `1 + 0.1 * depth`, rounded down.
pub open spec fn cost_of(base: int, is_write: bool, depth: int) -> int {
    (base * (if is_write {
        2int
    } else {
        1int
    }) * (10 + depth)) / 10
}

impl ExhaustionMonitor {
    /// A monitor with the given rates.
    pub fn new(recovery_rate: i64, operation_cost: i64) -> (r: ExhaustionMonitor)
        ensures
            r.recovery_rate == recovery_rate,
            r.operation_cost == operation_cost,
    {
        ExhaustionMonitor { recovery_rate, operation_cost }
    }

    /// The cost of one operation at the given propagation depth.
    pub fn calculate_cost(&self, is_write: bool, propagation_depth: u32) -> (r: i128)
        ensures
            r == cost_of(self.operation_cost as int, is_write, propagation_depth as int),
    {
        let w: i128 = if is_write {
            2
        } else {
            1
        };
        proof {
            let b = self.operation_cost as int;
            assert(-0x8000_0000_0000_0000 * 2 * 0x1_0000_000A <= b * w * (10 + propagation_depth) <= 0x8000_0000_0000_0000 * 2 * 0x1_0000_000A) by (nonlinear_arith)
                requires
                    -0x8000_0000_0000_0000 <= b < 0x8000_0000_0000_0000,
                    1 <= w <= 2,
                    0 <= propagation_depth < 0x1_0000_0000,
            ;
        }
        floor_div(self.operation_cost as i128 * w * (10 + propagation_depth as i128), 10)
    }
}

// ─── Threshold tuner ──────────────────────────────────────────────────────

/// Settings of the threshold tuner; values in millionths.
#[derive(Debug, Clone, Copy, PartialEq, Eq, Structural)]
pub struct TunerConfig {
    /// EMA window `W`; the smoothing factor is `2 / (W + 1)`. A window
    /// below one counts as one.
    pub window_size: u32,
    /// The `k` of `mean - k * sigma`.
    pub sensitivity: i64,
    /// No threshold goes below this.
    pub min_floor: i64,
    /// No threshold goes above this.
    pub hard_ceiling: i64,
    /// Samples needed before the learned thresholds apply.
    pub warmup_ticks: u64,
}

impl Default for TunerConfig {
    fn default() -> (r: TunerConfig)
        ensures
            r == (TunerConfig {
                window_size: 100,
                sensitivity: 3_000_000,
                min_floor: 100_000,
                hard_ceiling: 900_000,
                warmup_ticks: 50,
            }),
    {
        TunerConfig {
            window_size: 100,
            sensitivity: 3_000_000,
            min_floor: 100_000,
            hard_ceiling: 900_000,
            warmup_ticks: 50,
        }
    }
}

/// What the tuner has learned.
#[derive(Debug, Clone, Copy, PartialEq, Eq, Structural)]
pub struct TunerStats {
    pub mean: i64,
    pub std_dev: i64,
    pub sample_count: u64,
    pub is_warmed_up: bool,
}

/// The effective EMA window.
pub open spec fn window_of(w: u32) -> int {
    if w < 1 {
        1
    } else {
        w as int
    }
}

/// The mean after observing `x`: `mean + 2 * (x - mean) / (W + 1)`, the
/// step rounded down.
pub open spec fn next_mean(mean: int, x: int, w: int) -> int {
    mean + (2 * (x - mean)) / (w + 1)
}

/// The variance (in millionths squared) after observing `x`:
/// `(1 - a) * (var + a * delta^2)` with `a = 2 / (W + 1)`, each step rounded down.
pub open spec fn next_variance(var: int, mean: int, x: int, w: int) -> int {
    ((var + (2 * (x - mean) * (x - mean)) / (w + 1)) * (w - 1)) / (w + 1)
}

/// The integer square root of `v`: the `r >= 0` with `r * r <= v < (r + 1) * (r + 1)`.
pub open spec fn sqrt_floor(v: int) -> int {
    choose|r: int| is_sqrt_floor(v, r)
}

/// Whether `r` is the integer square root of `v`.
pub open spec fn is_sqrt_floor(v: int, r: int) -> bool {
    0 <= r && r * r <= v < (r + 1) * (r + 1)
}

proof fn lemma_sqrt_floor_unique(v: int, r: int)
    requires
        0 <= r,
        r * r <= v < (r + 1) * (r + 1),
    ensures
        sqrt_floor(v) == r,
{
    assert(is_sqrt_floor(v, r));
    let c = sqrt_floor(v);
    assert(is_sqrt_floor(v, c));
    if c < r {
        assert((c + 1) * (c + 1) <= r * r) by (nonlinear_arith)
            requires
                0 <= c < r,
        ;
    } else if r < c {
        assert((r + 1) * (r + 1) <= c * c) by (nonlinear_arith)
            requires
                0 <= r < c,
        ;
    }
}

/// The learned thresholds: with `s` the integer square root of the
/// variance and `k` the sensitivity, `mean - 0.3ks`, `mean - 0.6ks` and
/// `mean - ks` (rounded down), each clamped between `min_floor` and the
/// level above (`hard_ceiling` for the first).
pub open spec fn tuned_thresholds(mean: int, var: int, c: TunerConfig) -> ExhaustionThresholds {
    let k = c.sensitivity * sqrt_floor(var);
    let normal = clamp(mean - (3 * k) / (10 * ONE), c.min_floor as int, c.hard_ceiling as int);
    let elevated = clamp(mean - (6 * k) / (10 * ONE), c.min_floor as int, normal);
    let exhausted = clamp(mean - k / (ONE as int), c.min_floor as int, elevated);
    ExhaustionThresholds { normal: normal as i64, elevated: elevated as i64, exhausted: exhausted as i64 }
}

/// Learns the typical system energy with an exponential moving average and
/// places the exhaustion thresholds below it.
pub struct ExhaustionTuner {
    config: TunerConfig,
    mean: i64,
    variance: i64,
    count: u64,
}

impl ExhaustionTuner {
    pub closed spec fn config_spec(&self) -> TunerConfig {
        self.config
    }

    pub closed spec fn mean_spec(&self) -> int {
        self.mean as int
    }

    pub closed spec fn variance_spec(&self) -> int {
        self.variance as int
    }

    pub closed spec fn count_spec(&self) -> nat {
        self.count as nat
    }

    /// The mean stays in `[0, ONE]` and the variance in `[0, ONE * ONE]`.
    pub closed spec fn wf(&self) -> bool {
        &&& 0 <= self.mean <= ONE
        &&& 0 <= self.variance <= ONE * ONE
    }

    /// A tuner with no samples.
    pub fn new(config: TunerConfig) -> (r: ExhaustionTuner)
        ensures
            r.wf(),
            r.config_spec() == config,
            r.count_spec() == 0,
            r.mean_spec() == 0,
            r.variance_spec() == 0,
    {
        ExhaustionTuner { config, mean: 0, variance: 0, count: 0 }
    }

    /// Feeds one energy sample in `[0, ONE]`. The first sample sets the mean.
    pub fn observe(&mut self, energy: i64)
        requires
            old(self).wf(),
            0 <= energy <= ONE,
        ensures
            final(self).wf(),
            final(self).config_spec() == old(self).config_spec(),
            final(self).count_spec() == if old(self).count_spec() < u64::MAX {
                old(self).count_spec() + 1
            } else {
                old(self).count_spec()
            },
            old(self).count_spec() == 0 ==> final(self).mean_spec() == energy && final(self).variance_spec() == 0,
            old(self).count_spec() > 0 ==> {
                let w = window_of(old(self).config_spec().window_size);
                &&& final(self).mean_spec() == next_mean(old(self).mean_spec(), energy as int, w)
                &&& final(self).variance_spec() == next_variance(
                    old(self).variance_spec(),
                    old(self).mean_spec(),
                    energy as int,
                    w,
                )
            },
    {
        let first = self.count == 0;
        if self.count < u64::MAX {
            self.count = self.count + 1;
        }
        if first {
            self.mean = energy;
            self.variance = 0;
            return;
        }
        let w: i128 = if self.config.window_size < 1 {
            1
        } else {
            self.config.window_size as i128
        };
        let delta = energy as i128 - self.mean as i128;
        proof {
            assert(0 <= delta * delta <= ONE * ONE) by (nonlinear_arith)
                requires
                    -ONE <= delta <= ONE,
            ;
            assert(0 <= (2 * delta) * delta <= 2 * ONE * ONE) by (nonlinear_arith)
                requires
                    0 <= delta * delta <= ONE * ONE,
            ;
        }
        let step = floor_div(2 * delta, w + 1);
        let q = floor_div(2 * delta * delta, w + 1);
        proof {
            assert(0 <= q <= 2 * ONE * ONE) by (nonlinear_arith)
                requires
                    q as int == (2 * delta * delta) as int / (w + 1) as int,
                    0 <= delta * delta <= ONE * ONE,
                    w >= 1,
            ;
        }
        let grown = self.variance as i128 + q;
        proof {
            assert(0 <= grown * (w - 1) <= 3 * ONE * ONE * 0x1_0000_0000) by (nonlinear_arith)
                requires
                    0 <= grown <= 3 * ONE * ONE,
                    1 <= w <= 0x1_0000_0000,
            ;
        }
        let var = floor_div(grown * (w - 1), w + 1);
        proof {
            let m = self.mean as int;
            let d = delta as int;
            let wi = w as int;
            let one = ONE as int;
            assert(-one <= d <= one);
            // the mean moves toward the sample without passing it
            assert(d >= 0 ==> 0 <= step <= d) by (nonlinear_arith)
                requires
                    step as int == (2 * d) / (wi + 1),
                    wi >= 1,
            ;
            assert(d < 0 ==> d <= step <= 0) by (nonlinear_arith)
                requires
                    step as int == (2 * d) / (wi + 1),
                    wi >= 1,
            ;
            // the variance stays below ONE squared
            let q = (2 * d * d) / (wi + 1);
            assert(0 <= d * d <= one * one) by (nonlinear_arith)
                requires
                    -one <= d <= one,
            ;
            assert(0 <= q && q * (wi + 1) <= 2 * d * d) by (nonlinear_arith)
                requires
                    q == (2 * d * d) / (wi + 1),
                    wi >= 1,
                    d * d >= 0,
            ;
            assert(q * (wi - 1) <= 2 * one * one) by (nonlinear_arith)
                requires
                    0 <= q,
                    q * (wi + 1) <= 2 * d * d,
                    d * d <= one * one,
                    wi >= 1,
            ;
            let g = grown as int;
            assert(0 <= g * (wi - 1) <= one * one * (wi + 1)) by (nonlinear_arith)
                requires
                    g == self.variance as int + q,
                    0 <= self.variance <= one * one,
                    q * (wi - 1) <= 2 * one * one,
                    q >= 0,
                    wi >= 1,
            ;
            assert(0 <= (g * (wi - 1)) / (wi + 1) <= one * one) by (nonlinear_arith)
                requires
                    0 <= g * (wi - 1) <= one * one * (wi + 1),
                    wi >= 1,
            ;
            assert(g * (wi - 1) < 0x1_0000_0000_0000_0000_0000_0000_0000);
        }
        self.mean = (self.mean as i128 + step) as i64;
        self.variance = var as i64;
    }

    /// Mean, standard deviation (the integer square root of the variance),
    /// sample count, and whether the warmup is over.
    pub fn get_stats(&self) -> (r: TunerStats)
        requires
            self.wf(),
        ensures
            r.mean == self.mean_spec(),
            r.std_dev * r.std_dev <= self.variance_spec() < (r.std_dev + 1) * (r.std_dev + 1),
            0 <= r.std_dev <= ONE,
            r.sample_count == self.count_spec(),
            r.is_warmed_up == (self.count_spec() >= self.config_spec().warmup_ticks),
    {
        let sd = isqrt(self.variance as u64);
        proof {
            assert(sd <= ONE) by (nonlinear_arith)
                requires
                    sd * sd <= self.variance,
                    self.variance <= ONE * ONE,
            ;
        }
        TunerStats {
            mean: self.mean,
            std_dev: sd as i64,
            sample_count: self.count,
            is_warmed_up: self.count >= self.config.warmup_ticks,
        }
    }

    /// Before the warmup: the default thresholds. After it: `mean - k * f *
    /// sigma` with `f` = 0.3, 0.6 and 1 for the three levels, each clamped to
    /// `[min_floor, ceiling]`, the ceiling being `hard_ceiling` for the
    /// first and the level above for the others.
    pub fn compute_threshold(&self) -> (r: ExhaustionThresholds)
        requires
            self.wf(),
            self.config_spec().min_floor <= self.config_spec().hard_ceiling,
        ensures
            self.count_spec() < self.config_spec().warmup_ticks ==> r == (ExhaustionThresholds {
                normal: 700_000,
                elevated: 400_000,
                exhausted: 100_000,
            }),
            self.count_spec() >= self.config_spec().warmup_ticks ==> {
                &&& self.config_spec().min_floor <= r.exhausted <= r.elevated <= r.normal
                &&& r.normal <= self.config_spec().hard_ceiling
                &&& r == tuned_thresholds(self.mean_spec(), self.variance_spec(), self.config_spec())
            },
    {
        let stats = self.get_stats();
        proof {
            lemma_sqrt_floor_unique(self.variance as int, stats.std_dev as int);
        }
        if !stats.is_warmed_up {
            return ExhaustionThresholds { normal: 700_000, elevated: 400_000, exhausted: 100_000 };
        }
        proof {
            assert(-0x8000_0000_0000_0000 * ONE <= self.config.sensitivity as int * stats.std_dev as int
                <= 0x8000_0000_0000_0000 * ONE) by (nonlinear_arith)
                requires
                    -0x8000_0000_0000_0000 <= self.config.sensitivity < 0x8000_0000_0000_0000,
                    0 <= stats.std_dev <= ONE,
            ;
        }
        let k = self.config.sensitivity as i128 * stats.std_dev as i128;
        proof {
            let b = 0x8000_0000_0000_0000int;
            assert(-b <= (3 * k as int) / (10 * ONE as int) <= b) by (nonlinear_arith)
                requires
                    -b * ONE <= k <= b * ONE,
            ;
            assert(-b <= (6 * k as int) / (10 * ONE as int) <= b) by (nonlinear_arith)
                requires
                    -b * ONE <= k <= b * ONE,
            ;
            assert(-b <= (k as int) / (ONE as int) <= b) by (nonlinear_arith)
                requires
                    -b * ONE <= k <= b * ONE,
            ;
        }
        let floor = self.config.min_floor;
        let ceiling = self.config.hard_ceiling;
        let normal = clamp_to(self.mean as i128 - floor_div(3 * k, 10 * ONE as i128), floor, ceiling);
        let elevated = clamp_to(self.mean as i128 - floor_div(6 * k, 10 * ONE as i128), floor, normal);
        let exhausted = clamp_to(self.mean as i128 - floor_div(k, ONE as i128), floor, elevated);
        ExhaustionThresholds { normal, elevated, exhausted }
    }

    /// The level of `energy` under the current thresholds.
    pub fn get_level(&self, energy: i64) -> (r: ExhaustionLevel)
        requires
            self.wf(),
            self.config_spec().min_floor <= self.config_spec().hard_ceiling,
        ensures
            self.count_spec() < self.config_spec().warmup_ticks ==> r == level_of(
                energy as int,
                ExhaustionThresholds { normal: 700_000, elevated: 400_000, exhausted: 100_000 },
            ),
            self.count_spec() >= self.config_spec().warmup_ticks ==> r == level_of(
                energy as int,
                tuned_thresholds(self.mean_spec(), self.variance_spec(), self.config_spec()),
            ),
    {
        let t = self.compute_threshold();
        ExhaustionLevel::from_energy_with_thresholds(energy, &t)
    }

    /// Forgets every sample.
    pub fn reset(&mut self)
        ensures
            final(self).wf(),
            final(self).config_spec() == old(self).config_spec(),
            final(self).count_spec() == 0,
            final(self).mean_spec() == 0,
            final(self).variance_spec() == 0,
    {
        self.mean = 0;
        self.variance = 0;
        self.count = 0;
    }
}

impl Default for ExhaustionTuner {
    fn default() -> (r: ExhaustionTuner)
        ensures
            r.wf(),
            r.config_spec() == (TunerConfig {
                window_size: 100,
                sensitivity: 3_000_000,
                min_floor: 100_000,
                hard_ceiling: 900_000,
                warmup_ticks: 50,
            }),
            r.count_spec() == 0,
    {
        ExhaustionTuner::new(TunerConfig::default())
    }
}

/// `v` clamped to `[lo, hi]`.
fn clamp_to(v: i128, lo: i64, hi: i64) -> (r: i64)
    requires
        lo <= hi,
    ensures
        r == clamp(v as int, lo as int, hi as int),
{
    if v < lo as i128 {
        lo
    } else if v > hi as i128 {
        hi
    } else {
        v as i64
    }
}

// ─── Health ───────────────────────────────────────────────────────────────

/// Health derived from the `_system.health` energy.
#[derive(Debug, Clone, Copy, PartialEq, Eq, Structural)]
pub enum HealthStatus {
    Healthy,
    Degraded,
    Unhealthy,
}

impl HealthStatus {
    /// Healthy above 0.7, degraded above 0.3, else unhealthy (millionths).
    pub fn from_energy(energy: i64) -> (r: HealthStatus)
        ensures
            r == if energy > 700_000 {
                HealthStatus::Healthy
            } else if energy > 300_000 {
                HealthStatus::Degraded
            } else {
                HealthStatus::Unhealthy
            },
    {
        if energy > 700_000 {
            HealthStatus::Healthy
        } else if energy > 300_000 {
            HealthStatus::Degraded
        } else {
            HealthStatus::Unhealthy
        }
    }
}

/// Periodic self-stimulation of the health lineage.
pub struct SelfDiagnostic {
    /// Energy added by each pulse, in millionths.
    pub pulse_amount: i64,
    /// Ticks between pulses.
    pub pulse_interval: u64,
    /// Ticks since the last pulse.
    pub tick_counter: u64,
}

impl Default for SelfDiagnostic {
    fn default() -> (r: SelfDiagnostic)
        ensures
            r.pulse_amount == 100_000,
            r.pulse_interval == 100,
            r.ticks() == 0,
    {
        SelfDiagnostic::new(100_000, 100)
    }
}

impl SelfDiagnostic {
    pub open spec fn ticks(&self) -> u64 {
        self.tick_counter
    }

    /// A diagnostic with the given pulse and interval.
    pub fn new(pulse_amount: i64, pulse_interval: u64) -> (r: SelfDiagnostic)
        ensures
            r.pulse_amount == pulse_amount,
            r.pulse_interval == pulse_interval,
            r.ticks() == 0,
    {
        SelfDiagnostic { pulse_amount, pulse_interval, tick_counter: 0 }
    }

    /// Counts a tick; true, restarting the count, once the interval is reached.
    pub fn should_pulse(&mut self) -> (r: bool)
        ensures
            final(self).pulse_amount == old(self).pulse_amount,
            final(self).pulse_interval == old(self).pulse_interval,
            r == (old(self).ticks() as int + 1 >= old(self).pulse_interval),
            r ==> final(self).ticks() == 0,
            !r ==> final(self).ticks() == old(self).ticks() + 1,
    {
        let next = if self.tick_counter < u64::MAX {
            self.tick_counter + 1
        } else {
            u64::MAX
        };
        if next >= self.pulse_interval {
            self.tick_counter = 0;
            true
        } else {
            self.tick_counter = next;
            false
        }
    }

    /// The energy a pulse adds.
    pub fn pulse_delta(&self) -> (r: i64)
        ensures
            r == self.pulse_amount,
    {
        self.pulse_amount
    }
}

// ─── Shutdown experiences ─────────────────────────────────────────────────

/// Why the previous process ended.
#[derive(Debug, Clone, PartialEq, Eq)]
pub enum ShutdownReason {
    /// Clean exit.
    Graceful,
    /// Exit on a signal.
    Signal { signal: i32 },
    /// Crash, with its message.
    Crash { message: String },
    /// Prolonged inactivity.
    Coma { downtime_seconds: u64 },
}

/// The decimal text of `v`.
pub uninterp spec fn decimal_text(v: int) -> Seq<char>;

/// Relies on `ToString` for `i128` (its `Display` impl): the decimal text
/// of the number.
#[verifier::external_body]
fn decimal(v: i128) -> (r: String)
    ensures
        r@ == decimal_text(v as int),
{
    v.to_string()
}

/// `prefix`, the decimal text of `v`, then `suffix`.
fn with_number(prefix: &str, v: i128, suffix: &str) -> (r: String)
    ensures
        r@ == prefix@ + decimal_text(v as int) + suffix@,
{
    let mut text = String::from_str(prefix);
    let digits = decimal(v);
    text.append(digits.as_str());
    text.append(suffix);
    text
}

/// The intensity of a shutdown experience, in millionths.
pub open spec fn intensity_of(r: ShutdownReason) -> int {
    match r {
        ShutdownReason::Graceful => 100_000,
        ShutdownReason::Signal { .. } => 400_000,
        ShutdownReason::Crash { .. } => 800_000,
        ShutdownReason::Coma { .. } => 900_000,
    }
}

impl ShutdownReason {
    /// Intensity: low decays fast, high leaves a scar.
    pub fn intensity(&self) -> (r: i64)
        ensures
            r == intensity_of(*self),
    {
        match self {
            ShutdownReason::Graceful => 100_000,
            ShutdownReason::Signal { .. } => 400_000,
            ShutdownReason::Crash { .. } => 800_000,
            ShutdownReason::Coma { .. } => 900_000,
        }
    }

    /// The system lineage that records this kind of shutdown.
    pub fn lineage_key(&self) -> (r: &'static str)
        ensures
            r@ == match *self {
                ShutdownReason::Graceful => SHUTDOWN_GRACEFUL@,
                ShutdownReason::Signal { .. } => SHUTDOWN_FORCED@,
                ShutdownReason::Crash { .. } => SHOCK@,
                ShutdownReason::Coma { .. } => COMA@,
            },
    {
        match self {
            ShutdownReason::Graceful => SHUTDOWN_GRACEFUL,
            ShutdownReason::Signal { .. } => SHUTDOWN_FORCED,
            ShutdownReason::Crash { .. } => SHOCK,
            ShutdownReason::Coma { .. } => COMA,
        }
    }

    /// A line describing the shutdown.
    pub fn description(&self) -> (r: String)
        ensures
            r@ == match *self {
                ShutdownReason::Graceful => "graceful shutdown"@,
                ShutdownReason::Signal { signal } => "forced (signal "@ + decimal_text(
                    signal as int,
                ) + ")"@,
                ShutdownReason::Crash { message } => "crash: "@ + message@,
                ShutdownReason::Coma { downtime_seconds } => "coma: "@ + decimal_text(
                    downtime_seconds as int,
                ) + "s downtime"@,
            },
    {
        match self {
            ShutdownReason::Graceful => {
                let s = String::from_str("graceful shutdown");
                proof {
                    reveal_strlit("graceful shutdown");
                }
                s
            },
            ShutdownReason::Signal { signal } => with_number("forced (signal ", *signal as i128, ")"),
            ShutdownReason::Crash { message } => {
                let mut s = String::from_str("crash: ");
                s.append(message.as_str());
                s
            },
            ShutdownReason::Coma { downtime_seconds } => with_number(
                "coma: ",
                *downtime_seconds as i128,
                "s downtime",
            ),
        }
    }
}

/// Remembers the last shutdown experience.
pub struct ShutdownTracker {
    pub last_reason: Option<ShutdownReason>,
    pub last_timestamp: Option<u64>,
}

impl Default for ShutdownTracker {
    fn default() -> (r: ShutdownTracker)
        ensures
            r.last_reason.is_none(),
            r.last_timestamp.is_none(),
    {
        ShutdownTracker { last_reason: None, last_timestamp: None }
    }
}

impl ShutdownTracker {
    /// Records a shutdown at `timestamp`.
    pub fn record(&mut self, reason: ShutdownReason, timestamp: u64)
        ensures
            final(self).last_reason == Some(reason),
            final(self).last_timestamp == Some(timestamp),
    {
        self.last_reason = Some(reason);
        self.last_timestamp = Some(timestamp);
    }

    /// The last shutdown was traumatic when its intensity exceeds one half.
    pub fn was_traumatic(&self) -> (r: bool)
        ensures
            r == match self.last_reason {
                Some(reason) => intensity_of(reason) > ONE / 2,
                None => false,
            },
    {
        match &self.last_reason {
            Some(reason) => reason.intensity() > ONE / 2,
            None => false,
        }
    }
}

// ─── Recovery ─────────────────────────────────────────────────────────────

/// Downtime, in seconds, above which a graceful restart is a coma.
pub const COMA_THRESHOLD_SECS: u64 = 3600;

/// Resistance lost per tick, in millionths.
pub const RESISTANCE_DECAY_RATE: i64 = 10_000;

/// How the previous run ended, as seen at startup.
#[derive(Debug, Clone, Copy, PartialEq, Eq, Structural)]
pub enum RecoveryState {
    /// Clean restart.
    Normal,
    /// Unclean shutdown.
    Shock,
    /// Prolonged downtime.
    Coma,
}

impl RecoveryState {
    /// Trauma intensity in millionths: 0, 0.3 or 0.5.
    pub fn intensity(&self) -> (r: i64)
        ensures
            r == match *self {
                RecoveryState::Normal => 0int,
                RecoveryState::Shock => 300_000int,
                RecoveryState::Coma => 500_000int,
            },
    {
        match self {
            RecoveryState::Normal => 0,
            RecoveryState::Shock => 300_000,
            RecoveryState::Coma => 500_000,
        }
    }

    /// A line describing the state.
    pub fn description(&self) -> (r: &'static str)
        ensures
            r@ == match *self {
                RecoveryState::Normal => "clean restart"@,
                RecoveryState::Shock => "shock (unclean shutdown)"@,
                RecoveryState::Coma => "coma (prolonged inactivity)"@,
            },
    {
        match self {
            RecoveryState::Normal => "clean restart",
            RecoveryState::Shock => "shock (unclean shutdown)",
            RecoveryState::Coma => "coma (prolonged inactivity)",
        }
    }
}

/// Marker written at graceful exit.
#[derive(Debug, Clone)]
pub struct ShutdownMarker {
    /// Unix seconds of the shutdown.
    pub timestamp: u64,
    pub graceful: bool,
    pub version: String,
}

/// Relies on `std::time::SystemTime::now`: the current Unix time in seconds,
/// or 0 if the clock is before the epoch. Nothing is known of the value.
#[verifier::external_body]
pub(crate) fn now_secs() -> (r: u64) {
    std::time::SystemTime::now()
        .duration_since(std::time::UNIX_EPOCH)
        .map(|d| d.as_secs())
        .unwrap_or(0)
}

/// Version written into shutdown markers.
pub const VERSION: &'static str = "0.1.0";

impl ShutdownMarker {
    /// A graceful marker stamped with the current time.
    pub fn graceful() -> (r: ShutdownMarker)
        ensures
            r.graceful,
            r.version@ == VERSION@,
    {
        ShutdownMarker { timestamp: now_secs(), graceful: true, version: String::from_str(VERSION) }
    }
}

/// Classification of a restart from the last marker and the startup time.
pub open spec fn recovery_of(marker: Option<ShutdownMarker>, startup: u64) -> RecoveryState {
    match marker {
        None => RecoveryState::Normal,
        Some(m) => if !m.graceful {
            RecoveryState::Shock
        } else if startup > m.timestamp && startup - m.timestamp > COMA_THRESHOLD_SECS {
            RecoveryState::Coma
        } else {
            RecoveryState::Normal
        },
    }
}

/// Classifies the previous exit at startup.
pub struct RecoveryAnalyzer {
    last_marker: Option<ShutdownMarker>,
    startup_time: u64,
}

impl RecoveryAnalyzer {
    pub closed spec fn marker(&self) -> Option<ShutdownMarker> {
        self.last_marker
    }

    pub closed spec fn startup(&self) -> u64 {
        self.startup_time
    }

    /// An analyzer of `last_marker` whose startup time is now.
    pub fn new(last_marker: Option<ShutdownMarker>) -> (r: RecoveryAnalyzer)
        ensures
            r.marker() == last_marker,
    {
        RecoveryAnalyzer { last_marker, startup_time: now_secs() }
    }

    /// An analyzer of `last_marker` with the given startup time.
    pub fn at(last_marker: Option<ShutdownMarker>, startup_time: u64) -> (r: RecoveryAnalyzer)
        ensures
            r.marker() == last_marker,
            r.startup() == startup_time,
    {
        RecoveryAnalyzer { last_marker, startup_time }
    }

    /// Normal without a marker; Shock for a non-graceful marker; Coma for a
    /// graceful one older than the threshold; else Normal.
    pub fn analyze(&self) -> (r: RecoveryState)
        ensures
            r == recovery_of(self.marker(), self.startup()),
    {
        match &self.last_marker {
            None => RecoveryState::Normal,
            Some(marker) => {
                if !marker.graceful {
                    RecoveryState::Shock
                } else if self.startup_time > marker.timestamp && self.startup_time
                    - marker.timestamp > COMA_THRESHOLD_SECS {
                    RecoveryState::Coma
                } else {
                    RecoveryState::Normal
                }
            },
        }
    }

    /// Seconds between the marker and startup; 0 without a marker.
    pub fn downtime_secs(&self) -> (r: u64)
        ensures
            r == match self.marker() {
                Some(m) => if self.startup() > m.timestamp {
                    (self.startup() - m.timestamp) as u64
                } else {
                    0
                },
                None => 0,
            },
    {
        match &self.last_marker {
            Some(m) => {
                if self.startup_time > m.timestamp {
                    self.startup_time - m.timestamp
                } else {
                    0
                }
            },
            None => 0,
        }
    }
}

/// Resistance after one decay step: `max(current - rate, 0)`.
pub fn decay_resistance(current: i64, rate: i64) -> (r: i64)
    requires
        rate >= 0,
    ensures
        r == if current - rate > 0 {
            current - rate
        } else {
            0
        },
{
    if current > rate {
        current - rate
    } else {
        0
    }
}

} // verus!
