//! Balanced ternary primitives: the `Trit` atom, the eight-dimensional
//! `Octet` personality vector, and the TTL-based `RetentionBuffer`.

use std::collections::HashMap;
use vstd::prelude::*;

use crate::unit::{clamp, clamp_i128, ONE};

verus! {

/// Three-valued atom: inhibit (-1), unknown (0), excite (+1).
#[derive(Debug, Clone, Copy, PartialEq, Eq, Structural, Hash, Default)]
pub enum Trit {
    /// Inhibition / rejection (-1).
    False,
    /// Latent / neutral (0).
    #[default]
    Unknown,
    /// Excitation / approval (+1).
    True,
}

impl Trit {
    /// The signed integer a trit stands for.
    pub open spec fn w(self) -> int {
        match self {
            Trit::False => -1,
            Trit::Unknown => 0,
            Trit::True => 1,
        }
    }

    /// The trit whose weight is the sign of `v`.
    pub open spec fn of_sign(v: int) -> Trit {
        if v > 0 {
            Trit::True
        } else if v < 0 {
            Trit::False
        } else {
            Trit::Unknown
        }
    }

    /// Consensus: signed multiplication on {-1, 0, +1}.
    pub fn consensus(self, other: Trit) -> (r: Trit)
        ensures
            r.w() == self.w() * other.w(),
            r == times(self, other),
    {
        match (self, other) {
            (Trit::Unknown, _) | (_, Trit::Unknown) => Trit::Unknown,
            (Trit::True, Trit::True) | (Trit::False, Trit::False) => Trit::True,
            _ => Trit::False,
        }
    }

    /// The signed weight of the trit.
    pub fn weight(self) -> (r: i8)
        ensures
            r as int == self.w(),
    {
        match self {
            Trit::False => -1,
            Trit::Unknown => 0,
            Trit::True => 1,
        }
    }

    /// Negation: swaps True and False, keeps Unknown.
    pub fn invert(self) -> (r: Trit)
        ensures
            r.w() == -self.w(),
    {
        match self {
            Trit::True => Trit::False,
            Trit::False => Trit::True,
            Trit::Unknown => Trit::Unknown,
        }
    }

    /// The sign of `val` as a trit.
    pub fn from_i8_saturating(val: i8) -> (r: Trit)
        ensures
            r == Trit::of_sign(val as int),
    {
        if val > 0 {
            Trit::True
        } else if val < 0 {
            Trit::False
        } else {
            Trit::Unknown
        }
    }
}

/// The consensus of two trits.
pub open spec fn times(a: Trit, b: Trit) -> Trit {
    Trit::of_sign(a.w() * b.w())
}

proof fn lemma_times_weight(a: Trit, b: Trit)
    ensures
        times(a, b).w() == a.w() * b.w(),
{
    assert(-1 <= a.w() * b.w() <= 1) by (nonlinear_arith)
        requires
            -1 <= a.w() <= 1,
            -1 <= b.w() <= 1,
    ;
}

/// Consensus is commutative and associative.
pub proof fn lemma_consensus_laws(a: Trit, b: Trit, c: Trit)
    ensures
        times(a, b) == times(b, a),
        times(times(a, b), c) == times(a, times(b, c)),
{
    lemma_times_weight(a, b);
    lemma_times_weight(b, c);
    lemma_times_weight(times(a, b), c);
    lemma_times_weight(a, times(b, c));
    assert(a.w() * b.w() == b.w() * a.w()) by (nonlinear_arith);
    assert((a.w() * b.w()) * c.w() == a.w() * (b.w() * c.w())) by (nonlinear_arith);
}

impl core::ops::Mul for Trit {
    type Output = Trit;

    fn mul(self, rhs: Trit) -> (r: Trit)
        ensures
            r.w() == self.w() * rhs.w(),
    {
        self.consensus(rhs)
    }
}

impl vstd::std_specs::ops::MulSpecImpl for Trit {
    open spec fn obeys_mul_spec() -> bool {
        true
    }

    open spec fn mul_req(self, rhs: Trit) -> bool {
        true
    }

    open spec fn mul_spec(self, rhs: Trit) -> Trit {
        Trit::of_sign(self.w() * rhs.w())
    }
}

impl core::ops::Not for Trit {
    type Output = Trit;

    fn not(self) -> (r: Trit)
        ensures
            r.w() == -self.w(),
    {
        self.invert()
    }
}

impl vstd::std_specs::ops::NotSpecImpl for Trit {
    open spec fn obeys_not_spec() -> bool {
        true
    }

    open spec fn not_req(self) -> bool {
        true
    }

    open spec fn not_spec(self) -> Trit {
        Trit::of_sign(-self.w())
    }
}


/// Semantic dimension indices of an `Octet`.
pub const CURIOSITY: usize = 0;
pub const PRESERVATION: usize = 1;
pub const EFFICIENCY: usize = 2;
pub const EMPATHY: usize = 3;
pub const RIGIDITY: usize = 4;
pub const VOLATILITY: usize = 5;
pub const AGGRESSION: usize = 6;
pub const LATENCY: usize = 7;

/// Fixed eight-trit vector: a personality or an event profile.
#[derive(Debug, Clone, Copy)]
pub struct Octet {
    pub values: [Trit; 8],
}

impl PartialEq for Octet {
    fn eq(&self, o: &Octet) -> (r: bool) {
        let mut i: usize = 0;
        while i < 8
            invariant
                0 <= i <= 8,
                forall|j: int| 0 <= j < i ==> self.values@[j] == o.values@[j],
            decreases 8 - i,
        {
            if self.values[i] != o.values[i] {
                return false;
            }
            i = i + 1;
        }
        assert(self.values@ =~= o.values@);
        true
    }
}

impl vstd::std_specs::cmp::PartialEqSpecImpl for Octet {
    open spec fn obeys_eq_spec() -> bool {
        true
    }

    open spec fn eq_spec(&self, o: &Octet) -> bool {
        self.values@ == o.values@
    }
}

impl Eq for Octet {
}

/// Sum of the pairwise products of the first `n` dimensions.
pub open spec fn dot_upto(a: Seq<Trit>, b: Seq<Trit>, n: int) -> int
    decreases n,
{
    if n <= 0 {
        0
    } else {
        dot_upto(a, b, n - 1) + a[n - 1].w() * b[n - 1].w()
    }
}

/// Number of the first `n` dimensions where both vectors are non-zero.
pub open spec fn active_upto(a: Seq<Trit>, b: Seq<Trit>, n: int) -> int
    decreases n,
{
    if n <= 0 {
        0
    } else {
        active_upto(a, b, n - 1) + if a[n - 1] != Trit::Unknown && b[n - 1] != Trit::Unknown {
            1int
        } else {
            0int
        }
    }
}

/// Two-bit code of a trit: 00 unknown, 01 true, 11 false.
pub open spec fn trit_code(t: Trit) -> u16 {
    match t {
        Trit::Unknown => 0,
        Trit::True => 1,
        Trit::False => 3,
    }
}

/// Decoding of a two-bit code; the unused code 10 reads as unknown.
pub open spec fn trit_of_code(c: u16) -> Trit {
    if c == 1 {
        Trit::True
    } else if c == 3 {
        Trit::False
    } else {
        Trit::Unknown
    }
}

/// The packed form of eight trits, dimension `i` in bits `2i` and `2i+1`.
pub open spec fn pack_spec(v: Seq<Trit>) -> u16 {
    trit_code(v[0]) | trit_code(v[1]) << 2u16 | trit_code(v[2]) << 4u16 | trit_code(v[3]) << 6u16
        | trit_code(v[4]) << 8u16 | trit_code(v[5]) << 10u16 | trit_code(v[6]) << 12u16
        | trit_code(v[7]) << 14u16
}

/// The trit stored at dimension `i` of a packed word.
pub open spec fn unpack_at(p: u16, i: int) -> Trit {
    trit_of_code((p >> (2 * i) as u16) & 3u16)
}

fn code_of(t: Trit) -> (r: u16)
    ensures
        r == trit_code(t),
{
    match t {
        Trit::Unknown => 0,
        Trit::True => 1,
        Trit::False => 3,
    }
}

fn trit_of(c: u16) -> (r: Trit)
    ensures
        r == trit_of_code(c),
{
    if c == 1 {
        Trit::True
    } else if c == 3 {
        Trit::False
    } else {
        Trit::Unknown
    }
}

impl Octet {
    pub open spec fn view(self) -> Seq<Trit> {
        self.values@
    }

    /// An octet holding the given values.
    pub fn new(values: [Trit; 8]) -> (r: Octet)
        ensures
            r.values == values,
    {
        Octet { values }
    }

    /// The all-unknown octet.
    pub fn neutral() -> (r: Octet)
        ensures
            forall|i: int| 0 <= i < 8 ==> #[trigger] r.values@[i] == Trit::Unknown,
    {
        Octet { values: [Trit::Unknown; 8] }
    }

    /// The trit at dimension `dim`.
    pub fn get(&self, dim: usize) -> (r: Trit)
        requires
            dim < 8,
        ensures
            r == self.values@[dim as int],
    {
        self.values[dim]
    }

    /// Sets dimension `dim` to `value`.
    pub fn set(&mut self, dim: usize, value: Trit)
        requires
            dim < 8,
        ensures
            final(self).values@ == old(self).values@.update(dim as int, value),
    {
        self.values[dim] = value;
    }

    /// Numerator and denominator of the resonance of two octets: the sum of
    /// the consensus weights, and the number of dimensions where both are
    /// non-zero. The resonance is their quotient, or 0 when the count is 0.
    pub fn resonance_terms(&self, other: &Octet) -> (r: (i8, u8))
        ensures
            r.0 as int == dot_upto(self.values@, other.values@, 8),
            r.1 as int == active_upto(self.values@, other.values@, 8),
    {
        let mut dot: i8 = 0;
        let mut active: u8 = 0;
        let mut i: usize = 0;
        while i < 8
            invariant
                0 <= i <= 8,
                dot as int == dot_upto(self.values@, other.values@, i as int),
                active as int == active_upto(self.values@, other.values@, i as int),
                -(i as int) <= dot <= i,
                active <= i,
            decreases 8 - i,
        {
            let a = self.values[i];
            let b = other.values[i];
            let p = a.consensus(b).weight();
            if a != Trit::Unknown && b != Trit::Unknown {
                active = active + 1;
            }
            dot = dot + p;
            i = i + 1;
        }
        (dot, active)
    }

    /// Packs the octet into sixteen bits, two per dimension.
    pub fn pack(&self) -> (r: u16)
        ensures
            r == pack_spec(self.values@),
    {
        code_of(self.values[0]) | code_of(self.values[1]) << 2u16 | code_of(self.values[2]) << 4u16
            | code_of(self.values[3]) << 6u16 | code_of(self.values[4]) << 8u16 | code_of(
            self.values[5],
        ) << 10u16 | code_of(self.values[6]) << 12u16 | code_of(self.values[7]) << 14u16
    }

    /// Unpacks sixteen bits into an octet.
    pub fn unpack(packed: u16) -> (r: Octet)
        ensures
            forall|i: int| 0 <= i < 8 ==> #[trigger] r.values@[i] == unpack_at(packed, i),
    {
        let values = [
            trit_of(packed & 3),
            trit_of((packed >> 2u16) & 3),
            trit_of((packed >> 4u16) & 3),
            trit_of((packed >> 6u16) & 3),
            trit_of((packed >> 8u16) & 3),
            trit_of((packed >> 10u16) & 3),
            trit_of((packed >> 12u16) & 3),
            trit_of((packed >> 14u16) & 3),
        ];
        proof {
            assert((packed >> 0u16) == packed) by (bit_vector);
            assert forall|i: int| 0 <= i < 8 implies #[trigger] values@[i] == unpack_at(packed, i) by {
                if i == 0 {
                } else if i == 1 {
                } else if i == 2 {
                } else if i == 3 {
                } else if i == 4 {
                } else if i == 5 {
                } else if i == 6 {
                } else {
                }
            }
        }
        Octet { values }
    }
}

/// Resonance with the all-unknown octet has no active dimension and a zero sum.
pub proof fn lemma_resonance_with_neutral(a: Seq<Trit>, z: Seq<Trit>, n: int)
    requires
        0 <= n <= z.len(),
        n <= a.len(),
        forall|i: int| 0 <= i < z.len() ==> #[trigger] z[i] == Trit::Unknown,
    ensures
        dot_upto(a, z, n) == 0,
        active_upto(a, z, n) == 0,
        dot_upto(z, a, n) == 0,
        active_upto(z, a, n) == 0,
        n == 8 ==> resonance_of(a, z) == 0 && resonance_of(z, a) == 0,
    decreases n,
{
    if n > 0 {
        lemma_resonance_with_neutral(a, z, n - 1);
    }
}

proof fn lemma_code_field(a: u16, b: u16, c: u16, d: u16, e: u16, f: u16, g: u16, h: u16)
    requires
        a < 4, b < 4, c < 4, d < 4, e < 4, f < 4, g < 4, h < 4,
    ensures
        ({
            let p = a | b << 2u16 | c << 4u16 | d << 6u16 | e << 8u16 | f << 10u16 | g << 12u16 | h << 14u16;
            &&& (p >> 0u16) & 3 == a
            &&& (p >> 2u16) & 3 == b
            &&& (p >> 4u16) & 3 == c
            &&& (p >> 6u16) & 3 == d
            &&& (p >> 8u16) & 3 == e
            &&& (p >> 10u16) & 3 == f
            &&& (p >> 12u16) & 3 == g
            &&& (p >> 14u16) & 3 == h
        }),
{
    assert({
        let p = a | b << 2u16 | c << 4u16 | d << 6u16 | e << 8u16 | f << 10u16 | g << 12u16 | h << 14u16;
        &&& (p >> 0u16) & 3 == a
        &&& (p >> 2u16) & 3 == b
        &&& (p >> 4u16) & 3 == c
        &&& (p >> 6u16) & 3 == d
        &&& (p >> 8u16) & 3 == e
        &&& (p >> 10u16) & 3 == f
        &&& (p >> 12u16) & 3 == g
        &&& (p >> 14u16) & 3 == h
    }) by (bit_vector)
        requires
            a < 4, b < 4, c < 4, d < 4, e < 4, f < 4, g < 4, h < 4,
    ;
}

/// Unpacking a packed octet gives back every dimension.
pub proof fn lemma_pack_round_trip(o: Octet)
    ensures
        forall|i: int| 0 <= i < 8 ==> #[trigger] unpack_at(pack_spec(o.values@), i) == o.values@[i],
        Seq::new(8, |i: int| unpack_at(pack_spec(o.values@), i)) == o.values@,
{
    let v = o.values@;
    lemma_code_field(
        trit_code(v[0]), trit_code(v[1]), trit_code(v[2]), trit_code(v[3]),
        trit_code(v[4]), trit_code(v[5]), trit_code(v[6]), trit_code(v[7]),
    );
    assert forall|i: int| 0 <= i < 8 implies #[trigger] unpack_at(pack_spec(v), i) == v[i] by {
        assert(trit_of_code(trit_code(v[i])) == v[i]);
        if i == 0 {
            assert((2 * i) as u16 == 0u16);
        }
    }
    assert(Seq::new(8, |i: int| unpack_at(pack_spec(v), i)) =~= v);
}


/// Floor of the resonance in millionths: the consensus sum over the active
/// dimensions divided by their count, or 0 when no dimension is active.
pub open spec fn resonance_of(a: Seq<Trit>, b: Seq<Trit>) -> int {
    let n = active_upto(a, b, 8);
    if n == 0 {
        0
    } else {
        (dot_upto(a, b, 8) * ONE) / n
    }
}

proof fn lemma_terms_bounded(a: Seq<Trit>, b: Seq<Trit>, n: int)
    requires
        0 <= n <= a.len(),
        n <= b.len(),
    ensures
        -active_upto(a, b, n) <= dot_upto(a, b, n) <= active_upto(a, b, n),
        0 <= active_upto(a, b, n) <= n,
    decreases n,
{
    if n > 0 {
        lemma_terms_bounded(a, b, n - 1);
    }
}

impl Octet {
    /// Resonance of two octets in millionths, rounded down; in
    /// `[-ONE, ONE]`. Dimensions where either side is unknown are left out.
    pub fn resonance(&self, other: &Octet) -> (r: i64)
        ensures
            r as int == resonance_of(self.values@, other.values@),
            -ONE <= r <= ONE,
    {
        let (dot, active) = self.resonance_terms(other);
        proof {
            lemma_terms_bounded(self.values@, other.values@, 8);
        }
        if active == 0 {
            0
        } else {
            let num = dot as i64 * ONE;
            let den = active as i64;
            proof {
                assert(-ONE * den <= num <= ONE * den) by (nonlinear_arith)
                    requires
                        num == dot * ONE,
                        -den <= dot <= den,
                        den > 0,
                ;
                assert(-ONE <= num / den <= ONE) by (nonlinear_arith)
                    requires
                        -ONE * den <= num <= ONE * den,
                        den > 0,
                ;
            }
            if num >= 0 {
                num / den
            } else {
                let q = ((-num) + den - 1) / den;
                proof {
                    assert(-q == (num as int) / (den as int)) by (nonlinear_arith)
                        requires
                            num < 0,
                            den > 0,
                            q as int == ((-num) + den - 1) as int / (den as int),
                    ;
                }
                -q
            }
        }
    }

    /// Conflict magnitude: the negated resonance where it is negative, else 0.
    pub fn dissonance(&self, other: &Octet) -> (r: i64)
        ensures
            r as int == if resonance_of(self.values@, other.values@) < 0 {
                -resonance_of(self.values@, other.values@)
            } else {
                0
            },
    {
        let res = self.resonance(other);
        if res < 0 {
            -res
        } else {
            0
        }
    }
}

/// Smallest mood-adjusted threshold, 0.01.
pub const MIN_THRESHOLD: i64 = 10_000;

/// Default base threshold of a quantizer, 0.33.
pub const DEFAULT_THRESHOLD: i64 = 330_000;

/// Ten times the mood-adjusted threshold: `max(eps, base - 0.1 * mood)`.
pub open spec fn threshold10(base: int, mood: int) -> int {
    let t = 10 * base - mood;
    if t < 10 * MIN_THRESHOLD {
        10 * MIN_THRESHOLD
    } else {
        t
    }
}

/// The verdict on the analog value `num / den` (with `den > 0`) under `mood`.
pub open spec fn quantize_ratio(num: int, den: int, base: int, mood: int) -> Trit {
    let t = threshold10(base, mood);
    if 10 * num > t * den {
        Trit::True
    } else if 10 * num < -t * den {
        Trit::False
    } else {
        Trit::Unknown
    }
}

/// Analog to ternary conversion with a mood-shifted threshold.
#[derive(Debug, Clone, Copy)]
pub struct Quantizer {
    base_threshold: i64,
}

impl Quantizer {
    pub closed spec fn base(self) -> int {
        self.base_threshold as int
    }

    /// A quantizer with the given base threshold (millionths).
    pub fn new(base_threshold: i64) -> (r: Quantizer)
        ensures
            r.base() == base_threshold,
    {
        Quantizer { base_threshold }
    }

    /// +1 above the threshold, -1 below its negation, 0 in between; the
    /// threshold is `max(0.01, base - 0.1 * mood)`.
    pub fn quantize(&self, value: i64, mood_modifier: i64) -> (r: Trit)
        ensures
            r == quantize_ratio(value as int, 1, self.base(), mood_modifier as int),
    {
        self.quantize_ratio(value as i128, 1, mood_modifier)
    }

    fn quantize_ratio(&self, num: i128, den: i128, mood: i64) -> (r: Trit)
        requires
            1 <= den <= 0x1_0000_0000,
            -0x1_0000_0000_0000_0000_0000_0000 <= num <= 0x1_0000_0000_0000_0000_0000_0000,
        ensures
            r == quantize_ratio(num as int, den as int, self.base(), mood as int),
    {
        let t10 = 10 * (self.base_threshold as i128) - mood as i128;
        let t = if t10 < 10 * MIN_THRESHOLD as i128 {
            10 * MIN_THRESHOLD as i128
        } else {
            t10
        };
        proof {
            assert(0 < t <= 0x20_0000_0000_0000_0000_0000);
            assert(0 < t * den <= 0x20_0000_0000_0000_0000_0000 * 0x1_0000_0000) by (nonlinear_arith)
                requires
                    0 < t <= 0x20_0000_0000_0000_0000_0000,
                    1 <= den <= 0x1_0000_0000,
            ;
            assert(t as int == threshold10(self.base(), mood as int));
            assert((-t as int) * (den as int) == -((t as int) * (den as int))) by (nonlinear_arith);
        }
        if 10 * num > t * den {
            Trit::True
        } else if 10 * num < -(t * den) {
            Trit::False
        } else {
            Trit::Unknown
        }
    }

    /// The base threshold.
    pub fn threshold(&self) -> (r: i64)
        ensures
            r == self.base(),
    {
        self.base_threshold
    }
}

impl Default for Quantizer {
    fn default() -> (r: Quantizer)
        ensures
            r.base() == DEFAULT_THRESHOLD,
    {
        Quantizer::new(DEFAULT_THRESHOLD)
    }
}

/// A zero analog value is always unknown, whatever the mood.
pub proof fn lemma_quantize_zero(base: int, mood: int)
    ensures
        quantize_ratio(0, 1, base, mood) == Trit::Unknown,
{
}

/// A buffer of lineages that may be deleted unless they recover: each entry
/// maps a lineage index to the number of GC ticks it has left.
pub struct RetentionBuffer {
    pending_removals: HashMap<usize, u8>,
    default_ttl: u8,
}

/// The TTL an entry holds once it has been marked for the first time.
pub open spec fn first_ttl(ttl: u8) -> u8 {
    if ttl > 0 {
        (ttl - 1) as u8
    } else {
        0
    }
}

/// What `mark_or_tick` does to the pending map, and what it returns.
pub open spec fn tick_spec(m: Map<usize, u8>, ttl: u8, id: usize) -> (Map<usize, u8>, bool) {
    if !m.contains_key(id) {
        (m.insert(id, first_ttl(ttl)), false)
    } else if m[id] > 0 {
        (m.insert(id, (m[id] - 1) as u8), false)
    } else {
        (m.remove(id), true)
    }
}

impl RetentionBuffer {
    /// The pending entries: lineage index to remaining TTL.
    pub closed spec fn pending(&self) -> Map<usize, u8> {
        self.pending_removals@
    }

    pub closed spec fn ttl(&self) -> u8 {
        self.default_ttl
    }

    /// An empty buffer whose new entries get `ttl` ticks.
    pub fn new(ttl: u8) -> (r: RetentionBuffer)
        ensures
            r.pending() == Map::<usize, u8>::empty(),
            r.ttl() == ttl,
    {
        RetentionBuffer { pending_removals: HashMap::new(), default_ttl: ttl }
    }

    /// Marks `id` for removal or ticks its TTL down. Returns true, and drops
    /// the entry, once an entry with no ticks left is ticked again.
    pub fn mark_or_tick(&mut self, id: usize) -> (r: bool)
        ensures
            (final(self).pending(), r) == tick_spec(old(self).pending(), old(self).ttl(), id),
            final(self).ttl() == old(self).ttl(),
    {
        broadcast use vstd::std_specs::hash::group_hash_axioms;

        match self.pending_removals.get(&id) {
            None => {
                let first = if self.default_ttl > 0 {
                    self.default_ttl - 1
                } else {
                    0
                };
                self.pending_removals.insert(id, first);
                false
            },
            Some(v) => {
                let left = *v;
                if left > 0 {
                    self.pending_removals.insert(id, left - 1);
                    false
                } else {
                    self.pending_removals.remove(&id);
                    true
                }
            },
        }
    }

    /// Sets the entry of `id` to `ttl`, as when restoring a saved buffer.
    pub fn set_pending(&mut self, id: usize, ttl: u8)
        ensures
            final(self).pending() == old(self).pending().insert(id, ttl),
            final(self).ttl() == old(self).ttl(),
    {
        broadcast use vstd::std_specs::hash::group_hash_axioms;

        self.pending_removals.insert(id, ttl);
    }

    /// Drops `id` from the buffer: the lineage recovered.
    pub fn restore(&mut self, id: usize)
        ensures
            final(self).pending() == old(self).pending().remove(id),
            final(self).ttl() == old(self).ttl(),
    {
        broadcast use vstd::std_specs::hash::group_hash_axioms;

        self.pending_removals.remove(&id);
    }

    /// Whether `id` is pending removal.
    pub fn is_pending(&self, id: usize) -> (r: bool)
        ensures
            r == self.pending().contains_key(id),
    {
        broadcast use vstd::std_specs::hash::group_hash_axioms;

        self.pending_removals.contains_key(&id)
    }

    /// The TTL left to `id`, if it is pending.
    pub fn remaining_ttl(&self, id: usize) -> (r: Option<u8>)
        ensures
            r == (if self.pending().contains_key(id) {
                Some(self.pending()[id])
            } else {
                None
            }),
    {
        broadcast use vstd::std_specs::hash::group_hash_axioms;

        match self.pending_removals.get(&id) {
            Some(v) => Some(*v),
            None => None,
        }
    }

    /// Number of pending entries.
    pub fn pending_count(&self) -> (r: usize)
        ensures
            r == self.pending().len(),
    {
        broadcast use vstd::std_specs::hash::group_hash_axioms;

        self.pending_removals.len()
    }

    /// Drops every pending entry.
    pub fn clear(&mut self)
        ensures
            final(self).pending() == Map::<usize, u8>::empty(),
            final(self).ttl() == old(self).ttl(),
    {
        self.pending_removals.clear();
    }

    /// The TTL that new entries get.
    pub fn default_ttl(&self) -> (r: u8)
        ensures
            r == self.ttl(),
    {
        self.default_ttl
    }
}

impl Default for RetentionBuffer {
    /// An empty buffer with the default TTL.
    fn default() -> (r: RetentionBuffer)
        ensures
            r.pending() == Map::<usize, u8>::empty(),
            r.ttl() == DEFAULT_TTL,
    {
        RetentionBuffer::new(DEFAULT_TTL)
    }
}

/// An entry marked with a TTL of zero is not released by its first tick,
/// and is released by the next one.
pub proof fn lemma_zero_ttl_marks_first(m: Map<usize, u8>, id: usize)
    requires
        !m.contains_key(id),
    ensures
        tick_spec(m, 0, id).1 == false,
        tick_spec(tick_spec(m, 0, id).0, 0, id).1 == true,
{
}


/// Retention buffer TTL of a new cortex.
pub const DEFAULT_TTL: u8 = 3;

/// The ternary brain: a fixed personality, a mood in `[-ONE, ONE]`, a
/// quantizer and the retention buffer of the GC pipeline.
pub struct Cortex {
    personality: Octet,
    mood: i64,
    quantizer: Quantizer,
    retention: RetentionBuffer,
}

impl Default for Cortex {
    /// A neutral personality with neutral mood.
    fn default() -> (r: Cortex)
        ensures
            forall|i: int| 0 <= i < 8 ==> #[trigger] r.personality_spec().values@[i] == Trit::Unknown,
            r.mood_spec() == 0,
            r.base_spec() == DEFAULT_THRESHOLD,
            r.retention_spec().pending() == Map::<usize, u8>::empty(),
            r.retention_spec().ttl() == DEFAULT_TTL,
            r.wf(),
    {
        Cortex::new(Octet::neutral())
    }
}

/// The consciousness verdict for `energy` against `threshold`: their
/// difference, amplified by the gain `5 * (1 + 0.5 * mood)`, quantized.
pub open spec fn consciousness_spec(energy: int, threshold: int, base: int, mood: int) -> Trit {
    quantize_ratio((energy - threshold) * (10 * ONE + 5 * mood), 2 * ONE, base, mood)
}

impl Cortex {
    /// The mood stays within `[-ONE, ONE]`.
    pub closed spec fn wf(&self) -> bool {
        -ONE <= self.mood <= ONE
    }

    pub closed spec fn mood_spec(&self) -> int {
        self.mood as int
    }

    pub closed spec fn personality_spec(&self) -> Octet {
        self.personality
    }

    pub closed spec fn base_spec(&self) -> int {
        self.quantizer.base()
    }

    pub closed spec fn retention_spec(&self) -> RetentionBuffer {
        self.retention
    }

    /// A cortex with neutral mood, the default quantizer and TTL.
    pub fn new(personality: Octet) -> (r: Cortex)
        ensures
            r.personality_spec() == personality,
            r.mood_spec() == 0,
            r.base_spec() == DEFAULT_THRESHOLD,
            r.retention_spec().pending() == Map::<usize, u8>::empty(),
            r.retention_spec().ttl() == DEFAULT_TTL,
            r.wf(),
    {
        Cortex {
            personality,
            mood: 0,
            quantizer: Quantizer::new(DEFAULT_THRESHOLD),
            retention: RetentionBuffer::new(DEFAULT_TTL),
        }
    }

    /// A cortex whose quantizer has the given base threshold.
    pub fn with_threshold(personality: Octet, threshold: i64) -> (r: Cortex)
        ensures
            r.personality_spec() == personality,
            r.mood_spec() == 0,
            r.base_spec() == threshold,
            r.retention_spec().pending() == Map::<usize, u8>::empty(),
            r.retention_spec().ttl() == DEFAULT_TTL,
            r.wf(),
    {
        Cortex {
            personality,
            mood: 0,
            quantizer: Quantizer::new(threshold),
            retention: RetentionBuffer::new(DEFAULT_TTL),
        }
    }

    /// The current mood.
    pub fn mood(&self) -> (r: i64)
        requires
            self.wf(),
        ensures
            r == self.mood_spec(),
            -ONE <= r <= ONE,
    {
        self.mood
    }

    /// The personality.
    pub fn personality(&self) -> (r: &Octet)
        ensures
            *r == self.personality_spec(),
    {
        &self.personality
    }

    /// Adds `delta` to the mood, clamped to `[-ONE, ONE]`.
    pub fn shift_mood(&mut self, delta: i64)
        requires
            old(self).wf(),
        ensures
            final(self).wf(),
            final(self).mood_spec() == clamp(old(self).mood_spec() + delta, -ONE as int, ONE as int),
            final(self).personality_spec() == old(self).personality_spec(),
            final(self).base_spec() == old(self).base_spec(),
            final(self).retention_spec() == old(self).retention_spec(),
    {
        let m = clamp_i128(self.mood as i128 + delta as i128, -ONE, ONE);
        self.mood = m;
    }

    /// Sets the mood to `value`, clamped to `[-ONE, ONE]`.
    pub fn set_mood(&mut self, value: i64)
        requires
            old(self).wf(),
        ensures
            final(self).wf(),
            final(self).mood_spec() == clamp(value as int, -ONE as int, ONE as int),
            final(self).personality_spec() == old(self).personality_spec(),
            final(self).base_spec() == old(self).base_spec(),
            final(self).retention_spec() == old(self).retention_spec(),
    {
        let m = clamp_i128(value as i128, -ONE, ONE);
        self.mood = m;
    }

    /// Resonance of the personality with an event, in millionths.
    pub fn evaluate(&self, event: &Octet) -> (r: i64)
        ensures
            r == resonance_of(self.personality_spec().values@, event.values@),
    {
        self.personality.resonance(event)
    }

    /// The verdict on an analog value under the current mood.
    pub fn decide(&self, value: i64) -> (r: Trit)
        ensures
            r == quantize_ratio(value as int, 1, self.base_spec(), self.mood_spec()),
    {
        self.quantizer.quantize(value, self.mood)
    }

    /// Lucid (+1), dreaming (0) or dormant (-1), from an energy and a threshold.
    pub fn consciousness_state(&self, energy: i64, threshold: i64) -> (r: Trit)
        requires
            self.wf(),
        ensures
            r == consciousness_spec(energy as int, threshold as int, self.base_spec(), self.mood_spec()),
    {
        let delta = energy as i128 - threshold as i128;
        let gain = 10 * ONE as i128 + 5 * self.mood as i128;
        proof {
            assert(-0x2_0000_0000_0000_0000 <= delta <= 0x2_0000_0000_0000_0000);
            assert(0 <= gain <= 0x100_0000);
            assert(-0x2_0000_0000_0000_0000 * 0x100_0000 <= delta * gain <= 0x2_0000_0000_0000_0000 * 0x100_0000) by (nonlinear_arith)
                requires
                    -0x2_0000_0000_0000_0000 <= delta <= 0x2_0000_0000_0000_0000,
                    0 <= gain <= 0x100_0000,
            ;
        }
        self.quantizer.quantize_ratio(delta * gain, 2 * ONE as i128, self.mood)
    }

    /// The retention buffer.
    pub fn retention(&self) -> (r: &RetentionBuffer)
        ensures
            *r == self.retention_spec(),
    {
        &self.retention
    }

    /// Marks or ticks `id` in the retention buffer.
    pub fn mark_or_tick(&mut self, id: usize) -> (r: bool)
        requires
            old(self).wf(),
        ensures
            final(self).wf(),
            (final(self).retention_spec().pending(), r) == tick_spec(
                old(self).retention_spec().pending(),
                old(self).retention_spec().ttl(),
                id,
            ),
            final(self).retention_spec().ttl() == old(self).retention_spec().ttl(),
            final(self).mood_spec() == old(self).mood_spec(),
            final(self).personality_spec() == old(self).personality_spec(),
            final(self).base_spec() == old(self).base_spec(),
    {
        self.retention.mark_or_tick(id)
    }

    /// Restores `id` in the retention buffer.
    pub fn restore(&mut self, id: usize)
        requires
            old(self).wf(),
        ensures
            final(self).wf(),
            final(self).retention_spec().pending() == old(self).retention_spec().pending().remove(id),
            final(self).retention_spec().ttl() == old(self).retention_spec().ttl(),
            final(self).mood_spec() == old(self).mood_spec(),
            final(self).personality_spec() == old(self).personality_spec(),
            final(self).base_spec() == old(self).base_spec(),
    {
        self.retention.restore(id)
    }

    /// Sets the retention entry of `id` to `ttl`.
    pub fn set_pending(&mut self, id: usize, ttl: u8)
        requires
            old(self).wf(),
        ensures
            final(self).wf(),
            final(self).retention_spec().pending() == old(self).retention_spec().pending().insert(id, ttl),
            final(self).retention_spec().ttl() == old(self).retention_spec().ttl(),
            final(self).mood_spec() == old(self).mood_spec(),
            final(self).personality_spec() == old(self).personality_spec(),
            final(self).base_spec() == old(self).base_spec(),
    {
        self.retention.set_pending(id, ttl)
    }

    /// The base threshold of the quantizer.
    pub fn threshold(&self) -> (r: i64)
        ensures
            r == self.base_spec(),
    {
        self.quantizer.threshold()
    }

    /// Number of lineages pending removal.
    pub fn pending_removal_count(&self) -> (r: usize)
        ensures
            r == self.retention_spec().pending().len(),
    {
        self.retention.pending_count()
    }
}

} // verus!
