//! The strata arena: for each lineage a fixed-depth ring of engrams, stored
//! in one flat block indexed as `lineage * depth + slot`.

use vstd::prelude::*;

use crate::psyche::LineageId;

verus! {

/// Sentinel: no payload, no source, no older engram.
pub const NONE_INDEX: u32 = 0xFFFF_FFFF;

/// One entry of a lineage's history.
#[derive(Debug, Clone, Copy, PartialEq, Eq, Structural)]
pub struct Engram {
    /// Nanoseconds since the epoch.
    pub timestamp: u64,
    /// Stimulation at recording time, in millionths.
    pub stimulation: i64,
    /// Index into outside payload storage, or `NONE_INDEX`.
    pub payload_id: u32,
    /// Interned source identifier, or `NONE_INDEX`.
    pub source_id: u32,
    /// Global index of the previous engram, or `NONE_INDEX`.
    pub prev_index: u32,
}

/// An engram with no payload, source or predecessor.
pub open spec fn blank(timestamp: u64, stimulation: i64) -> Engram {
    Engram {
        timestamp,
        stimulation,
        payload_id: NONE_INDEX,
        source_id: NONE_INDEX,
        prev_index: NONE_INDEX,
    }
}

impl Default for Engram {
    fn default() -> (r: Engram)
        ensures
            r == blank(0, 0),
    {
        Engram::new(0, 0)
    }
}

impl Engram {
    /// An engram at `timestamp` with the given stimulation.
    pub fn new(timestamp: u64, stimulation: i64) -> (r: Engram)
        ensures
            r == blank(timestamp, stimulation),
    {
        Engram {
            timestamp,
            stimulation,
            payload_id: NONE_INDEX,
            source_id: NONE_INDEX,
            prev_index: NONE_INDEX,
        }
    }

    /// An engram with a payload.
    pub fn with_payload(timestamp: u64, stimulation: i64, payload_id: u32) -> (r: Engram)
        ensures
            r == (Engram { payload_id, ..blank(timestamp, stimulation) }),
    {
        Engram {
            timestamp,
            stimulation,
            payload_id,
            source_id: NONE_INDEX,
            prev_index: NONE_INDEX,
        }
    }

    /// Whether a payload is attached.
    pub fn has_payload(&self) -> (r: bool)
        ensures
            r == (self.payload_id != NONE_INDEX),
    {
        self.payload_id != NONE_INDEX
    }

    /// Whether this is the oldest engram of its chain.
    pub fn is_oldest(&self) -> (r: bool)
        ensures
            r == (self.prev_index == NONE_INDEX),
    {
        self.prev_index == NONE_INDEX
    }
}

/// The history from `cur`: at most `n` engrams, newest first, following the
/// `prev_index` links and stopping at the sentinel or outside the block.
pub open spec fn history_from(data: Seq<Engram>, cur: u32, n: nat) -> Seq<Engram>
    decreases n,
{
    if n == 0 || cur == NONE_INDEX || cur as int >= data.len() {
        Seq::empty()
    } else {
        seq![data[cur as int]] + history_from(data, data[cur as int].prev_index, (n - 1) as nat)
    }
}

proof fn lemma_history_len(data: Seq<Engram>, cur: u32, n: nat)
    ensures
        history_from(data, cur, n).len() <= n,
    decreases n,
{
    if n > 0 && cur != NONE_INDEX && (cur as int) < data.len() {
        lemma_history_len(data, data[cur as int].prev_index, (n - 1) as nat);
    }
}

/// Per-lineage engram rings in one flat block.
pub struct StrataArena {
    data: Vec<Engram>,
    depth: usize,
    capacity: usize,
}

/// The global index that `record` writes for `lineage` after `head`.
pub open spec fn next_slot(lineage: int, head: u32, depth: int) -> int {
    let base = lineage * depth;
    if head == NONE_INDEX {
        base
    } else {
        base + (head as int - base + 1) % depth
    }
}

impl StrataArena {
    pub closed spec fn engrams(&self) -> Seq<Engram> {
        self.data@
    }

    pub closed spec fn depth_spec(&self) -> nat {
        self.depth as nat
    }

    pub closed spec fn capacity_spec(&self) -> nat {
        self.capacity as nat
    }

    /// The block holds `capacity * depth` engrams, addressable by `u32`.
    pub closed spec fn wf(&self) -> bool {
        &&& self.data@.len() == self.capacity * self.depth
        &&& self.data@.len() < NONE_INDEX
    }

    /// A block of `max_lineages * depth` blank engrams.
    pub fn with_capacity(max_lineages: usize, depth: usize) -> (r: StrataArena)
        requires
            max_lineages * depth < NONE_INDEX,
        ensures
            r.wf(),
            r.depth_spec() == depth,
            r.capacity_spec() == max_lineages,
            r.engrams() == Seq::new((max_lineages * depth) as nat, |i: int| blank(0, 0)),
    {
        let total = max_lineages * depth;
        let mut data: Vec<Engram> = Vec::with_capacity(total);
        let mut i: usize = 0;
        while i < total
            invariant
                i <= total,
                data@ == Seq::new(i as nat, |k: int| blank(0, 0)),
            decreases total - i,
        {
            data.push(Engram::new(0, 0));
            i = i + 1;
            assert(data@ =~= Seq::new(i as nat, |k: int| blank(0, 0)));
        }
        StrataArena { data, depth, capacity: max_lineages }
    }

    /// History depth per lineage.
    pub fn depth(&self) -> (r: usize)
        ensures
            r == self.depth_spec(),
    {
        self.depth
    }

    /// Writes `engram` in the next ring slot of `lineage`, linked to
    /// `current_head`, and returns its global index: the new head. The first
    /// slot is used when `current_head` is the sentinel.
    pub fn record(&mut self, lineage: LineageId, current_head: u32, engram: Engram) -> (r: u32)
        requires
            old(self).wf(),
            old(self).depth_spec() > 0,
            (lineage.0 as int) < old(self).capacity_spec(),
            current_head == NONE_INDEX || (lineage.0 * old(self).depth_spec() <= current_head
                < (lineage.0 + 1) * old(self).depth_spec()),
        ensures
            final(self).wf(),
            final(self).depth_spec() == old(self).depth_spec(),
            final(self).capacity_spec() == old(self).capacity_spec(),
            r == next_slot(lineage.0 as int, current_head, old(self).depth_spec() as int),
            (r as int) < final(self).engrams().len(),
            (lineage.0 * old(self).depth_spec()) as int <= r,
            r < (lineage.0 + 1) * old(self).depth_spec(),
            final(self).engrams() == old(self).engrams().update(
                r as int,
                Engram { prev_index: current_head, ..engram },
            ),
    {
        let ghost d = self.depth as int;
        let ghost l = lineage.0 as int;
        proof {
            assert((l + 1) * d <= self.capacity * d) by (nonlinear_arith)
                requires
                    l < self.capacity,
                    d > 0,
            ;
            assert((l + 1) * d == l * d + d) by (nonlinear_arith);
        }
        let base = lineage.0 as usize * self.depth;
        let slot = if current_head == NONE_INDEX {
            0
        } else {
            (current_head as usize - base + 1) % self.depth
        };
        let global = base + slot;
        self.data.set(global, Engram { prev_index: current_head, ..engram });
        global as u32
    }

    /// The engram at global `index`, if it is inside the block.
    pub fn get(&self, index: u32) -> (r: Option<&Engram>)
        ensures
            r == (if (index as int) < self.engrams().len() {
                Some(&self.engrams()[index as int])
            } else {
                None
            }),
    {
        if (index as usize) < self.data.len() {
            Some(&self.data[index as usize])
        } else {
            None
        }
    }

    /// The history ending at `head_index`: at most `depth` engrams, newest first.
    pub fn history(&self, head_index: u32) -> (r: Vec<Engram>)
        ensures
            r@ == history_from(self.engrams(), head_index, self.depth_spec()),
            r@.len() <= self.depth_spec(),
    {
        let mut out: Vec<Engram> = Vec::new();
        let mut cur = head_index;
        let mut remaining = self.depth;
        proof {
            lemma_history_len(self.data@, head_index, self.depth as nat);
        }
        while remaining > 0 && cur != NONE_INDEX && (cur as usize) < self.data.len()
            invariant
                out@ + history_from(self.data@, cur, remaining as nat) == history_from(
                    self.data@,
                    head_index,
                    self.depth as nat,
                ),
            decreases remaining,
        {
            let e = self.data[cur as usize];
            proof {
                assert(history_from(self.data@, cur, remaining as nat) == seq![e] + history_from(
                    self.data@,
                    e.prev_index,
                    (remaining - 1) as nat,
                ));
                assert(out@.push(e) + history_from(self.data@, e.prev_index, (remaining - 1) as nat)
                    =~= out@ + history_from(self.data@, cur, remaining as nat));
            }
            out.push(e);
            cur = e.prev_index;
            remaining = remaining - 1;
        }
        proof {
            assert(history_from(self.data@, cur, remaining as nat) =~= Seq::empty());
            assert(out@ =~= out@ + Seq::<Engram>::empty());
        }
        out
    }

    /// The whole block, for persistence.
    pub fn as_slice(&self) -> (r: &[Engram])
        ensures
            r@ == self.engrams(),
    {
        self.data.as_slice()
    }
}


/// The head after the `k`-th record of lineage `l` into a fresh ring of
/// depth `d`, for `k <= d + 1`: the sentinel before any record, then slots
/// 0 to `d - 1`, then slot 0 again.
pub open spec fn ring_head(l: int, d: int, k: int) -> u32 {
    if k <= 0 {
        NONE_INDEX
    } else if k <= d {
        (l * d + k - 1) as u32
    } else {
        (l * d) as u32
    }
}

/// The block after recording `es[0]`, ..., `es[k - 1]` for lineage `l`,
/// starting with no head.
pub open spec fn ring_after(data: Seq<Engram>, l: int, d: int, es: Seq<Engram>, k: nat) -> Seq<Engram>
    decreases k,
{
    if k == 0 {
        data
    } else {
        ring_after(data, l, d, es, (k - 1) as nat).update(
            ring_head(l, d, k as int) as int,
            Engram { prev_index: ring_head(l, d, k - 1), ..es[k - 1] },
        )
    }
}

/// Each `record` call moves the model one step: called with the head of
/// `k` records, it writes the slot of record `k + 1` and returns its head.
pub proof fn lemma_record_step(l: int, d: int, k: int)
    requires
        d >= 1,
        0 <= l,
        0 <= k <= d,
        (l + 1) * d < NONE_INDEX,
    ensures
        next_slot(l, ring_head(l, d, k), d) == ring_head(l, d, k + 1) as int,
{
    assert(l * d + d == (l + 1) * d) by (nonlinear_arith);
    assert(l * d >= 0) by (nonlinear_arith)
        requires
            l >= 0,
            d >= 1,
    ;
    if 1 <= k && k < d {
        assert(ring_head(l, d, k) as int == l * d + k - 1);
        vstd::arithmetic::div_mod::lemma_small_mod(k as nat, d as nat);
        assert((ring_head(l, d, k) as int - l * d + 1) % d == k);
    } else if k == d {
        assert(ring_head(l, d, k) as int == l * d + k - 1);
        assert((ring_head(l, d, k) as int - l * d + 1) % d == 0) by {
            vstd::arithmetic::div_mod::lemma_mod_self_0(d);
        }
    }
}

proof fn lemma_ring_len(data: Seq<Engram>, l: int, d: int, es: Seq<Engram>, k: nat)
    requires
        d >= 1,
        0 <= l,
        k <= d + 1,
        (l + 1) * d <= data.len(),
        (l + 1) * d < NONE_INDEX,
    ensures
        ring_after(data, l, d, es, k).len() == data.len(),
    decreases k,
{
    if k > 0 {
        lemma_ring_len(data, l, d, es, (k - 1) as nat);
        lemma_head_in_block(l, d, k as int);
    }
}

proof fn lemma_head_in_block(l: int, d: int, j: int)
    requires
        d >= 1,
        0 <= l,
        1 <= j <= d + 1,
        (l + 1) * d < NONE_INDEX,
    ensures
        l * d <= ring_head(l, d, j) < (l + 1) * d,
        ring_head(l, d, j) != NONE_INDEX,
        2 <= j <= d + 1 ==> ring_head(l, d, j) == if j <= d {
            l * d + j - 1
        } else {
            l * d
        },
{
    assert(l * d + d == (l + 1) * d) by (nonlinear_arith);
    assert(l * d >= 0) by (nonlinear_arith)
        requires
            l >= 0,
            d >= 1,
    ;
}

proof fn lemma_ring_slot(data: Seq<Engram>, l: int, d: int, es: Seq<Engram>, j: int, k: nat)
    requires
        d >= 1,
        0 <= l,
        2 <= j <= k <= d + 1,
        (l + 1) * d <= data.len(),
        (l + 1) * d < NONE_INDEX,
    ensures
        ring_after(data, l, d, es, k)[ring_head(l, d, j) as int] == (Engram {
            prev_index: ring_head(l, d, j - 1),
            ..es[j - 1]
        }),
    decreases k,
{
    lemma_ring_len(data, l, d, es, k);
    lemma_ring_len(data, l, d, es, (k - 1) as nat);
    lemma_head_in_block(l, d, j);
    lemma_head_in_block(l, d, k as int);
    if k as int != j {
        lemma_ring_slot(data, l, d, es, j, (k - 1) as nat);
        lemma_ring_len(data, l, d, es, (k - 1) as nat);
        assert(ring_head(l, d, k as int) != ring_head(l, d, j));
    }
}

proof fn lemma_ring_history(data: Seq<Engram>, l: int, d: int, es: Seq<Engram>, j: int, n: nat)
    requires
        d >= 1,
        0 <= l,
        2 <= j <= d + 1,
        1 <= n <= j - 1,
        (l + 1) * d <= data.len(),
        (l + 1) * d < NONE_INDEX,
    ensures
        history_from(ring_after(data, l, d, es, (d + 1) as nat), ring_head(l, d, j), n).len() == n,
    decreases n,
{
    let r = ring_after(data, l, d, es, (d + 1) as nat);
    lemma_ring_len(data, l, d, es, (d + 1) as nat);
    lemma_head_in_block(l, d, j);
    lemma_ring_slot(data, l, d, es, j, (d + 1) as nat);
    let h = ring_head(l, d, j);
    assert(r[h as int].prev_index == ring_head(l, d, j - 1));
    assert(history_from(r, h, n) == seq![r[h as int]] + history_from(r, ring_head(l, d, j - 1), (n - 1) as nat));
    if n > 1 {
        lemma_ring_history(data, l, d, es, j - 1, (n - 1) as nat);
    } else {
        assert(history_from(r, ring_head(l, d, j - 1), 0) == Seq::<Engram>::empty());
    }
}

/// After `d + 1` records of one lineage into a ring of depth `d`, the first
/// record's slot holds the last record, and the history from the last head
/// yields exactly `d` entries.
pub proof fn lemma_ring_wrap(data: Seq<Engram>, l: int, d: int, es: Seq<Engram>)
    requires
        d >= 1,
        0 <= l,
        (l + 1) * d <= data.len(),
        (l + 1) * d < NONE_INDEX,
    ensures
        ring_head(l, d, d + 1) == ring_head(l, d, 1),
        ring_after(data, l, d, es, (d + 1) as nat)[ring_head(l, d, 1) as int] == (Engram {
            prev_index: ring_head(l, d, d),
            ..es[d]
        }),
        history_from(ring_after(data, l, d, es, (d + 1) as nat), ring_head(l, d, d + 1), d as nat).len() == d,
{
    lemma_ring_slot(data, l, d, es, d + 1, (d + 1) as nat);
    lemma_ring_history(data, l, d, es, d + 1, d as nat);
}

} // verus!
