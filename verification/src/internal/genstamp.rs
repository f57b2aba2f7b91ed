//! Scratch tables of the samplers that are emptied by counting on.
//!
//! Entries carry the number of the pass that made them. A new pass raises the
//! number, which makes all older entries void without touching them; the tables are
//! cleared only when the number wraps.
use vstd::prelude::*;
use rustc_hash::FxHashMap;
use crate::collections::{fx_get, fx_insert};
use crate::graph::csr::NodeId;

verus! {

/// Numbers of indices that fit below a generation tag.
pub const TAG_UNIT: u64 = 0x1_0000_0000;

/// What probing for a node with a next index answers and leaves: the index that the
/// node has, or the next one, which it then gets.
pub open spec fn probed(entries: Map<u32, u32>, global: u32, next_local: u32) -> (
    Map<u32, u32>,
    (u32, bool),
) {
    if entries.contains_key(global) {
        (entries, (entries[global], false))
    } else {
        (entries.insert(global, next_local), (next_local, true))
    }
}

/// A probe is remembered: probing again in the same pass gives the same index,
/// whatever the next one is by then.
pub proof fn law_probe_is_remembered(entries: Map<u32, u32>, global: u32, a: u32, b: u32)
    ensures
        ({
            let (first, (index, _)) = probed(entries, global, a);
            probed(first, global, b) == (first, (index, false))
        }),
{
}

/// Dense table from global node ids to local indices for one sampling pass. The
/// high half of a slot is the pass that wrote it, the low half the index.
pub struct GenSlots {
    pub slots: Vec<u64>,
    pub generation: u32,
}

/// A slot of pass `generation` with an index.
pub open spec fn slot_of(generation: u32, idx: u32) -> u64 {
    (generation * TAG_UNIT + idx) as u64
}

impl GenSlots {
    /// No slot is of a later pass than the current one.
    pub open spec fn wf(&self) -> bool {
        forall|i: int|
            0 <= i < self.slots@.len() ==> (#[trigger] self.slots@[i]) / TAG_UNIT
                <= self.generation
    }

    /// What has been recorded in the current pass.
    pub open spec fn entries(&self) -> Map<u32, u32> {
        Map::new(
            |g: u32| g < self.slots@.len() && self.slots@[g as int] / TAG_UNIT == self.generation,
            |g: u32| (self.slots@[g as int] % TAG_UNIT) as u32,
        )
    }

    /// A table for ids below `len`, with no pass begun yet.
    pub fn new(len: usize) -> (s: GenSlots)
        ensures
            s.wf(),
            s.slots@ == Seq::new(len as nat, |i: int| 0u64),
            s.generation == 0,
    {
        let s = GenSlots { slots: vec![0u64; len], generation: 0 };
        assert(s.slots@ =~= Seq::new(len as nat, |i: int| 0u64));
        s
    }

    /// A generation tag and a local index in one slot.
    pub fn pack_slot(generation: u32, idx: u32) -> (s: u64)
        ensures
            s == slot_of(generation, idx),
            s == generation * TAG_UNIT + idx,
    {
        generation as u64 * TAG_UNIT + idx as u64
    }

    /// Starts a pass, which forgets what all earlier passes recorded.
    pub fn begin(&mut self)
        requires
            old(self).wf(),
        ensures
            final(self).wf(),
            final(self).slots@.len() == old(self).slots@.len(),
            final(self).entries() == Map::<u32, u32>::empty(),
            final(self).generation == (if old(self).generation == u32::MAX {
                1
            } else {
                (old(self).generation + 1) as u32
            }),
    {
        self.generation = self.generation.wrapping_add(1);
        if self.generation == 0 {
            let len: usize = self.slots.len();
            self.slots = vec![0u64; len];
            self.generation = 1;
        }
        assert(self.entries() =~= Map::empty());
    }

    /// Looks for `global` and, where it is not recorded, records it with the index
    /// `next_local`. Gives its index and whether it was recorded now.
    pub fn probe_or_insert(&mut self, global: NodeId, next_local: u32) -> (r: (u32, bool))
        requires
            old(self).wf(),
            (global as nat) < old(self).slots@.len(),
        ensures
            final(self).wf(),
            final(self).generation == old(self).generation,
            final(self).slots@.len() == old(self).slots@.len(),
            (final(self).entries(), r) == probed(old(self).entries(), global, next_local),
    {
        let i: usize = global as usize;
        let slot: u64 = self.slots[i];
        let ghost before = self.entries();
        if (slot / TAG_UNIT) as u32 == self.generation {
            ((slot % TAG_UNIT) as u32, false)
        } else {
            let packed = Self::pack_slot(self.generation, next_local);
            self.slots[i] = packed;
            assert(packed / TAG_UNIT == self.generation && packed % TAG_UNIT == next_local);
            assert(self.entries() =~= before.insert(global, next_local));
            (next_local, true)
        }
    }
}

/// Node dedup with a dense table where ids are few, or a map where a table would be
/// mostly empty. Both answer alike.
pub enum GenDedup {
    Dense(GenSlots),
    Sparse(FxHashMap<u32, u32>),
}

impl GenDedup {
    /// The table or map is consistent.
    pub open spec fn wf(&self) -> bool {
        match self {
            GenDedup::Dense(slots) => slots.wf(),
            GenDedup::Sparse(_) => true,
        }
    }

    /// What has been recorded in the current pass.
    pub open spec fn entries(&self) -> Map<u32, u32> {
        match self {
            GenDedup::Dense(slots) => slots.entries(),
            GenDedup::Sparse(map) => map@,
        }
    }

    /// The ids that can be recorded.
    pub open spec fn covers(&self, global: u32) -> bool {
        match self {
            GenDedup::Dense(slots) => global < slots.slots@.len(),
            GenDedup::Sparse(_) => true,
        }
    }

    /// Starts a pass, which forgets what all earlier passes recorded.
    pub fn begin(&mut self)
        requires
            old(self).wf(),
        ensures
            final(self).wf(),
            final(self).entries() == Map::<u32, u32>::empty(),
            forall|g: u32| final(self).covers(g) == old(self).covers(g),
    {
        match self {
            GenDedup::Dense(slots) => {
                slots.begin();
            },
            GenDedup::Sparse(map) => {
                map.clear();
            },
        }
    }

    /// Looks for `global` and, where it is not recorded, records it with the index
    /// `next_local`. Gives its index and whether it was recorded now.
    pub fn probe_or_insert(&mut self, global: NodeId, next_local: u32) -> (r: (u32, bool))
        requires
            old(self).wf(),
            old(self).covers(global),
        ensures
            final(self).wf(),
            forall|g: u32| final(self).covers(g) == old(self).covers(g),
            (final(self).entries(), r) == probed(old(self).entries(), global, next_local),
    {
        match self {
            GenDedup::Dense(slots) => slots.probe_or_insert(global, next_local),
            GenDedup::Sparse(map) => match fx_get(map, global) {
                Some(index) => (index, false),
                None => {
                    fx_insert(map, global, next_local);
                    (next_local, true)
                },
            },
        }
    }
}

/// Membership block for sampling without replacement among up to 256 indices.
pub struct FloydStamps {
    pub stamp: [u32; 256],
    pub generation: u32,
}

impl FloydStamps {
    /// No stamp is of a later sample than the current one.
    pub open spec fn wf(&self) -> bool {
        forall|i: int| 0 <= i < 256 ==> (#[trigger] self.stamp@[i]) <= self.generation
    }

    /// The indices taken in the current sample.
    pub open spec fn taken(&self) -> Set<int> {
        Set::new(|i: int| 0 <= i < 256 && self.stamp@[i] == self.generation)
    }

    /// A block with no sample begun yet.
    pub fn new() -> (s: FloydStamps)
        ensures
            s.wf(),
            s.generation == 0,
            forall|i: int| 0 <= i < 256 ==> #[trigger] s.stamp@[i] == 0,
    {
        FloydStamps { stamp: [0u32; 256], generation: 0 }
    }

    /// Starts a sample, in which nothing is taken.
    pub fn begin(&mut self)
        requires
            old(self).wf(),
        ensures
            final(self).wf(),
            final(self).taken() == Set::<int>::empty(),
            final(self).generation == (if old(self).generation == u32::MAX {
                1
            } else {
                (old(self).generation + 1) as u32
            }),
    {
        self.generation = self.generation.wrapping_add(1);
        if self.generation == 0 {
            self.stamp = [0u32; 256];
            self.generation = 1;
        }
        assert(self.taken() =~= Set::empty());
    }

    /// Takes the index `i`. Says whether it was not yet taken in this sample.
    pub fn test_and_set(&mut self, i: usize) -> (new: bool)
        requires
            old(self).wf(),
            i < 256,
        ensures
            final(self).wf(),
            final(self).generation == old(self).generation,
            new == !old(self).taken().contains(i as int),
            final(self).taken() == old(self).taken().insert(i as int),
    {
        let ghost before = self.taken();
        let new = self.stamp[i] != self.generation;
        if new {
            self.stamp[i] = self.generation;
        }
        assert(self.taken() =~= before.insert(i as int));
        new
    }
}

impl Default for FloydStamps {
    fn default() -> (s: FloydStamps)
        ensures
            s.wf(),
            s.generation == 0,
            forall|i: int| 0 <= i < 256 ==> #[trigger] s.stamp@[i] == 0,
    {
        FloydStamps::new()
    }
}

/// Step of the generator's state.
pub const WY_STEP: u64 = 0xa076_1d64_78bd_642f;

/// Mask of the generator's second factor.
pub const WY_MASK: u64 = 0xe703_7ed1_a0b4_28db;

/// Halves of a product.
pub const WY_HALF: u128 = 0x1_0000_0000_0000_0000;

/// The number that a state gives: the two halves of the product of the state with
/// its masked self, combined bit by bit.
pub open spec fn mixed(state: u64) -> u64 {
    let t = state * (state ^ WY_MASK);
    ((t / WY_HALF as int) as u64) ^ ((t % WY_HALF as int) as u64)
}

/// The sampling generator.
#[derive(Clone)]
pub struct WyRand {
    state: u64,
}

impl View for WyRand {
    type V = u64;

    closed spec fn view(&self) -> u64 {
        self.state
    }
}

impl WyRand {
    /// A generator that starts from a seed.
    pub fn new(seed: u64) -> (r: WyRand)
        ensures
            r@ == seed,
    {
        WyRand { state: seed }
    }

    /// The next number.
    pub fn next_u64(&mut self) -> (n: u64)
        ensures
            final(self)@ == old(self)@.wrapping_add(WY_STEP),
            final(self)@ == (old(self)@ + 0xa076_1d64_78bd_642f) % 0x1_0000_0000_0000_0000,
            n == mixed(final(self)@),
    {
        self.state = self.state.wrapping_add(WY_STEP);
        let a: u64 = self.state;
        let b: u64 = a ^ WY_MASK;
        assert(0 <= a * b <= u64::MAX * u64::MAX) by (nonlinear_arith)
            requires
                0 <= a <= u64::MAX,
                0 <= b <= u64::MAX,
        ;
        let t: u128 = a as u128 * b as u128;
        let high: u64 = (t / WY_HALF) as u64;
        let low: u64 = (t % WY_HALF) as u64;
        high ^ low
    }

    /// The low half of the next number.
    pub fn next_u32(&mut self) -> (n: u32)
        ensures
            final(self)@ == old(self)@.wrapping_add(WY_STEP),
            final(self)@ == (old(self)@ + 0xa076_1d64_78bd_642f) % 0x1_0000_0000_0000_0000,
            n == mixed(final(self)@) % 0x1_0000_0000,
    {
        let n = self.next_u64();
        (n % 0x1_0000_0000) as u32
    }
}

/// The `n`th state of a generator.
pub open spec fn state_after(seed: u64, n: nat) -> u64
    decreases n,
{
    if n == 0 {
        seed
    } else {
        state_after(seed, (n - 1) as nat).wrapping_add(WY_STEP)
    }
}

/// The state after `n` numbers is the seed plus `n` steps: two generators of one
/// seed give the same numbers.
pub proof fn law_states_follow_the_seed(seed: u64, n: nat)
    ensures
        state_after(seed, n) == (seed + n * WY_STEP) % 0x1_0000_0000_0000_0000,
    decreases n,
{
    if n > 0 {
        law_states_follow_the_seed(seed, (n - 1) as nat);
        let m = 0x1_0000_0000_0000_0000int;
        let s = seed + (n - 1) * WY_STEP;
        assert(seed + n * WY_STEP == s + WY_STEP) by (nonlinear_arith)
            requires
                s == seed + (n - 1) * WY_STEP,
        ;
        vstd::arithmetic::div_mod::lemma_add_mod_noop(s, WY_STEP as int, m);
        let prev = state_after(seed, (n - 1) as nat);
        assert(prev.wrapping_add(WY_STEP) == (prev + WY_STEP) % m);
    }
}

/// A node that is probed for the first time gets the offered number and is new;
/// one that was probed before keeps its number. No other node is touched.
pub proof fn law_first_probe_numbers_the_node(
    entries: Map<u32, u32>,
    global: u32,
    next_local: u32,
    other: u32,
)
    ensures
        ({
            let (after, (index, new)) = probed(entries, global, next_local);
            &&& new <==> !entries.contains_key(global)
            &&& new ==> index == next_local
            &&& !new ==> index == entries[global] && after == entries
            &&& after.contains_key(global) && after[global] == index
            &&& other != global ==> (after.contains_key(other) <==> entries.contains_key(other))
            &&& other != global && entries.contains_key(other) ==> after[other] == entries[other]
        }),
{
}

/// A slot holds its generation in the upper half and its number in the lower one,
/// so both can be read back.
pub proof fn law_slots_hold_generation_and_number(generation: u32, idx: u32)
    ensures
        slot_of(generation, idx) as int / 0x1_0000_0000 == generation,
        slot_of(generation, idx) as int % 0x1_0000_0000 == idx,
{
}

/// A number of the generator mixes the two halves of the product of its state and
/// the masked state.
pub proof fn law_generator_mixes_both_halves(state: u64, high: u64, low: u64)
    requires
        state * (state ^ 0xe703_7ed1_a0b4_28db) == high * 0x1_0000_0000_0000_0000 + low,
    ensures
        mixed(state) == high ^ low,
{
    let t = state * (state ^ WY_MASK);
    assert(t / (WY_HALF as int) == high && t % (WY_HALF as int) == low);
}

} // verus!
