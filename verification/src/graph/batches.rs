//! Seed batches that keep communities together.
use vstd::prelude::*;
use vstd::multiset::Multiset;
use crate::sorting::{lemma_ascending_unique, lemma_same_values, sort_u64s};
use super::builder::{arrivals, lemma_arrivals_bounds};
use super::csr::NodeId;

verus! {

/// Number of partition ids.
pub const PARTITION_IDS: u64 = 0x1_0000_0000;

/// Multiplier of the congruential generator that orders the partitions.
pub const LCG_MULTIPLIER: u64 = 0x517c_c1b7_2722_0a95;

/// The partition of a seed; seeds that `partitions` does not cover are in
/// partition 0.
pub open spec fn partition_of(partitions: Seq<u32>, seed: u32) -> u32 {
    if seed < partitions.len() {
        partitions[seed as int]
    } else {
        0
    }
}

/// The partitions of all seeds.
pub open spec fn seed_partitions(partitions: Seq<u32>, seeds: Seq<u32>) -> Seq<u32> {
    Seq::new(seeds.len(), |i: int| partition_of(partitions, seeds[i]))
}

/// The seeds of partition `p`, in their order.
pub open spec fn partition_run(partitions: Seq<u32>, seeds: Seq<u32>, p: int) -> Seq<u32> {
    arrivals(seed_partitions(partitions, seeds), p).map_values(|i: int| seeds[i])
}

/// The seeds of the partitions below `p`, partition by partition, leaving out
/// partitions without seeds.
pub open spec fn partition_runs(partitions: Seq<u32>, seeds: Seq<u32>, p: nat) -> Seq<Seq<u32>>
    decreases p,
{
    if p == 0 {
        Seq::empty()
    } else {
        let before = partition_runs(partitions, seeds, (p - 1) as nat);
        let run = partition_run(partitions, seeds, p - 1);
        if run.len() == 0 {
            before
        } else {
            before.push(run)
        }
    }
}

/// Next state of the generator.
#[verifier::opaque]
pub open spec fn lcg(state: u64) -> u64 {
    state.wrapping_mul(LCG_MULTIPLIER).wrapping_add(1)
}

/// `s` with the entries at `i` and `j` exchanged.
pub open spec fn exchanged<T>(s: Seq<T>, i: int, j: int) -> Seq<T> {
    s.update(i, s[j]).update(j, s[i])
}

/// The place that a state of the generator chooses among the first `i + 1`: its
/// upper 31 bits, reduced.
#[verifier::opaque]
pub open spec fn chosen_place(state: u64, i: nat) -> int {
    (state as int / 0x2_0000_0000) % (i + 1) as int
}

/// Fisher-Yates shuffle of the first `i + 1` entries.
pub open spec fn shuffled<T>(s: Seq<T>, state: u64, i: nat) -> Seq<T>
    decreases i,
{
    if i == 0 {
        s
    } else {
        let next = lcg(state);
        shuffled(
            exchanged(s, i as int, chosen_place(next, i)),
            next,
            (i - 1) as nat,
        )
    }
}

/// The order in which the partitions are visited.
pub open spec fn visited(runs: Seq<Seq<u32>>, shuffle: bool, seed: u64) -> Seq<Seq<u32>> {
    if shuffle && runs.len() > 0 {
        shuffled(runs, lcg(seed), (runs.len() - 1) as nat)
    } else {
        runs
    }
}

/// The runs one after the other.
pub open spec fn concat(runs: Seq<Seq<u32>>) -> Seq<u32>
    decreases runs.len(),
{
    if runs.len() == 0 {
        Seq::empty()
    } else {
        concat(runs.drop_last()) + runs.last()
    }
}

/// The seeds in the order in which batches take them.
pub open spec fn seed_order(
    partitions: Seq<u32>,
    seeds: Seq<u32>,
    shuffle: bool,
    seed: u64,
) -> Seq<u32> {
    concat(visited(partition_runs(partitions, seeds, PARTITION_IDS as nat), shuffle, seed))
}

/// `batches` cuts `s` into pieces of `size`; only the last may be shorter, and
/// none is empty.
pub open spec fn is_cut(s: Seq<u32>, size: int, batches: Seq<Vec<u32>>) -> bool {
    &&& forall|b: int|
        0 <= b < batches.len() ==> 0 < (#[trigger] batches[b])@.len() <= size && b * size
            + batches[b]@.len() <= s.len() && batches[b]@ == s.subrange(
            b * size,
            b * size + batches[b]@.len(),
        )
    &&& forall|b: int| 0 <= b < batches.len() - 1 ==> (#[trigger] batches[b])@.len() == size
    &&& batches.len() == 0 ==> s.len() == 0
    &&& batches.len() > 0 ==> (batches.len() - 1) * size + batches[batches.len() - 1]@.len()
        == s.len()
}

/// Sort key of seed `i`: its partition, then its place.
spec fn key_of(parts: Seq<u32>, i: int) -> int {
    parts[i] * 0x1_0000_0000 + i
}

/// The seeds that a stretch of the sorted keys names.
spec fn named(keys: Seq<u64>, seeds: Seq<u32>, from: int, to: int) -> Seq<u32> {
    keys.subrange(from, to).map_values(|k: u64| seeds[k as int % 0x1_0000_0000])
}

/// The keys of all seeds in ascending order.
spec fn keys_sorted(parts: Seq<u32>, keys: Seq<u64>) -> bool {
    &&& keys.len() == parts.len()
    &&& forall|a: int, b: int| 0 <= a < b < keys.len() ==> keys[a] < keys[b]
    &&& forall|a: int|
        0 <= a < keys.len() ==> 0 <= (#[trigger] keys[a]) as int % 0x1_0000_0000 < parts.len()
            && keys[a] == key_of(parts, keys[a] as int % 0x1_0000_0000)
    &&& forall|i: int| 0 <= i < parts.len() ==> has_key(keys, #[trigger] key_of(parts, i))
}

/// Whether the key `k` is there.
spec fn has_key(keys: Seq<u64>, k: int) -> bool {
    exists|a: int| 0 <= a < keys.len() && #[trigger] keys[a] == k
}

/// Partition of a key.
spec fn part(k: u64) -> int {
    k as int / 0x1_0000_0000
}

/// A stretch of sorted keys that holds all keys of one partition names the run
/// of that partition.
proof fn lemma_stretch_is_run(
    partitions: Seq<u32>,
    seeds: Seq<u32>,
    keys: Seq<u64>,
    from: int,
    to: int,
    p: int,
)
    requires
        seeds.len() <= 0x1_0000_0000,
        keys_sorted(seed_partitions(partitions, seeds), keys),
        0 <= from <= to <= keys.len(),
        forall|a: int| from <= a < to ==> part(#[trigger] keys[a]) == p,
        forall|a: int| 0 <= a < keys.len() && !(from <= a < to) ==> part(#[trigger] keys[a]) != p,
    ensures
        named(keys, seeds, from, to) == partition_run(partitions, seeds, p),
{
    let parts = seed_partitions(partitions, seeds);
    let places = keys.subrange(from, to).map_values(|k: u64| k as int % 0x1_0000_0000);
    let all = arrivals(parts, p);
    lemma_arrivals_bounds(parts, p);
    assert forall|i: int, j: int| 0 <= i < j < places.len() implies places[i] < places[j] by {
        assert(part(keys[from + i]) == p && part(keys[from + j]) == p);
        assert(keys[from + i] < keys[from + j]);
    }
    assert forall|x: int| places.contains(x) <==> all.contains(x) by {
        if places.contains(x) {
            let a = choose|a: int| 0 <= a < places.len() && places[a] == x;
            assert(part(keys[from + a]) == p);
            assert(keys[from + a] == key_of(parts, x));
            assert(parts[x] == p);
            lemma_arrival_has(parts, p, x);
        }
        if all.contains(x) {
            let j = choose|j: int| 0 <= j < all.len() && all[j] == x;
            assert(parts[all[j]] == p);
            assert(has_key(keys, key_of(parts, x)));
            let a = choose|a: int| 0 <= a < keys.len() && #[trigger] keys[a] == key_of(parts, x);
            assert(part(keys[a]) == p);
            assert(from <= a < to);
            assert(places[a - from] == x);
        }
    }
    lemma_ascending_unique(places, all);
    let run = named(keys, seeds, from, to);
    let want = partition_run(partitions, seeds, p);
    assert(run.len() == places.len() == want.len());
    assert forall|j: int| 0 <= j < run.len() implies run[j] == want[j] by {
        assert(places[j] == all[j]);
    }
    assert(run =~= want);
}

/// Every place of a value is among its arrivals.
proof fn lemma_arrival_has(parts: Seq<u32>, p: int, x: int)
    requires
        0 <= x < parts.len(),
        parts[x] == p,
    ensures
        arrivals(parts, p).contains(x),
    decreases parts.len(),
{
    let before = arrivals(parts.drop_last(), p);
    let all = arrivals(parts, p);
    if x == parts.len() - 1 {
        assert(all[all.len() - 1] == x);
    } else {
        lemma_arrival_has(parts.drop_last(), p, x);
        let j = choose|j: int| 0 <= j < before.len() && before[j] == x;
        assert(all[j] == x);
    }
}

/// Partitions without keys add no run.
proof fn lemma_gap_adds_nothing(
    partitions: Seq<u32>,
    seeds: Seq<u32>,
    keys: Seq<u64>,
    p: nat,
    q: nat,
)
    requires
        seeds.len() <= 0x1_0000_0000,
        keys_sorted(seed_partitions(partitions, seeds), keys),
        p <= q,
        forall|a: int| 0 <= a < keys.len() ==> !(p <= part(#[trigger] keys[a]) < q),
    ensures
        partition_runs(partitions, seeds, p) == partition_runs(partitions, seeds, q),
    decreases q - p,
{
    if p < q {
        lemma_gap_adds_nothing(partitions, seeds, keys, p, (q - 1) as nat);
        lemma_stretch_is_run(partitions, seeds, keys, 0, 0, q - 1);
        assert(named(keys, seeds, 0, 0).len() == 0);
    }
}

/// Builds the sort keys and sorts them.
fn sorted_keys(partitions: &[u32], seeds: &[NodeId]) -> (keys: Vec<u64>)
    requires
        seeds@.len() <= 0x1_0000_0000,
    ensures
        keys_sorted(seed_partitions(partitions@, seeds@), keys@),
{
    let ghost parts = seed_partitions(partitions@, seeds@);
    let mut keys: Vec<u64> = Vec::with_capacity(seeds.len());
    let mut i: usize = 0;
    while i < seeds.len()
        invariant
            i <= seeds@.len() <= 0x1_0000_0000,
            parts == seed_partitions(partitions@, seeds@),
            keys@.len() == i,
            forall|k: int| 0 <= k < i ==> #[trigger] keys@[k] == key_of(parts, k),
        decreases seeds@.len() - i,
    {
        let s = seeds[i] as usize;
        let p: u32 = if s < partitions.len() {
            partitions[s]
        } else {
            0
        };
        keys.push(p as u64 * 0x1_0000_0000 + i as u64);
        i += 1;
    }
    let ghost unsorted = keys@;
    sort_u64s(&mut keys);
    proof {
        assert(unsorted.no_duplicates()) by {
            assert forall|a: int, b: int|
                0 <= a < unsorted.len() && 0 <= b < unsorted.len() && a != b implies unsorted[a]
                != unsorted[b] by {
                assert(unsorted[a] == key_of(parts, a));
                assert(unsorted[b] == key_of(parts, b));
                assert(key_of(parts, a) % 0x1_0000_0000 == a);
                assert(key_of(parts, b) % 0x1_0000_0000 == b);
            }
        }
        lemma_same_values(unsorted, keys@);
        assert forall|a: int, b: int| 0 <= a < b < keys@.len() implies keys@[a] < keys@[b] by {
            assert(keys@[a] <= keys@[b]);
        }
        assert forall|a: int| 0 <= a < keys@.len() implies 0 <= (#[trigger] keys@[a]) as int
            % 0x1_0000_0000 < parts.len() && keys@[a] == key_of(
            parts,
            keys@[a] as int % 0x1_0000_0000,
        ) by {
            assert(keys@.contains(keys@[a]));
            let i = choose|i: int| 0 <= i < unsorted.len() && unsorted[i] == keys@[a];
            assert(unsorted[i] == key_of(parts, i));
            assert(key_of(parts, i) % 0x1_0000_0000 == i);
        }
        assert forall|i: int| 0 <= i < parts.len() implies has_key(
            keys@,
            #[trigger] key_of(parts, i),
        ) by {
            assert(unsorted.contains(unsorted[i]));
            assert(keys@.contains(unsorted[i]));
            let a = choose|a: int| 0 <= a < keys@.len() && keys@[a] == unsorted[i];
            assert(keys@[a] == key_of(parts, i));
        }
    }
    keys
}

/// The runs that a list of stretches names.
spec fn named_runs(keys: Seq<u64>, seeds: Seq<u32>, stretches: Seq<(usize, usize)>) -> Seq<
    Seq<u32>,
> {
    Seq::new(
        stretches.len(),
        |r: int| named(keys, seeds, stretches[r].0 as int, stretches[r].1 as int),
    )
}

/// Stretches lie inside the keys.
spec fn stretches_in(keys: Seq<u64>, stretches: Seq<(usize, usize)>) -> bool {
    forall|r: int|
        0 <= r < stretches.len() ==> (#[trigger] stretches[r]).0 <= stretches[r].1 <= keys.len()
}

/// Cuts the sorted keys where the partition changes.
fn find_runs(keys: &Vec<u64>, Ghost(partitions): Ghost<Seq<u32>>, Ghost(seeds): Ghost<Seq<u32>>) -> (r:
    Vec<(usize, usize)>)
    requires
        seeds.len() <= 0x1_0000_0000,
        keys_sorted(seed_partitions(partitions, seeds), keys@),
    ensures
        stretches_in(keys@, r@),
        named_runs(keys@, seeds, r@) == partition_runs(partitions, seeds, PARTITION_IDS as nat),
{
    let mut runs: Vec<(usize, usize)> = Vec::new();
    let len = keys.len();
    let mut start: usize = 0;
    let ghost mut done: nat = 0;
    assert(named_runs(keys@, seeds, runs@) =~= Seq::empty());
    while start < len
        invariant
            start <= len == keys@.len(),
            seeds.len() <= 0x1_0000_0000,
            keys_sorted(seed_partitions(partitions, seeds), keys@),
            stretches_in(keys@, runs@),
            done <= 0x1_0000_0000,
            named_runs(keys@, seeds, runs@) == partition_runs(partitions, seeds, done),
            forall|a: int| 0 <= a < start ==> part(#[trigger] keys@[a]) < done,
            forall|a: int| start <= a < len ==> done <= part(#[trigger] keys@[a]),
        decreases len - start,
    {
        let p: u64 = keys[start] / 0x1_0000_0000;
        let mut end: usize = start + 1;
        while end < len && keys[end] / 0x1_0000_0000 == p
            invariant
                start < end <= len == keys@.len(),
                keys_sorted(seed_partitions(partitions, seeds), keys@),
                p == part(keys@[start as int]),
                forall|a: int| start <= a < end ==> part(#[trigger] keys@[a]) == p,
            decreases len - end,
        {
            end += 1;
        }
        proof {
            assert forall|a: int| end <= a < len implies part(#[trigger] keys@[a]) > p by {
                assert(part(keys@[end as int]) != p);
                assert(keys@[start as int] < keys@[end as int]);
                if a > end {
                    assert(keys@[end as int] < keys@[a]);
                }
            }
            assert forall|a: int| start <= a < len implies part(#[trigger] keys@[a]) >= p by {
                if a < end {
                    assert(part(keys@[a]) == p);
                }
            }
            lemma_gap_adds_nothing(partitions, seeds, keys@, done, p as nat);
            lemma_stretch_is_run(partitions, seeds, keys@, start as int, end as int, p as int);
            assert(named(keys@, seeds, start as int, end as int).len() > 0);
        }
        let ghost before = runs@;
        runs.push((start, end));
        proof {
            assert(named_runs(keys@, seeds, runs@) =~= named_runs(keys@, seeds, before).push(
                named(keys@, seeds, start as int, end as int),
            ));
            done = (p + 1) as nat;
        }
        start = end;
    }
    proof {
        lemma_gap_adds_nothing(partitions, seeds, keys@, done, PARTITION_IDS as nat);
    }
    runs
}

/// Steps the generator.
fn next_state(state: u64) -> (next: u64)
    ensures
        next == lcg(state),
{
    reveal(lcg);
    state.wrapping_mul(LCG_MULTIPLIER).wrapping_add(1)
}

/// Chooses one of the first `i + 1` places.
fn choose_place(state: u64, i: usize) -> (j: usize)
    requires
        i < usize::MAX,
    ensures
        j == chosen_place(state, i as nat),
        j <= i,
{
    reveal(chosen_place);
    (state / 0x2_0000_0000) as usize % (i + 1)
}

/// Exchanging stretches exchanges the runs that they name.
proof fn lemma_exchange_named(
    keys: Seq<u64>,
    seeds: Seq<u32>,
    stretches: Seq<(usize, usize)>,
    i: int,
    j: int,
)
    requires
        0 <= i < stretches.len(),
        0 <= j < stretches.len(),
    ensures
        named_runs(keys, seeds, exchanged(stretches, i, j)) == exchanged(
            named_runs(keys, seeds, stretches),
            i,
            j,
        ),
        stretches_in(keys, stretches) ==> stretches_in(keys, exchanged(stretches, i, j)),
{
    assert(named_runs(keys, seeds, exchanged(stretches, i, j)) =~= exchanged(
        named_runs(keys, seeds, stretches),
        i,
        j,
    ));
}

/// Shuffles the stretches.
fn shuffle_runs(
    runs: &mut Vec<(usize, usize)>,
    seed: u64,
    Ghost(keys): Ghost<Seq<u64>>,
    Ghost(seeds): Ghost<Seq<u32>>,
)
    requires
        stretches_in(keys, old(runs)@),
    ensures
        stretches_in(keys, final(runs)@),
        named_runs(keys, seeds, final(runs)@) == visited(
            named_runs(keys, seeds, old(runs)@),
            true,
            seed,
        ),
{
    if runs.len() == 0 {
        return;
    }
    let mut rng: u64 = next_state(seed);
    let len: usize = runs.len();
    let mut i: usize = len - 1;
    while i > 0
        invariant
            i < len == runs@.len(),
            stretches_in(keys, runs@),
            shuffled(named_runs(keys, seeds, runs@), rng, i as nat) == visited(
                named_runs(keys, seeds, old(runs)@),
                true,
                seed,
            ),
        decreases i,
    {
        rng = next_state(rng);
        let j: usize = choose_place(rng, i);
        let ghost before = runs@;
        let a = runs[i];
        let b = runs[j];
        runs[i] = b;
        runs[j] = a;
        proof {
            assert(runs@ =~= exchanged(before, i as int, j as int));
            lemma_exchange_named(keys, seeds, before, i as int, j as int);
        }
        i -= 1;
    }
}

/// A prefix of `s` has been cut into full batches and a started one.
spec fn cutting(s: Seq<u32>, size: int, batches: Seq<Vec<u32>>, current: Seq<u32>, taken: int) -> bool {
    &&& taken == batches.len() * size + current.len()
    &&& taken <= s.len()
    &&& current.len() < size
    &&& current == s.subrange(batches.len() * size, taken)
    &&& forall|b: int|
        0 <= b < batches.len() ==> (#[trigger] batches[b])@.len() == size && 0 <= b * size && b * size
            + size <= batches.len() * size && batches[b]@ == s.subrange(b * size, b * size + size)
}

/// Appending to the sequence being cut changes nothing that was cut.
proof fn lemma_cutting_extends(
    s: Seq<u32>,
    t: Seq<u32>,
    size: int,
    batches: Seq<Vec<u32>>,
    current: Seq<u32>,
)
    requires
        size > 0,
        cutting(s, size, batches, current, s.len() as int),
    ensures
        cutting(s + t, size, batches, current, s.len() as int),
{
    assert(0 <= batches.len() * size) by (nonlinear_arith)
        requires
            size > 0,
    ;
    assert(current =~= (s + t).subrange(batches.len() * size, s.len() as int));
    assert forall|b: int| 0 <= b < batches.len() implies (#[trigger] batches[b])@.len() == size && 0
        <= b * size && b * size + size <= batches.len() * size && batches[b]@ == (s + t).subrange(
        b * size,
        b * size + size,
    ) by {
        assert(batches[b]@ =~= (s + t).subrange(b * size, b * size + size));
    }
}

/// The next seed joins the batch that is being filled.
proof fn lemma_seed_joins(
    t: Seq<u32>,
    size: int,
    done: Seq<Vec<u32>>,
    current: Seq<u32>,
    now: Seq<u32>,
)
    requires
        size > 0,
        t.len() > 0,
        cutting(t, size, done, current, t.len() as int - 1),
        now == current.push(t.last()),
    ensures
        now == t.subrange(done.len() * size, t.len() as int),
        now.len() < size ==> cutting(t, size, done, now, t.len() as int),
{
    let k = done.len() as int;
    assert(0 <= k * size) by (nonlinear_arith)
        requires
            k >= 0,
            size > 0,
    ;
    assert(now =~= t.subrange(k * size, t.len() as int));
}

/// A batch that is full joins the others, and the next one starts empty.
proof fn lemma_batch_is_full(
    t: Seq<u32>,
    size: int,
    done: Seq<Vec<u32>>,
    current: Seq<u32>,
    full: Vec<u32>,
)
    requires
        size > 0,
        t.len() > 0,
        cutting(t, size, done, current, t.len() as int - 1),
        full@ == current.push(t.last()),
        full@.len() == size,
    ensures
        cutting(t, size, done.push(full), Seq::empty(), t.len() as int),
{
    let k = done.len() as int;
    let all = done.push(full);
    lemma_seed_joins(t, size, done, current, full@);
    assert(0 <= k * size) by (nonlinear_arith)
        requires
            k >= 0,
            size > 0,
    ;
    assert((k + 1) * size == k * size + size) by (nonlinear_arith);
    assert(all.len() == k + 1);
    assert(t.subrange(all.len() * size, t.len() as int) =~= Seq::empty());
    assert forall|b: int| 0 <= b < all.len() implies (#[trigger] all[b])@.len() == size && 0 <= b
        * size && b * size + size <= all.len() * size && all[b]@ == t.subrange(
        b * size,
        b * size + size,
    ) by {
        if b < k {
            assert(all[b] == done[b]);
        } else {
            assert(b == k);
        }
    }
}

/// Takes one more seed.
fn take_seed(
    batches: &mut Vec<Vec<u32>>,
    current: &mut Vec<u32>,
    size: usize,
    value: u32,
    Ghost(s): Ghost<Seq<u32>>,
)
    requires
        size > 0,
        cutting(s, size as int, old(batches)@, old(current)@, s.len() as int),
    ensures
        cutting(s.push(value), size as int, final(batches)@, final(current)@, s.len() as int + 1),
{
    let ghost t = s.push(value);
    let ghost done = batches@;
    let ghost before = current@;
    proof {
        lemma_cutting_extends(s, seq![value], size as int, done, before);
        assert(s + seq![value] =~= t);
        assert(t.last() == value);
    }
    current.push(value);
    if current.len() == size {
        let mut full: Vec<u32> = Vec::with_capacity(size);
        std::mem::swap(&mut full, current);
        batches.push(full);
        proof {
            lemma_batch_is_full(t, size as int, done, before, full);
            assert(current@ =~= Seq::empty());
        }
    } else {
        proof {
            lemma_seed_joins(t, size as int, done, before, current@);
        }
    }
}

/// One more run behind the others.
proof fn lemma_concat_take(runs: Seq<Seq<u32>>, r: int)
    requires
        0 <= r < runs.len(),
    ensures
        concat(runs.take(r + 1)) == concat(runs.take(r)) + runs[r],
{
    assert(runs.take(r + 1).drop_last() =~= runs.take(r));
}

/// Groups seed nodes by partition for cluster-aligned batching.
///
/// Batches hold at most `batch_size` seeds and take partition after partition;
/// with `shuffle_partitions` the partitions come in an order that `seed`
/// determines. Within a partition seeds keep their order.
pub fn partition_aligned_batches(
    partitions: &[u32],
    seeds: &[NodeId],
    batch_size: usize,
    shuffle_partitions: bool,
    seed: u64,
) -> (batches: Vec<Vec<NodeId>>)
    requires
        batch_size > 0,
        seeds@.len() <= 0x1_0000_0000,
    ensures
        is_cut(
            seed_order(partitions@, seeds@, shuffle_partitions, seed),
            batch_size as int,
            batches@,
        ),
        forall|b: int| 0 <= b < batches@.len() ==> 0 < (#[trigger] batches@[b])@.len() <= batch_size,
        forall|b: int| 0 <= b < batches@.len() - 1 ==> (#[trigger] batches@[b])@.len() == batch_size,
{
    let keys = sorted_keys(partitions, seeds);
    let mut runs = find_runs(&keys, Ghost(partitions@), Ghost(seeds@));
    if shuffle_partitions {
        shuffle_runs(&mut runs, seed, Ghost(keys@), Ghost(seeds@));
    }
    let ghost view = named_runs(keys@, seeds@, runs@);
    let ghost order = seed_order(partitions@, seeds@, shuffle_partitions, seed);
    let ghost parts = seed_partitions(partitions@, seeds@);
    assert(order == concat(view));
    let mut batches: Vec<Vec<u32>> = Vec::new();
    let mut current: Vec<u32> = Vec::with_capacity(batch_size);
    let ghost mut taken: Seq<u32> = Seq::empty();
    assert(view.take(0) =~= Seq::empty());
    assert(current@ =~= taken.subrange(0, 0));
    let mut r: usize = 0;
    while r < runs.len()
        invariant
            r <= runs@.len(),
            batch_size > 0,
            seeds@.len() <= 0x1_0000_0000,
            keys_sorted(parts, keys@),
            parts.len() == seeds@.len(),
            stretches_in(keys@, runs@),
            view == named_runs(keys@, seeds@, runs@),
            taken == concat(view.take(r as int)),
            cutting(taken, batch_size as int, batches@, current@, taken.len() as int),
        decreases runs@.len() - r,
    {
        let (start, end) = runs[r];
        let ghost before = taken;
        let ghost run = view[r as int];
        let mut k: usize = start;
        assert(taken =~= before + run.take(0));
        while k < end
            invariant
                start <= k <= end <= keys@.len(),
                batch_size > 0,
                seeds@.len() <= 0x1_0000_0000,
                keys_sorted(parts, keys@),
                parts.len() == seeds@.len(),
                run == named(keys@, seeds@, start as int, end as int),
                taken == before + run.take(k - start),
                cutting(taken, batch_size as int, batches@, current@, taken.len() as int),
            decreases end - k,
        {
            let place: u64 = keys[k] % 0x1_0000_0000;
            assert(keys@[k as int] as int % 0x1_0000_0000 < parts.len());
            let value = seeds[place as usize];
            take_seed(&mut batches, &mut current, batch_size, value, Ghost(taken));
            proof {
                assert(run[k - start] == value);
                taken = taken.push(value);
                assert(taken =~= before + run.take(k + 1 - start));
            }
            k += 1;
        }
        proof {
            assert(run.take(end - start) =~= run);
            lemma_concat_take(view, r as int);
        }
        r += 1;
    }
    assert(view.take(r as int) =~= view);
    let ghost full = batches@;
    let ghost n = full.len() as int;
    if current.len() > 0 {
        let ghost rest = current@;
        batches.push(current);
        proof {
            assert(batches@[n]@ =~= order.subrange(n * batch_size, n * batch_size + rest.len()));
            assert forall|b: int| 0 <= b < batches@.len() implies 0 < (#[trigger] batches@[b])@.len()
                <= batch_size && b * batch_size + batches@[b]@.len() <= order.len()
                && batches@[b]@ == order.subrange(
                b * batch_size,
                b * batch_size + batches@[b]@.len(),
            ) by {
                if b < n {
                    assert(batches@[b] == full[b]);
                }
            }
            assert forall|b: int| 0 <= b < batches@.len() - 1 implies (
            #[trigger] batches@[b])@.len() == batch_size by {
                assert(batches@[b] == full[b]);
            }
        }
    } else {
        proof {
            if n > 0 {
                assert((n - 1) * batch_size + batch_size == n * batch_size) by (nonlinear_arith);
                assert(batches@[n - 1]@.len() == batch_size);
            } else {
                assert(n * batch_size == 0) by (nonlinear_arith)
                    requires
                        n == 0,
                ;
            }
        }
    }
    batches
}

/// The seeds of the runs, counted.
spec fn run_seeds(runs: Seq<Seq<u32>>) -> Multiset<u32>
    decreases runs.len(),
{
    if runs.len() == 0 {
        Multiset::empty()
    } else {
        run_seeds(runs.drop_last()).add(runs.last().to_multiset())
    }
}

proof fn lemma_concat_seeds(runs: Seq<Seq<u32>>)
    ensures
        concat(runs).to_multiset() == run_seeds(runs),
    decreases runs.len(),
{
    if runs.len() > 0 {
        lemma_concat_seeds(runs.drop_last());
        vstd::seq_lib::lemma_multiset_commutative(concat(runs.drop_last()), runs.last());
    } else {
        concat(runs).to_multiset_ensures();
        assert(concat(runs).to_multiset() =~= Multiset::empty());
    }
}

/// Replacing a run exchanges its seeds for those of the new run.
proof fn lemma_replace_run(runs: Seq<Seq<u32>>, i: int, x: Seq<u32>)
    requires
        0 <= i < runs.len(),
    ensures
        run_seeds(runs.update(i, x)).add(runs[i].to_multiset()) == run_seeds(runs).add(
            x.to_multiset(),
        ),
    decreases runs.len(),
{
    let after = runs.update(i, x);
    if i == runs.len() - 1 {
        assert(after.drop_last() =~= runs.drop_last());
        assert(run_seeds(after).add(runs[i].to_multiset()) =~= run_seeds(runs).add(
            x.to_multiset(),
        ));
    } else {
        lemma_replace_run(runs.drop_last(), i, x);
        assert(after.drop_last() =~= runs.drop_last().update(i, x));
        let a = run_seeds(after.drop_last());
        let b = run_seeds(runs.drop_last());
        let old_run = runs[i].to_multiset();
        let new_run = x.to_multiset();
        assert(after.last() == runs.last());
        assert(a.add(old_run) == b.add(new_run)) by {
            assert(runs.drop_last()[i] == runs[i]);
        }
        assert(run_seeds(after).add(old_run) =~= run_seeds(runs).add(new_run)) by {
            assert forall|v: u32|
                run_seeds(after).add(old_run).count(v) == run_seeds(runs).add(new_run).count(v) by {
                assert(a.add(old_run).count(v) == b.add(new_run).count(v));
            }
        }
    }
}

proof fn lemma_exchange_keeps_seeds(runs: Seq<Seq<u32>>, i: int, j: int)
    requires
        0 <= i < runs.len(),
        0 <= j < runs.len(),
    ensures
        run_seeds(exchanged(runs, i, j)) == run_seeds(runs),
{
    let mid = runs.update(i, runs[j]);
    lemma_replace_run(runs, i, runs[j]);
    lemma_replace_run(mid, j, runs[i]);
    if i == j {
        assert(exchanged(runs, i, j) =~= runs);
    } else {
        let a = run_seeds(exchanged(runs, i, j));
        let b = run_seeds(mid);
        let c = run_seeds(runs);
        let x = runs[i].to_multiset();
        let y = runs[j].to_multiset();
        assert(a.add(y) == b.add(x) && b.add(x) == c.add(y));
        assert(a =~= c) by {
            assert forall|v: u32| a.count(v) == c.count(v) by {
                assert(a.add(y).count(v) == c.add(y).count(v));
            }
        }
    }
}

proof fn lemma_shuffle_keeps_seeds(runs: Seq<Seq<u32>>, state: u64, i: nat)
    requires
        i < runs.len() || i == 0,
    ensures
        run_seeds(shuffled(runs, state, i)) == run_seeds(runs),
    decreases i,
{
    if i > 0 {
        let next = lcg(state);
        let j = chosen_place(next, i);
        assert(0 <= j <= i) by {
            reveal(chosen_place);
        }
        lemma_exchange_keeps_seeds(runs, i as int, j);
        lemma_shuffle_keeps_seeds(exchanged(runs, i as int, j), next, (i - 1) as nat);
    }
}

/// One more seed joins the run of its partition alone.
proof fn lemma_runs_push(partitions: Seq<u32>, seeds: Seq<u32>, p: nat)
    requires
        seeds.len() > 0,
    ensures
        run_seeds(partition_runs(partitions, seeds, p)) == (if partition_of(
            partitions,
            seeds.last(),
        ) < p {
            run_seeds(partition_runs(partitions, seeds.drop_last(), p)).insert(seeds.last())
        } else {
            run_seeds(partition_runs(partitions, seeds.drop_last(), p))
        }),
    decreases p,
{
    if p > 0 {
        let q = p - 1;
        let prev = seeds.drop_last();
        lemma_runs_push(partitions, seeds, q as nat);
        let parts = seed_partitions(partitions, seeds);
        assert(parts.drop_last() =~= seed_partitions(partitions, prev));
        lemma_arrivals_bounds(parts.drop_last(), q);
        let old_run = partition_run(partitions, prev, q);
        let run = partition_run(partitions, seeds, q);
        old_run.to_multiset_ensures();
        if partition_of(partitions, seeds.last()) == q {
            assert(run =~= old_run.push(seeds.last()));
        } else {
            assert(run =~= old_run);
        }
        let before = partition_runs(partitions, prev, q as nat);
        let after = partition_runs(partitions, seeds, q as nat);
        assert(before.push(old_run).drop_last() =~= before);
        assert(after.push(run).drop_last() =~= after);
        if old_run.len() == 0 {
            assert(old_run.to_multiset() =~= Multiset::empty());
        }
        if run.len() == 0 {
            run.to_multiset_ensures();
            assert(run.to_multiset() =~= Multiset::empty());
        }
        assert(run_seeds(partition_runs(partitions, prev, p)) =~= run_seeds(before).add(
            old_run.to_multiset(),
        ));
        assert(run_seeds(partition_runs(partitions, seeds, p)) =~= run_seeds(after).add(
            run.to_multiset(),
        ));
        if partition_of(partitions, seeds.last()) < p {
            assert(run_seeds(partition_runs(partitions, seeds, p)) =~= run_seeds(
                partition_runs(partitions, prev, p),
            ).insert(seeds.last()));
        }
    }
}

proof fn lemma_runs_of_none(partitions: Seq<u32>, seeds: Seq<u32>, p: nat)
    requires
        seeds.len() == 0,
    ensures
        partition_runs(partitions, seeds, p).len() == 0,
    decreases p,
{
    if p > 0 {
        lemma_runs_of_none(partitions, seeds, (p - 1) as nat);
    }
}

proof fn lemma_runs_hold_seeds(partitions: Seq<u32>, seeds: Seq<u32>)
    ensures
        run_seeds(partition_runs(partitions, seeds, PARTITION_IDS as nat)) == seeds.to_multiset(),
    decreases seeds.len(),
{
    seeds.to_multiset_ensures();
    if seeds.len() == 0 {
        lemma_runs_of_none(partitions, seeds, PARTITION_IDS as nat);
        assert(seeds.to_multiset() =~= Multiset::empty());
    } else {
        lemma_runs_hold_seeds(partitions, seeds.drop_last());
        lemma_runs_push(partitions, seeds, PARTITION_IDS as nat);
        assert(seeds.drop_last().push(seeds.last()) =~= seeds);
        seeds.drop_last().to_multiset_ensures();
    }
}

/// Batches take every seed exactly as often as it was given, whatever the
/// order of the partitions.
pub proof fn law_batches_take_every_seed(
    partitions: Seq<u32>,
    seeds: Seq<u32>,
    shuffle: bool,
    seed: u64,
)
    ensures
        seed_order(partitions, seeds, shuffle, seed).to_multiset() == seeds.to_multiset(),
{
    let runs = partition_runs(partitions, seeds, PARTITION_IDS as nat);
    lemma_runs_hold_seeds(partitions, seeds);
    lemma_concat_seeds(visited(runs, shuffle, seed));
    if shuffle && runs.len() > 0 {
        lemma_shuffle_keeps_seeds(runs, lcg(seed), (runs.len() - 1) as nat);
    }
}

/// The generator steps by multiplying and adding one, modulo the word size.
proof fn lemma_lcg(state: u64)
    ensures
        lcg(state) == (state * 0x517c_c1b7_2722_0a95 + 1) % 0x1_0000_0000_0000_0000,
{
    let product = state * 0x517c_c1b7_2722_0a95;
    let low = state.wrapping_mul(LCG_MULTIPLIER);
    assert(low == product % 0x1_0000_0000_0000_0000);
    assert(lcg(state) == low.wrapping_add(1)) by {
        reveal(lcg);
    }
    vstd::arithmetic::div_mod::lemma_add_mod_noop(product, 1, 0x1_0000_0000_0000_0000);
    vstd::arithmetic::div_mod::lemma_small_mod(1, 0x1_0000_0000_0000_0000);
    if low < u64::MAX {
        vstd::arithmetic::div_mod::lemma_small_mod((low + 1) as nat, 0x1_0000_0000_0000_0000);
    } else {
        vstd::arithmetic::div_mod::lemma_mod_self_0(0x1_0000_0000_0000_0000);
    }
}

/// The generator reaches every state.
proof fn lemma_lcg_reaches(state: u64) -> (from: u64)
    ensures
        lcg(from) == state,
{
    let m: int = 0x1_0000_0000_0000_0000;
    let x: int = 0x2040_003d_7809_70bd * (state - 1);
    let from = (x % m) as u64;
    let q = x / m;
    lemma_lcg(from);
    assert(from == x - m * q);
    assert(from * 0x517c_c1b7_2722_0a95 + 1 == state + m * (739706870995725965 * (state - 1)
        - 0x517c_c1b7_2722_0a95 * q));
    vstd::arithmetic::div_mod::lemma_mod_multiples_vanish(
        739706870995725965 * (state - 1) - 0x517c_c1b7_2722_0a95 * q,
        state as int,
        m,
    );
    from
}

/// The states and orders of a shuffle of the first `i + 1` runs.
proof fn lemma_walk(runs: Seq<Seq<u32>>, state: u64, i: nat) -> (walk: (
    Seq<u64>,
    Seq<Seq<Seq<u32>>>,
))
    requires
        i < runs.len(),
    ensures
        walk.0.len() == i + 1,
        walk.1.len() == i + 1,
        walk.0[0] == state,
        walk.1[0] == runs,
        walk.1[i as int] == shuffled(runs, state, i),
        forall|k: int|
            #![trigger walk.0[k]]
            0 < k <= i ==> {
                let last = i + 1 - k;
                let place = (walk.0[k] as int / 0x2_0000_0000) % (last + 1);
                &&& walk.0[k] == (walk.0[k - 1] * 0x517c_c1b7_2722_0a95 + 1)
                    % 0x1_0000_0000_0000_0000
                &&& walk.1[k] == walk.1[k - 1].update(last, walk.1[k - 1][place]).update(
                    place,
                    walk.1[k - 1][last],
                )
            },
    decreases i,
{
    if i == 0 {
        (seq![state], seq![runs])
    } else {
        let next = lcg(state);
        lemma_lcg(state);
        let place = chosen_place(next, i);
        reveal(chosen_place);
        let after = exchanged(runs, i as int, place);
        let rest = lemma_walk(after, next, (i - 1) as nat);
        let states = seq![state] + rest.0;
        let orders = seq![runs] + rest.1;
        assert forall|k: int|
            #![trigger states[k]]
            0 < k <= i implies {
            let last = i + 1 - k;
            let place = (states[k] as int / 0x2_0000_0000) % (last + 1);
            &&& states[k] == (states[k - 1] * 0x517c_c1b7_2722_0a95 + 1) % 0x1_0000_0000_0000_0000
            &&& orders[k] == orders[k - 1].update(last, orders[k - 1][place]).update(
                place,
                orders[k - 1][last],
            )
        } by {
            assert(states[k] == rest.0[k - 1]);
            assert(orders[k] == rest.1[k - 1]);
            if k > 1 {
                assert(states[k - 1] == rest.0[k - 2]);
                assert(orders[k - 1] == rest.1[k - 2]);
                assert(rest.0[k - 1] == rest.0[k - 1]);
            }
        }
        assert(orders[i as int] == rest.1[i - 1]);
        (states, orders)
    }
}

/// With shuffling on, the partitions come in the order of a Fisher-Yates walk
/// over the partitions in ascending order. The walk's first state is the seed,
/// stepped once. For each place from the last down to the second, the state
/// steps, and the run at that place is exchanged with the one at the place that
/// the upper 31 bits of the state give, modulo the number of places not yet
/// settled. The seeds then come run after run.
pub proof fn law_shuffle_is_a_walk(partitions: Seq<u32>, seeds: Seq<u32>, seed: u64) -> (walk: (
    Seq<u64>,
    Seq<Seq<Seq<u32>>>,
))
    ensures
        ({
            let (states, orders) = walk;
            let runs = partition_runs(partitions, seeds, PARTITION_IDS as nat);
            let n = runs.len() as int;
            &&& n > 0 ==> states.len() == n && orders.len() == n
            &&& n > 0 ==> states[0] == (seed * 0x517c_c1b7_2722_0a95 + 1) % 0x1_0000_0000_0000_0000
            &&& n > 0 ==> orders[0] == runs
            &&& forall|k: int|
                #![trigger states[k]]
                0 < k < n ==> {
                    let last = n - k;
                    let place = (states[k] as int / 0x2_0000_0000) % (last + 1);
                    &&& states[k] == (states[k - 1] * 0x517c_c1b7_2722_0a95 + 1)
                        % 0x1_0000_0000_0000_0000
                    &&& orders[k] == orders[k - 1].update(last, orders[k - 1][place]).update(
                        place,
                        orders[k - 1][last],
                    )
                }
            &&& n > 0 ==> seed_order(partitions, seeds, true, seed) == concat(orders[n - 1])
            &&& n == 0 ==> seed_order(partitions, seeds, true, seed) == Seq::<u32>::empty()
        }),
{
    let runs = partition_runs(partitions, seeds, PARTITION_IDS as nat);
    if runs.len() > 0 {
        lemma_lcg(seed);
        lemma_walk(runs, lcg(seed), (runs.len() - 1) as nat)
    } else {
        (Seq::empty(), Seq::empty())
    }
}

/// A shuffle of the first `i + 1` entries leaves the others in their places.
proof fn lemma_shuffle_keeps_the_rest(runs: Seq<Seq<u32>>, state: u64, i: nat)
    requires
        i < runs.len(),
    ensures
        shuffled(runs, state, i).len() == runs.len(),
        forall|k: int| i < k < runs.len() ==> #[trigger] shuffled(runs, state, i)[k] == runs[k],
    decreases i,
{
    if i > 0 {
        let next = lcg(state);
        reveal(chosen_place);
        lemma_shuffle_keeps_the_rest(
            exchanged(runs, i as int, chosen_place(next, i)),
            next,
            (i - 1) as nat,
        );
    }
}

/// The order depends on the seed: of any two or more runs (up to 2^31 of them)
/// each comes last for some seed.
pub proof fn law_any_run_can_come_last(runs: Seq<Seq<u32>>, t: int) -> (seed: u64)
    requires
        2 <= runs.len() <= 0x8000_0000,
        0 <= t < runs.len(),
    ensures
        visited(runs, true, seed).len() == runs.len(),
        visited(runs, true, seed).last() == runs[t],
{
    let i = (runs.len() - 1) as nat;
    let second = (t * 0x2_0000_0000) as u64;
    let first = lemma_lcg_reaches(second);
    let seed = lemma_lcg_reaches(first);
    reveal(chosen_place);
    assert(chosen_place(second, i) == t) by {
        assert(second as int / 0x2_0000_0000 == t);
        vstd::arithmetic::div_mod::lemma_small_mod(t as nat, i + 1);
    }
    let after = exchanged(runs, i as int, t);
    lemma_shuffle_keeps_the_rest(after, second, (i - 1) as nat);
    assert(visited(runs, true, seed) == shuffled(after, second, (i - 1) as nat));
    seed
}

/// How three runs are shuffled.
proof fn lemma_three_runs(runs: Seq<Seq<u32>>, seed: u64)
    requires
        runs.len() == 3,
    ensures
        visited(runs, true, seed) == exchanged(
            exchanged(runs, 2, chosen_place(lcg(lcg(seed)), 2)),
            1,
            chosen_place(lcg(lcg(lcg(seed))), 1),
        ),
{
    let once = exchanged(runs, 2, chosen_place(lcg(lcg(seed)), 2));
    let twice = exchanged(once, 1, chosen_place(lcg(lcg(lcg(seed))), 1));
    assert(shuffled(twice, lcg(lcg(lcg(seed))), 0) == twice);
    assert(shuffled(once, lcg(lcg(seed)), 1) == twice);
}

/// Of three runs, seed 42 visits the second, the third and the first, and seed
/// 99 visits them backwards.
pub proof fn law_two_seeds_give_two_orders(a: Seq<u32>, b: Seq<u32>, c: Seq<u32>)
    ensures
        visited(seq![a, b, c], true, 42) == seq![b, c, a],
        visited(seq![a, b, c], true, 99) == seq![c, b, a],
{
    let runs = seq![a, b, c];
    lemma_lcg(42);
    assert(lcg(42) == 6807129317463932019);
    lemma_lcg(6807129317463932019);
    assert(lcg(lcg(42)) == 10764287263409515760);
    lemma_lcg(10764287263409515760);
    assert(lcg(lcg(lcg(42))) == 12039449140379813809);
    assert(chosen_place(10764287263409515760, 2) == 0 && chosen_place(12039449140379813809, 1) == 0)
        by {
        reveal(chosen_place);
        assert(10764287263409515760int / 0x2_0000_0000 == 1253127966);
        assert(1253127966int % 3 == 0);
        assert(12039449140379813809int / 0x2_0000_0000 == 1401576346);
        assert(1401576346int % 2 == 0);
    }
    lemma_lcg(99);
    assert(lcg(99) == 9457253364840142752);
    lemma_lcg(9457253364840142752);
    assert(lcg(lcg(99)) == 8180745146559365153);
    lemma_lcg(8180745146559365153);
    assert(lcg(lcg(lcg(99))) == 4659873880637136182);
    assert(chosen_place(8180745146559365153, 2) == 0 && chosen_place(4659873880637136182, 1) == 1)
        by {
        reveal(chosen_place);
        assert(8180745146559365153int / 0x2_0000_0000 == 952364079);
        assert(952364079int % 3 == 0);
        assert(4659873880637136182int / 0x2_0000_0000 == 542480717);
        assert(542480717int % 2 == 1);
    }
    lemma_three_runs(runs, 42);
    lemma_three_runs(runs, 99);
    assert(visited(runs, true, 42) =~= seq![b, c, a]);
    assert(visited(runs, true, 99) =~= seq![c, b, a]);
}

/// Without shuffling the runs stay in their order whatever the seed, and so does
/// a single run with it.
pub proof fn law_unshuffled_runs_keep_their_order(runs: Seq<Seq<u32>>, shuffle: bool, seed: u64)
    ensures
        !shuffle || runs.len() <= 1 ==> visited(runs, shuffle, seed) == runs,
{
}

/// The seeds come run after run: a further run's seeds come behind all others.
pub proof fn law_runs_follow_each_other(runs: Seq<Seq<u32>>, run: Seq<u32>)
    ensures
        concat(Seq::empty()) == Seq::<u32>::empty(),
        concat(runs.push(run)) == concat(runs) + run,
{
    assert(runs.push(run).drop_last() =~= runs);
}

/// Each run holds the seeds of one partition, all of them, in the order in which
/// they were given; seeds that the partition list does not cover are in
/// partition 0. The places of its seeds among all seeds are returned, with the
/// partition.
pub proof fn law_run_is_one_partition(partitions: Seq<u32>, seeds: Seq<u32>, r: int) -> (places: (
    Seq<int>,
    u32,
))
    requires
        0 <= r < partition_runs(partitions, seeds, PARTITION_IDS as nat).len(),
    ensures
        ({
            let run = partition_runs(partitions, seeds, PARTITION_IDS as nat)[r];
            &&& places.0.len() == run.len() > 0
            &&& forall|i: int, j: int|
                0 <= i < j < places.0.len() ==> places.0[i] < places.0[j]
            &&& forall|j: int|
                0 <= j < run.len() ==> 0 <= #[trigger] places.0[j] < seeds.len() && run[j]
                    == seeds[places.0[j]]
            &&& forall|x: int|
                0 <= x < seeds.len() ==> (#[trigger] places.0.contains(x) <==> places.1 == (
                if seeds[x] < partitions.len() {
                    partitions[seeds[x] as int]
                } else {
                    0
                }))
        }),
{
    let p = lemma_run_partition(partitions, seeds, PARTITION_IDS as nat, r);
    lemma_run_places(partitions, seeds, p as int);
    (arrivals(seed_partitions(partitions, seeds), p as int), p)
}

/// The places of the seeds of one partition.
proof fn lemma_run_places(partitions: Seq<u32>, seeds: Seq<u32>, p: int)
    ensures
        ({
            let run = partition_run(partitions, seeds, p);
            let places = arrivals(seed_partitions(partitions, seeds), p);
            &&& places.len() == run.len()
            &&& forall|i: int, j: int| 0 <= i < j < places.len() ==> places[i] < places[j]
            &&& forall|j: int|
                0 <= j < run.len() ==> 0 <= #[trigger] places[j] < seeds.len() && run[j]
                    == seeds[places[j]]
            &&& forall|x: int|
                0 <= x < seeds.len() ==> (#[trigger] places.contains(x) <==> p == (
                if seeds[x] < partitions.len() {
                    partitions[seeds[x] as int]
                } else {
                    0
                }))
        }),
{
    let parts = seed_partitions(partitions, seeds);
    let places = arrivals(parts, p);
    lemma_arrivals_bounds(parts, p);
    assert forall|x: int| 0 <= x < seeds.len() implies (#[trigger] places.contains(x) <==> p == (
    if seeds[x] < partitions.len() {
        partitions[seeds[x] as int]
    } else {
        0
    })) by {
        if places.contains(x) {
            let j = choose|j: int| 0 <= j < places.len() && places[j] == x;
            assert(parts[places[j]] == p);
        }
        if parts[x] == p {
            lemma_arrival_has(parts, p, x);
        }
    }
}

/// Run `r` below partition `p` is that of some partition.
proof fn lemma_run_partition(partitions: Seq<u32>, seeds: Seq<u32>, p: nat, r: int) -> (q: u32)
    requires
        p <= PARTITION_IDS,
        0 <= r < partition_runs(partitions, seeds, p).len(),
    ensures
        q < p,
        partition_runs(partitions, seeds, p)[r] == partition_run(partitions, seeds, q as int),
        partition_runs(partitions, seeds, p)[r].len() > 0,
    decreases p,
{
    if p == 0 {
        0
    } else if r < partition_runs(partitions, seeds, (p - 1) as nat).len() {
        lemma_run_partition(partitions, seeds, (p - 1) as nat, r)
    } else {
        (p - 1) as u32
    }
}

/// The runs come in ascending order of their partitions: every seed of an
/// earlier run is in a lower partition than every seed of a later one.
pub proof fn law_runs_ascend(partitions: Seq<u32>, seeds: Seq<u32>)
    ensures
        ({
            let runs = partition_runs(partitions, seeds, PARTITION_IDS as nat);
            let home = |s: u32|
                if s < partitions.len() {
                    partitions[s as int]
                } else {
                    0
                };
            forall|q: int, r: int, i: int, j: int|
                0 <= q < r < runs.len() && 0 <= i < runs[q].len() && 0 <= j < runs[r].len()
                    ==> home(#[trigger] runs[q][i]) < home(#[trigger] runs[r][j])
        }),
{
    let runs = partition_runs(partitions, seeds, PARTITION_IDS as nat);
    assert forall|q: int, r: int, i: int, j: int|
        0 <= q < r < runs.len() && 0 <= i < runs[q].len() && 0 <= j < runs[r].len() implies
        partition_of(partitions, #[trigger] runs[q][i]) < partition_of(
        partitions,
        #[trigger] runs[r][j],
    ) by {
        lemma_runs_ascend(partitions, seeds, PARTITION_IDS as nat, q, r, i, j);
    }
}

proof fn lemma_runs_ascend(
    partitions: Seq<u32>,
    seeds: Seq<u32>,
    p: nat,
    q: int,
    r: int,
    i: int,
    j: int,
)
    requires
        p <= PARTITION_IDS,
        0 <= q < r < partition_runs(partitions, seeds, p).len(),
        0 <= i < partition_runs(partitions, seeds, p)[q].len(),
        0 <= j < partition_runs(partitions, seeds, p)[r].len(),
    ensures
        partition_of(partitions, partition_runs(partitions, seeds, p)[q][i]) < partition_of(
            partitions,
            partition_runs(partitions, seeds, p)[r][j],
        ),
    decreases p,
{
    let runs = partition_runs(partitions, seeds, p);
    let before = partition_runs(partitions, seeds, (p - 1) as nat);
    if r < before.len() {
        lemma_runs_ascend(partitions, seeds, (p - 1) as nat, q, r, i, j);
    } else {
        let parts = seed_partitions(partitions, seeds);
        let a = lemma_run_partition(partitions, seeds, (p - 1) as nat, q);
        assert(runs[q] == before[q]);
        lemma_arrivals_bounds(parts, a as int);
        assert(parts[arrivals(parts, a as int)[i]] == a);
        lemma_arrivals_bounds(parts, p - 1);
        assert(parts[arrivals(parts, p - 1)[j]] == p - 1);
    }
}

/// Batches hold the seeds in order: seed `k` of the order stands in batch
/// `k / size`, at place `k % size`, and there are as many batches as that takes.
pub proof fn law_batches_hold_the_order(s: Seq<u32>, size: int, batches: Seq<Vec<u32>>, k: int)
    requires
        is_cut(s, size, batches),
        size > 0,
        0 <= k < s.len(),
    ensures
        0 <= k / size < batches.len(),
        k % size < batches[k / size]@.len(),
        batches[k / size]@[k % size] == s[k],
        (batches.len() - 1) * size < s.len() <= batches.len() * size,
{
    let n = batches.len() as int;
    let b = k / size;
    vstd::arithmetic::div_mod::lemma_fundamental_div_mod(k, size);
    vstd::arithmetic::div_mod::lemma_mod_bound(k, size);
    assert(n > 0);
    let last = batches[n - 1]@.len();
    assert((n - 1) * size + last == s.len());
    assert(0 < last <= size);
    assert((n - 1) * size + size == n * size) by (nonlinear_arith);
    assert(0 <= b < n) by (nonlinear_arith)
        requires
            k == size * b + k % size,
            0 <= k % size < size,
            0 <= k < n * size,
            size > 0,
    ;
    assert(size * b == b * size) by (nonlinear_arith);
    if b < n - 1 {
        assert(batches[b]@.len() == size);
    }
    assert(batches[b]@ == s.subrange(b * size, b * size + batches[b]@.len()));
}

} // verus!
