//! Permutations of node ids, and sums that a permutation does not change.
use vstd::prelude::*;
use vstd::set_lib::*;

verus! {

/// `perm` names each of the ids `0..n` exactly once.
pub open spec fn is_permutation(perm: Seq<u32>, n: nat) -> bool {
    &&& perm.len() == n
    &&& forall|i: int| 0 <= i < n ==> (#[trigger] perm[i]) < n
    &&& forall|i: int, j: int| 0 <= i < n && 0 <= j < n && i != j ==> perm[i] != perm[j]
}

/// The identity permutation of `0..n`.
pub open spec fn identity(n: nat) -> Seq<u32> {
    Seq::new(n, |i: int| i as u32)
}

/// Sum of `f` over the ids that `s` names.
pub open spec fn sum_over(f: spec_fn(int) -> nat, s: Seq<u32>) -> nat
    decreases s.len(),
{
    if s.len() == 0 {
        0
    } else {
        sum_over(f, s.drop_last()) + f(s.last() as int)
    }
}

/// Sum of `f` over `0..n`.
pub open spec fn sum_below(f: spec_fn(int) -> nat, n: nat) -> nat
    decreases n,
{
    if n == 0 {
        0
    } else {
        sum_below(f, (n - 1) as nat) + f(n - 1)
    }
}

/// A permutation names every id.
pub proof fn lemma_permutation_covers(perm: Seq<u32>, n: nat, x: u32) -> (i: int)
    requires
        is_permutation(perm, n),
        x < n,
    ensures
        0 <= i < n,
        perm[i] == x,
{
    let ids = perm.map_values(|p: u32| p as int);
    assert(ids.no_duplicates());
    ids.unique_seq_to_set();
    let all = set_int_range(0, n as int);
    lemma_int_range(0, n as int);
    assert(ids.to_set().subset_of(all)) by {
        assert forall|v: int| ids.to_set().contains(v) implies all.contains(v) by {
            let k = choose|k: int| 0 <= k < ids.len() && ids[k] == v;
            assert(perm[k] < n);
        }
    }
    lemma_subset_equality(ids.to_set(), all);
    assert(all.contains(x as int));
    let i = choose|i: int| 0 <= i < ids.len() && ids[i] == x as int;
    i
}

/// Removing an entry takes its value out of the sum.
proof fn lemma_sum_remove(f: spec_fn(int) -> nat, s: Seq<u32>, k: int)
    requires
        0 <= k < s.len(),
    ensures
        sum_over(f, s) == sum_over(f, s.remove(k)) + f(s[k] as int),
    decreases s.len(),
{
    if k == s.len() - 1 {
        assert(s.remove(k) =~= s.drop_last());
    } else {
        lemma_sum_remove(f, s.drop_last(), k);
        assert(s.remove(k).drop_last() =~= s.drop_last().remove(k));
        assert(s.remove(k).last() == s.last());
    }
}

/// A sum over a permutation of `0..n` is the sum over `0..n`.
pub proof fn lemma_sum_permuted(f: spec_fn(int) -> nat, perm: Seq<u32>, n: nat)
    requires
        is_permutation(perm, n),
        n <= u32::MAX,
    ensures
        sum_over(f, perm) == sum_below(f, n),
    decreases n,
{
    if n > 0 {
        let k = lemma_permutation_covers(perm, n, (n - 1) as u32);
        lemma_sum_remove(f, perm, k);
        let rest = perm.remove(k);
        assert forall|i: int| 0 <= i < n - 1 implies (#[trigger] rest[i]) < n - 1 by {
            let j = if i < k {
                i
            } else {
                i + 1
            };
            assert(rest[i] == perm[j]);
        }
        assert(is_permutation(rest, (n - 1) as nat));
        lemma_sum_permuted(f, rest, (n - 1) as nat);
    }
}

/// Sums over prefixes ascend.
pub proof fn lemma_sum_prefix(f: spec_fn(int) -> nat, s: Seq<u32>, k: int)
    requires
        0 <= k <= s.len(),
    ensures
        sum_over(f, s.take(k)) <= sum_over(f, s),
    decreases s.len() - k,
{
    if k == s.len() {
        assert(s.take(k) =~= s);
    } else {
        lemma_sum_prefix(f, s, k + 1);
        assert(s.take(k + 1).drop_last() =~= s.take(k));
    }
}

} // verus!
