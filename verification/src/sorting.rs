//! Sorting, and what ascending sequences determine.
use vstd::prelude::*;

verus! {

/// Never descends.
pub open spec fn sorted(v: Seq<u64>) -> bool {
    forall|i: int, j: int| 0 <= i <= j < v.len() ==> v[i] <= v[j]
}

/// Always ascends.
pub open spec fn strictly_ascending(s: Seq<int>) -> bool {
    forall|i: int, j: int| 0 <= i < j < s.len() ==> s[i] < s[j]
}

/// `slice::sort_unstable` of the standard library on `u64`: the same values,
/// in ascending order.
#[verifier::external_body]
pub(crate) fn sort_u64s(v: &mut Vec<u64>)
    ensures
        sorted(final(v)@),
        final(v)@.to_multiset() == old(v)@.to_multiset(),
{
    v.sort_unstable();
}

/// Sorting keeps which values there are, and how many.
pub proof fn lemma_same_values(a: Seq<u64>, b: Seq<u64>)
    requires
        a.to_multiset() == b.to_multiset(),
    ensures
        a.len() == b.len(),
        forall|x: u64| a.contains(x) <==> b.contains(x),
        a.no_duplicates() ==> b.no_duplicates(),
{
    a.to_multiset_ensures();
    b.to_multiset_ensures();
    assert forall|x: u64| a.contains(x) <==> b.contains(x) by {
        assert(a.contains(x) <==> a.to_multiset().count(x) > 0);
        assert(b.contains(x) <==> b.to_multiset().count(x) > 0);
    }
    if a.no_duplicates() {
        a.lemma_multiset_has_no_duplicates();
        assert forall|x: u64| b.to_multiset().contains(x) implies b.to_multiset().count(x) == 1 by {
            assert(a.to_multiset().contains(x));
        }
        b.lemma_multiset_has_no_duplicates_conv();
    }
}

/// A strictly ascending sequence is determined by what it holds.
pub proof fn lemma_ascending_unique(a: Seq<int>, b: Seq<int>)
    requires
        strictly_ascending(a),
        strictly_ascending(b),
        forall|x: int| a.contains(x) <==> b.contains(x),
    ensures
        a == b,
    decreases a.len(),
{
    if a.len() == 0 {
        if b.len() > 0 {
            assert(b.contains(b[0]));
        }
        assert(a =~= b);
    } else if b.len() == 0 {
        assert(a.contains(a[0]));
    } else {
        let x = a.last();
        let y = b.last();
        assert(a.contains(x) && b.contains(y));
        let i = choose|i: int| 0 <= i < b.len() && b[i] == x;
        let j = choose|j: int| 0 <= j < a.len() && a[j] == y;
        assert(b.contains(x) && a.contains(y));
        assert(x == y) by {
            assert(i < b.len() - 1 ==> b[i] < b[b.len() - 1]);
            assert(j < a.len() - 1 ==> a[j] < a[a.len() - 1]);
        }
        let p = a.drop_last();
        let q = b.drop_last();
        assert forall|v: int| p.contains(v) <==> q.contains(v) by {
            if p.contains(v) {
                let k = choose|k: int| 0 <= k < p.len() && p[k] == v;
                assert(a[k] == v && v < x);
                assert(a.contains(v));
                let m = choose|m: int| 0 <= m < b.len() && b[m] == v;
                assert(q[m] == v);
            }
            if q.contains(v) {
                let k = choose|k: int| 0 <= k < q.len() && q[k] == v;
                assert(b[k] == v && v < y);
                assert(b.contains(v));
                let m = choose|m: int| 0 <= m < a.len() && a[m] == v;
                assert(p[m] == v);
            }
        }
        lemma_ascending_unique(p, q);
        assert(a =~= p.push(x));
        assert(b =~= q.push(y));
    }
}

/// Always ascends.
pub open spec fn ascending(v: Seq<u64>) -> bool {
    forall|i: int, j: int| 0 <= i < j < v.len() ==> v[i] < v[j]
}

/// The values of `v`, each once, in ascending order.
pub fn sorted_distinct(v: Vec<u64>) -> (r: Vec<u64>)
    ensures
        ascending(r@),
        forall|x: u64| r@.contains(x) <==> v@.contains(x),
{
    let mut all = v;
    sort_u64s(&mut all);
    proof {
        lemma_same_values(all@, v@);
    }
    let mut r: Vec<u64> = Vec::new();
    let mut i: usize = 0;
    while i < all.len()
        invariant
            i <= all@.len(),
            sorted(all@),
            ascending(r@),
            forall|x: u64| r@.contains(x) <==> all@.take(i as int).contains(x),
            forall|k: int| 0 <= k < r@.len() && i > 0 ==> (#[trigger] r@[k]) <= all@[i - 1],
            i > 0 ==> r@.len() > 0 && r@.last() == all@[i - 1],
            i == 0 ==> r@.len() == 0,
        decreases all@.len() - i,
    {
        let x: u64 = all[i];
        assert(i > 0 ==> all@[i - 1] <= all@[i as int]);
        let ghost seen = all@.take(i as int);
        let ghost now = all@.take(i + 1);
        assert(now =~= seen.push(x));
        if i == 0 || all[i - 1] != x {
            let ghost before = r@;
            r.push(x);
            proof {
                assert forall|y: u64| r@.contains(y) <==> now.contains(y) by {
                    assert(r@.contains(y) <==> before.contains(y) || y == x) by {
                        if before.contains(y) {
                            let k = choose|k: int| 0 <= k < before.len() && before[k] == y;
                            assert(r@[k] == y);
                        }
                        assert(r@[before.len() as int] == x);
                    }
                    assert(now.contains(y) <==> seen.contains(y) || y == x) by {
                        if seen.contains(y) {
                            let k = choose|k: int| 0 <= k < seen.len() && seen[k] == y;
                            assert(now[k] == y);
                        }
                        assert(now[i as int] == x);
                    }
                }
            }
        } else {
            assert forall|y: u64| r@.contains(y) <==> now.contains(y) by {
                if seen.contains(y) {
                    let k = choose|k: int| 0 <= k < seen.len() && seen[k] == y;
                    assert(now[k] == y);
                }
                if now.contains(y) && y == x {
                    assert(seen[i - 1] == x);
                    assert(seen.contains(x));
                }
            }
        }
        i += 1;
    }
    assert(all@.take(i as int) =~= all@);
    r
}

/// Place of a value in an ascending list that holds it.
pub fn place_in(v: &[u64], x: u64) -> (p: usize)
    requires
        ascending(v@),
        v@.contains(x),
    ensures
        p < v@.len(),
        v@[p as int] == x,
{
    let mut low: usize = 0;
    let mut high: usize = v.len();
    let ghost at = choose|k: int| 0 <= k < v@.len() && v@[k] == x;
    while low < high
        invariant_except_break
            low <= at < high <= v@.len(),
            v@[at] == x,
            ascending(v@),
        ensures
            low < v@.len(),
            v@[low as int] == x,
        decreases high - low,
    {
        let mid: usize = low + (high - low) / 2;
        if v[mid] == x {
            low = mid;
            break ;
        } else if v[mid] < x {
            assert(mid < at);
            low = mid + 1;
        } else {
            assert(at < mid);
            high = mid;
        }
    }
    low
}

} // verus!
