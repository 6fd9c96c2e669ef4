//! Preference lists as rankings: permutations of `0..n`, best choice first.

use vstd::prelude::*;
use vstd::set_lib::{lemma_int_range, lemma_subset_equality, set_int_range};

verus! {

/// The entries of an index list as mathematical integers.
pub open spec fn ints(list: Seq<usize>) -> Seq<int> {
    list.map_values(|x: usize| x as int)
}

/// `list` ranks `n` candidates: it names each of `0..n` exactly once.
pub open spec fn is_ranking(list: Seq<int>, n: int) -> bool {
    &&& list.len() == n
    &&& forall|k: int| 0 <= k < list.len() ==> 0 <= #[trigger] list[k] < n
    &&& list.no_duplicates()
}

/// The place of candidate `c` in `list`; a lower rank is a stronger preference.
pub open spec fn rank(list: Seq<int>, c: int) -> int {
    list.index_of(c)
}

/// `order` tells where in `from` each entry of `list` comes from: the entry
/// at place `k` of `list` is the entry at place `order[k]` of `from`, and
/// `order` names every place of `from` once.
pub open spec fn reorders<T>(order: Seq<int>, list: Seq<T>, from: Seq<T>) -> bool {
    &&& is_ranking(order, from.len() as int)
    &&& list.len() == from.len()
    &&& forall|k: int| 0 <= k < list.len() ==> list[k] == from[#[trigger] order[k]]
}

/// `list` holds the entries of `from`, each of them once, in some order.
pub open spec fn is_reordering<T>(list: Seq<T>, from: Seq<T>) -> bool {
    exists|order: Seq<int>| reorders(order, list, from)
}

/// In a list without repetitions, the rank of the entry at place `k` is `k`.
pub proof fn lemma_rank_of_entry(list: Seq<int>, k: int)
    requires
        list.no_duplicates(),
        0 <= k < list.len(),
    ensures
        rank(list, list[k]) == k,
{
}

/// A ranking of `n` candidates leaves none of them out.
pub proof fn lemma_ranking_covers(list: Seq<int>, n: int, c: int)
    requires
        is_ranking(list, n),
        0 <= c < n,
    ensures
        list.contains(c),
        0 <= rank(list, c) < n,
        list[rank(list, c)] == c,
{
    let named = list.to_set();
    let all = set_int_range(0, n);
    list.unique_seq_to_set();
    lemma_int_range(0, n);
    assert(named.subset_of(all)) by {
        assert forall|v: int| named.contains(v) implies all.contains(v) by {
            let k = choose|k: int| 0 <= k < list.len() && list[k] == v;
            assert(0 <= list[k] < n);
        }
    }
    vstd::set_lib::lemma_set_subset_finite(all, named);
    lemma_subset_equality(named, all);
    assert(all.contains(c));
    assert(named.contains(c));
}

/// Whether `list` names each of `0..n` exactly once.
pub fn is_permutation(list: &Vec<usize>, n: usize) -> (ok: bool)
    ensures
        ok == is_ranking(ints(list@), n as int),
{
    if list.len() != n {
        return false;
    }
    let mut seen: Vec<bool> = Vec::new();
    let mut j: usize = 0;
    while j < n
        invariant
            j <= n,
            seen.len() == j,
            forall|v: int| 0 <= v < j ==> !seen[v],
        decreases n - j,
    {
        seen.push(false);
        j += 1;
    }
    let mut k: usize = 0;
    while k < n
        invariant
            k <= n,
            list.len() == n,
            seen.len() == n,
            forall|a: int| 0 <= a < k ==> list[a] < n,
            forall|a: int, b: int| 0 <= a < b < k ==> list[a] != list[b],
            forall|v: int|
                0 <= v < n ==> (#[trigger] seen[v] <==> exists|a: int|
                    0 <= a < k && list[a] == v),
        decreases n - k,
    {
        let c = list[k];
        if c >= n {
            proof {
                assert(ints(list@)[k as int] == c);
            }
            return false;
        }
        if seen[c] {
            proof {
                let a = choose|a: int| 0 <= a < k && list[a] == c;
                assert(ints(list@)[a] == ints(list@)[k as int]);
            }
            return false;
        }
        let ghost before = seen@;
        seen.set(c, true);
        proof {
            assert forall|v: int| 0 <= v < n implies (#[trigger] seen[v] <==> exists|a: int|
                0 <= a < k + 1 && list[a] == v) by {
                if v == c {
                    assert(list[k as int] == v);
                } else {
                    assert(seen[v] == before[v]);
                    if before[v] {
                        let a = choose|a: int| 0 <= a < k && list[a] == v;
                        assert(0 <= a < k + 1 && list[a] == v);
                    }
                }
            }
            assert forall|a: int, b: int| 0 <= a < b < k + 1 implies list[a] != list[b] by {
                if b == k && list[a] == list[b] {
                    assert(before[c as int]);
                }
            }
        }
        k += 1;
    }
    proof {
        let view = ints(list@);
        assert forall|a: int, b: int|
            0 <= a < view.len() && 0 <= b < view.len() && a != b implies view[a] != view[b] by {
            if a < b {
                assert(list[a] != list[b]);
            } else {
                assert(list[b] != list[a]);
            }
        }
    }
    true
}

/// The first place at which `c` stands in `list`, if it stands there at all.
pub fn rank_of(list: &Vec<usize>, c: usize) -> (r: Option<usize>)
    ensures
        match r {
            Some(k) => k < list.len() && list[k as int] == c && forall|j: int|
                0 <= j < k ==> list[j] != c,
            None => forall|j: int| 0 <= j < list.len() ==> list[j] != c,
        },
{
    let mut k: usize = 0;
    while k < list.len()
        invariant
            k <= list.len(),
            forall|j: int| 0 <= j < k ==> list[j] != c,
        decreases list.len() - k,
    {
        if list[k] == c {
            return Some(k);
        }
        k += 1;
    }
    None
}

} // verus!
