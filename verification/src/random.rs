//! Randomness as a capability: a seedable source of random numbers, and the
//! random ordering that is made of the numbers drawn from it.
//!
//! An ordering of `n` items is made of `n` draws. The first draw is a place
//! among all `n` items, and the item at that place is taken out and comes
//! first. The next draw is a place among the `n - 1` items left, which keep
//! their order, and so on until no item is left. Every ordering comes of
//! exactly one sequence of draws.

use vstd::prelude::*;
use vstd::seq_lib::{to_multiset_insert, to_multiset_remove};
use crate::ranking::{ints, is_ranking, is_reordering, reorders};

verus! {

/// `rand::rngs::StdRng`, the generator behind a `RandomSource`. Nothing is
/// known of what is inside one.
#[verifier::external_type_specification]
#[verifier::external_body]
pub struct ExStdRng(rand::rngs::StdRng);

/// `rand::SeedableRng::seed_from_u64` for `rand::rngs::StdRng`: a generator
/// whose stream is fixed by `seed`. Nothing is claimed of the stream.
#[verifier::external_body]
fn seeded_generator(seed: u64) -> (generator: rand::rngs::StdRng) {
    rand::SeedableRng::seed_from_u64(seed)
}

/// `rand::Rng::gen_range` on `0..bound`: some number below `bound`. The call
/// panics on an empty range, so `bound` must be positive.
#[verifier::external_body]
fn draw_below(generator: &mut rand::rngs::StdRng, bound: usize) -> (k: usize)
    requires
        bound > 0,
    ensures
        k < bound,
{
    rand::Rng::gen_range(generator, 0, bound)
}

/// A source of random numbers that is handed to whoever needs one.
pub struct RandomSource {
    generator: rand::rngs::StdRng,
}

impl RandomSource {
    /// A source whose numbers are fixed by `seed`.
    pub fn from_seed(seed: u64) -> RandomSource {
        RandomSource { generator: seeded_generator(seed) }
    }

    /// A random number below `bound`.
    pub fn below(&mut self, bound: usize) -> (k: usize)
        requires
            bound > 0,
        ensures
            k < bound,
    {
        draw_below(&mut self.generator, bound)
    }
}

/// `draws` can be drawn to order `n` items: there are `n` of them, and the
/// draw at place `k` is a place among the `n - k` items that are left then.
pub open spec fn fit_draws(draws: Seq<int>, n: int) -> bool {
    draws.len() == n && forall|k: int| 0 <= k < n ==> 0 <= #[trigger] draws[k] < n - k
}

/// The items of `list` in the order in which `draws` takes them out: first
/// the item at the place of the first draw, then what the other draws take
/// out of the list without that item.
pub open spec fn taken_out<T>(list: Seq<T>, draws: Seq<int>) -> Seq<T>
    decreases draws.len(),
{
    if draws.len() == 0 {
        Seq::empty()
    } else {
        seq![list[draws[0]]] + taken_out(list.remove(draws[0]), draws.drop_first())
    }
}

/// `shuffled` is an order that some draws take the items of `list` out in.
pub open spec fn is_drawn_order<T>(shuffled: Seq<T>, list: Seq<T>) -> bool {
    exists|draws: Seq<int>|
        fit_draws(draws, list.len() as int) && shuffled == #[trigger] taken_out(list, draws)
}

/// After the first draw the other draws fit the items that are left.
proof fn lemma_fit_rest(draws: Seq<int>, n: int)
    requires
        fit_draws(draws, n),
        n > 0,
    ensures
        fit_draws(draws.drop_first(), n - 1),
{
    let rest = draws.drop_first();
    assert forall|k: int| 0 <= k < n - 1 implies 0 <= #[trigger] rest[k] < n - 1 - k by {
        assert(rest[k] == draws[k + 1]);
    }
}

/// Whatever is drawn, every item is taken out once: the order that comes out
/// holds the items of the list, each from a place of its own.
pub proof fn lemma_taken_out_reorders<T>(list: Seq<T>, draws: Seq<int>) -> (order: Seq<int>)
    requires
        fit_draws(draws, list.len() as int),
    ensures
        reorders(order, taken_out(list, draws), list),
        is_reordering(taken_out(list, draws), list),
        taken_out(list, draws).to_multiset() == list.to_multiset(),
    decreases draws.len(),
{
    let n = list.len() as int;
    let out = taken_out(list, draws);
    if n == 0 {
        let order = Seq::<int>::empty();
        assert(out =~= list);
        assert(reorders(order, out, list));
        order
    } else {
        let d = draws[0];
        let rest = list.remove(d);
        let tail = draws.drop_first();
        lemma_fit_rest(draws, n);
        let sub = lemma_taken_out_reorders(rest, tail);
        let behind = taken_out(rest, tail);
        // The place in `list` of the item at place `j` of `rest`.
        let lifted = Seq::new(
            sub.len(),
            |k: int|
                if sub[k] < d {
                    sub[k]
                } else {
                    sub[k] + 1
                },
        );
        let order = seq![d] + lifted;
        assert(out == seq![list[d]] + behind);
        assert forall|k: int| 0 <= k < order.len() implies 0 <= #[trigger] order[k] < n by {
            if k > 0 {
                assert(0 <= sub[k - 1] < n - 1);
            }
        }
        assert forall|a: int, b: int|
            0 <= a < order.len() && 0 <= b < order.len() && a != b implies order[a]
            != order[b] by {
            if a > 0 && b > 0 {
                assert(sub[a - 1] != sub[b - 1]);
            }
        }
        assert(is_ranking(order, n));
        assert forall|k: int| 0 <= k < out.len() implies out[k] == list[#[trigger] order[k]] by {
            if k > 0 {
                assert(out[k] == behind[k - 1]);
                assert(behind[k - 1] == rest[sub[k - 1]]);
                assert(0 <= sub[k - 1] < n - 1);
            }
        }
        assert(reorders(order, out, list));
        assert(out.to_multiset() == list.to_multiset()) by {
            assert(out =~= behind.insert(0, list[d]));
            to_multiset_insert(behind, 0, list[d]);
            to_multiset_remove(list, d);
            list.to_multiset_ensures();
            assert(list.to_multiset().count(list[d]) > 0);
            assert(list.to_multiset().remove(list[d]).insert(list[d]) =~= list.to_multiset());
        }
        order
    }
}

/// Of items that are all different, different draws make different orders:
/// every ordering comes of one sequence of draws and no other.
pub proof fn lemma_draws_decide_order<T>(list: Seq<T>, first: Seq<int>, second: Seq<int>)
    requires
        list.no_duplicates(),
        fit_draws(first, list.len() as int),
        fit_draws(second, list.len() as int),
        taken_out(list, first) == taken_out(list, second),
    ensures
        first == second,
    decreases list.len(),
{
    let n = list.len() as int;
    if n > 0 {
        let a = taken_out(list, first);
        let b = taken_out(list, second);
        let d = first[0];
        let rest = list.remove(d);
        let behind_a = taken_out(rest, first.drop_first());
        let behind_b = taken_out(list.remove(second[0]), second.drop_first());
        assert(a == seq![list[d]] + behind_a);
        assert(b == seq![list[second[0]]] + behind_b);
        assert(a[0] == list[d]);
        assert(b[0] == list[second[0]]);
        assert(second[0] == d);
        assert(behind_a =~= a.drop_first());
        assert(behind_b =~= b.drop_first());
        assert forall|i: int, j: int|
            0 <= i < rest.len() && 0 <= j < rest.len() && i != j implies rest[i] != rest[j] by {
            let from = |k: int|
                if k < d {
                    k
                } else {
                    k + 1
                };
            assert(rest[i] == list[from(i)]);
            assert(rest[j] == list[from(j)]);
        }
        lemma_fit_rest(first, n);
        lemma_fit_rest(second, n);
        lemma_draws_decide_order(rest, first.drop_first(), second.drop_first());
        assert forall|k: int| 0 <= k < n implies first[k] == second[k] by {
            if k > 0 {
                assert(first[k] == first.drop_first()[k - 1]);
                assert(second[k] == second.drop_first()[k - 1]);
            }
        }
    }
    assert(first =~= second);
}

/// The draws for an ordering of `n` items, in the order in which they are
/// needed: each is drawn below the number of items that are left then.
pub fn draw_places(n: usize, rng: &mut RandomSource) -> (draws: Vec<usize>)
    ensures
        fit_draws(ints(draws@), n as int),
{
    let mut draws: Vec<usize> = Vec::new();
    let mut k: usize = 0;
    while k < n
        invariant
            k <= n,
            draws.len() == k,
            forall|j: int| 0 <= j < k ==> 0 <= #[trigger] draws[j] < n - j,
        decreases n - k,
    {
        let place = rng.below(n - k);
        draws.push(place);
        k += 1;
    }
    draws
}

/// The items of `list` in the order in which `draws` takes them out: again
/// and again the item at the drawn place of those left is taken out and put
/// behind those taken before, and those left close ranks.
pub fn arrange<T>(list: Vec<T>, draws: &Vec<usize>) -> (shuffled: Vec<T>)
    requires
        fit_draws(ints(draws@), list.len() as int),
    ensures
        shuffled@ == taken_out(list@, ints(draws@)),
{
    let ghost all = ints(draws@);
    let mut pool = list;
    let mut shuffled: Vec<T> = Vec::new();
    let mut k: usize = 0;
    proof {
        assert(all.skip(0) =~= all);
        assert(shuffled@ + taken_out(pool@, all.skip(0)) =~= taken_out(list@, all));
    }
    while k < draws.len()
        invariant
            k <= draws.len(),
            all == ints(draws@),
            fit_draws(all, list.len() as int),
            pool.len() == list.len() - k,
            shuffled@ + taken_out(pool@, all.skip(k as int)) == taken_out(list@, all),
        decreases draws.len() - k,
    {
        let place = draws[k];
        let ghost left = pool@;
        let ghost taken = shuffled@;
        proof {
            assert(all[k as int] == place);
            assert(all.skip(k as int)[0] == place);
            assert(all.skip(k as int).drop_first() =~= all.skip(k + 1));
        }
        let item = pool.remove(place);
        shuffled.push(item);
        proof {
            assert(taken_out(left, all.skip(k as int)) == seq![left[place as int]] + taken_out(
                pool@,
                all.skip(k + 1),
            ));
            assert(shuffled@ + taken_out(pool@, all.skip(k + 1)) =~= taken + taken_out(
                left,
                all.skip(k as int),
            ));
        }
        k += 1;
    }
    proof {
        assert(all.skip(k as int) =~= Seq::empty());
        assert(shuffled@ + taken_out(pool@, all.skip(k as int)) =~= shuffled@);
    }
    shuffled
}

/// The items of `list` in a random order: as many places as there are items
/// are drawn from `rng`, and the items are taken out as the draws say.
/// Whatever is drawn, every item of `list` comes out once.
pub fn random_permutation<T>(list: Vec<T>, rng: &mut RandomSource) -> (shuffled: Vec<T>)
    ensures
        is_drawn_order(shuffled@, list@),
        is_reordering(shuffled@, list@),
        shuffled@.to_multiset() == list@.to_multiset(),
        shuffled.len() == list.len(),
{
    let draws = draw_places(list.len(), rng);
    proof {
        lemma_taken_out_reorders(list@, ints(draws@));
    }
    arrange(list, &draws)
}

} // verus!
