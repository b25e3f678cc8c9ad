use itertools::Itertools;
use rand::seq::IteratorRandom;
use rand::Rng;
use vstd::prelude::*;

verus! {

/// Draws an integer from `lo..=hi` with `rand`'s `Rng::gen_range` on the
/// thread-local generator. The call panics on an empty range, which the
/// precondition excludes; of the outcome only its range is known.
#[verifier::external_body]
pub(crate) fn draw(lo: usize, hi: usize) -> (r: usize)
    requires
        lo <= hi,
    ensures
        lo <= r <= hi,
{
    rand::thread_rng().gen_range(lo..=hi)
}

/// Tosses a fair coin with `rand`'s `Rng::gen_ratio(1, 2)`. Nothing is known
/// of the outcome.
#[verifier::external_body]
pub(crate) fn coin() -> (r: bool) {
    rand::thread_rng().gen_ratio(1, 2)
}

/// Picks one element of `ids` with `rand`'s `IteratorRandom::choose`, which
/// returns `None` exactly for an empty iterator and otherwise one of the
/// items it was given.
#[verifier::external_body]
pub(crate) fn choose_one(ids: &Vec<usize>) -> (r: Option<usize>)
    ensures
        r is None <==> ids@.len() == 0,
        r matches Some(x) ==> ids@.contains(x),
{
    ids.iter().copied().choose(&mut rand::thread_rng())
}

/// Sorts ids ascending with `itertools`' `Itertools::sorted`, which collects
/// the items and sorts them with the slice sort: the result holds the same
/// items, in non-decreasing order.
#[verifier::external_body]
pub(crate) fn sorted_ids(ids: Vec<usize>) -> (r: Vec<usize>)
    ensures
        r@.to_multiset() == ids@.to_multiset(),
        forall|i: int, j: int| 0 <= i <= j < r@.len() ==> r@[i] <= r@[j],
{
    ids.into_iter().sorted().collect()
}

/// Pairs each element of `route` with its successor, using `itertools`'
/// `Itertools::tuple_windows`: one pair per adjacent couple, in order.
#[verifier::external_body]
pub(crate) fn adjacent_pairs(route: &Vec<usize>) -> (r: Vec<(usize, usize)>)
    ensures
        r@.len() == if route@.len() == 0 {
            0
        } else {
            route@.len() - 1
        },
        forall|i: int| 0 <= i < r@.len() ==> r@[i] == (route@[i], route@[i + 1]),
{
    route.iter().copied().tuple_windows().collect()
}

} // verus!
