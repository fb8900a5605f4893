//! Natural ordering of names: digit runs compare by their numeric value.

use natural_sort_rs::NaturalSort;
use natural_sort_rs::NaturalSortable;
use std::cmp::Ordering;
use vstd::prelude::*;

verus! {

/// Outcome of comparing two names.
#[derive(Clone, Copy, Debug, PartialEq, Eq, Structural)]
pub enum Rank {
    Before,
    Same,
    After,
}

/// Where `a` stands relative to `b` in natural order: the order of bytes,
/// except that runs of digits compare by their numeric value.
pub uninterp spec fn natural_order(a: Seq<char>, b: Seq<char>) -> Rank;

/// The names of `names` in natural order, tied names in the order in which
/// `names` has them.
pub uninterp spec fn natural_sorted(names: Seq<Seq<char>>) -> Seq<Seq<char>>;

/// The views of a sequence of strings.
pub open spec fn views(names: Seq<String>) -> Seq<Seq<char>> {
    names.map_values(|s: String| s@)
}

/// No name of `names` stands after a later one in natural order.
pub open spec fn in_natural_order(names: Seq<Seq<char>>) -> bool {
    forall|i: int, j: int|
        0 <= i < j < names.len() ==> natural_order(#[trigger] names[i], #[trigger] names[j])
            != Rank::After
}

/// `natural_sort_rs::NaturalSortable::natural_cmp` on two string slices, with
/// the three outcomes of the comparison under the names of [`Rank`]. Nothing
/// is proved of it: the contract claims that the outcome depends on the two
/// strings alone.
#[verifier::external_body]
fn natural_rank(a: &str, b: &str) -> (r: Rank)
    ensures
        r == natural_order(a@, b@),
{
    match a.natural_cmp(b) {
        Ordering::Less => Rank::Before,
        Ordering::Equal => Rank::Same,
        Ordering::Greater => Rank::After,
    }
}

/// `natural_sort_rs::NaturalSort::natural_sort` on a vector of strings, which
/// is the stable sort of std with `natural_cmp` as its comparison. Nothing is
/// proved of it: the contract claims that the outcome depends on the names
/// alone, that it holds each name as often as the input does, and that no
/// name of it stands after a later one under `natural_cmp`. The last claim
/// rests on `natural_cmp` ordering any names consistently, ties apart, which
/// it does by comparing them token by token.
#[verifier::external_body]
fn natural_sort(names: &mut Vec<String>)
    ensures
        views(final(names)@) == natural_sorted(views(old(names)@)),
        views(final(names)@).to_multiset() == views(old(names)@).to_multiset(),
        in_natural_order(views(final(names)@)),
{
    names.natural_sort::<str>();
}

/// Compares two names in natural order.
pub fn compare_natural(a: &str, b: &str) -> (r: Rank)
    ensures
        r == natural_order(a@, b@),
{
    natural_rank(a, b)
}

/// Sorts `names` in natural order; names that compare equal keep their order.
pub fn sort_natural(names: Vec<String>) -> (sorted: Vec<String>)
    ensures
        views(sorted@) == natural_sorted(views(names@)),
        views(sorted@).to_multiset() == views(names@).to_multiset(),
        in_natural_order(views(sorted@)),
{
    let mut sorted = names;
    natural_sort(&mut sorted);
    sorted
}

} // verus!
