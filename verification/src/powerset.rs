//! The subsets of the variable features, enumerated by `itertools::Powerset`.
use itertools::{Itertools, Powerset};
use std::vec::IntoIter;
use vstd::prelude::*;

verus! {

#[verifier::external_type_specification]
#[verifier::external_body]
#[verifier::reject_recursive_types(I)]
pub struct ExPowerset<I: Iterator>(Powerset<I>);

/// The subsets that `Itertools::powerset` enumerates for `items`, in its order.
pub uninterp spec fn powerset_list(items: Seq<usize>) -> Seq<Seq<usize>>;

/// The subsets a powerset iterator has yet to hand out, in order.
pub uninterp spec fn pending(p: Powerset<IntoIter<usize>>) -> Seq<Seq<usize>>;

/// What the documentation and source of `powerset` give of its subsets: the
/// empty subset comes first and the subsets come by size, smallest first; each
/// is made of items of the input, with no item twice when the input has none
/// twice, and every subset of the input is among them.
pub open spec fn is_powerset_of(list: Seq<Seq<usize>>, items: Seq<usize>) -> bool {
    &&& list.len() > 0
    &&& list[0] == Seq::<usize>::empty()
    &&& forall|i: int, j: int|
        0 <= i <= j < list.len() ==> (#[trigger] list[i]).len() <= (#[trigger] list[j]).len()
    &&& forall|i: int, j: int|
        0 <= i < list.len() && 0 <= j < list[i].len() ==> items.contains(#[trigger] list[i][j])
    &&& items.no_duplicates() ==> forall|i: int|
        0 <= i < list.len() ==> (#[trigger] list[i]).no_duplicates()
    &&& forall|s: Set<usize>|
        s.subset_of(items.to_set()) ==> exists|i: int|
            0 <= i < list.len() && (#[trigger] list[i]).to_set() == s
}

/// `Itertools::powerset` on the items of `items`: an iterator over all subsets.
#[verifier::external_body]
pub(crate) fn powerset_of(items: Vec<usize>) -> (p: Powerset<IntoIter<usize>>)
    ensures
        pending(p) == powerset_list(items@),
        is_powerset_of(pending(p), items@),
{
    items.into_iter().powerset()
}

/// `Iterator::next` of `Powerset`: the next subset, or `None` once all were handed
/// out (and from then on).
#[verifier::external_body]
pub(crate) fn next_subset(p: &mut Powerset<IntoIter<usize>>) -> (r: Option<Vec<usize>>)
    ensures
        pending(*old(p)).len() > 0 ==> (r matches Some(v) && v@ == pending(*old(p))[0]),
        pending(*old(p)).len() > 0 ==> pending(*final(p)) == pending(*old(p)).drop_first(),
        pending(*old(p)).len() == 0 ==> r is None && pending(*final(p)) == pending(*old(p)),
{
    p.next()
}

} // verus!
