//! The order in which a package's features are numbered, and the set of
//! features that each one enables.
//!
//! Features are placed one at a time: the first of the remaining features whose
//! dependencies are all placed is taken out with `swap_remove` and gets the next
//! number. A feature's set is its own number (when it fits in a word) and the
//! sets of its dependencies.
use vstd::prelude::*;

verus! {

/// A feature as the ordering sees it: its name and the names of the features
/// of the same package that it depends on.
pub type Entry = (Seq<char>, Seq<Seq<char>>);

/// The names of a list of entries.
pub open spec fn names_of(entries: Seq<Entry>) -> Seq<Seq<char>> {
    entries.map_values(|e: Entry| e.0)
}

/// Every dependency of `e` is among `placed`.
pub open spec fn ready(e: Entry, placed: Seq<Seq<char>>) -> bool {
    forall|j: int| 0 <= j < e.1.len() ==> placed.contains(#[trigger] e.1[j])
}

/// The position of the first ready entry of `rem`, or `rem.len()` when none is.
pub open spec fn first_ready(rem: Seq<Entry>, placed: Seq<Seq<char>>) -> nat
    decreases rem.len(),
{
    if rem.len() == 0 {
        0
    } else if ready(rem[0], placed) {
        0
    } else {
        1 + first_ready(rem.drop_first(), placed)
    }
}

/// `Vec::swap_remove` on a sequence: the last element takes the place of the one
/// at `p`.
pub open spec fn swap_removed(rem: Seq<Entry>, p: int) -> Seq<Entry> {
    rem.update(p, rem.last()).drop_last()
}

/// The entries in the order they are placed, after `placed`; `None` when the
/// placement gets stuck with entries left and none of them ready.
pub open spec fn placement(rem: Seq<Entry>, placed: Seq<Entry>) -> Option<Seq<Entry>>
    decreases rem.len(),
{
    if rem.len() == 0 {
        Some(placed)
    } else {
        let p = first_ready(rem, names_of(placed));
        if p >= rem.len() {
            None
        } else {
            placement(swap_removed(rem, p as int), placed.push(rem[p as int]))
        }
    }
}

/// The positions, among `placed`, of the names `deps`.
pub open spec fn dep_positions(placed: Seq<Entry>, deps: Seq<Seq<char>>) -> Seq<int> {
    deps.map_values(|d: Seq<char>| names_of(placed).index_of(d))
}

/// The union of `sets` at the positions `idxs`.
pub open spec fn union_at(sets: Seq<Set<nat>>, idxs: Seq<int>) -> Set<nat>
    decreases idxs.len(),
{
    if idxs.len() == 0 {
        Set::empty()
    } else {
        union_at(sets, idxs.drop_last()).union(sets[idxs.last()])
    }
}

/// The positions among `idxs` that fit in a word.
pub open spec fn word_positions(idxs: Seq<int>) -> Set<nat>
    decreases idxs.len(),
{
    if idxs.len() == 0 {
        Set::empty()
    } else {
        let rest = word_positions(idxs.drop_last());
        if 0 <= idxs.last() < 64 {
            rest.insert(idxs.last() as nat)
        } else {
            rest
        }
    }
}

/// The positions among `idxs` that fit in a word, as a set comprehension.
pub proof fn lemma_word_positions(idxs: Seq<int>)
    ensures
        word_positions(idxs) == Set::new(|i: nat| i < 64 && idxs.contains(i as int)),
    decreases idxs.len(),
{
    if idxs.len() > 0 {
        let init = idxs.drop_last();
        lemma_word_positions(init);
        assert forall|i: nat| word_positions(idxs).contains(i) <==> (i < 64 && idxs.contains(
            i as int,
        )) by {
            if idxs.contains(i as int) {
                let k = choose|k: int| 0 <= k < idxs.len() && idxs[k] == i as int;
                if k < idxs.len() - 1 {
                    assert(init[k] == idxs[k]);
                }
            }
            if init.contains(i as int) {
                let k = choose|k: int| 0 <= k < init.len() && init[k] == i as int;
                assert(idxs[k] == init[k]);
            }
        }
        assert(word_positions(idxs) =~= Set::new(|i: nat| i < 64 && idxs.contains(i as int)));
    } else {
        assert(word_positions(idxs) =~= Set::new(|i: nat| i < 64 && idxs.contains(i as int)));
    }
}

/// The position `i` as a set, empty when it does not fit in a word.
pub open spec fn own_bit(i: int) -> Set<nat> {
    if 0 <= i < 64 {
        set![i as nat]
    } else {
        Set::empty()
    }
}

/// The set of each placed feature: its own position and the sets of the
/// features it depends on.
pub open spec fn closure_sets(order: Seq<Entry>) -> Seq<Set<nat>>
    decreases order.len(),
{
    if order.len() == 0 {
        Seq::empty()
    } else {
        let prev = closure_sets(order.drop_last());
        let deps = dep_positions(order.drop_last(), order.last().1);
        prev.push(own_bit(order.len() - 1).union(union_at(prev, deps)))
    }
}

/// Every feature of `order` depends only on features placed before it.
pub open spec fn topological(order: Seq<Entry>) -> bool {
    forall|i: int, j: int|
        0 <= i < order.len() && 0 <= j < order[i].1.len() ==> names_of(order.take(i)).contains(
            #[trigger] order[i].1[j],
        )
}

/// A nonempty set of remaining names, none of them placed, in which each feature
/// depends on another feature of the set: none of them can ever be placed.
pub open spec fn blocked(rem: Seq<Entry>, placed: Seq<Seq<char>>, s: Set<Seq<char>>) -> bool {
    &&& s.len() > 0
    &&& s.finite()
    &&& s.subset_of(names_of(rem).to_set())
    &&& forall|n: Seq<char>| s.contains(n) ==> !placed.contains(n)
    &&& forall|i: int|
        0 <= i < rem.len() && s.contains(#[trigger] rem[i].0) ==> exists|j: int|
            0 <= j < rem[i].1.len() && s.contains(#[trigger] rem[i].1[j])
}

/// The first ready entry: its position, and that no earlier entry is ready.
pub proof fn lemma_first_ready(rem: Seq<Entry>, placed: Seq<Seq<char>>)
    ensures
        first_ready(rem, placed) <= rem.len(),
        first_ready(rem, placed) < rem.len() ==> ready(rem[first_ready(rem, placed) as int], placed),
        forall|q: int| 0 <= q < first_ready(rem, placed) ==> !ready(#[trigger] rem[q], placed),
    decreases rem.len(),
{
    if rem.len() > 0 && !ready(rem[0], placed) {
        lemma_first_ready(rem.drop_first(), placed);
        assert forall|q: int| 0 <= q < first_ready(rem, placed) implies !ready(
            #[trigger] rem[q],
            placed,
        ) by {
            if q > 0 {
                assert(rem[q] == rem.drop_first()[q - 1]);
            }
        }
    }
}

pub proof fn lemma_names_push(placed: Seq<Entry>, e: Entry)
    ensures
        names_of(placed.push(e)) == names_of(placed).push(e.0),
{
    assert(names_of(placed.push(e)) =~= names_of(placed).push(e.0));
}

proof fn lemma_swap_removed_contains(rem: Seq<Entry>, p: int, q: int)
    requires
        0 <= p < rem.len(),
        0 <= q < rem.len(),
        q != p,
    ensures
        swap_removed(rem, p).contains(rem[q]),
{
    let r = swap_removed(rem, p);
    if q == rem.len() - 1 {
        assert(r[p] == rem[q]);
    } else {
        assert(r[q] == rem[q]);
    }
}

proof fn lemma_swap_removed_from(rem: Seq<Entry>, p: int, k: int)
    requires
        0 <= p < rem.len(),
        0 <= k < rem.len() - 1,
    ensures
        exists|q: int| 0 <= q < rem.len() && q != p && swap_removed(rem, p)[k] == #[trigger] rem[q],
{
    if k == p {
        assert(swap_removed(rem, p)[k] == rem[rem.len() - 1]);
    } else {
        assert(swap_removed(rem, p)[k] == rem[k]);
    }
}

/// A successful placement keeps the entries already placed in front, and every
/// entry it adds was ready when it was added.
proof fn lemma_placement_shape(rem: Seq<Entry>, placed: Seq<Entry>)
    requires
        placement(rem, placed) is Some,
    ensures
        ({
            let order = placement(rem, placed)->0;
            &&& order.len() == placed.len() + rem.len()
            &&& order.take(placed.len() as int) == placed
            &&& forall|i: int|
                placed.len() <= i < order.len() ==> ready(
                    #[trigger] order[i],
                    names_of(order.take(i)),
                )
            &&& forall|k: int| 0 <= k < rem.len() ==> order.contains(#[trigger] rem[k])
            &&& forall|i: int|
                placed.len() <= i < order.len() ==> rem.contains(#[trigger] order[i])
        }),
    decreases rem.len(),
{
    let order = placement(rem, placed)->0;
    if rem.len() == 0 {
        assert(order.take(placed.len() as int) =~= placed);
    } else {
        let p = first_ready(rem, names_of(placed));
        lemma_first_ready(rem, names_of(placed));
        let rem2 = swap_removed(rem, p as int);
        let placed2 = placed.push(rem[p as int]);
        lemma_placement_shape(rem2, placed2);
        assert(order.take(placed2.len() as int) == placed2);
        assert(order.take(placed.len() as int) =~= placed2.take(placed.len() as int));
        assert(placed2.take(placed.len() as int) =~= placed);
        assert forall|i: int| placed.len() <= i < order.len() implies ready(
            #[trigger] order[i],
            names_of(order.take(i)),
        ) by {
            if i == placed.len() {
                assert(order[i] == placed2[i]);
                assert(order.take(i) == placed);
            }
        }
        assert forall|k: int| 0 <= k < rem.len() implies order.contains(#[trigger] rem[k]) by {
            if k == p {
                assert(order[placed.len() as int] == placed2[placed.len() as int]);
            } else {
                lemma_swap_removed_contains(rem, p as int, k);
                let q = choose|q: int| 0 <= q < rem2.len() && rem2[q] == rem[k];
                assert(order.contains(rem2[q]));
            }
        }
        assert forall|i: int| placed.len() <= i < order.len() implies rem.contains(
            #[trigger] order[i],
        ) by {
            if i == placed.len() {
                assert(order[i] == placed2[i]);
            } else {
                assert(rem2.contains(order[i]));
                let k = choose|k: int| 0 <= k < rem2.len() && rem2[k] == order[i];
                lemma_swap_removed_from(rem, p as int, k);
            }
        }
    }
}

/// Law: a placement of all features from nothing is a topological order that
/// holds each feature exactly once.
pub proof fn lemma_placement_topological(rem: Seq<Entry>)
    requires
        placement(rem, Seq::empty()) is Some,
    ensures
        ({
            let order = placement(rem, Seq::empty())->0;
            &&& topological(order)
            &&& order.len() == rem.len()
            &&& forall|k: int| 0 <= k < rem.len() ==> order.contains(#[trigger] rem[k])
            &&& forall|i: int| 0 <= i < order.len() ==> rem.contains(#[trigger] order[i])
        }),
{
    lemma_placement_shape(rem, Seq::empty());
    let order = placement(rem, Seq::empty())->0;
    assert forall|i: int, j: int|
        0 <= i < order.len() && 0 <= j < order[i].1.len() implies names_of(order.take(i)).contains(
        #[trigger] order[i].1[j],
    ) by {
        assert(ready(order[i], names_of(order.take(i))));
    }
}

/// Every dependency is one of the features, and no name is given twice.
pub open spec fn well_named(rem: Seq<Entry>, placed: Seq<Entry>) -> bool {
    &&& (names_of(placed) + names_of(rem)).no_duplicates()
    &&& forall|i: int, j: int|
        0 <= i < rem.len() && 0 <= j < rem[i].1.len() ==> (names_of(placed) + names_of(
            rem,
        )).contains(#[trigger] rem[i].1[j])
}

proof fn lemma_blocked_step(rem: Seq<Entry>, placed: Seq<Entry>, s: Set<Seq<char>>, p: int)
    requires
        0 <= p < rem.len(),
        ready(rem[p], names_of(placed)),
        blocked(rem, names_of(placed), s),
    ensures
        blocked(swap_removed(rem, p), names_of(placed.push(rem[p])), s),
{
    let rem2 = swap_removed(rem, p);
    lemma_names_push(placed, rem[p]);
    // The placed entry is not in the set: it would need a dependency in the set,
    // which is not placed.
    if s.contains(rem[p].0) {
        let j = choose|j: int| 0 <= j < rem[p].1.len() && s.contains(#[trigger] rem[p].1[j]);
        assert(names_of(placed).contains(rem[p].1[j]));
        assert(false);
    }
    assert forall|n: Seq<char>| s.contains(n) implies names_of(rem2).to_set().contains(n) by {
        assert(names_of(rem).to_set().contains(n));
        assert(names_of(rem).contains(n));
        let q = choose|q: int| 0 <= q < names_of(rem).len() && names_of(rem)[q] == n;
        assert(rem[q].0 == n);
        assert(q != p);
        lemma_swap_removed_contains(rem, p, q);
        let k = choose|k: int| 0 <= k < rem2.len() && rem2[k] == rem[q];
        assert(names_of(rem2)[k] == n);
        assert(names_of(rem2).contains(n));
    }
    assert forall|i: int|
        0 <= i < rem2.len() && s.contains(#[trigger] rem2[i].0) implies exists|j: int|
        0 <= j < rem2[i].1.len() && s.contains(#[trigger] rem2[i].1[j]) by {
        lemma_swap_removed_from(rem, p, i);
        let q = choose|q: int| 0 <= q < rem.len() && q != p && rem2[i] == #[trigger] rem[q];
        assert(s.contains(rem[q].0));
    }
}

/// A blocked set keeps the placement from ever finishing.
proof fn lemma_blocked_stuck(rem: Seq<Entry>, placed: Seq<Entry>, s: Set<Seq<char>>)
    requires
        blocked(rem, names_of(placed), s),
    ensures
        placement(rem, placed) is None,
    decreases rem.len(),
{
    let n = s.choose();
    assert(s.contains(n));
    assert(names_of(rem).to_set().contains(n));
    assert(rem.len() > 0);
    let p = first_ready(rem, names_of(placed));
    lemma_first_ready(rem, names_of(placed));
    if p < rem.len() {
        lemma_blocked_step(rem, placed, s, p as int);
        lemma_blocked_stuck(swap_removed(rem, p as int), placed.push(rem[p as int]), s);
    }
}

pub proof fn lemma_well_named_step(rem: Seq<Entry>, placed: Seq<Entry>, p: int)
    requires
        0 <= p < rem.len(),
        well_named(rem, placed),
    ensures
        well_named(swap_removed(rem, p), placed.push(rem[p])),
{
    let rem2 = swap_removed(rem, p);
    let placed2 = placed.push(rem[p]);
    lemma_names_push(placed, rem[p]);
    let all = names_of(placed) + names_of(rem);
    let all2 = names_of(placed2) + names_of(rem2);
    // The names after the step are those before, reordered.
    let np: int = names_of(placed).len() as int;
    let last: int = rem.len() - 1;
    assert(all2.len() == all.len());
    assert forall|k: int| 0 <= k < all2.len() implies #[trigger] all2[k] == all[moved_from(
        np,
        p,
        last,
        k,
    )] by {
        if k > np {
            assert(all2[k] == names_of(rem2)[k - np - 1]);
            assert(rem2[k - np - 1] == (if k - np - 1 == p {
                rem[last]
            } else {
                rem[k - np - 1]
            }));
        }
    }
    assert(all2.no_duplicates()) by {
        assert forall|a: int, b: int|
            0 <= a < all2.len() && 0 <= b < all2.len() && a != b implies all2[a] != all2[b] by {
            assert(all2[a] == all[moved_from(np, p, last, a)]);
            assert(all2[b] == all[moved_from(np, p, last, b)]);
        }
    }
    assert forall|n: Seq<char>| all.contains(n) implies all2.contains(n) by {
        let k = choose|k: int| 0 <= k < all.len() && all[k] == n;
        let g = if k < np {
            k
        } else if k == np + p {
            np
        } else if k == np + last {
            np + 1 + p
        } else {
            k + 1
        };
        assert(moved_from(np, p, last, g) == k);
        assert(all2[g] == all[k]);
    }
    assert forall|i: int, j: int|
        0 <= i < rem2.len() && 0 <= j < rem2[i].1.len() implies all2.contains(
        #[trigger] rem2[i].1[j],
    ) by {
        lemma_swap_removed_from(rem, p, i);
        let q = choose|q: int| 0 <= q < rem.len() && q != p && rem2[i] == #[trigger] rem[q];
        assert(all.contains(rem[q].1[j]));
    }
}

/// Where the name at position `k` after placing entry `p` stood before, for `np`
/// placed entries and `last + 1` remaining ones.
spec fn moved_from(np: int, p: int, last: int, k: int) -> int {
    if k < np {
        k
    } else if k == np {
        np + p
    } else if k - np - 1 == p {
        np + last
    } else {
        k - 1
    }
}

/// A placement that gets stuck leaves a blocked set: the names left over.
proof fn lemma_stuck_blocked(rem: Seq<Entry>, placed: Seq<Entry>)
    requires
        well_named(rem, placed),
        placement(rem, placed) is None,
    ensures
        exists|s: Set<Seq<char>>| blocked(rem, names_of(placed), s),
    decreases rem.len(),
{
    let p = first_ready(rem, names_of(placed));
    lemma_first_ready(rem, names_of(placed));
    if p >= rem.len() {
        let s = names_of(rem).to_set();
        let all = names_of(placed) + names_of(rem);
        assert(names_of(rem).len() > 0);
        assert(s.contains(names_of(rem)[0]));
        vstd::set::axiom_set_contains_len(s, names_of(rem)[0]);
        assert forall|n: Seq<char>| s.contains(n) implies !names_of(placed).contains(n) by {
            let k = choose|k: int| 0 <= k < names_of(rem).len() && names_of(rem)[k] == n;
            if names_of(placed).contains(n) {
                let a = choose|a: int| 0 <= a < names_of(placed).len() && names_of(placed)[a] == n;
                assert(all[a] == all[names_of(placed).len() + k]);
            }
        }
        assert forall|i: int| 0 <= i < rem.len() && s.contains(#[trigger] rem[i].0) implies exists|
            j: int,
        | 0 <= j < rem[i].1.len() && s.contains(#[trigger] rem[i].1[j]) by {
            assert(!ready(rem[i], names_of(placed)));
            let j = choose|j: int|
                0 <= j < rem[i].1.len() && !names_of(placed).contains(#[trigger] rem[i].1[j]);
            let d = rem[i].1[j];
            assert(all.contains(d));
            let k = choose|k: int| 0 <= k < all.len() && all[k] == d;
            assert(names_of(rem)[k - names_of(placed).len()] == d);
            assert(s.contains(d));
        }
        assert(blocked(rem, names_of(placed), s));
    } else {
        let rem2 = swap_removed(rem, p as int);
        let placed2 = placed.push(rem[p as int]);
        lemma_well_named_step(rem, placed, p as int);
        lemma_stuck_blocked(rem2, placed2);
        let s = choose|s: Set<Seq<char>>| blocked(rem2, names_of(placed2), s);
        lemma_names_push(placed, rem[p as int]);
        assert forall|n: Seq<char>| s.contains(n) implies names_of(rem).to_set().contains(n) by {
            assert(names_of(rem2).contains(n));
            let k = choose|k: int| 0 <= k < names_of(rem2).len() && names_of(rem2)[k] == n;
            lemma_swap_removed_from(rem, p as int, k);
            let q = choose|q: int| 0 <= q < rem.len() && q != p && rem2[k] == #[trigger] rem[q];
            assert(names_of(rem)[q] == n);
        }
        assert forall|i: int| 0 <= i < rem.len() && s.contains(#[trigger] rem[i].0) implies exists|
            j: int,
        | 0 <= j < rem[i].1.len() && s.contains(#[trigger] rem[i].1[j]) by {
            if i == p {
                assert(names_of(placed2).contains(rem[i].0)) by {
                    assert(names_of(placed2)[names_of(placed).len() as int] == rem[i].0);
                }
                assert(false);
            } else {
                lemma_swap_removed_contains(rem, p as int, i);
                let k = choose|k: int| 0 <= k < rem2.len() && rem2[k] == rem[i];
                assert(s.contains(rem2[k].0));
            }
        }
        assert forall|n: Seq<char>| s.contains(n) implies !names_of(placed).contains(n) by {
            if names_of(placed).contains(n) {
                let a = choose|a: int| 0 <= a < names_of(placed).len() && names_of(placed)[a] == n;
                assert(names_of(placed2)[a] == n);
            }
        }
        assert(blocked(rem, names_of(placed), s));
    }
}

/// Law: placing every feature fails exactly when some nonempty set of features
/// depend each on another feature of the set, that is, when the dependencies
/// hold a cycle.
pub proof fn lemma_placement_fails_iff_blocked(rem: Seq<Entry>)
    requires
        well_named(rem, Seq::empty()),
    ensures
        placement(rem, Seq::empty()) is None <==> exists|s: Set<Seq<char>>|
            blocked(rem, Seq::empty(), s),
{
    assert(names_of(Seq::<Entry>::empty()) =~= Seq::<Seq<char>>::empty());
    if placement(rem, Seq::empty()) is None {
        lemma_stuck_blocked(rem, Seq::empty());
    }
    if exists|s: Set<Seq<char>>| blocked(rem, Seq::empty(), s) {
        let s = choose|s: Set<Seq<char>>| blocked(rem, Seq::empty(), s);
        lemma_blocked_stuck(rem, Seq::empty(), s);
    }
}

/// The union at some positions stays within a bound that each set there keeps.
pub proof fn lemma_union_at_bounded(sets: Seq<Set<nat>>, idxs: Seq<int>, bound: Set<nat>)
    requires
        forall|k: int|
            0 <= k < idxs.len() ==> 0 <= #[trigger] idxs[k] < sets.len() && sets[idxs[k]].subset_of(
                bound,
            ),
    ensures
        union_at(sets, idxs).subset_of(bound),
    decreases idxs.len(),
{
    if idxs.len() > 0 {
        let init = idxs.drop_last();
        assert forall|k: int| 0 <= k < init.len() implies 0 <= #[trigger] init[k] < sets.len()
            && sets[init[k]].subset_of(bound) by {
            assert(init[k] == idxs[k]);
        }
        lemma_union_at_bounded(sets, init, bound);
        assert(sets[idxs[idxs.len() - 1]].subset_of(bound));
    }
}

/// The union at some positions holds the set at each of them.
pub proof fn lemma_union_at_holds(sets: Seq<Set<nat>>, idxs: Seq<int>, k: int)
    requires
        0 <= k < idxs.len(),
    ensures
        sets[idxs[k]].subset_of(union_at(sets, idxs)),
    decreases idxs.len(),
{
    if k < idxs.len() - 1 {
        lemma_union_at_holds(sets, idxs.drop_last(), k);
        assert(idxs.drop_last()[k] == idxs[k]);
    }
}

/// The sets of a prefix of the order are a prefix of the sets.
pub proof fn lemma_closure_prefix(order: Seq<Entry>, k: int)
    requires
        0 <= k <= order.len(),
    ensures
        closure_sets(order).len() == order.len(),
        closure_sets(order.take(k)) == closure_sets(order).take(k),
    decreases order.len(),
{
    if order.len() > 0 {
        lemma_closure_prefix(order.drop_last(), if k < order.len() {
            k
        } else {
            order.len() - 1
        });
        if k < order.len() {
            assert(order.drop_last().take(k) =~= order.take(k));
            assert(closure_sets(order).take(k) =~= closure_sets(order.drop_last()).take(k));
        } else {
            assert(order.take(k) =~= order);
            assert(closure_sets(order).take(k) =~= closure_sets(order));
        }
    } else {
        assert(order.take(k) =~= order);
        assert(closure_sets(order).take(k) =~= closure_sets(order));
    }
}

/// The names before position `i` are those of the first `i` entries.
proof fn lemma_names_take(order: Seq<Entry>, i: int)
    requires
        0 <= i <= order.len(),
    ensures
        names_of(order.take(i)) == names_of(order).take(i),
{
    assert(names_of(order.take(i)) =~= names_of(order).take(i));
}

/// Law: in a topological order with distinct names, the set of the feature at
/// position `i` holds only positions up to `i`, and only positions of a word.
pub proof fn lemma_closure_bounded(order: Seq<Entry>)
    requires
        topological(order),
        names_of(order).no_duplicates(),
    ensures
        closure_sets(order).len() == order.len(),
        forall|i: int, x: nat|
            0 <= i < order.len() && #[trigger] closure_sets(order)[i].contains(x) ==> x <= i
                && x < 64,
    decreases order.len(),
{
    lemma_closure_prefix(order, order.len() as int);
    if order.len() > 0 {
        let n = order.len() - 1;
        let prev_order = order.drop_last();
        assert forall|i: int, j: int|
            0 <= i < prev_order.len() && 0 <= j < prev_order[i].1.len() implies names_of(
            prev_order.take(i),
        ).contains(#[trigger] prev_order[i].1[j]) by {
            assert(prev_order.take(i) =~= order.take(i));
            assert(order[i].1[j] == prev_order[i].1[j]);
        }
        assert(names_of(prev_order) =~= names_of(order).drop_last());
        lemma_closure_bounded(prev_order);
        let prev = closure_sets(prev_order);
        let deps = dep_positions(prev_order, order.last().1);
        assert(order.take(n) =~= prev_order);
        assert forall|k: int| 0 <= k < deps.len() implies 0 <= #[trigger] deps[k] < prev.len()
            && prev[deps[k]].subset_of(Set::new(|x: nat| x < n && x < 64)) by {
            let d = order.last().1[k];
            assert(names_of(order.take(n)).contains(order[n].1[k]));
            assert(names_of(prev_order).contains(d));
            let q = names_of(prev_order).index_of(d);
            assert(deps[k] == q);
            assert forall|x: nat| prev[q].contains(x) implies x < n && x < 64 by {
                assert(x <= q);
            }
        }
        lemma_union_at_bounded(prev, deps, Set::new(|x: nat| x < n && x < 64));
        assert forall|i: int, x: nat|
            0 <= i < order.len() && #[trigger] closure_sets(order)[i].contains(x) implies x <= i
            && x < 64 by {
            if i < n {
                assert(closure_sets(order)[i] == prev[i]);
            }
        }
    }
}

/// Law: the set of a feature holds its own position (when it fits in a word) and
/// the set of each feature it depends on.
pub proof fn lemma_closure_holds_deps(order: Seq<Entry>, i: int)
    requires
        0 <= i < order.len(),
        topological(order),
        names_of(order).no_duplicates(),
    ensures
        i < 64 ==> closure_sets(order)[i].contains(i as nat),
        forall|j: int|
            0 <= j < order[i].1.len() ==> closure_sets(order)[names_of(order).index_of(
                #[trigger] order[i].1[j],
            )].subset_of(closure_sets(order)[i]),
{
    lemma_closure_prefix(order, i + 1);
    let pre = order.take(i + 1);
    let sets = closure_sets(order);
    assert(closure_sets(pre)[i] == sets[i]);
    assert(pre.drop_last() =~= order.take(i));
    lemma_closure_prefix(order, i);
    let prev = closure_sets(order.take(i));
    let deps = dep_positions(order.take(i), order[i].1);
    assert(sets[i] == own_bit(i).union(union_at(prev, deps)));
    assert forall|j: int| 0 <= j < order[i].1.len() implies sets[names_of(order).index_of(
        #[trigger] order[i].1[j],
    )].subset_of(sets[i]) by {
        let d = order[i].1[j];
        assert(names_of(order.take(i)).contains(d));
        lemma_names_take(order, i);
        let q = names_of(order.take(i)).index_of(d);
        assert(0 <= q < i);
        lemma_union_at_holds(prev, deps, j);
        assert(deps[j] == q);
        assert(prev[q] == sets[q]);
        assert(names_of(order)[q] == d);
        assert(names_of(order).index_of(d) == q);
    }
}

/// Feature `j` of `order` is one that feature `i` names as a dependency.
pub open spec fn depends_on(order: Seq<Entry>, i: int, j: int) -> bool {
    &&& 0 <= i < order.len()
    &&& 0 <= j < order.len()
    &&& exists|k: int|
        0 <= k < order[i].1.len() && names_of(order).index_of(#[trigger] order[i].1[k]) == j
}

/// A chain of features, each depending on the next.
pub open spec fn dep_chain(order: Seq<Entry>, path: Seq<int>) -> bool {
    &&& path.len() > 0
    &&& forall|k: int| 0 <= k < path.len() - 1 ==> depends_on(order, #[trigger] path[k], path[k + 1])
}

/// Feature `j` is reached from feature `i` through dependencies (or is `i`).
pub open spec fn reaches(order: Seq<Entry>, i: int, j: int) -> bool {
    exists|path: Seq<int>| #[trigger] dep_chain(order, path) && path[0] == i && path.last() == j
}

/// A position in a union at some positions is in the set at one of them.
proof fn lemma_union_at_member(sets: Seq<Set<nat>>, idxs: Seq<int>, x: nat)
    requires
        union_at(sets, idxs).contains(x),
    ensures
        exists|k: int| 0 <= k < idxs.len() && #[trigger] sets[idxs[k]].contains(x),
    decreases idxs.len(),
{
    let init = idxs.drop_last();
    if union_at(sets, init).contains(x) {
        lemma_union_at_member(sets, init, x);
        let k = choose|k: int| 0 <= k < init.len() && #[trigger] sets[init[k]].contains(x);
        assert(idxs[k] == init[k]);
    } else {
        assert(sets[idxs[idxs.len() - 1]].contains(x));
    }
}

/// A chain from `i` to `x` where each set along it holds the next one's.
proof fn lemma_chain_in_closure(order: Seq<Entry>, path: Seq<int>)
    requires
        topological(order),
        names_of(order).no_duplicates(),
        dep_chain(order, path),
        0 <= path[0] < order.len(),
        0 <= path.last() < 64,
    ensures
        closure_sets(order)[path[0]].contains(path.last() as nat),
    decreases path.len(),
{
    lemma_closure_prefix(order, order.len() as int);
    if path.len() == 1 {
        lemma_closure_holds_deps(order, path[0]);
    } else {
        let rest = path.drop_first();
        assert(depends_on(order, path[0], path[1]));
        assert forall|k: int| 0 <= k < rest.len() - 1 implies depends_on(
            order,
            #[trigger] rest[k],
            rest[k + 1],
        ) by {
            assert(depends_on(order, path[k + 1], path[k + 2]));
        }
        lemma_chain_in_closure(order, rest);
        let i = path[0];
        assert(depends_on(order, path[0], path[1]));
        let k = choose|k: int|
            0 <= k < order[i].1.len() && names_of(order).index_of(#[trigger] order[i].1[k])
                == path[1];
        lemma_closure_holds_deps(order, i);
        assert(closure_sets(order)[names_of(order).index_of(order[i].1[k])].subset_of(
            closure_sets(order)[i],
        ));
    }
}

/// Law: in a topological order with distinct names, the set of feature `i`
/// holds exactly the positions of a word that `i` reaches through its
/// dependencies, itself included.
pub proof fn lemma_closure_is_reachable(order: Seq<Entry>, i: int, x: nat)
    requires
        topological(order),
        names_of(order).no_duplicates(),
        0 <= i < order.len(),
    ensures
        closure_sets(order)[i].contains(x) <==> x < 64 && reaches(order, i, x as int),
    decreases i,
{
    lemma_closure_prefix(order, order.len() as int);
    if x < 64 && reaches(order, i, x as int) {
        let path = choose|path: Seq<int>|
            #[trigger] dep_chain(order, path) && path[0] == i && path.last() == x as int;
        lemma_chain_in_closure(order, path);
    }
    if closure_sets(order)[i].contains(x) {
        lemma_closure_bounded(order);
        lemma_closure_prefix(order, i + 1);
        lemma_closure_prefix(order, i);
        let pre = order.take(i + 1);
        assert(closure_sets(pre)[i] == closure_sets(order)[i]);
        assert(pre.drop_last() =~= order.take(i));
        let prev = closure_sets(order.take(i));
        let deps = dep_positions(order.take(i), order[i].1);
        assert(closure_sets(order)[i] == own_bit(i).union(union_at(prev, deps)));
        if own_bit(i).contains(x) {
            let path = seq![i];
            assert(dep_chain(order, path));
        } else {
            lemma_union_at_member(prev, deps, x);
            let j = choose|j: int| 0 <= j < deps.len() && #[trigger] prev[deps[j]].contains(x);
            let d = order[i].1[j];
            assert(names_of(order.take(i)).contains(d));
            lemma_names_take(order, i);
            let q = names_of(order.take(i)).index_of(d);
            assert(0 <= q < i);
            assert(deps[j] == q);
            assert(prev[q] == closure_sets(order)[q]);
            assert(names_of(order)[q] == d);
            assert(names_of(order).index_of(d) == q);
            lemma_closure_is_reachable(order, q, x);
            let path = choose|path: Seq<int>|
                #[trigger] dep_chain(order, path) && path[0] == q && path.last() == x as int;
            let full = seq![i] + path;
            assert(depends_on(order, i, q));
            assert forall|k: int| 0 <= k < full.len() - 1 implies depends_on(
                order,
                #[trigger] full[k],
                full[k + 1],
            ) by {
                if k > 0 {
                    assert(full[k] == path[k - 1]);
                    assert(full[k + 1] == path[k]);
                }
            }
            assert(dep_chain(order, full));
            assert(full.last() == x as int);
        }
    }
}

} // verus!
