//! The lexicographic ranking of evaluation vectors. Larger is better.

use vstd::prelude::*;
use vstd::multiset::Multiset;

verus! {

/// Whether `a` is lexicographically greater than `b`, both read from
/// position `from` on. A vector is greater than each of its proper prefixes.
pub open spec fn outranks_from(a: Seq<i64>, b: Seq<i64>, from: int) -> bool
    decreases a.len() - from,
{
    if from < 0 || from >= a.len() {
        false
    } else if from >= b.len() {
        true
    } else if a[from] != b[from] {
        a[from] > b[from]
    } else {
        outranks_from(a, b, from + 1)
    }
}

/// Whether `a` is strictly better than `b`: the first component in which
/// they differ decides, and the larger one wins.
pub open spec fn outranks(a: Seq<i64>, b: Seq<i64>) -> bool {
    outranks_from(a, b, 0)
}

/// Whether `a` is at least as good as `b`.
pub open spec fn holds_against(a: Seq<i64>, b: Seq<i64>) -> bool {
    !outranks(b, a)
}

/// The two vectors agree on every position before `upto`.
pub open spec fn agree_before(a: Seq<i64>, b: Seq<i64>, upto: int) -> bool {
    forall|j: int| 0 <= j < upto ==> a[j] == b[j]
}

proof fn lemma_asymmetric_from(a: Seq<i64>, b: Seq<i64>, from: int)
    requires
        0 <= from,
        outranks_from(a, b, from),
    ensures
        !outranks_from(b, a, from),
    decreases a.len() - from,
{
    if from < a.len() && from < b.len() && a[from] == b[from] {
        lemma_asymmetric_from(a, b, from + 1);
    }
}

proof fn lemma_total_from(a: Seq<i64>, b: Seq<i64>, from: int)
    requires
        0 <= from <= a.len(),
        from <= b.len(),
        agree_before(a, b, from),
        !outranks_from(a, b, from),
        !outranks_from(b, a, from),
    ensures
        a == b,
    decreases a.len() - from,
{
    if from < a.len() && from < b.len() {
        assert(a[from] == b[from]);
        lemma_total_from(a, b, from + 1);
    } else {
        assert(a.len() == b.len());
        assert(a =~= b);
    }
}

proof fn lemma_transitive_from(a: Seq<i64>, b: Seq<i64>, c: Seq<i64>, from: int)
    requires
        0 <= from,
        outranks_from(a, b, from),
        outranks_from(b, c, from),
    ensures
        outranks_from(a, c, from),
    decreases a.len() - from,
{
    if from < c.len() && a[from] == b[from] && b[from] == c[from] {
        lemma_transitive_from(a, b, c, from + 1);
    }
}

proof fn lemma_chain_from(a: Seq<i64>, b: Seq<i64>, c: Seq<i64>, from: int)
    requires
        0 <= from,
        !outranks_from(b, a, from),
        !outranks_from(c, b, from),
    ensures
        !outranks_from(c, a, from),
    decreases c.len() - from,
{
    if from < c.len() && from < b.len() && from < a.len() && a[from] == b[from] && b[from]
        == c[from] {
        lemma_chain_from(a, b, c, from + 1);
    }
}

/// No vector is strictly better than itself.
pub proof fn lemma_outranks_irreflexive(a: Seq<i64>)
    ensures
        !outranks(a, a),
        holds_against(a, a),
{
    if outranks(a, a) {
        lemma_asymmetric_from(a, a, 0);
    }
}

/// Of two vectors at most one is strictly better than the other.
pub proof fn lemma_outranks_asymmetric(a: Seq<i64>, b: Seq<i64>)
    requires
        outranks(a, b),
    ensures
        !outranks(b, a),
{
    lemma_asymmetric_from(a, b, 0);
}

/// Two different vectors are always ranked: one of them is strictly better.
pub proof fn lemma_outranks_total(a: Seq<i64>, b: Seq<i64>)
    ensures
        a == b || outranks(a, b) || outranks(b, a),
{
    if !outranks(a, b) && !outranks(b, a) {
        lemma_total_from(a, b, 0);
    }
}

/// Being strictly better carries over a chain of two.
pub proof fn lemma_outranks_transitive(a: Seq<i64>, b: Seq<i64>, c: Seq<i64>)
    requires
        outranks(a, b),
        outranks(b, c),
    ensures
        outranks(a, c),
{
    lemma_transitive_from(a, b, c, 0);
}

/// Being at least as good carries over a chain of two.
pub proof fn lemma_holds_against_transitive(a: Seq<i64>, b: Seq<i64>, c: Seq<i64>)
    requires
        holds_against(a, b),
        holds_against(b, c),
    ensures
        holds_against(a, c),
{
    lemma_chain_from(a, b, c, 0);
}

/// Decides whether `a` is strictly better than `b`.
pub fn is_ahead(a: &Vec<i64>, b: &Vec<i64>) -> (ahead: bool)
    ensures
        ahead == outranks(a@, b@),
{
    let mut i: usize = 0;
    while i < a.len() && i < b.len()
        invariant
            i <= a.len(),
            i <= b.len(),
            outranks(a@, b@) == outranks_from(a@, b@, i as int),
        decreases a.len() - i,
    {
        if a[i] != b[i] {
            return a[i] > b[i];
        }
        i += 1;
    }
    i < a.len()
}

/// Decides whether `a` is at least as good as `b`; equal vectors are.
pub fn is_level_or_ahead(a: &Vec<i64>, b: &Vec<i64>) -> (level: bool)
    ensures
        level == holds_against(a@, b@),
{
    !is_ahead(b, a)
}

/// Whether the scores come best first: none is outranked by a later one.
pub open spec fn best_first_order<T>(items: Seq<(T, Vec<i64>)>) -> bool {
    forall|i: int, j: int| 0 <= i < j < items.len() ==> holds_against(items[i].1@, items[j].1@)
}

/// Whether `from` names the place.
pub open spec fn names(from: Seq<int>, place: int) -> bool {
    exists|k: int| 0 <= k < from.len() && #[trigger] from[k] == place
}

/// Whether `sorted` holds the items in another order: `from` tells for each
/// place of `sorted` the place of `items` that its item came from, and
/// names every place of `items` once.
pub open spec fn rearranged<T>(from: Seq<int>, sorted: Seq<T>, items: Seq<T>) -> bool {
    &&& from.len() == items.len()
    &&& sorted.len() == items.len()
    &&& forall|k: int|
        0 <= k < from.len() ==> 0 <= (#[trigger] from[k]) < items.len() && sorted[k]
            == items[from[k]]
    &&& forall|k: int, l: int| 0 <= k < from.len() && 0 <= l < from.len() && k != l ==> from[k]
        != from[l]
    &&& forall|j: int| 0 <= j < items.len() ==> #[trigger] names(from, j)
}

/// Puts scored items in order, best first. Every item is kept, once. Items
/// with equal scores keep no particular order among themselves.
pub fn sort_best_first<T>(items: Vec<(T, Vec<i64>)>) -> (sorted: Vec<(T, Vec<i64>)>)
    ensures
        sorted@.to_multiset() == items@.to_multiset(),
        sorted.len() == items.len(),
        best_first_order(sorted@),
        exists|from: Seq<int>| rearranged(from, sorted@, items@),
{
    broadcast use vstd::seq_lib::group_to_multiset_ensures;

    let mut items = items;
    let ghost start = items@;
    let mut sorted: Vec<(T, Vec<i64>)> = Vec::new();
    let ghost mut from: Seq<int> = Seq::empty();
    assert(sorted@.to_multiset().add(items@.to_multiset()) =~= start.to_multiset());
    while items.len() > 0
        invariant
            sorted@.to_multiset().add(items@.to_multiset()) == start.to_multiset(),
            sorted.len() + items.len() == start.len(),
            best_first_order(sorted@),
            from.len() == sorted.len(),
            forall|k: int| 0 <= k < items.len() ==> items[k] == start[k],
            forall|k: int|
                0 <= k < from.len() ==> items.len() <= (#[trigger] from[k]) < start.len()
                    && sorted[k] == start[from[k]],
            forall|k: int, l: int|
                0 <= k < from.len() && 0 <= l < from.len() && k != l ==> from[k] != from[l],
            forall|j: int| items.len() <= j < start.len() ==> #[trigger] names(from, j),
        decreases items.len(),
    {
        let ghost from_before = from;
        let ghost rest_before = items@;
        let ghost sorted_before = sorted@;
        let item = items.pop().unwrap();
        assert(rest_before =~= items@.push(item));
        let mut place: usize = 0;
        while place < sorted.len() && !is_ahead(&item.1, &sorted[place].1)
            invariant
                place <= sorted.len(),
                sorted@ == sorted_before,
                forall|k: int| 0 <= k < place ==> holds_against(sorted[k].1@, item.1@),
            decreases sorted.len() - place,
        {
            place += 1;
        }
        sorted.insert(place, item);
        proof {
            let taken: int = items.len() as int;
            from = from_before.insert(place as int, taken);
            assert forall|k: int| 0 <= k < from.len() implies taken <= (#[trigger] from[k])
                < start.len() && sorted[k] == start[from[k]] by {
                if k < place {
                    assert(from[k] == from_before[k]);
                    assert(sorted[k] == sorted_before[k]);
                } else if k > place {
                    assert(from[k] == from_before[k - 1]);
                    assert(sorted[k] == sorted_before[k - 1]);
                }
            }
            assert forall|k: int, l: int|
                0 <= k < from.len() && 0 <= l < from.len() && k != l implies from[k] != from[l] by {
                let a: int = if k < place { k } else { k - 1 };
                let b: int = if l < place { l } else { l - 1 };
                if k != place {
                    assert(from[k] == from_before[a]);
                }
                if l != place {
                    assert(from[l] == from_before[b]);
                }
            }
            assert forall|j: int| taken <= j < start.len() implies #[trigger] names(from, j) by {
                if j == taken {
                    assert(from[place as int] == j);
                } else {
                    assert(names(from_before, j));
                    let k0 = choose|k: int| 0 <= k < from_before.len() && #[trigger] from_before[k] == j;
                    let k1: int = if k0 < place { k0 } else { k0 + 1 };
                    assert(from[k1] == j);
                }
            }
            assert(sorted@.remove(place as int) =~= sorted_before);
            vstd::seq_lib::to_multiset_remove(sorted@, place as int);
            sorted@.to_multiset_ensures();
            assert(sorted@.contains(item)) by {
                assert(sorted@[place as int] == item);
            }
            assert(sorted@.to_multiset() =~= sorted_before.to_multiset().insert(item));
            vstd::seq_lib::to_multiset_build(items@, item);
            assert(sorted@.to_multiset().add(items@.to_multiset()) =~= start.to_multiset());
            assert forall|i: int, j: int| 0 <= i < j < sorted.len() implies holds_against(
                sorted[i].1@,
                sorted[j].1@,
            ) by {
                let a: int = if i < place { i } else { i - 1 };
                let b: int = if j < place { j } else { j - 1 };
                if i == place {
                    // The item stands before what it outranks and all that follows.
                    assert(sorted[j] == sorted_before[b]);
                    assert(outranks(item.1@, sorted_before[place as int].1@));
                    lemma_outranks_asymmetric(item.1@, sorted_before[place as int].1@);
                    if b > place {
                        assert(holds_against(sorted_before[place as int].1@, sorted_before[b].1@));
                    } else {
                        lemma_outranks_irreflexive(sorted_before[b].1@);
                    }
                    lemma_holds_against_transitive(
                        item.1@,
                        sorted_before[place as int].1@,
                        sorted_before[b].1@,
                    );
                } else if j == place {
                    assert(sorted[i] == sorted_before[a]);
                } else {
                    assert(sorted[i] == sorted_before[a]);
                    assert(sorted[j] == sorted_before[b]);
                }
            }
        }
    }
    assert(items@.to_multiset() =~= Multiset::<(T, Vec<i64>)>::empty());
    assert(sorted@.to_multiset().add(Multiset::<(T, Vec<i64>)>::empty()) =~= sorted@.to_multiset());
    assert(rearranged(from, sorted@, start));
    sorted
}

} // verus!
