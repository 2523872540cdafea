//! Why the traversal yields every ordering of every way of taking some of
//! the numbers, each once.
use super::counting_laws::{
    lemma_distinct_orderings, lemma_sum_along_items, lemma_sum_same, sum_along, sum_over,
};
use super::ordering_laws::{has_place, is_among, pairwise_different, places_below};
use super::permutation_generator::{
    expanded, is_index_ordering, lemma_expanded, occurs, pair_total, values_at, Selection,
};
use super::selection_laws::{keys_differ, orders};
use super::subset_generator::{counts_of, lemma_tally_counts, occurrences, tally};
use super::subset_permutation_generator::{
    arranged, lemma_takings, lemma_takings_are_all_ways, of_size, orderings_of_all, takes_some_of,
    takings, Traversal,
};
use crate::base_types::numbers::{CheckedOperations, NumberType};
use vstd::prelude::*;

verus! {

/// One for each place that holds `v`.
pub open spec fn marks<T>(elements: Seq<T>, v: T) -> spec_fn(int) -> int {
    |p: int|
        if 0 <= p < elements.len() && elements[p] == v {
            1int
        } else {
            0int
        }
}

/// How often a value is among the elements is the sum of its marks.
pub proof fn lemma_occurrences_are_marks<T>(elements: Seq<T>, v: T, k: int)
    requires
        0 <= k <= elements.len(),
    ensures
        occurrences(elements.take(k), v) == sum_over(k, marks(elements, v)),
    decreases k,
{
    if k > 0 {
        lemma_occurrences_are_marks(elements, v, k - 1);
        assert(elements.take(k).drop_last() =~= elements.take(k - 1));
    }
}

/// How often a value is among the values at the first positions of an
/// ordering is the sum of its marks along these positions.
pub proof fn lemma_occurrences_along<T>(ordering: Seq<usize>, elements: Seq<T>, v: T, k: int)
    requires
        0 <= k <= ordering.len(),
        forall|x: int| 0 <= x < ordering.len() ==> #[trigger] ordering[x] < elements.len(),
    ensures
        occurrences(values_at(ordering, elements).take(k), v) == sum_along(
            Seq::new(k as nat, |x: int| ordering[x] as int),
            marks(elements, v),
        ),
    decreases k,
{
    if k > 0 {
        lemma_occurrences_along(ordering, elements, v, k - 1);
        let values = values_at(ordering, elements);
        assert(values.take(k).drop_last() =~= values.take(k - 1));
        let along = Seq::new(k as nat, |x: int| ordering[x] as int);
        assert(along.drop_last() =~= Seq::new((k - 1) as nat, |x: int| ordering[x] as int));
        assert(along.last() == ordering[k - 1]);
    }
}

/// An ordering of the elements holds each value as often as the elements
/// hold it.
pub proof fn lemma_orders_keep_occurrences<T>(values: Seq<T>, elements: Seq<T>, v: T)
    requires
        orders(values, elements),
    ensures
        occurrences(values, v) == occurrences(elements, v),
{
    let ordering = choose|ordering: Seq<usize>|
        is_index_ordering(ordering) && ordering.len() == elements.len() && #[trigger] values_at(
            ordering,
            elements,
        ) == values;
    let n = elements.len() as int;
    let along = Seq::new(n as nat, |x: int| ordering[x] as int);
    let h = marks(elements, v);
    lemma_occurrences_along(ordering, elements, v, n);
    lemma_occurrences_are_marks(elements, v, n);
    assert(values.take(n) =~= values);
    assert(elements.take(n) =~= elements);
    assert(places_below(along, n));
    lemma_sum_along_items(along, n, h);
    let held = |p: int|
        if has_place(along, p) {
            h(p)
        } else {
            0
        };
    assert forall|p: int| 0 <= p < n implies #[trigger] held(p) == h(p) by {
        assert(occurs(ordering, p));
        let x = choose|x: int| 0 <= x < ordering.len() && #[trigger] ordering[x] == p;
        assert(along[x] == p);
    }
    lemma_sum_same(n, held, h);
}

/// How often a value is among two runs of values joined.
pub proof fn lemma_occurrences_joined<T>(first: Seq<T>, second: Seq<T>, v: T)
    ensures
        occurrences(first + second, v) == occurrences(first, v) + occurrences(second, v),
    decreases second.len(),
{
    if second.len() == 0 {
        assert(first + second =~= first);
    } else {
        lemma_occurrences_joined(first, second.drop_last(), v);
        assert((first + second).drop_last() =~= first + second.drop_last());
    }
}

/// How often a value is among copies of one value.
pub proof fn lemma_occurrences_of_copies<T>(value: T, count: nat, v: T)
    ensures
        occurrences(Seq::new(count, |k: int| value), v) == if value == v {
            count
        } else {
            0
        },
    decreases count,
{
    if count > 0 {
        lemma_occurrences_of_copies(value, (count - 1) as nat, v);
        assert(Seq::new(count, |k: int| value).drop_last() =~= Seq::new(
            (count - 1) as nat,
            |k: int| value,
        ));
    }
}

/// A value that none of the values is occurs among them no times.
pub proof fn lemma_occurrences_of_other<T>(values: Seq<T>, v: T)
    requires
        forall|k: int| 0 <= k < values.len() ==> #[trigger] values[k] != v,
    ensures
        occurrences(values, v) == 0,
    decreases values.len(),
{
    if values.len() > 0 {
        let fewer = values.drop_last();
        assert forall|k: int| 0 <= k < fewer.len() implies #[trigger] fewer[k] != v by {
            assert(fewer[k] == values[k]);
        }
        lemma_occurrences_of_other(fewer, v);
        assert(values[values.len() - 1] != v);
    }
}

/// The expanded pairs hold the value of each pair as often as its count
/// says, where no two of the pairs hold the same value.
pub proof fn lemma_expanded_occurrences<T>(pairs: Seq<(T, usize)>, j: int)
    requires
        keys_differ(pairs),
        0 <= j < pairs.len(),
    ensures
        occurrences(expanded(pairs), pairs[j].0) == pairs[j].1,
    decreases pairs.len(),
{
    let before = pairs.drop_last();
    let value = pairs.last().0;
    let count = pairs.last().1 as nat;
    let key = pairs[j].0;
    lemma_occurrences_joined(expanded(before), Seq::new(count, |k: int| value), key);
    lemma_occurrences_of_copies(value, count, key);
    if j == pairs.len() - 1 {
        lemma_expanded(before, |t: T| t != key);
        lemma_occurrences_of_other(expanded(before), key);
    } else {
        assert(before[j] == pairs[j]);
        lemma_expanded_occurrences(before, j);
        assert(pairs[j].0 != pairs[pairs.len() - 1].0);
    }
}

/// Two ways of taking copies of which the same values are an ordering are
/// the same way.
pub proof fn lemma_orderings_tell_ways<T>(
    values: Seq<T>,
    first: Seq<(T, usize)>,
    second: Seq<(T, usize)>,
    pairs: Seq<(T, usize)>,
)
    requires
        keys_differ(pairs),
        first.len() == pairs.len(),
        second.len() == pairs.len(),
        forall|j: int| 0 <= j < pairs.len() ==> (#[trigger] first[j]).0 == pairs[j].0,
        forall|j: int| 0 <= j < pairs.len() ==> (#[trigger] second[j]).0 == pairs[j].0,
        orders(values, expanded(first)),
        orders(values, expanded(second)),
    ensures
        first == second,
{
    assert(keys_differ(first)) by {
        assert forall|g: int, h: int| 0 <= g < h < first.len() implies first[g].0
            != first[h].0 by {
            assert(pairs[g].0 != pairs[h].0);
        }
    }
    assert(keys_differ(second)) by {
        assert forall|g: int, h: int| 0 <= g < h < second.len() implies second[g].0
            != second[h].0 by {
            assert(pairs[g].0 != pairs[h].0);
        }
    }
    assert forall|j: int| 0 <= j < pairs.len() implies first[j] == second[j] by {
        lemma_expanded_occurrences(first, j);
        lemma_expanded_occurrences(second, j);
        lemma_orders_keep_occurrences(values, expanded(first), pairs[j].0);
        lemma_orders_keep_occurrences(values, expanded(second), pairs[j].0);
    }
    assert(first =~= second);
}

/// Whether `way` is one of the ways.
pub open spec fn is_way<T>(ways: Seq<Seq<(T, usize)>>, way: Seq<(T, usize)>) -> bool {
    exists|k: int| 0 <= k < ways.len() && #[trigger] ways[k] == way
}

/// Whether no two of the ways are the same.
pub open spec fn ways_differ<T>(ways: Seq<Seq<(T, usize)>>) -> bool {
    forall|x: int, y: int| 0 <= x < y < ways.len() ==> ways[x] != ways[y]
}

/// The ways of one size are ways that take that many copies, each of them
/// once where each of the ways is there once, and every way that takes that
/// many copies is among them.
#[verifier::rlimit(30)]
pub proof fn lemma_of_size_ways<T>(all: Seq<Seq<(T, usize)>>, size: int)
    ensures
        forall|k: int|
            0 <= k < of_size(all, size).len() ==> is_way(all, #[trigger] of_size(all, size)[k])
                && pair_total(of_size(all, size)[k]) == size,
        ways_differ(all) ==> ways_differ(of_size(all, size)),
        forall|m: int|
            0 <= m < all.len() && pair_total(#[trigger] all[m]) == size ==> is_way(
                of_size(all, size),
                all[m],
            ),
    decreases all.len(),
{
    if all.len() > 0 {
        let fewer = all.drop_last();
        let last = all.last();
        lemma_of_size_ways(fewer, size);
        let before = of_size(fewer, size);
        let now = of_size(all, size);
        assert forall|k: int| 0 <= k < now.len() implies is_way(all, #[trigger] now[k])
            && pair_total(now[k]) == size by {
            if k < before.len() {
                assert(now[k] == before[k]);
                assert(is_way(fewer, before[k]));
                let m = choose|m: int| 0 <= m < fewer.len() && #[trigger] fewer[m] == before[k];
                assert(all[m] == now[k]);
            } else {
                assert(all[all.len() - 1] == now[k]);
            }
        }
        if ways_differ(all) {
            assert(ways_differ(fewer)) by {
                assert forall|x: int, y: int| 0 <= x < y < fewer.len() implies fewer[x]
                    != fewer[y] by {
                    assert(all[x] != all[y]);
                }
            }
            assert forall|x: int, y: int| 0 <= x < y < now.len() implies now[x] != now[y] by {
                if y < before.len() {
                    assert(before[x] != before[y]);
                } else {
                    assert(now[x] == before[x]);
                    assert(is_way(fewer, before[x]));
                    let m = choose|m: int|
                        0 <= m < fewer.len() && #[trigger] fewer[m] == before[x];
                    assert(all[m] != all[all.len() - 1]);
                }
            }
        }
        assert forall|m: int|
            0 <= m < all.len() && pair_total(#[trigger] all[m]) == size implies is_way(
            now,
            all[m],
        ) by {
            if m < fewer.len() {
                assert(fewer[m] == all[m]);
                assert(is_way(before, fewer[m]));
                let k = choose|k: int| 0 <= k < before.len() && #[trigger] before[k] == fewer[m];
                assert(now[k] == all[m]);
            } else {
                assert(now[before.len() as int] == all[m]);
            }
        }
    }
}

/// The arranged ways are the ways that take from one copy up to `top`
/// copies, each of them once where each of the ways is there once.
#[verifier::rlimit(30)]
pub proof fn lemma_arranged_ways<T>(all: Seq<Seq<(T, usize)>>, top: int)
    ensures
        forall|k: int|
            0 <= k < arranged(all, top).len() ==> is_way(all, #[trigger] arranged(all, top)[k])
                && 1 <= pair_total(arranged(all, top)[k]) <= top,
        ways_differ(all) ==> ways_differ(arranged(all, top)),
        forall|m: int|
            0 <= m < all.len() && 1 <= pair_total(#[trigger] all[m]) <= top ==> is_way(
                arranged(all, top),
                all[m],
            ),
    decreases top,
{
    if top > 0 {
        lemma_arranged_ways(all, top - 1);
        lemma_of_size_ways(all, top);
        let first = of_size(all, top);
        let rest = arranged(all, top - 1);
        let now = arranged(all, top);
        assert forall|k: int| 0 <= k < now.len() implies is_way(all, #[trigger] now[k]) && 1
            <= pair_total(now[k]) <= top by {
            if k < first.len() {
                assert(now[k] == first[k]);
            } else {
                assert(now[k] == rest[k - first.len()]);
            }
        }
        if ways_differ(all) {
            assert forall|x: int, y: int| 0 <= x < y < now.len() implies now[x] != now[y] by {
                if y < first.len() {
                    assert(first[x] != first[y]);
                } else if x >= first.len() {
                    assert(rest[x - first.len()] != rest[y - first.len()]);
                } else {
                    assert(now[x] == first[x]);
                    assert(now[y] == rest[y - first.len()]);
                    assert(pair_total(first[x]) == top);
                    assert(pair_total(rest[y - first.len()]) <= top - 1);
                }
            }
        }
        assert forall|m: int|
            0 <= m < all.len() && 1 <= pair_total(#[trigger] all[m]) <= top implies is_way(
            now,
            all[m],
        ) by {
            if pair_total(all[m]) == top {
                assert(is_way(first, all[m]));
                let k = choose|k: int| 0 <= k < first.len() && #[trigger] first[k] == all[m];
                assert(now[k] == all[m]);
            } else {
                assert(is_way(rest, all[m]));
                let k = choose|k: int| 0 <= k < rest.len() && #[trigger] rest[k] == all[m];
                assert(now[first.len() + k] == all[m]);
            }
        }
    }
}

/// Whether `values` is an ordering of one of the ways.
pub open spec fn orders_a_way<T>(values: Seq<T>, ways: Seq<Seq<(T, usize)>>) -> bool {
    exists|k: int| 0 <= k < ways.len() && orders(values, expanded(#[trigger] ways[k]))
}

/// The orderings of ways that take copies of the values of the pairs are
/// orderings of these ways, no two of them the same where no two of the ways
/// are, and every ordering of one of the ways is among them.
#[verifier::rlimit(30)]
pub proof fn lemma_orderings_of_ways<T>(subsets: Seq<Seq<(T, usize)>>, pairs: Seq<(T, usize)>)
    requires
        keys_differ(pairs),
        ways_differ(subsets),
        forall|k: int|
            0 <= k < subsets.len() ==> takes_some_of(#[trigger] subsets[k], pairs) && pair_total(
                subsets[k],
            ) <= usize::MAX,
    ensures
        pairwise_different(orderings_of_all(subsets)),
        forall|x: int|
            0 <= x < orderings_of_all(subsets).len() ==> orders_a_way(
                #[trigger] orderings_of_all(subsets)[x],
                subsets,
            ),
        forall|values: Seq<T>| #[trigger]
            orders_a_way(values, subsets) ==> is_among(orderings_of_all(subsets), values),
    decreases subsets.len(),
{
    if subsets.len() > 0 {
        let fewer = subsets.drop_last();
        let last = subsets.last();
        assert(subsets[subsets.len() - 1] == last);
        assert(ways_differ(fewer)) by {
            assert forall|x: int, y: int| 0 <= x < y < fewer.len() implies fewer[x]
                != fewer[y] by {
                assert(subsets[x] != subsets[y]);
            }
        }
        assert forall|k: int| 0 <= k < fewer.len() implies takes_some_of(
            #[trigger] fewer[k],
            pairs,
        ) && pair_total(fewer[k]) <= usize::MAX by {
            assert(fewer[k] == subsets[k]);
        }
        lemma_orderings_of_ways(fewer, pairs);
        assert(keys_differ(last)) by {
            assert forall|g: int, h: int| 0 <= g < h < last.len() implies last[g].0
                != last[h].0 by {
                assert(pairs[g].0 != pairs[h].0);
            }
        }
        lemma_distinct_orderings(last);
        let first = Selection::of(last).remaining();
        let rest = orderings_of_all(fewer);
        let all = orderings_of_all(subsets);
        assert(all =~= first + rest);
        assert forall|x: int| 0 <= x < all.len() implies orders_a_way(
            #[trigger] all[x],
            subsets,
        ) by {
            if x < first.len() {
                assert(all[x] == first[x]);
                assert(orders(first[x], expanded(subsets[subsets.len() - 1])));
            } else {
                assert(all[x] == rest[x - first.len()]);
                assert(orders_a_way(rest[x - first.len()], fewer));
                let k = choose|k: int|
                    0 <= k < fewer.len() && orders(
                        rest[x - first.len()],
                        expanded(#[trigger] fewer[k]),
                    );
                assert(fewer[k] == subsets[k]);
            }
        }
        assert forall|x: int, y: int| 0 <= x < y < all.len() implies all[x] != all[y] by {
            if y < first.len() {
                assert(first[x] != first[y]);
            } else if x >= first.len() {
                assert(rest[x - first.len()] != rest[y - first.len()]);
            } else {
                assert(all[x] == first[x]);
                assert(all[y] == rest[y - first.len()]);
                if all[x] == all[y] {
                    assert(orders(first[x], expanded(last)));
                    assert(orders_a_way(rest[y - first.len()], fewer));
                    let k = choose|k: int|
                        0 <= k < fewer.len() && orders(
                            rest[y - first.len()],
                            expanded(#[trigger] fewer[k]),
                        );
                    assert(fewer[k] == subsets[k]);
                    lemma_orderings_tell_ways(all[x], last, subsets[k], pairs);
                    assert(subsets[k] != subsets[subsets.len() - 1]);
                }
            }
        }
        assert forall|values: Seq<T>| #[trigger] orders_a_way(values, subsets) implies is_among(
            all,
            values,
        ) by {
            let k = choose|k: int|
                0 <= k < subsets.len() && orders(values, expanded(#[trigger] subsets[k]));
            if k == subsets.len() - 1 {
                assert(is_among(first, values));
                let x = choose|x: int| 0 <= x < first.len() && #[trigger] first[x] == values;
                assert(all[x] == values);
            } else {
                assert(fewer[k] == subsets[k]);
                assert(orders_a_way(values, fewer));
                assert(is_among(rest, values));
                let x = choose|x: int| 0 <= x < rest.len() && #[trigger] rest[x] == values;
                assert(all[first.len() + x] == values);
            }
        }
    }
}

/// Whether `values` are some of the items in some order: an ordering of the
/// numbers that some way of taking copies of the values among the items
/// takes, of one copy at least and of no more copies of a value than there
/// are among the items.
pub open spec fn is_choice<T: NumberType>(values: Seq<T>, items: Seq<T>) -> bool {
    exists|way: Seq<(T, usize)>| #[trigger]
        takes_some_of(way, tally(items)) && orders(values, expanded(way))
}

/// The traversal yields every ordering of every way of taking some of the
/// numbers, each once.
///
/// Each ordering that the traversal over a list yields is some of the items
/// of the list in some order; no two of the orderings are the same; and
/// whatever is some of the items in some order is among them.
pub proof fn lemma_traversal_yields_every_choice_once<T: NumberType>(items: Seq<T>)
    requires
        items.len() <= usize::MAX,
    ensures
        pairwise_different(Traversal::of(items).remaining()),
        forall|x: int|
            0 <= x < Traversal::of(items).remaining().len() ==> is_choice(
                #[trigger] Traversal::of(items).remaining()[x],
                items,
            ),
        forall|values: Seq<T>| #[trigger]
            is_choice(values, items) ==> is_among(Traversal::of(items).remaining(), values),
{
    let pairs = tally(items);
    let n = items.len() as int;
    lemma_tally_counts(items);
    assert(keys_differ(pairs)) by {
        assert forall|g: int, h: int| 0 <= g < h < pairs.len() implies pairs[g].0
            != pairs[h].0 by {
            assert(pairs[g].0.value() < pairs[h].0.value());
        }
    }
    lemma_takings(pairs);
    lemma_takings_are_all_ways(pairs);
    let all = takings(pairs);
    assert(ways_differ(all));
    lemma_arranged_ways(all, n);
    let subsets = arranged(all, n);
    assert forall|k: int| 0 <= k < subsets.len() implies takes_some_of(
        #[trigger] subsets[k],
        pairs,
    ) && pair_total(subsets[k]) <= usize::MAX by {
        assert(is_way(all, subsets[k]));
        let m = choose|m: int| 0 <= m < all.len() && #[trigger] all[m] == subsets[k];
        assert(takes_some_of(all[m], pairs));
    }
    lemma_orderings_of_ways(subsets, pairs);
    let yielded = Traversal::of(items).remaining();
    assert(yielded =~= orderings_of_all(subsets));
    assert forall|x: int| 0 <= x < yielded.len() implies is_choice(#[trigger] yielded[x], items) by {
        assert(orders_a_way(yielded[x], subsets));
        let k = choose|k: int|
            0 <= k < subsets.len() && orders(yielded[x], expanded(#[trigger] subsets[k]));
        assert(takes_some_of(subsets[k], pairs));
    }
    assert forall|values: Seq<T>| #[trigger] is_choice(values, items) implies is_among(
        yielded,
        values,
    ) by {
        let way = choose|way: Seq<(T, usize)>| #[trigger]
            takes_some_of(way, tally(items)) && orders(values, expanded(way));
        let m = choose|m: int| 0 <= m < all.len() && all[m] == way;
        assert(pair_total(all[m]) <= pair_total(pairs));
        assert(is_way(subsets, all[m]));
        let k = choose|k: int| 0 <= k < subsets.len() && #[trigger] subsets[k] == way;
        assert(orders_a_way(values, subsets));
    }
}

} // verus!
