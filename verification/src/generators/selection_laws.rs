//! Why the generator of the distinct orderings of values with repetitions
//! yields no ordering of values twice.
use super::ordering_laws::{
    among, distinct_below, is_among, lemma_generator_yields_every_ordering_once,
    pairwise_different, reorders,
};
use super::permutation_generator::{
    expanded, fresh, indices, is_index_ordering, keeps_copies_in_order, lemma_expanded,
    lemma_indices_ordering, lemma_predecessors, lemma_remaining_index_orderings,
    lemma_swapped_index_ordering, occurs, pair_total, predecessors, selected, swapped,
    values_at, Selection,
};
use vstd::prelude::*;

verus! {

/// Whether no two of the pairs hold the same value.
pub open spec fn keys_differ<T>(pairs: Seq<(T, usize)>) -> bool {
    forall|g: int, h: int| 0 <= g < h < pairs.len() ==> pairs[g].0 != pairs[h].0
}

/// Whether the predecessors link the positions of each value in a chain:
/// a predecessor is the position just before and holds the same value, and
/// a position that has the same value as a lower one has a predecessor.
pub open spec fn chained<T>(groups: Seq<Option<usize>>, elements: Seq<T>) -> bool {
    &&& groups.len() == elements.len()
    &&& forall|v: int|
        0 <= v < groups.len() ==> (#[trigger] groups[v] matches Some(u) ==> u + 1 == v
            && elements[u as int] == elements[v])
    &&& forall|u: int, w: int|
        0 <= u < w < elements.len() && elements[u] == elements[w] ==> #[trigger] groups[w]
            == Some((w - 1) as usize) || #[trigger] elements[u] != elements[w]
}

/// The predecessors of expanded pairs link the positions of each value in a
/// chain, where no two of the pairs hold the same value.
pub proof fn lemma_expanded_chained<T>(pairs: Seq<(T, usize)>)
    requires
        keys_differ(pairs),
        pair_total(pairs) <= usize::MAX,
    ensures
        chained(predecessors(pairs), expanded(pairs)),
    decreases pairs.len(),
{
    lemma_predecessors(pairs);
    if pairs.len() > 0 {
        let before = pairs.drop_last();
        let value = pairs.last().0;
        let count = pairs.last().1;
        super::subset_permutation_generator::lemma_pair_total_grows(pairs, pairs.len() - 1);
        assert(pairs.take(pairs.len() - 1) =~= before);
        lemma_expanded_chained(before);
        lemma_expanded(pairs, |t: T| true);
        lemma_expanded(before, |t: T| t != value);
        lemma_predecessors(before);
        let groups = predecessors(pairs);
        let elements = expanded(pairs);
        let start = expanded(before).len() as int;
        assert forall|v: int| 0 <= v < groups.len() implies (#[trigger] groups[v] matches Some(
            u,
        ) ==> u + 1 == v && elements[u as int] == elements[v]) by {
            if v < start {
                assert(groups[v] == predecessors(before)[v]);
            }
        }
        assert forall|u: int, w: int|
            0 <= u < w < elements.len() && elements[u] == elements[w] implies #[trigger] groups[w]
            == Some((w - 1) as usize) || #[trigger] elements[u] != elements[w] by {
            if w < start {
                assert(groups[w] == predecessors(before)[w]);
                assert(elements[u] == expanded(before)[u]);
                assert(elements[w] == expanded(before)[w]);
            } else if u < start {
                assert(elements[u] == expanded(before)[u]);
                assert(elements[w] == value);
            } else {
            }
        }
    }
}

/// In an ordering that keeps the copies of each value in their order, a
/// position that holds the same value as a higher position comes before it.
pub proof fn lemma_lower_copy_comes_first<T>(
    ordering: Seq<usize>,
    groups: Seq<Option<usize>>,
    elements: Seq<T>,
    x: int,
    u: int,
)
    requires
        is_index_ordering(ordering),
        ordering.len() == elements.len(),
        chained(groups, elements),
        keeps_copies_in_order(ordering, groups),
        0 <= x < ordering.len(),
        0 <= u < ordering[x],
        elements[u] == elements[ordering[x] as int],
    ensures
        exists|y: int| 0 <= y < x && ordering[y] == u,
    decreases ordering[x] - u,
{
    let w = ordering[x] as int;
    assert(groups[w] == Some((w - 1) as usize));
    assert(occurs(ordering, w - 1));
    let y = choose|y: int| 0 <= y < ordering.len() && #[trigger] ordering[y] == w - 1;
    assert(groups[ordering[x] as int] == Some(ordering[y]));
    assert(y < x);
    if w - 1 != u {
        lemma_lower_copy_comes_first(ordering, groups, elements, y, u);
    }
}

/// Two orderings of the positions that keep the copies of each value in
/// their order and give the same ordering of values are the same.
pub proof fn lemma_values_tell_ordering<T>(
    first: Seq<usize>,
    second: Seq<usize>,
    groups: Seq<Option<usize>>,
    elements: Seq<T>,
    x: int,
)
    requires
        is_index_ordering(first),
        is_index_ordering(second),
        first.len() == elements.len(),
        second.len() == elements.len(),
        chained(groups, elements),
        keeps_copies_in_order(first, groups),
        keeps_copies_in_order(second, groups),
        values_at(first, elements) == values_at(second, elements),
        0 <= x <= first.len(),
    ensures
        forall|y: int| 0 <= y < x ==> first[y] == second[y],
    decreases x,
{
    if x > 0 {
        lemma_values_tell_ordering(first, second, groups, elements, x - 1);
        let u = first[x - 1] as int;
        let w = second[x - 1] as int;
        assert(values_at(first, elements)[x - 1] == elements[first[x - 1] as int]);
        assert(values_at(second, elements)[x - 1] == elements[second[x - 1] as int]);
        assert(elements[u] == elements[w]);
        if u < w {
            lemma_lower_copy_comes_first(second, groups, elements, x - 1, u);
            let y = choose|y: int| 0 <= y < x - 1 && second[y] == u;
            assert(first[y] == first[x - 1]);
        } else if w < u {
            lemma_lower_copy_comes_first(first, groups, elements, x - 1, w);
            let y = choose|y: int| 0 <= y < x - 1 && first[y] == w;
            assert(second[y] == second[x - 1]);
        }
    }
}

/// Whether `values` is an ordering of the elements: the elements at the
/// positions of an ordering of the positions.
pub open spec fn orders<T>(values: Seq<T>, elements: Seq<T>) -> bool {
    exists|ordering: Seq<usize>|
        is_index_ordering(ordering) && ordering.len() == elements.len() && #[trigger] values_at(
            ordering,
            elements,
        ) == values
}

/// Whether `values` are the values of one of the orderings of positions that
/// keeps the copies of each value in their order.
pub open spec fn chosen_from<T>(
    values: Seq<T>,
    orderings: Seq<Seq<usize>>,
    groups: Seq<Option<usize>>,
    elements: Seq<T>,
) -> bool {
    exists|x: int|
        0 <= x < orderings.len() && keeps_copies_in_order(#[trigger] orderings[x], groups)
            && values == values_at(orderings[x], elements)
}

/// The values of the orderings of positions that keep the copies of each
/// value in their order are pairwise different, where the orderings of
/// positions are; each of them is an ordering of the elements.
#[verifier::rlimit(30)]
pub proof fn lemma_selected_different<T>(
    orderings: Seq<Seq<usize>>,
    groups: Seq<Option<usize>>,
    elements: Seq<T>,
)
    requires
        chained(groups, elements),
        pairwise_different(orderings),
        forall|k: int|
            0 <= k < orderings.len() ==> is_index_ordering(#[trigger] orderings[k])
                && orderings[k].len() == elements.len(),
    ensures
        pairwise_different(selected(orderings, groups, elements)),
        forall|k: int|
            0 <= k < selected(orderings, groups, elements).len() ==> chosen_from(
                #[trigger] selected(orderings, groups, elements)[k],
                orderings,
                groups,
                elements,
            ),
    decreases orderings.len(),
{
    if orderings.len() > 0 {
        let rest = orderings.drop_first();
        assert forall|k: int| 0 <= k < rest.len() implies is_index_ordering(#[trigger] rest[k])
            && rest[k].len() == elements.len() by {
            assert(rest[k] == orderings[k + 1]);
        }
        assert(pairwise_different(rest)) by {
            assert forall|x: int, y: int| 0 <= x < y < rest.len() implies rest[x] != rest[y] by {
                assert(orderings[x + 1] != orderings[y + 1]);
            }
        }
        lemma_selected_different(rest, groups, elements);
        let later = selected(rest, groups, elements);
        let all = selected(orderings, groups, elements);
        assert forall|k: int| 0 <= k < later.len() implies chosen_from(
            #[trigger] later[k],
            orderings,
            groups,
            elements,
        ) && (keeps_copies_in_order(orderings[0], groups) ==> later[k] != values_at(
            orderings[0],
            elements,
        )) by {
            assert(chosen_from(later[k], rest, groups, elements));
            let x = choose|x: int|
                0 <= x < rest.len() && keeps_copies_in_order(#[trigger] rest[x], groups)
                    && later[k] == values_at(rest[x], elements);
            assert(rest[x] == orderings[x + 1]);
            assert(keeps_copies_in_order(orderings[x + 1], groups));
            if keeps_copies_in_order(orderings[0], groups) && later[k] == values_at(
                orderings[0],
                elements,
            ) {
                lemma_values_tell_ordering(
                    orderings[0],
                    orderings[x + 1],
                    groups,
                    elements,
                    elements.len() as int,
                );
                assert(orderings[0] =~= orderings[x + 1]);
            }
        }
        if keeps_copies_in_order(orderings[0], groups) {
            let head = values_at(orderings[0], elements);
            assert(all =~= seq![head] + later);
            assert forall|k: int| 0 <= k < all.len() implies chosen_from(
                #[trigger] all[k],
                orderings,
                groups,
                elements,
            ) by {
                if k > 0 {
                    assert(all[k] == later[k - 1]);
                } else {
                    assert(keeps_copies_in_order(orderings[0], groups));
                }
            }
            assert forall|a: int, b: int| 0 <= a < b < all.len() implies all[a] != all[b] by {
                if a > 0 {
                    assert(later[a - 1] != later[b - 1]);
                } else {
                    assert(all[b] == later[b - 1]);
                }
            }
        } else {
            assert(all =~= later);
            assert forall|k: int| 0 <= k < all.len() implies chosen_from(
                #[trigger] all[k],
                orderings,
                groups,
                elements,
            ) by {
                assert(all[k] == later[k]);
            }
        }
    }
}

/// The positions of an ordering weighed: a position counts the more the
/// earlier it stands.
pub open spec fn heaviness(ordering: Seq<usize>, k: int) -> int
    decreases k,
{
    if k <= 0 {
        0
    } else {
        heaviness(ordering, k - 1) + (ordering.len() - (k - 1)) * ordering[k - 1]
    }
}

/// Putting another position at one place changes the heaviness by the
/// difference of the two positions times the weight of the place.
pub proof fn lemma_heaviness_update(ordering: Seq<usize>, at: int, position: usize, k: int)
    requires
        0 <= at < ordering.len(),
        0 <= k <= ordering.len(),
    ensures
        heaviness(ordering.update(at, position), k) == heaviness(ordering, k) + if at < k {
            (ordering.len() - at) * (position - ordering[at])
        } else {
            0
        },
        heaviness(ordering, k) >= 0,
    decreases k,
{
    if k > 0 {
        lemma_heaviness_update(ordering, at, position, k - 1);
        let n = ordering.len() as int;
        assert((n - (k - 1)) * ordering[k - 1] >= 0) by (nonlinear_arith)
            requires
                n - (k - 1) >= 0,
                ordering[k - 1] >= 0,
        ;
        if at == k - 1 {
            assert((n - at) * position == (n - at) * ordering[at] + (n - at) * (position
                - ordering[at])) by (nonlinear_arith);
        }
    }
}

/// For every ordering of the positions there is one that keeps the copies of
/// each value in their order and gives the same ordering of values.
pub proof fn lemma_some_ordering_keeps_copies<T>(
    ordering: Seq<usize>,
    groups: Seq<Option<usize>>,
    elements: Seq<T>,
) -> (kept: Seq<usize>)
    requires
        is_index_ordering(ordering),
        ordering.len() == elements.len(),
        chained(groups, elements),
    ensures
        is_index_ordering(kept),
        kept.len() == elements.len(),
        keeps_copies_in_order(kept, groups),
        values_at(kept, elements) == values_at(ordering, elements),
    decreases heaviness(ordering, ordering.len() as int),
{
    let n = ordering.len() as int;
    if keeps_copies_in_order(ordering, groups) {
        ordering
    } else {
        let (x, y) = choose|x: int, y: int|
            0 <= x < ordering.len() && 0 <= y < ordering.len() && groups[ordering[x] as int]
                == Some(ordering[y]) && !(y < x);
        let v = ordering[x] as int;
        assert(groups[v] == Some(ordering[y]));
        assert(ordering[y] + 1 == v);
        assert(x < y);
        let next = swapped(ordering, x, y);
        lemma_swapped_index_ordering(ordering, x, y);
        lemma_heaviness_update(ordering, x, ordering[y], n);
        lemma_heaviness_update(ordering.update(x, ordering[y]), y, ordering[x], n);
        lemma_heaviness_update(next, 0, next[0], n);
        assert((n - x) * (ordering[y] - ordering[x]) + (n - y) * (ordering[x] - ordering[y]) < 0)
            by (nonlinear_arith)
            requires
                ordering[y] + 1 == ordering[x],
                x < y,
        ;
        assert(values_at(next, elements) =~= values_at(ordering, elements)) by {
            assert(elements[ordering[y] as int] == elements[ordering[x] as int]);
        }
        lemma_some_ordering_keeps_copies(next, groups, elements)
    }
}

/// The values of an ordering of positions that keeps the copies of each
/// value in their order are among the selected values, where the ordering is
/// among the orderings.
pub proof fn lemma_selected_holds<T>(
    orderings: Seq<Seq<usize>>,
    groups: Seq<Option<usize>>,
    elements: Seq<T>,
    kept: Seq<usize>,
)
    requires
        is_among(orderings, kept),
        keeps_copies_in_order(kept, groups),
    ensures
        is_among(selected(orderings, groups, elements), values_at(kept, elements)),
    decreases orderings.len(),
{
    let x = choose|x: int| 0 <= x < orderings.len() && #[trigger] orderings[x] == kept;
    let rest = orderings.drop_first();
    let later = selected(rest, groups, elements);
    let all = selected(orderings, groups, elements);
    if x == 0 {
        assert(all[0] == values_at(kept, elements));
    } else {
        assert(rest[x - 1] == kept);
        lemma_selected_holds(rest, groups, elements, kept);
        let k = choose|k: int| 0 <= k < later.len() && #[trigger] later[k] == values_at(
            kept,
            elements,
        );
        if keeps_copies_in_order(orderings[0], groups) {
            assert(all[k + 1] == later[k]);
        } else {
            assert(all[k] == later[k]);
        }
    }
}

/// Every ordering of the values that the pairs stand for is among the
/// orderings that the generator of the distinct orderings yields.
pub proof fn lemma_every_ordering_of_values<T>(pairs: Seq<(T, usize)>, values: Seq<T>)
    requires
        keys_differ(pairs),
        pair_total(pairs) <= usize::MAX,
        orders(values, expanded(pairs)),
    ensures
        is_among(Selection::of(pairs).remaining(), values),
{
    let selection = Selection::of(pairs);
    let n = expanded(pairs).len();
    lemma_expanded(pairs, |t: T| true);
    lemma_expanded_chained(pairs);
    lemma_indices_ordering(n);
    let ordering = choose|ordering: Seq<usize>|
        is_index_ordering(ordering) && ordering.len() == expanded(pairs).len()
            && #[trigger] values_at(ordering, expanded(pairs)) == values;
    let kept = lemma_some_ordering_keeps_copies(ordering, selection.groups, selection.elements);
    assert(distinct_below(indices(n), n as int));
    lemma_generator_yields_every_ordering_once(indices(n));
    assert(reorders(kept, indices(n), n as int)) by {
        assert forall|p: int| 0 <= p < n implies among(indices(n), n as int, #[trigger] kept[p]) by {
            assert(indices(n)[kept[p] as int] == kept[p]);
        }
    }
    assert(is_among(selection.unique.remaining(), kept));
    lemma_selected_holds(
        selection.unique.remaining(),
        selection.groups,
        selection.elements,
        kept,
    );
}

/// The generator of the distinct orderings yields no ordering of values
/// twice.
///
/// For pairs of a value and its number of copies, of which no two hold the
/// same value, the generator yields orderings of the values that the pairs
/// stand for, and no two of the orderings it yields are the same.
pub proof fn lemma_no_ordering_of_values_twice<T>(pairs: Seq<(T, usize)>)
    requires
        keys_differ(pairs),
        pair_total(pairs) <= usize::MAX,
    ensures
        pairwise_different(Selection::of(pairs).remaining()),
        forall|k: int|
            0 <= k < Selection::of(pairs).remaining().len() ==> orders(
                #[trigger] Selection::of(pairs).remaining()[k],
                expanded(pairs),
            ),
{
    let selection = Selection::of(pairs);
    let n = expanded(pairs).len();
    lemma_expanded(pairs, |t: T| true);
    lemma_expanded_chained(pairs);
    lemma_indices_ordering(n);
    assert(distinct_below(indices(n), n as int));
    lemma_generator_yields_every_ordering_once(indices(n));
    super::permutation_generator::lemma_selection_of_wf(pairs);
    lemma_remaining_index_orderings(selection.unique);
    lemma_selected_different(selection.unique.remaining(), selection.groups, selection.elements);
    assert forall|k: int| 0 <= k < selection.remaining().len() implies orders(
        #[trigger] selection.remaining()[k],
        expanded(pairs),
    ) by {
        assert(chosen_from(
            selection.remaining()[k],
            selection.unique.remaining(),
            selection.groups,
            selection.elements,
        ));
        let x = choose|x: int|
            0 <= x < selection.unique.remaining().len() && keeps_copies_in_order(
                #[trigger] selection.unique.remaining()[x],
                selection.groups,
            ) && selection.remaining()[k] == values_at(
                selection.unique.remaining()[x],
                selection.elements,
            );
        let ordering = selection.unique.remaining()[x];
        assert(is_index_ordering(ordering) && ordering.len() == expanded(pairs).len()
            && values_at(ordering, expanded(pairs)) == selection.remaining()[k]);
    }
}

} // verus!
