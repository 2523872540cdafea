//! How many distinct orderings of values with repetitions the generator
//! yields.
use super::ordering_laws::{
    all_of, among, distinct_below, has_place, lemma_all_of_different, lemma_all_places,
    lemma_generator_yields, lemma_last_differs, lemma_round_reorders, places_below, reorders,
    round, round_from, up_to,
};
use super::permutation_generator::{
    expanded, factorial, fresh, indices, keeps_copies_in_order, lemma_expanded,
    lemma_indices_ordering, lemma_predecessors, lemma_remaining_index_orderings,
    lemma_selection_of_wf, pair_total, predecessors, selected, Selection,
};
use super::ordering_laws::{is_among, pairwise_different};
use super::selection_laws::{
    keys_differ, lemma_every_ordering_of_values, lemma_no_ordering_of_values_twice, orders,
};
use vstd::prelude::*;

verus! {

/// The sum of `h` over the numbers below `n`.
pub open spec fn sum_over(n: int, h: spec_fn(int) -> int) -> int
    decreases n,
{
    if n <= 0 {
        0
    } else {
        sum_over(n - 1, h) + h(n - 1)
    }
}

/// The sum of `h` over the items.
pub open spec fn sum_along(b: Seq<int>, h: spec_fn(int) -> int) -> int
    decreases b.len(),
{
    if b.len() == 0 {
        0
    } else {
        sum_along(b.drop_last(), h) + h(b.last())
    }
}

/// Two functions that differ at one number below `n` alone have sums that
/// differ by as much as they differ there.
pub proof fn lemma_sum_differs_at(
    n: int,
    g: spec_fn(int) -> int,
    h: spec_fn(int) -> int,
    at: int,
)
    requires
        forall|v: int| 0 <= v < n && v != at ==> #[trigger] g(v) == h(v),
    ensures
        sum_over(n, g) == sum_over(n, h) + if 0 <= at < n {
            g(at) - h(at)
        } else {
            0
        },
    decreases n,
{
    if n > 0 {
        lemma_sum_differs_at(n - 1, g, h, at);
    }
}

/// The sum of a function over items below `n`, each there once, is its sum
/// over the numbers below `n` that are among the items.
pub proof fn lemma_sum_along_items(b: Seq<int>, n: int, h: spec_fn(int) -> int)
    requires
        places_below(b, n),
    ensures
        sum_along(b, h) == sum_over(
            n,
            |v: int|
                if has_place(b, v) {
                    h(v)
                } else {
                    0
                },
        ),
    decreases b.len(),
{
    let g = |v: int|
        if has_place(b, v) {
            h(v)
        } else {
            0
        };
    if b.len() == 0 {
        lemma_sum_differs_at(n, g, |v: int| 0int, -1);
        lemma_sum_of_zero(n);
    } else {
        let shorter = b.drop_last();
        let last = b.last();
        let f = |v: int|
            if has_place(shorter, v) {
                h(v)
            } else {
                0
            };
        assert(places_below(shorter, n)) by {
            assert forall|p: int| 0 <= p < shorter.len() implies 0 <= #[trigger] shorter[p]
                < n by {
                assert(shorter[p] == b[p]);
            }
            assert forall|p: int, q: int| 0 <= p < q < shorter.len() implies shorter[p]
                != shorter[q] by {
                assert(b[p] != b[q]);
            }
        }
        lemma_sum_along_items(shorter, n, h);
        assert(!has_place(shorter, last)) by {
            if has_place(shorter, last) {
                let p = choose|p: int| 0 <= p < shorter.len() && #[trigger] shorter[p] == last;
                assert(b[p] != b[b.len() - 1]);
            }
        }
        assert(has_place(b, last)) by {
            assert(b[b.len() - 1] == last);
        }
        assert forall|v: int| 0 <= v < n && v != last implies #[trigger] g(v) == f(v) by {
            if has_place(b, v) {
                let p = choose|p: int| 0 <= p < b.len() && #[trigger] b[p] == v;
                assert(shorter[p] == v);
            }
            if has_place(shorter, v) {
                let p = choose|p: int| 0 <= p < shorter.len() && #[trigger] shorter[p] == v;
                assert(b[p] == v);
            }
        }
        lemma_sum_differs_at(n, g, f, last);
        assert(b[b.len() - 1] == last);
    }
}

/// The sum of zero over the numbers below `n` is zero.
pub proof fn lemma_sum_of_zero(n: int)
    ensures
        sum_over(n, |v: int| 0int) == 0,
    decreases n,
{
    if n > 0 {
        lemma_sum_of_zero(n - 1);
    }
}

/// Two functions that agree on the numbers below `n` have the same sum
/// over them.
pub proof fn lemma_sum_same(n: int, g: spec_fn(int) -> int, h: spec_fn(int) -> int)
    requires
        forall|v: int| 0 <= v < n ==> #[trigger] g(v) == h(v),
    ensures
        sum_over(n, g) == sum_over(n, h),
{
    lemma_sum_differs_at(n, g, h, -1);
}

/// The sum of one over the items is the number of items.
pub proof fn lemma_sum_of_ones(b: Seq<int>)
    ensures
        sum_along(b, |v: int| 1int) == b.len(),
    decreases b.len(),
{
    if b.len() > 0 {
        lemma_sum_of_ones(b.drop_last());
    }
}

/// Whether every predecessor is the position just before.
pub open spec fn linked(groups: Seq<Option<usize>>) -> bool {
    forall|v: int| 0 <= v < groups.len() ==> (#[trigger] groups[v] matches Some(u) ==> u + 1 == v)
}

/// Which copy of its value a position holds: the first, or one more than
/// its predecessor.
pub open spec fn copy_number(groups: Seq<Option<usize>>, v: int) -> int
    decreases v,
{
    if v <= 0 || v >= groups.len() || groups[v] != Some((v - 1) as usize) {
        1
    } else {
        copy_number(groups, v - 1) + 1
    }
}

/// Whether `v` is one of the first `k` items of `a`.
pub open spec fn member(a: Seq<usize>, k: int, v: int) -> bool {
    exists|p: int| 0 <= p < k && p < a.len() && #[trigger] a[p] == v
}

/// Whether the first `k` items of `a` hold the predecessor of each of them
/// that has one.
pub open spec fn closed_below(a: Seq<usize>, groups: Seq<Option<usize>>, k: int) -> bool {
    forall|v: int|
        0 < v < groups.len() && #[trigger] member(a, k, v) && groups[v] == Some((v - 1) as usize)
            ==> member(a, k, v - 1)
}

/// Whether none of the first `k` items of `a` has `v` as its predecessor.
pub open spec fn is_top(a: Seq<usize>, groups: Seq<Option<usize>>, k: int, v: int) -> bool {
    !(v + 1 < groups.len() && member(a, k, v + 1) && groups[v + 1] == Some(v as usize))
}

/// Whether the first `k` items of an ordering keep the copies of each value
/// in their order.
pub open spec fn in_order_below(x: Seq<usize>, groups: Seq<Option<usize>>, k: int) -> bool {
    forall|p: int, q: int|
        0 <= p < k && 0 <= q < k && p < x.len() && q < x.len() && groups[x[p] as int] == Some(
            x[q],
        ) ==> q < p
}

/// How many of the orderings keep the copies of each value among their
/// first `k` items in their order.
pub open spec fn count_in_order(
    orderings: Seq<Seq<usize>>,
    groups: Seq<Option<usize>>,
    k: int,
) -> int
    decreases orderings.len(),
{
    if orderings.len() == 0 {
        0
    } else {
        count_in_order(orderings.drop_last(), groups, k) + if in_order_below(
            orderings.last(),
            groups,
            k,
        ) {
            1int
        } else {
            0int
        }
    }
}

/// The product of the copy numbers of the positions below `n` that are
/// among the first `k` items of `a`.
pub open spec fn weight(a: Seq<usize>, groups: Seq<Option<usize>>, k: int, n: int) -> int
    decreases n,
{
    if n <= 0 {
        1
    } else {
        weight(a, groups, k, n - 1) * if member(a, k, n - 1) {
            copy_number(groups, n - 1)
        } else {
            1
        }
    }
}

/// A copy number is one at least.
pub proof fn lemma_copy_number_positive(groups: Seq<Option<usize>>, v: int)
    ensures
        copy_number(groups, v) >= 1,
    decreases v,
{
    if !(v <= 0 || v >= groups.len() || groups[v] != Some((v - 1) as usize)) {
        lemma_copy_number_positive(groups, v - 1);
    }
}

/// What the highest copy of each value among the items counts for.
pub open spec fn top_copy(a: Seq<usize>, groups: Seq<Option<usize>>, k: int) -> spec_fn(
    int,
) -> int {
    |v: int|
        if member(a, k, v) && is_top(a, groups, k, v) {
            copy_number(groups, v)
        } else {
            0
        }
}

/// One for each position that is among the items.
pub open spec fn one_each(a: Seq<usize>, k: int) -> spec_fn(int) -> int {
    |v: int|
        if member(a, k, v) {
            1int
        } else {
            0int
        }
}

/// Among items that hold the predecessor of each of them, the copy numbers
/// of the highest copies of the values sum to the number of items.
///
/// Over the positions below `t` the sums differ by the copy number of the
/// position before `t`, where that is among the items and `t` is its next
/// copy among them.
pub proof fn lemma_top_copies(a: Seq<usize>, groups: Seq<Option<usize>>, k: int, t: int)
    requires
        linked(groups),
        closed_below(a, groups, k),
        0 <= t <= groups.len(),
    ensures
        sum_over(t, one_each(a, k)) == sum_over(t, top_copy(a, groups, k)) + if t >= 1 && member(
            a,
            k,
            t - 1,
        ) && !is_top(a, groups, k, t - 1) {
            copy_number(groups, t - 1)
        } else {
            0
        },
    decreases t,
{
    if t > 0 {
        lemma_top_copies(a, groups, k, t - 1);
        let v = t - 1;
        assert(one_each(a, k)(v) == if member(a, k, v) {
            1int
        } else {
            0int
        });
        assert(top_copy(a, groups, k)(v) == if member(a, k, v) && is_top(a, groups, k, v) {
            copy_number(groups, v)
        } else {
            0
        });
        if member(a, k, v) {
            if v > 0 && groups[v] == Some((v - 1) as usize) {
                assert(member(a, k, v - 1));
                assert(!is_top(a, groups, k, v - 1));
            } else {
                if v > 0 && member(a, k, v - 1) {
                    assert(is_top(a, groups, k, v - 1));
                }
            }
        } else {
            if v > 0 {
                assert(is_top(a, groups, k, v - 1));
            }
        }
    }
}

/// Of two runs of orderings joined, as many keep the copies in their
/// order as of the first run and of the second run together.
pub proof fn lemma_count_joined(
    first: Seq<Seq<usize>>,
    second: Seq<Seq<usize>>,
    groups: Seq<Option<usize>>,
    k: int,
)
    ensures
        count_in_order(first + second, groups, k) == count_in_order(first, groups, k)
            + count_in_order(second, groups, k),
    decreases second.len(),
{
    if second.len() == 0 {
        assert(first + second =~= first);
    } else {
        lemma_count_joined(first, second.drop_last(), groups, k);
        assert((first + second).drop_last() =~= first + second.drop_last());
    }
}

/// Where each of the orderings keeps the copies among its first `k` items
/// in their order exactly when it does among its first `m` items and
/// `counts` holds, as many do the one as do the other where `counts` holds,
/// and none does the one where it does not.
pub proof fn lemma_count_alike(
    orderings: Seq<Seq<usize>>,
    groups: Seq<Option<usize>>,
    k: int,
    m: int,
    counts: bool,
)
    requires
        forall|x: int|
            0 <= x < orderings.len() ==> in_order_below(#[trigger] orderings[x], groups, k) == (
            in_order_below(orderings[x], groups, m) && counts),
    ensures
        count_in_order(orderings, groups, k) == if counts {
            count_in_order(orderings, groups, m)
        } else {
            0
        },
    decreases orderings.len(),
{
    if orderings.len() > 0 {
        let shorter = orderings.drop_last();
        assert forall|x: int| 0 <= x < shorter.len() implies in_order_below(
            #[trigger] shorter[x],
            groups,
            k,
        ) == (in_order_below(shorter[x], groups, m) && counts) by {
            assert(shorter[x] == orderings[x]);
        }
        lemma_count_alike(shorter, groups, k, m, counts);
        assert(orderings.last() == orderings[orderings.len() - 1]);
    }
}

/// Where the first `k` items of one ordering are the first `k + 1` items of
/// another but for the position `gone`, the weight of the other is the
/// weight of the one times the copy number of `gone`.
pub proof fn lemma_weight_without(
    a: Seq<usize>,
    start: Seq<usize>,
    groups: Seq<Option<usize>>,
    k: int,
    n: int,
    gone: int,
)
    requires
        0 <= gone,
        member(a, k + 1, gone),
        forall|v: int|
            0 <= v < n ==> (#[trigger] member(start, k, v) <==> member(a, k + 1, v) && v != gone),
    ensures
        weight(a, groups, k + 1, n) == weight(start, groups, k, n) * if gone < n {
            copy_number(groups, gone)
        } else {
            1
        },
    decreases n,
{
    if n > 0 {
        lemma_weight_without(a, start, groups, k, n - 1, gone);
        let v = n - 1;
        let before = weight(start, groups, k, n - 1);
        let c = copy_number(groups, gone);
        let d = copy_number(groups, v);
        assert(member(start, k, v) <==> member(a, k + 1, v) && v != gone);
        if gone == v {
            assert(weight(a, groups, k + 1, n) == before * c);
            assert(before * 1 == before) by (nonlinear_arith);
        } else if gone < v {
            assert((before * c) * d == (before * d) * c) by (nonlinear_arith);
            assert((before * c) * 1 == (before * 1) * c) by (nonlinear_arith);
        } else {
            assert((before * 1) * d == (before * d) * 1) by (nonlinear_arith);
        }
    }
}

/// The weight of no items is one.
pub proof fn lemma_weight_of_none(a: Seq<usize>, groups: Seq<Option<usize>>, n: int)
    ensures
        weight(a, groups, 0, n) == 1,
    decreases n,
{
    if n > 0 {
        lemma_weight_of_none(a, groups, n - 1);
    }
}

/// Two orderings of which one orders the first `k` items of the other anew
/// hold the same positions among their first `k` items, where neither holds
/// a position twice.
pub proof fn lemma_same_members(x: Seq<usize>, a: Seq<usize>, k: int)
    requires
        0 <= k <= a.len(),
        reorders(x, a, k),
        distinct_below(x, k),
        distinct_below(a, k),
    ensures
        forall|v: int| #[trigger] member(x, k, v) <==> member(a, k, v),
{
    let from = Seq::new(
        k as nat,
        |p: int| choose|q: int| 0 <= q < k && q < a.len() && #[trigger] a[q] == x[p],
    );
    assert forall|p: int| 0 <= p < k implies 0 <= #[trigger] from[p] < k && a[from[p]]
        == x[p] by {
        assert(among(a, k, x[p]));
    }
    assert(places_below(from, k)) by {
        assert forall|p: int, q: int| 0 <= p < q < from.len() implies from[p] != from[q] by {
            assert(a[from[p]] == x[p]);
            assert(a[from[q]] == x[q]);
            assert(x[p] != x[q]);
        }
    }
    assert forall|v: int| #[trigger] member(x, k, v) <==> member(a, k, v) by {
        if member(x, k, v) {
            let p = choose|p: int| 0 <= p < k && p < x.len() && #[trigger] x[p] == v;
            assert(a[from[p]] == v);
        }
        if member(a, k, v) {
            let q = choose|q: int| 0 <= q < k && q < a.len() && #[trigger] a[q] == v;
            lemma_all_places(from, q);
            let p = choose|p: int| 0 <= p < from.len() && #[trigger] from[p] == q;
            assert(x[p] == v);
        }
    }
}

/// Whether `a` orders the positions that `groups` links: there are as many
/// items as positions, every predecessor is the position just before, and
/// `a` holds positions, none of them twice.
pub open spec fn fit(a: Seq<usize>, groups: Seq<Option<usize>>) -> bool {
    &&& a.len() == groups.len()
    &&& linked(groups)
    &&& forall|p: int| 0 <= p < a.len() ==> #[trigger] a[p] < a.len()
    &&& distinct_below(a, a.len() as int)
}

/// The positions that the rounds of place `i` up to round `j` bring to place
/// `i`.
pub open spec fn lasts(a: Seq<usize>, i: int, j: int) -> Seq<int> {
    Seq::new((j + 1) as nat, |r: int| a[round_from(i, r, i)] as int)
}

/// The positions that the rounds of place `i` bring to place `i` are the
/// first `i + 1` items, each once; the copy numbers of the highest copies
/// among them sum to `i + 1`.
#[verifier::rlimit(30)]
pub proof fn lemma_lasts_sum(a: Seq<usize>, groups: Seq<Option<usize>>, i: int)
    requires
        fit(a, groups),
        1 <= i < a.len(),
        closed_below(a, groups, i + 1),
    ensures
        sum_along(lasts(a, i, i), top_copy(a, groups, i + 1)) == i + 1,
{
    let n = a.len() as int;
    let brought = lasts(a, i, i);
    let f = top_copy(a, groups, i + 1);
    let from = Seq::new((i + 1) as nat, |r: int| round_from(i, r, i));
    assert(places_below(from, i + 1)) by {
        assert forall|r: int| 0 <= r < from.len() implies 0 <= #[trigger] from[r] < i + 1 by {
            if r < i {
                lemma_last_differs(i, r, i);
            } else {
                lemma_last_differs(i, 0, r);
            }
        }
        assert forall|r: int, t: int| 0 <= r < t < from.len() implies from[r] != from[t] by {
            lemma_last_differs(i, r, t);
        }
    }
    assert(places_below(brought, n)) by {
        assert forall|r: int| 0 <= r < brought.len() implies 0 <= #[trigger] brought[r] < n by {
            assert(0 <= from[r] < i + 1);
        }
        assert forall|r: int, t: int| 0 <= r < t < brought.len() implies brought[r]
            != brought[t] by {
            assert(from[r] != from[t]);
            assert(0 <= from[r] < i + 1 && 0 <= from[t] < i + 1);
            if from[r] < from[t] {
                assert(a[from[r]] != a[from[t]]);
            } else {
                assert(a[from[t]] != a[from[r]]);
            }
        }
    }
    lemma_sum_along_items(brought, n, f);
    assert forall|v: int| has_place(brought, v) <==> #[trigger] member(a, i + 1, v) by {
        if has_place(brought, v) {
            let r = choose|r: int| 0 <= r < brought.len() && #[trigger] brought[r] == v;
            assert(0 <= from[r] < i + 1);
            assert(a[from[r]] == v);
        }
        if member(a, i + 1, v) {
            let q = choose|q: int| 0 <= q < i + 1 && q < a.len() && #[trigger] a[q] == v;
            lemma_all_places(from, q);
            let r = choose|r: int| 0 <= r < from.len() && #[trigger] from[r] == q;
            assert(brought[r] == v);
        }
    }
    let among_brought = |v: int|
        if has_place(brought, v) {
            f(v)
        } else {
            0
        };
    assert forall|v: int| 0 <= v < n implies #[trigger] among_brought(v) == f(v) by {
        assert(has_place(brought, v) <==> member(a, i + 1, v));
    }
    lemma_sum_same(n, among_brought, f);
    lemma_top_copies(a, groups, i + 1, n);
    let items = Seq::new((i + 1) as nat, |p: int| a[p] as int);
    assert(places_below(items, n)) by {
        assert forall|p: int, q: int| 0 <= p < q < items.len() implies items[p] != items[q] by {
            assert(a[p] != a[q]);
        }
    }
    let ones = |v: int| 1int;
    lemma_sum_along_items(items, n, ones);
    lemma_sum_of_ones(items);
    let among_items = |v: int|
        if has_place(items, v) {
            ones(v)
        } else {
            0
        };
    assert forall|v: int| 0 <= v < n implies #[trigger] among_items(v) == one_each(a, i + 1)(
        v,
    ) by {
        if has_place(items, v) {
            let p = choose|p: int| 0 <= p < items.len() && #[trigger] items[p] == v;
            assert(a[p] == v);
        }
        if member(a, i + 1, v) {
            let p = choose|p: int| 0 <= p < i + 1 && p < a.len() && #[trigger] a[p] == v;
            assert(items[p] == v);
        }
    }
    lemma_sum_same(n, among_items, one_each(a, i + 1));
}

/// How many orderings of the first `k` items keep the copies of each value
/// in their order.
///
/// Where the first `k` items of `a` hold the predecessor of each of them,
/// the number of the orderings of the first `k` items that keep the copies
/// among these in their order, times the copy numbers of the items, is
/// `factorial(k)`.
#[verifier::rlimit(30)]
pub proof fn lemma_count_all(a: Seq<usize>, groups: Seq<Option<usize>>, k: int)
    requires
        fit(a, groups),
        0 <= k <= a.len(),
        closed_below(a, groups, k),
    ensures
        count_in_order(all_of(a, k), groups, k) * weight(a, groups, k, a.len() as int)
            == factorial(k as nat),
    decreases k, 0int,
{
    let n = a.len() as int;
    reveal_with_fuel(factorial, 2);
    reveal_with_fuel(count_in_order, 2);
    if k <= 1 {
        assert(all_of(a, k) =~= seq![a]);
        assert(seq![a].drop_last() =~= Seq::<Seq<usize>>::empty());
        assert(in_order_below(a, groups, k));
        assert(count_in_order(all_of(a, k), groups, k) == 1);
        lemma_weight_of_none(a, groups, n);
        if k == 1 {
            let first = a[0] as int;
            assert(member(a, 1, first));
            assert forall|v: int| 0 <= v < n implies (#[trigger] member(a, 0, v) <==> member(
                a,
                1,
                v,
            ) && v != first) by {
                if member(a, 1, v) {
                    let p = choose|p: int| 0 <= p < 1 && p < a.len() && #[trigger] a[p] == v;
                }
            }
            lemma_weight_without(a, a, groups, 0, n, first);
            if first > 0 && groups[first] == Some((first - 1) as usize) {
                assert(member(a, 1, first - 1));
                let p = choose|p: int|
                    0 <= p < 1 && p < a.len() && #[trigger] a[p] == first - 1;
            }
            assert(copy_number(groups, first) == 1);
        }
    } else {
        let i = k - 1;
        lemma_count_blocks(a, groups, i, i);
        lemma_lasts_sum(a, groups, i);
        assert(all_of(a, k) =~= up_to(a, i, i));
        assert(factorial(k as nat) == k * factorial(i as nat));
        assert(factorial(i as nat) * (i + 1) == k * factorial(i as nat)) by (nonlinear_arith)
            requires
                k == i + 1,
        ;
    }
}

/// How many of the orderings that are yielded up to the end of round `j` of
/// place `i` keep the copies among their first `i + 1` items in their
/// order: times the copy numbers of these items, `factorial(i)` for each
/// round, times the copy number of the position that the round brings to
/// place `i` where that is the highest copy of its value.
#[verifier::rlimit(30)]
pub proof fn lemma_count_blocks(a: Seq<usize>, groups: Seq<Option<usize>>, i: int, j: int)
    requires
        fit(a, groups),
        1 <= i < a.len(),
        0 <= j <= i,
        closed_below(a, groups, i + 1),
    ensures
        count_in_order(up_to(a, i, j), groups, i + 1) * weight(
            a,
            groups,
            i + 1,
            a.len() as int,
        ) == factorial(i as nat) * sum_along(lasts(a, i, j), top_copy(a, groups, i + 1)),
    decreases i, j + 1,
{
    let n = a.len() as int;
    let f = top_copy(a, groups, i + 1);
    let start = round(a, i, j);
    let total = weight(a, groups, i + 1, n);
    lemma_round_reorders(a, i, j);
    let gone = start[i] as int;
    assert(gone == a[round_from(i, j, i)]);
    assert(member(a, i + 1, gone));
    // The round starts with an ordering of the same positions.
    assert(fit(start, groups)) by {
        assert forall|p: int| 0 <= p < start.len() implies #[trigger] start[p] < start.len() by {
            if p <= i {
                assert(among(a, i + 1, start[p]));
            }
        }
        assert forall|p: int, q: int| 0 <= p < q < n && q < start.len() implies start[p]
            != start[q] by {
            if q <= i {
            } else if p > i {
                assert(a[p] != a[q]);
            } else {
                assert(among(a, i + 1, start[p]));
                let r = choose|r: int| 0 <= r < i + 1 && r < a.len() && #[trigger] a[r] == start[p];
                assert(a[r] != a[q]);
            }
        }
    }
    lemma_same_members(start, a, i + 1);
    assert forall|v: int| 0 <= v < n implies (#[trigger] member(start, i, v) <==> member(
        a,
        i + 1,
        v,
    ) && v != gone) by {
        assert(member(start, i + 1, v) <==> member(a, i + 1, v));
        if member(start, i, v) {
            let p = choose|p: int| 0 <= p < i && p < start.len() && #[trigger] start[p] == v;
            assert(start[p] != start[i]);
            assert(member(start, i + 1, v));
        }
        if member(a, i + 1, v) && v != gone {
            assert(member(start, i + 1, v));
            let p = choose|p: int| 0 <= p < i + 1 && p < start.len() && #[trigger] start[p] == v;
            assert(p < i);
        }
    }
    lemma_weight_without(a, start, groups, i, n, gone);
    let top = is_top(a, groups, i + 1, gone);
    let block = all_of(start, i);
    lemma_all_of_different(start, i);
    assert forall|x: int| 0 <= x < block.len() implies in_order_below(
        #[trigger] block[x],
        groups,
        i + 1,
    ) == (in_order_below(block[x], groups, i) && top) by {
        let e = block[x];
        assert(reorders(e, start, i));
        assert(e[i] == start[i]);
        lemma_same_members(e, start, i);
        if in_order_below(e, groups, i + 1) {
            if !top {
                assert(member(a, i + 1, gone + 1));
                assert(member(start, i, gone + 1));
                assert(member(e, i, gone + 1));
                let p = choose|p: int| 0 <= p < i && p < e.len() && #[trigger] e[p] == gone + 1;
                assert(groups[e[p] as int] == Some(e[i]));
            }
        }
        if in_order_below(e, groups, i) && top {
            assert forall|p: int, q: int|
                0 <= p < i + 1 && 0 <= q < i + 1 && p < e.len() && q < e.len()
                    && groups[e[p] as int] == Some(e[q]) implies q < p by {
                if q == i && p < i {
                    assert(member(e, i, e[p] as int));
                    assert(member(start, i, e[p] as int));
                    assert(member(a, i + 1, e[p] as int));
                    assert(e[p] == gone + 1);
                }
            }
        }
    }
    lemma_count_alike(block, groups, i + 1, i, top);
    lemma_copy_number_positive(groups, gone);
    let here = count_in_order(block, groups, i + 1);
    if top {
        assert(closed_below(start, groups, i)) by {
            assert forall|v: int|
                0 < v < groups.len() && #[trigger] member(start, i, v) && groups[v] == Some(
                    (v - 1) as usize,
                ) implies member(start, i, v - 1) by {
                assert(member(a, i + 1, v));
                assert(member(a, i + 1, v - 1));
            }
        }
        lemma_count_all(start, groups, i);
        let inner = count_in_order(block, groups, i);
        let w = weight(start, groups, i, n);
        let c = copy_number(groups, gone);
        assert(f(gone) == c);
        assert(here * total == factorial(i as nat) * c) by (nonlinear_arith)
            requires
                here == inner,
                total == w * c,
                inner * w == factorial(i as nat),
        ;
    } else {
        assert(f(gone) == 0);
        assert(here * total == factorial(i as nat) * 0) by (nonlinear_arith)
            requires
                here == 0,
        ;
    }
    assert(here * total == factorial(i as nat) * f(gone));
    if j == 0 {
        assert(up_to(a, i, j) =~= block);
        assert(lasts(a, i, 0).drop_last() =~= Seq::<int>::empty());
        assert(lasts(a, i, 0).last() == gone);
        reveal_with_fuel(sum_along, 2);
    } else {
        lemma_count_blocks(a, groups, i, j - 1);
        let before = up_to(a, i, j - 1);
        assert(up_to(a, i, j) =~= before + block);
        lemma_count_joined(before, block, groups, i + 1);
        assert(lasts(a, i, j).drop_last() =~= lasts(a, i, j - 1));
        assert(lasts(a, i, j).last() == gone);
        let earlier = count_in_order(before, groups, i + 1);
        let sum = sum_along(lasts(a, i, j - 1), f);
        assert((earlier + here) * total == factorial(i as nat) * (sum + f(gone)))
            by (nonlinear_arith)
            requires
                earlier * total == factorial(i as nat) * sum,
                here * total == factorial(i as nat) * f(gone),
        ;
    }
}

/// The product of the copy numbers of the positions below `m`.
pub open spec fn copies_product(groups: Seq<Option<usize>>, m: int) -> int
    decreases m,
{
    if m <= 0 {
        1
    } else {
        copies_product(groups, m - 1) * copy_number(groups, m - 1)
    }
}

/// The product, over the pairs, of the factorial of the count of each.
pub open spec fn repeats<T>(pairs: Seq<(T, usize)>) -> int
    decreases pairs.len(),
{
    if pairs.len() == 0 {
        1
    } else {
        repeats(pairs.drop_last()) * factorial(pairs.last().1 as nat)
    }
}

/// The weight of all positions in their order is the product of their copy
/// numbers.
pub proof fn lemma_weight_of_all(groups: Seq<Option<usize>>, n: nat, m: int)
    requires
        0 <= m <= n,
        n <= usize::MAX,
    ensures
        weight(indices(n), groups, n as int, m) == copies_product(groups, m),
    decreases m,
{
    if m > 0 {
        lemma_weight_of_all(groups, n, m - 1);
        assert(indices(n)[m - 1] == m - 1);
        assert(member(indices(n), n as int, m - 1));
    }
}

/// A copy number depends on the predecessors up to the position alone.
pub proof fn lemma_copy_number_of_prefix(
    groups: Seq<Option<usize>>,
    longer: Seq<Option<usize>>,
    v: int,
)
    requires
        groups.len() <= longer.len(),
        forall|u: int| 0 <= u < groups.len() ==> groups[u] == longer[u],
        v < groups.len(),
    ensures
        copy_number(groups, v) == copy_number(longer, v),
    decreases v,
{
    if v > 0 {
        lemma_copy_number_of_prefix(groups, longer, v - 1);
    }
}

/// The product of the copy numbers below a position depends on the
/// predecessors below the position alone.
pub proof fn lemma_copies_product_of_prefix(
    groups: Seq<Option<usize>>,
    longer: Seq<Option<usize>>,
    m: int,
)
    requires
        groups.len() <= longer.len(),
        forall|u: int| 0 <= u < groups.len() ==> groups[u] == longer[u],
        m <= groups.len(),
    ensures
        copies_product(groups, m) == copies_product(longer, m),
    decreases m,
{
    if m > 0 {
        lemma_copies_product_of_prefix(groups, longer, m - 1);
        lemma_copy_number_of_prefix(groups, longer, m - 1);
    }
}

/// The predecessors of expanded pairs are the positions just before, and
/// the copy numbers of the positions multiply to the factorials of the
/// counts of the pairs.
pub proof fn lemma_predecessors_linked<T>(pairs: Seq<(T, usize)>)
    requires
        pair_total(pairs) <= usize::MAX,
    ensures
        linked(predecessors(pairs)),
        predecessors(pairs).len() == pair_total(pairs),
        copies_product(predecessors(pairs), pair_total(pairs)) == repeats(pairs),
    decreases pairs.len(),
{
    lemma_predecessors(pairs);
    lemma_expanded(pairs, |t: T| true);
    if pairs.len() > 0 {
        let before = pairs.drop_last();
        let count = pairs.last().1 as int;
        super::subset_permutation_generator::lemma_pair_total_grows(pairs, pairs.len() - 1);
        assert(pairs.take(pairs.len() - 1) =~= before);
        lemma_predecessors_linked(before);
        lemma_predecessors(before);
        lemma_expanded(before, |t: T| true);
        let groups = predecessors(pairs);
        let earlier = predecessors(before);
        let start = earlier.len() as int;
        assert forall|v: int| 0 <= v < groups.len() implies (#[trigger] groups[v] matches Some(
            u,
        ) ==> u + 1 == v) by {
            if v < start {
                assert(groups[v] == earlier[v]);
            }
        }
        lemma_copies_product_of_prefix(earlier, groups, start);
        lemma_block_product(groups, start, count);
    }
}

/// The copy numbers of a value's positions are one, two and so on, and
/// multiply to the factorial of their number.
pub proof fn lemma_block_product(groups: Seq<Option<usize>>, start: int, t: int)
    requires
        0 <= start,
        0 <= t,
        start + t <= groups.len(),
        start + t <= usize::MAX,
        forall|c: int|
            0 <= c < t ==> #[trigger] groups[start + c] == if c == 0 {
                None
            } else {
                Some((start + c - 1) as usize)
            },
    ensures
        copies_product(groups, start + t) == copies_product(groups, start) * factorial(t as nat),
        t > 0 ==> copy_number(groups, start + t - 1) == t,
    decreases t,
{
    reveal_with_fuel(factorial, 2);
    if t > 0 {
        lemma_block_product(groups, start, t - 1);
        let v = start + t - 1;
        assert(groups[start + (t - 1)] == if t - 1 == 0 {
            None
        } else {
            Some((start + (t - 1) - 1) as usize)
        });
        assert(copy_number(groups, v) == t);
        let p = copies_product(groups, start);
        let f = factorial((t - 1) as nat) as int;
        assert(factorial(t as nat) == t * f);
        assert((p * f) * t == p * (t * f)) by (nonlinear_arith);
    } else {
        assert(copies_product(groups, start) * 1 == copies_product(groups, start))
            by (nonlinear_arith);
    }
}

/// As many values are selected as orderings keep the copies of each value
/// in their order.
pub proof fn lemma_selected_count<T>(
    orderings: Seq<Seq<usize>>,
    groups: Seq<Option<usize>>,
    elements: Seq<T>,
)
    requires
        forall|x: int|
            0 <= x < orderings.len() ==> (#[trigger] orderings[x]).len() == elements.len(),
    ensures
        selected(orderings, groups, elements).len() == count_in_order(
            orderings,
            groups,
            elements.len() as int,
        ),
    decreases orderings.len(),
{
    if orderings.len() > 0 {
        let rest = orderings.drop_first();
        assert forall|x: int| 0 <= x < rest.len() implies (#[trigger] rest[x]).len()
            == elements.len() by {
            assert(rest[x] == orderings[x + 1]);
        }
        lemma_selected_count(rest, groups, elements);
        let first = seq![orderings[0]];
        assert(first + rest =~= orderings);
        lemma_count_joined(first, rest, groups, elements.len() as int);
        reveal_with_fuel(count_in_order, 2);
        assert(first.drop_last() =~= Seq::<Seq<usize>>::empty());
        assert(first.last() == orderings[0]);
        assert(keeps_copies_in_order(orderings[0], groups) == in_order_below(
            orderings[0],
            groups,
            elements.len() as int,
        ));
    }
}

/// How many distinct orderings of values with repetitions there are, and
/// that the generator yields each of them once.
///
/// For pairs of a value and its number of copies, the generator yields as
/// many orderings as the factorial of the number of all copies divided by
/// the factorial of the number of copies of each value: the number of
/// orderings, times these factorials, is the factorial of the number of all
/// copies. Where no two pairs hold the same value, each of the orderings is
/// an ordering of the values that the pairs stand for, no two of them are
/// the same, and every ordering of the values is among them.
pub proof fn lemma_distinct_orderings<T>(pairs: Seq<(T, usize)>)
    requires
        pair_total(pairs) <= usize::MAX,
    ensures
        Selection::of(pairs).remaining().len() * repeats(pairs) == factorial(
            pair_total(pairs) as nat,
        ),
        keys_differ(pairs) ==> pairwise_different(Selection::of(pairs).remaining()),
        keys_differ(pairs) ==> forall|k: int|
            0 <= k < Selection::of(pairs).remaining().len() ==> orders(
                #[trigger] Selection::of(pairs).remaining()[k],
                expanded(pairs),
            ),
        keys_differ(pairs) ==> forall|values: Seq<T>| #[trigger]
            orders(values, expanded(pairs)) ==> is_among(
                Selection::of(pairs).remaining(),
                values,
            ),
{
    let selection = Selection::of(pairs);
    let n = expanded(pairs).len();
    let groups = predecessors(pairs);
    lemma_expanded(pairs, |t: T| true);
    lemma_predecessors_linked(pairs);
    lemma_indices_ordering(n);
    lemma_selection_of_wf(pairs);
    let a = indices(n);
    assert(fit(a, groups));
    assert(closed_below(a, groups, n as int)) by {
        assert forall|v: int|
            0 < v < groups.len() && #[trigger] member(a, n as int, v) && groups[v] == Some(
                (v - 1) as usize,
            ) implies member(a, n as int, v - 1) by {
            assert(a[v - 1] == v - 1);
        }
    }
    lemma_count_all(a, groups, n as int);
    lemma_weight_of_all(groups, n, n as int);
    lemma_generator_yields(a);
    lemma_remaining_index_orderings(selection.unique);
    lemma_selected_count(selection.unique.remaining(), groups, selection.elements);
    if keys_differ(pairs) {
        lemma_no_ordering_of_values_twice(pairs);
        assert forall|values: Seq<T>| #[trigger] orders(values, expanded(pairs)) implies is_among(
            Selection::of(pairs).remaining(),
            values,
        ) by {
            lemma_every_ordering_of_values(pairs, values);
        }
    }
}

} // verus!
