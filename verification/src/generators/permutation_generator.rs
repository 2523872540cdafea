//! Orderings of a sequence: all of them, and those that differ as sequences
//! of values when some values are equal.
use super::counting_laws::{lemma_distinct_orderings, repeats};
use super::ordering_laws::pairwise_different;
use super::selection_laws::keys_differ;
use std::collections::BTreeMap;
use vstd::prelude::*;

verus! {

/// The product of the numbers from one to `n`.
pub open spec fn factorial(n: nat) -> nat
    decreases n,
{
    if n == 0 {
        1
    } else {
        n * factorial((n - 1) as nat)
    }
}

/// `a` with the items at `x` and `y` exchanged.
pub open spec fn swapped<T>(a: Seq<T>, x: int, y: int) -> Seq<T> {
    a.update(x, a[y]).update(y, a[x])
}

/// The counters below position `k` read as one number: the counter of
/// position `j` counts units of `factorial(j)`.
pub open spec fn rank(c: Seq<int>, k: int) -> int
    decreases k,
{
    if k <= 1 {
        0
    } else {
        rank(c, k - 1) + c[k - 1] * factorial((k - 1) as nat)
    }
}

/// What a generator of orderings holds: the current ordering `a`, one
/// counter for each position in `c`, and the position `i` at which the
/// search for the next exchange goes on. `i` is zero before the first
/// ordering has been yielded.
pub struct Arrangement<T> {
    pub a: Seq<T>,
    pub c: Seq<int>,
    pub i: int,
}

/// What a generator holds that has been given the ordering `a` and has not
/// yielded an ordering yet.
pub open spec fn fresh<T>(a: Seq<T>) -> Arrangement<T> {
    Arrangement { a, c: Seq::new(a.len(), |p: int| 0int), i: 0 }
}

impl<T> Arrangement<T> {
    /// The counter of each position lies between zero and the position, and
    /// there is one counter for each item.
    pub open spec fn counters_in_range(self) -> bool {
        &&& self.c.len() == self.a.len()
        &&& forall|k: int| 0 <= k < self.c.len() ==> 0 <= #[trigger] self.c[k] <= k
    }

    /// The counters are in range, and the generator stands before its first
    /// ordering with all counters at zero, or between two orderings, or
    /// behind the last one.
    pub open spec fn wf(self) -> bool {
        &&& self.counters_in_range()
        &&& self.i == 0 || self.i == 1 || self.i == self.a.len()
        &&& self.i == 0 ==> forall|k: int| 0 <= k < self.c.len() ==> #[trigger] self.c[k] == 0
    }

    /// Looks from position `i` upward for a position whose counter is not
    /// used up, setting the counters it passes to zero. Where it finds one,
    /// it exchanges the item there with the first item, at an even position,
    /// or with the item that the counter points to, at an odd one, and
    /// counts; the new ordering is yielded. Where it finds none, nothing is
    /// yielded.
    pub open spec fn scan(self) -> (Option<Seq<T>>, Arrangement<T>)
        decreases self.a.len() - self.i,
    {
        if self.i < 1 || self.i >= self.a.len() {
            (None, self)
        } else if self.c[self.i] < self.i {
            let other = if self.i % 2 == 0 {
                0
            } else {
                self.c[self.i]
            };
            let a = swapped(self.a, other, self.i);
            (Some(a), Arrangement { a, c: self.c.update(self.i, self.c[self.i] + 1), i: 1 })
        } else {
            (Arrangement { a: self.a, c: self.c.update(self.i, 0), i: self.i + 1 }).scan()
        }
    }

    /// One call for the next ordering: what is yielded, and what the
    /// generator holds afterwards. The first call yields the ordering as it
    /// was given.
    pub open spec fn step(self) -> (Option<Seq<T>>, Arrangement<T>) {
        if self.i == 0 {
            (Some(self.a), Arrangement { a: self.a, c: self.c, i: 1 })
        } else {
            self.scan()
        }
    }

    /// How many orderings are yet to be yielded.
    pub open spec fn left(self) -> int {
        if self.i == 0 {
            factorial(self.a.len()) as int
        } else if self.i == 1 {
            factorial(self.a.len()) - 1 - rank(self.c, self.a.len() as int)
        } else {
            0
        }
    }

    /// The orderings that are yet to be yielded, in their order.
    pub open spec fn remaining(self) -> Seq<Seq<T>>
        decreases self.left(),
        when self.wf()
        via Self::remaining_decreases
    {
        match self.step() {
            (Some(ordering), next) => seq![ordering] + next.remaining(),
            (None, _) => Seq::empty(),
        }
    }

    #[via_fn]
    proof fn remaining_decreases(self) {
        self.lemma_step();
        self.step().1.lemma_step();
    }

    /// The orderings yet to be yielded are the one that the next step
    /// yields, followed by those yet to be yielded after it.
    pub proof fn lemma_remaining(self)
        requires
            self.wf(),
        ensures
            self.step().1.wf(),
            self.step().0 matches Some(ordering) ==> self.remaining().len() > 0
                && self.remaining()[0] == ordering && self.step().1.remaining()
                == self.remaining().drop_first(),
            self.step().0 is None ==> self.remaining().len() == 0 && self.step().1.remaining().len()
                == 0,
            self.remaining().len() == self.left(),
            self.step().1.a.len() == self.a.len(),
            self.step().0 matches Some(ordering) ==> ordering == self.step().1.a,
        decreases self.left(),
    {
        self.lemma_step();
        if self.i == 1 {
            self.lemma_scan();
        }
        self.step().1.lemma_step();
        if self.step().0 is Some {
            self.step().1.lemma_remaining();
            assert(self.remaining().drop_first() =~= self.step().1.remaining());
        } else {
            let next = self.step().1;
            next.lemma_step();
            assert(next.step().0 is None) by {
                if next.step().0 is Some {
                    next.step().1.lemma_step();
                }
            }
        }
    }

    /// A step from a well-formed state leads to a well-formed state; where
    /// it yields an ordering, one ordering fewer is left, and where it yields
    /// none, none was left.
    pub proof fn lemma_step(self)
        requires
            self.wf(),
        ensures
            self.step().1.wf(),
            self.left() >= 0,
            self.step().0 is Some ==> self.step().1.left() == self.left() - 1,
            self.step().0 is None ==> self.left() == 0 && self.step().1.left() == 0,
            self.step().1.a.len() == self.a.len(),
    {
        let n = self.a.len() as int;
        reveal_with_fuel(factorial, 2);
        lemma_factorial_positive(n as nat);
        lemma_rank_bound(self.c, n);
        if self.i == 0 {
            let next = self.step().1;
            lemma_rank_of_zeros(next.c, n);
        } else if self.i == 1 {
            self.lemma_scan();
        } else {
        }
    }

    /// What a scan does to the counters read as a number. The scan starts at
    /// position `i` with the counters below it at zero. Where it yields an
    /// ordering, the number has grown by `factorial(i)`; where it yields
    /// none, the number was `factorial(n) - factorial(i)`, the generator is
    /// behind the last ordering, and the ordering is unchanged.
    pub proof fn lemma_scan(self)
        requires
            self.counters_in_range(),
            1 <= self.i,
            self.i <= self.a.len() || self.i == 1,
            forall|j: int| 1 <= j < self.i && j < self.c.len() ==> #[trigger] self.c[j] == 0,
        ensures
            self.scan().1.counters_in_range(),
            self.scan().1.a.len() == self.a.len(),
            self.scan().0 is Some ==> {
                &&& self.scan().1.i == 1
                &&& rank(self.scan().1.c, self.a.len() as int) == rank(self.c, self.a.len() as int)
                    + factorial(self.i as nat)
                &&& self.scan().0 == Some(self.scan().1.a)
            },
            self.scan().0 is None ==> {
                &&& self.scan().1.i == self.a.len() || (self.a.len() == 0 && self.scan().1.i
                    == 1)
                &&& rank(self.c, self.a.len() as int) + factorial(self.i as nat) == factorial(
                    self.a.len(),
                ) || self.a.len() == 0
                &&& self.scan().1.a == self.a
            },
        decreases self.a.len() - self.i,
    {
        let n = self.a.len() as int;
        let f = factorial(self.i as nat) as int;
        reveal_with_fuel(factorial, 2);
        if self.i >= n {
            lemma_rank_of_zeros(self.c, n);
        } else if self.c[self.i] < self.i {
            lemma_rank_update(self.c, self.i, self.c[self.i] + 1, n);
            assert((self.c[self.i] + 1 - self.c[self.i]) * f == f) by (nonlinear_arith);
        } else {
            let passed = Arrangement { a: self.a, c: self.c.update(self.i, 0), i: self.i + 1 };
            passed.lemma_scan();
            lemma_rank_update(self.c, self.i, 0, n);
            assert(self.c[self.i] == self.i);
            assert(factorial((self.i + 1) as nat) == (self.i + 1) * factorial(self.i as nat));
            assert((self.i + 1) * f == self.i * f + f) by (nonlinear_arith);
            assert((0 - self.i) * f == -(self.i * f)) by (nonlinear_arith);
            assert(rank(passed.c, n) == rank(self.c, n) - self.i * f);
        }
    }
}

/// A copy of the vector.
pub fn copy_of<T: Copy>(items: &Vec<T>) -> (copy: Vec<T>)
    ensures
        copy@ == items@,
{
    let mut copy = Vec::new();
    let mut k: usize = 0;
    while k < items.len()
        invariant
            k <= items.len(),
            copy@ == items@.take(k as int),
        decreases items.len() - k,
    {
        copy.push(items[k]);
        proof {
            assert(copy@ =~= items@.take(k + 1));
        }
        k = k + 1;
    }
    proof {
        assert(items@.take(k as int) =~= items@);
    }
    copy
}

/// Yields every ordering of the items it was given, one at each call, each
/// differing from the one before by one exchange of two items.
#[derive(Debug)]
pub struct UniquePermutationGenerator<T: Copy> {
    a: Vec<T>,
    c: Vec<usize>,
    i: usize,
}

impl<T: Copy> View for UniquePermutationGenerator<T> {
    type V = Arrangement<T>;

    closed spec fn view(&self) -> Arrangement<T> {
        Arrangement { a: self.a@, c: self.c@.map_values(|x: usize| x as int), i: self.i as int }
    }
}

impl<T: Copy> UniquePermutationGenerator<T> {
    /// A generator that stands before its first ordering: the items as they
    /// are given.
    pub fn new(a: Vec<T>) -> (generator: Self)
        ensures
            generator@ == fresh(a@),
            generator@.wf(),
            generator@.remaining().len() > 0,
            generator@.remaining()[0] == a@,
    {
        let mut c: Vec<usize> = Vec::new();
        let mut k: usize = 0;
        while k < a.len()
            invariant
                k <= a.len(),
                c@.len() == k,
                forall|j: int| 0 <= j < k ==> c@[j] == 0,
            decreases a.len() - k,
        {
            c.push(0);
            k = k + 1;
        }
        let generator = Self { c, a, i: 0 };
        proof {
            assert(generator@.c =~= fresh(generator@.a).c);
            generator@.lemma_remaining();
        }
        generator
    }

    /// Yields the next ordering, or nothing when every ordering has been
    /// yielded.
    pub fn next(&mut self) -> (r: Option<Vec<T>>)
        requires
            old(self)@.wf(),
        ensures
            final(self)@.wf(),
            final(self)@ == old(self)@.step().1,
            match r {
                Some(ordering) => old(self)@.step().0 == Some(ordering@) && old(self)@.remaining().len() > 0 && ordering@ == old(self)@.remaining()[0] && final(self)@.remaining() == old(self)@.remaining().drop_first(),
                None => old(self)@.step().0 is None && old(self)@.remaining().len() == 0
                    && final(self)@.remaining().len() == 0,
            },
    {
        proof {
            old(self)@.lemma_remaining();
        }
        if self.i == 0 {
            self.i = 1;
            return Some(copy_of(&self.a));
        }
        while self.i < self.a.len()
            invariant
                self@.counters_in_range(),
                1 <= self.i,
                self@.scan() == old(self)@.scan(),
                old(self)@.i != 0,
                old(self)@.wf(),
            decreases self.a.len() - self.i,
        {
            let i = self.i;
            let ghost before = self@;
            if self.c[i] < i {
                let other = if i % 2 == 0 {
                    0
                } else {
                    self.c[i]
                };
                let moved = self.a[i];
                let replaced = self.a[other];
                self.a.set(other, moved);
                self.a.set(i, replaced);
                let count = self.c[i];
                self.c.set(i, count + 1);
                self.i = 1;
                proof {
                    assert(self@.a =~= swapped(before.a, other as int, i as int));
                    assert(self@.c =~= before.c.update(i as int, before.c[i as int] + 1));
                    assert(self@ == before.scan().1);
                    old(self)@.lemma_remaining();
                }
                return Some(copy_of(&self.a));
            } else {
                self.c.set(i, 0);
                self.i = i + 1;
                proof {
                    assert(self@.c =~= before.c.update(i as int, 0));
                }
            }
        }
        None
    }
}

/// Whether the number `v` is an item of `a`.
pub open spec fn occurs(a: Seq<usize>, v: int) -> bool {
    exists|k: int| 0 <= k < a.len() && #[trigger] a[k] == v
}

/// Whether `a` holds each of the numbers below its length exactly once.
pub open spec fn is_index_ordering(a: Seq<usize>) -> bool {
    &&& forall|k: int| 0 <= k < a.len() ==> #[trigger] a[k] < a.len()
    &&& forall|j: int, k: int| 0 <= j < k < a.len() ==> a[j] != a[k]
    &&& forall|v: int| 0 <= v < a.len() ==> #[trigger] occurs(a, v)
}

/// Exchanging two items of an ordering of the numbers below its length
/// gives such an ordering again.
pub proof fn lemma_swapped_index_ordering(a: Seq<usize>, x: int, y: int)
    requires
        is_index_ordering(a),
        0 <= x < a.len(),
        0 <= y < a.len(),
    ensures
        is_index_ordering(swapped(a, x, y)),
{
    let b = swapped(a, x, y);
    assert forall|v: int| 0 <= v < b.len() implies #[trigger] occurs(b, v) by {
        assert(occurs(a, v));
        let k = choose|k: int| 0 <= k < a.len() && #[trigger] a[k] == v;
        if k == x {
            assert(b[y] == v);
        } else if k == y {
            assert(b[x] == v);
        } else {
            assert(b[k] == v);
        }
    }
}

/// A step of a generator that holds an ordering of the numbers below its
/// length leaves it holding such an ordering, and yields such an ordering.
pub proof fn lemma_scan_index_ordering(s: Arrangement<usize>)
    requires
        s.counters_in_range(),
        is_index_ordering(s.a),
        1 <= s.i,
    ensures
        is_index_ordering(s.scan().1.a),
        s.scan().0 matches Some(ordering) ==> is_index_ordering(ordering),
    decreases s.a.len() - s.i,
{
    if s.i < s.a.len() {
        if s.c[s.i] < s.i {
            let other = if s.i % 2 == 0 {
                0
            } else {
                s.c[s.i]
            };
            lemma_swapped_index_ordering(s.a, other, s.i);
        } else {
            lemma_scan_index_ordering(Arrangement { a: s.a, c: s.c.update(s.i, 0), i: s.i + 1 });
        }
    }
}

/// The values that the pairs stand for: each value as many times as its
/// count says, in the order of the pairs.
pub open spec fn expanded<T>(pairs: Seq<(T, usize)>) -> Seq<T>
    decreases pairs.len(),
{
    if pairs.len() == 0 {
        Seq::empty()
    } else {
        expanded(pairs.drop_last()) + Seq::new(pairs.last().1 as nat, |k: int| pairs.last().0)
    }
}

/// The sum of the counts of the pairs.
pub open spec fn pair_total<T>(pairs: Seq<(T, usize)>) -> int
    decreases pairs.len(),
{
    if pairs.len() == 0 {
        0
    } else {
        pair_total(pairs.drop_last()) + pairs.last().1
    }
}

/// There are as many expanded values as the counts of the pairs sum to, and
/// each of them is the value of a pair: what holds of the value of every
/// pair holds of every expanded value.
pub proof fn lemma_expanded<T>(pairs: Seq<(T, usize)>, good: spec_fn(T) -> bool)
    requires
        forall|j: int| 0 <= j < pairs.len() ==> good((#[trigger] pairs[j]).0),
    ensures
        expanded(pairs).len() == pair_total(pairs),
        forall|i: int| 0 <= i < expanded(pairs).len() ==> good(#[trigger] expanded(pairs)[i]),
    decreases pairs.len(),
{
    if pairs.len() > 0 {
        let before = pairs.drop_last();
        assert forall|j: int| 0 <= j < before.len() implies good((#[trigger] before[j]).0) by {
            assert(before[j] == pairs[j]);
        }
        lemma_expanded(before, good);
        assert(good(pairs[pairs.len() - 1].0));
    }
}

/// For each position of the expanded pairs, the position of the copy of the
/// same pair's value before it; none for the first copy.
pub open spec fn predecessors<T>(pairs: Seq<(T, usize)>) -> Seq<Option<usize>>
    decreases pairs.len(),
{
    if pairs.len() == 0 {
        Seq::empty()
    } else {
        let before = predecessors(pairs.drop_last());
        before + Seq::new(
            pairs.last().1 as nat,
            |k: int|
                if k == 0 {
                    None
                } else {
                    Some((before.len() + k - 1) as usize)
                },
        )
    }
}

/// The numbers below `n` in ascending order.
pub open spec fn indices(n: nat) -> Seq<usize> {
    Seq::new(n, |k: int| k as usize)
}

/// Whether an ordering of positions keeps the copies of each value in their
/// order: no position comes before its predecessor.
pub open spec fn keeps_copies_in_order(ordering: Seq<usize>, groups: Seq<Option<usize>>) -> bool {
    forall|x: int, y: int|
        0 <= x < ordering.len() && 0 <= y < ordering.len() && groups[ordering[x] as int] == Some(
            ordering[y],
        ) ==> y < x
}

/// The values at the positions of an ordering.
pub open spec fn values_at<T>(ordering: Seq<usize>, elements: Seq<T>) -> Seq<T> {
    Seq::new(ordering.len(), |k: int| elements[ordering[k] as int])
}

/// The values of those orderings that keep the copies of each value in
/// their order.
pub open spec fn selected<T>(
    orderings: Seq<Seq<usize>>,
    groups: Seq<Option<usize>>,
    elements: Seq<T>,
) -> Seq<Seq<T>>
    decreases orderings.len(),
{
    if orderings.len() == 0 {
        Seq::empty()
    } else {
        let rest = selected(orderings.drop_first(), groups, elements);
        if keeps_copies_in_order(orderings[0], groups) {
            seq![values_at(orderings[0], elements)] + rest
        } else {
            rest
        }
    }
}

/// What a generator of the distinct orderings of values holds: for each
/// position the value there and the position of the copy before it, and a
/// generator of the orderings of the positions.
pub struct Selection<T> {
    pub groups: Seq<Option<usize>>,
    pub elements: Seq<T>,
    pub unique: Arrangement<usize>,
}

impl<T> Selection<T> {
    /// What a generator made from the pairs holds at first.
    pub open spec fn of(pairs: Seq<(T, usize)>) -> Selection<T> {
        Selection {
            groups: predecessors(pairs),
            elements: expanded(pairs),
            unique: fresh(indices(expanded(pairs).len())),
        }
    }

    /// There are as many predecessors and positions as values, every
    /// predecessor is a lower position, and the generator of orderings is
    /// well formed and holds an ordering of the positions.
    pub open spec fn wf(self) -> bool {
        &&& self.groups.len() == self.elements.len()
        &&& self.unique.a.len() == self.elements.len()
        &&& self.unique.wf()
        &&& is_index_ordering(self.unique.a)
        &&& forall|v: int|
            0 <= v < self.groups.len() ==> (#[trigger] self.groups[v] matches Some(u) ==> u < v)
    }

    /// The orderings of values that are yet to be yielded.
    pub open spec fn remaining(self) -> Seq<Seq<T>> {
        selected(self.unique.remaining(), self.groups, self.elements)
    }
}

/// The expanded pairs have one predecessor for each value, and each
/// predecessor is a lower position.
pub proof fn lemma_predecessors<T>(pairs: Seq<(T, usize)>)
    ensures
        predecessors(pairs).len() == expanded(pairs).len(),
        forall|v: int|
            0 <= v < predecessors(pairs).len() ==> (#[trigger] predecessors(pairs)[v] matches Some(
                u,
            ) ==> u < v),
    decreases pairs.len(),
{
    if pairs.len() > 0 {
        lemma_predecessors(pairs.drop_last());
    }
}

/// The numbers below `n` in ascending order hold each of them once.
pub proof fn lemma_indices_ordering(n: nat)
    requires
        n <= usize::MAX,
    ensures
        is_index_ordering(indices(n)),
{
    let a = indices(n);
    assert forall|v: int| 0 <= v < a.len() implies #[trigger] occurs(a, v) by {
        assert(a[v] == v);
    }
}

/// What a generator made from pairs holds at first is well formed, where
/// the counts of the pairs sum to a machine number.
pub proof fn lemma_selection_of_wf<T>(pairs: Seq<(T, usize)>)
    requires
        pair_total(pairs) <= usize::MAX,
    ensures
        Selection::of(pairs).wf(),
{
    lemma_predecessors(pairs);
    lemma_expanded(pairs, |t: T| true);
    lemma_indices_ordering(expanded(pairs).len());
}

/// Each of the orderings that a generator has yet to yield, where it holds
/// an ordering of the numbers below its length, is such an ordering.
pub proof fn lemma_remaining_index_orderings(s: Arrangement<usize>)
    requires
        s.wf(),
        is_index_ordering(s.a),
    ensures
        forall|k: int|
            0 <= k < s.remaining().len() ==> is_index_ordering(#[trigger] s.remaining()[k])
                && s.remaining()[k].len() == s.a.len(),
    decreases s.left(),
{
    s.lemma_remaining();
    s.lemma_step();
    lemma_step_index_ordering(s);
    if s.step().0 is Some {
        let next = s.step().1;
        lemma_remaining_index_orderings(next);
        assert forall|k: int| 0 <= k < s.remaining().len() implies is_index_ordering(
            #[trigger] s.remaining()[k],
        ) && s.remaining()[k].len() == s.a.len() by {
            if k > 0 {
                assert(s.remaining()[k] == next.remaining()[k - 1]);
            }
        }
    }
}

/// Each of the selected orderings holds as many values as there are
/// positions, and each of its values is one of the elements: what holds of
/// every element holds of every value.
pub proof fn lemma_selected_values<T>(
    orderings: Seq<Seq<usize>>,
    groups: Seq<Option<usize>>,
    elements: Seq<T>,
    good: spec_fn(T) -> bool,
)
    requires
        forall|k: int|
            0 <= k < orderings.len() ==> is_index_ordering(#[trigger] orderings[k])
                && orderings[k].len() == elements.len(),
        forall|e: int| 0 <= e < elements.len() ==> good(#[trigger] elements[e]),
    ensures
        forall|k: int, i: int|
            0 <= k < selected(orderings, groups, elements).len() && 0 <= i < selected(
                orderings,
                groups,
                elements,
            )[k].len() ==> good(#[trigger] selected(orderings, groups, elements)[k][i]),
        forall|k: int|
            0 <= k < selected(orderings, groups, elements).len() ==> (#[trigger] selected(
                orderings,
                groups,
                elements,
            )[k]).len() == elements.len(),
    decreases orderings.len(),
{
    if orderings.len() > 0 {
        let rest = orderings.drop_first();
        assert forall|k: int| 0 <= k < rest.len() implies is_index_ordering(#[trigger] rest[k])
            && rest[k].len() == elements.len() by {
            assert(rest[k] == orderings[k + 1]);
        }
        lemma_selected_values(rest, groups, elements, good);
        let first = values_at(orderings[0], elements);
        assert(is_index_ordering(orderings[0]));
        assert forall|i: int| 0 <= i < first.len() implies good(#[trigger] first[i]) by {
            assert(orderings[0][i] < orderings[0].len());
        }
        let all = selected(orderings, groups, elements);
        let later = selected(rest, groups, elements);
        assert forall|k: int, i: int| 0 <= k < all.len() && 0 <= i < all[k].len() implies good(
            #[trigger] all[k][i],
        ) by {
            if keeps_copies_in_order(orderings[0], groups) {
                if k > 0 {
                    assert(all[k] == later[k - 1]);
                }
            }
        }
        assert forall|k: int| 0 <= k < all.len() implies (#[trigger] all[k]).len()
            == elements.len() by {
            if keeps_copies_in_order(orderings[0], groups) {
                if k > 0 {
                    assert(all[k] == later[k - 1]);
                }
            }
        }
    }
}

/// Each of the orderings of values that a generator has yet to yield holds
/// as many values as there are positions, and each of its values is one of
/// the elements: what holds of every element holds of every value.
pub proof fn lemma_selection_values<T>(selection: Selection<T>, good: spec_fn(T) -> bool)
    requires
        selection.wf(),
        forall|e: int| 0 <= e < selection.elements.len() ==> good(#[trigger] selection.elements[e]),
    ensures
        forall|k: int, i: int|
            0 <= k < selection.remaining().len() && 0 <= i < selection.remaining()[k].len()
                ==> good(#[trigger] selection.remaining()[k][i]),
        forall|k: int|
            0 <= k < selection.remaining().len() ==> (#[trigger] selection.remaining()[k]).len()
                == selection.elements.len(),
{
    lemma_remaining_index_orderings(selection.unique);
    lemma_selected_values(
        selection.unique.remaining(),
        selection.groups,
        selection.elements,
        good,
    );
}

/// The values of a map in the order of their keys, where the keys are the
/// numbers below its size.
pub open spec fn listed<V>(held: Map<usize, V>) -> Seq<V> {
    Seq::new(held.len(), |i: int| held[i as usize])
}

/// Whether the keys of the map are the numbers below its size.
pub open spec fn complete<V>(held: Map<usize, V>) -> bool {
    held.dom().finite() && forall|k: usize| held.contains_key(k) <==> k < held.len()
}

/// A map whose keys are the numbers below its size takes a value under its
/// size as the next key: the value comes last in the order of the keys.
pub proof fn lemma_listed_grows<V>(held: Map<usize, V>, value: V)
    requires
        complete(held),
        held.len() <= usize::MAX,
    ensures
        complete(held.insert(held.len() as usize, value)),
        held.insert(held.len() as usize, value).len() == held.len() + 1,
        listed(held.insert(held.len() as usize, value)) == listed(held).push(value),
{
    let key = held.len() as usize;
    let grown = held.insert(key, value);
    assert(!held.contains_key(key));
    assert(grown.len() == held.len() + 1);
    assert(listed(grown) =~= listed(held).push(value));
}

/// A value for each of the places zero, one, two and so on, held in an
/// ordered map under the number of its place.
#[derive(Debug)]
struct Places<V: Copy> {
    held: BTreeMap<usize, V>,
}

impl<V: Copy> View for Places<V> {
    type V = Seq<V>;

    closed spec fn view(&self) -> Seq<V> {
        listed(self.held@)
    }
}

impl<V: Copy> Places<V> {
    #[verifier::type_invariant]
    closed spec fn wf(&self) -> bool {
        complete(self.held@)
    }

    /// How many places there are.
    fn len(&self) -> (n: usize)
        ensures
            n == self@.len(),
    {
        self.held.len()
    }

    /// The value of the place, if there is such a place.
    fn get(&self, place: usize) -> (value: Option<V>)
        ensures
            value == if place < self@.len() {
                Some(self@[place as int])
            } else {
                None
            },
    {
        proof {
            use_type_invariant(self);
        }
        match self.held.get(&place) {
            Some(value) => Some(*value),
            None => None,
        }
    }
}

/// Yields every ordering of a collection of values with repetitions that
/// differs from the others as a sequence of values.
#[derive(Debug)]
pub struct PermutationGenerator<T: Copy> {
    groups: Places<Option<usize>>,
    elements: Places<T>,
    unique: UniquePermutationGenerator<usize>,
}

impl<T: Copy> View for PermutationGenerator<T> {
    type V = Selection<T>;

    closed spec fn view(&self) -> Selection<T> {
        Selection { groups: self.groups@, elements: self.elements@, unique: self.unique@ }
    }
}

impl<T: Copy> PermutationGenerator<T> {
    /// A generator of the orderings of the values that the pairs stand for:
    /// each pair holds a value and how many copies of it there are.
    ///
    /// The generator has as many orderings to yield as the factorial of the
    /// number of all copies divided by the factorial of the number of
    /// copies of each value; where no two pairs hold the same value, no two
    /// of these orderings are the same.
    pub fn from_iter(iter: Vec<(T, usize)>) -> (generator: Self)
        ensures
            generator@ == Selection::of(iter@),
            generator@.wf(),
            pair_total(iter@) <= usize::MAX,
            generator@.remaining().len() * repeats(iter@) == factorial(pair_total(iter@) as nat),
            keys_differ(iter@) ==> pairwise_different(generator@.remaining()),
    {
        let mut groups: BTreeMap<usize, Option<usize>> = BTreeMap::new();
        let mut elements: BTreeMap<usize, T> = BTreeMap::new();
        let mut positions: Vec<usize> = Vec::new();
        let mut p: usize = 0;
        proof {
            assert(listed(groups@) =~= predecessors(iter@.take(0)));
            assert(listed(elements@) =~= expanded(iter@.take(0)));
        }
        while p < iter.len()
            invariant
                p <= iter.len(),
                complete(groups@),
                complete(elements@),
                groups@.len() == positions@.len(),
                elements@.len() == positions@.len(),
                listed(groups@) == predecessors(iter@.take(p as int)),
                listed(elements@) == expanded(iter@.take(p as int)),
                positions@ == indices(listed(elements@).len()),
            decreases iter.len() - p,
        {
            let (t, count) = iter[p];
            let mut group: Option<usize> = None;
            let ghost before_groups = listed(groups@);
            let ghost before_elements = listed(elements@);
            let mut copy: usize = 0;
            proof {
                lemma_predecessors(iter@.take(p as int));
                assert(listed(groups@) =~= before_groups + Seq::new(
                    0,
                    |k: int|
                        if k == 0 {
                            None
                        } else {
                            Some((before_groups.len() + k - 1) as usize)
                        },
                ));
                assert(listed(elements@) =~= before_elements + Seq::new(0, |k: int| t));
            }
            while copy < count
                invariant
                    copy <= count,
                    complete(groups@),
                    complete(elements@),
                    groups@.len() == positions@.len(),
                    elements@.len() == positions@.len(),
                    before_groups.len() == before_elements.len(),
                    listed(groups@) == before_groups + Seq::new(
                        copy as nat,
                        |k: int|
                            if k == 0 {
                                None
                            } else {
                                Some((before_groups.len() + k - 1) as usize)
                            },
                    ),
                    listed(elements@) == before_elements + Seq::new(copy as nat, |k: int| t),
                    positions@ == indices(listed(elements@).len()),
                    group == if copy == 0 {
                        None
                    } else {
                        Some((before_groups.len() + copy - 1) as usize)
                    },
                decreases count - copy,
            {
                let i = positions.len();
                proof {
                    lemma_listed_grows(groups@, group);
                    lemma_listed_grows(elements@, t);
                }
                groups.insert(i, group);
                elements.insert(i, t);
                positions.push(i);
                group = Some(i);
                copy = copy + 1;
                proof {
                    assert(listed(groups@) =~= before_groups + Seq::new(
                        copy as nat,
                        |k: int|
                            if k == 0 {
                                None
                            } else {
                                Some((before_groups.len() + k - 1) as usize)
                            },
                    ));
                    assert(listed(elements@) =~= before_elements + Seq::new(
                        copy as nat,
                        |k: int| t,
                    ));
                    assert(positions@ =~= indices(listed(elements@).len()));
                }
            }
            proof {
                assert(iter@.take(p + 1).drop_last() =~= iter@.take(p as int));
                assert(iter@.take(p + 1).last() == (t, count));
            }
            p = p + 1;
        }
        proof {
            assert(iter@.take(p as int) =~= iter@);
            assert(listed(elements@).len() == positions.len());
            lemma_predecessors(iter@);
            lemma_indices_ordering(listed(elements@).len());
            lemma_expanded(iter@, |t: T| true);
            lemma_distinct_orderings(iter@);
        }
        let unique = UniquePermutationGenerator::new(positions);
        let generator = Self {
            groups: Places { held: groups },
            elements: Places { held: elements },
            unique,
        };
        generator
    }

    /// Yields the next ordering of the values that differs from all others,
    /// or nothing when every such ordering has been yielded.
    #[verifier::rlimit(30)]
    pub fn next(&mut self) -> (r: Option<Vec<T>>)
        requires
            old(self)@.wf(),
        ensures
            final(self)@.wf(),
            final(self)@.groups == old(self)@.groups,
            final(self)@.elements == old(self)@.elements,
            match r {
                Some(ordering) => old(self)@.remaining().len() > 0 && ordering@ == old(self)@.remaining()[0] && final(self)@.remaining() == old(self)@.remaining().drop_first(),
                None => old(self)@.remaining().len() == 0 && final(self)@.remaining().len() == 0,
            },
    {
        let n = self.elements.len();
        loop
            invariant
                self@.wf(),
                n == self.elements@.len(),
                self@.groups == old(self)@.groups,
                self@.elements == old(self)@.elements,
                self@.remaining() == old(self)@.remaining(),
            decreases self@.unique.remaining().len(),
        {
            let ghost before = self@;
            proof {
                before.unique.lemma_remaining();
                lemma_step_index_ordering(before.unique);
            }
            let a = match self.unique.next() {
                Some(a) => a,
                None => {
                    return None;
                },
            };
            let mut value_index: BTreeMap<usize, usize> = BTreeMap::new();
            let mut k: usize = 0;
            while k < n
                invariant
                    k <= n,
                    n == a@.len(),
                    is_index_ordering(a@),
                    forall|j: int|
                        0 <= j < k ==> value_index@.contains_key(#[trigger] a@[j])
                            && value_index@[a@[j]] == j,
                decreases n - k,
            {
                value_index.insert(a[k], k);
                k = k + 1;
            }
            proof {
                assert forall|v: usize| v < n implies #[trigger] value_index@.contains_key(v)
                    && a@[value_index@[v] as int] == v && value_index@[v] < n by {
                    assert(occurs(a@, v as int));
                    let x = choose|x: int| 0 <= x < a@.len() && #[trigger] a@[x] == v;
                    assert(value_index@.contains_key(a@[x]) && value_index@[a@[x]] == x);
                }
            }
            let mut in_order = true;
            let mut v: usize = 0;
            while v < n && in_order
                invariant
                    v <= n,
                    n == a@.len(),
                    n == self.groups@.len(),
                    is_index_ordering(a@),
                    forall|v: int|
                        0 <= v < self.groups@.len() ==> (#[trigger] self.groups@[v] matches Some(
                            u,
                        ) ==> u < v),
                    forall|j: int|
                        0 <= j < n ==> value_index@.contains_key(#[trigger] a@[j])
                            && value_index@[a@[j]] == j,
                    forall|v: usize|
                        v < n ==> #[trigger] value_index@.contains_key(v) && a@[value_index@[v] as int]
                            == v && value_index@[v] < n,
                    in_order ==> forall|w: int|
                        0 <= w < v ==> (#[trigger] self.groups@[w] matches Some(u)
                            ==> value_index@[u] < value_index@[w as usize]),
                    !in_order ==> !keeps_copies_in_order(a@, self.groups@),
                decreases n - v + if in_order { 1int } else { 0int },
            {
                match self.groups.get(v) {
                    Some(Some(other_value)) => {
                        assert(value_index@.contains_key(other_value));
                        assert(value_index@.contains_key(v));
                        let other_index = *value_index.get(&other_value).unwrap();
                        let current_position = *value_index.get(&v).unwrap();
                        if other_index > current_position {
                            in_order = false;
                            proof {
                                let x = current_position as int;
                                let y = other_index as int;
                                assert(a@[x] == v);
                                assert(a@[y] == other_value);
                                assert(self.groups@[a@[x] as int] == Some(a@[y]));
                            }
                        } else {
                            proof {
                                assert(a@[other_index as int] == other_value);
                                assert(a@[current_position as int] == v);
                            }
                        }
                    },
                    _ => {},
                }
                if in_order {
                    v = v + 1;
                }
            }
            proof {
                if in_order {
                    assert forall|x: int, y: int|
                        0 <= x < a@.len() && 0 <= y < a@.len() && self.groups@[a@[x] as int]
                            == Some(a@[y]) implies y < x by {
                        let w = a@[x] as int;
                        assert(value_index@[a@[x]] == x);
                        assert(value_index@[a@[y]] == y);
                        assert(self.groups@[w] matches Some(u) ==> value_index@[u]
                            < value_index@[w as usize]);
                    }
                }
                assert(before.unique.remaining().drop_first() =~= self@.unique.remaining());
            }
            if in_order {
                let mut ordering: Vec<T> = Vec::new();
                k = 0;
                while k < n
                    invariant
                        k <= n,
                        n == a@.len(),
                        n == self.elements@.len(),
                        is_index_ordering(a@),
                        ordering@ == values_at(a@, self.elements@).take(k as int),
                    decreases n - k,
                {
                    ordering.push(self.elements.get(a[k]).unwrap());
                    proof {
                        assert(ordering@ =~= values_at(a@, self.elements@).take(k + 1));
                    }
                    k = k + 1;
                }
                proof {
                    assert(ordering@ =~= values_at(a@, self.elements@));
                    assert(old(self)@.remaining().drop_first() =~= self@.remaining());
                }
                return Some(ordering);
            }
        }
    }
}

/// A step of a well-formed generator that holds an ordering of the numbers
/// below its length leaves it holding one, and yields one.
pub proof fn lemma_step_index_ordering(s: Arrangement<usize>)
    requires
        s.wf(),
        is_index_ordering(s.a),
    ensures
        is_index_ordering(s.step().1.a),
        s.step().0 matches Some(ordering) ==> is_index_ordering(ordering),
{
    if s.i != 0 {
        lemma_scan_index_ordering(s);
    }
}

/// A factorial is at least one.
pub proof fn lemma_factorial_positive(n: nat)
    ensures
        factorial(n) >= 1,
    decreases n,
{
    if n > 0 {
        lemma_factorial_positive((n - 1) as nat);
        assert(n * factorial((n - 1) as nat) >= 1) by (nonlinear_arith)
            requires
                n >= 1,
                factorial((n - 1) as nat) >= 1,
        ;
    }
}

/// The rank of counters that are zero from position one on is zero.
pub proof fn lemma_rank_of_zeros(c: Seq<int>, k: int)
    requires
        forall|j: int| 1 <= j < k && j < c.len() ==> #[trigger] c[j] == 0,
        k <= c.len(),
    ensures
        rank(c, k) == 0,
    decreases k,
{
    if k > 1 {
        lemma_rank_of_zeros(c, k - 1);
    }
}

/// The rank below `k` of counters that each lie between zero and their
/// position is less than `factorial(k)`.
pub proof fn lemma_rank_bound(c: Seq<int>, k: int)
    requires
        forall|j: int| 0 <= j < c.len() ==> 0 <= #[trigger] c[j] <= j,
        k <= c.len(),
    ensures
        0 <= rank(c, k),
        k >= 0 ==> rank(c, k) < factorial(k as nat),
    decreases k,
{
    reveal_with_fuel(factorial, 2);
    if k > 1 {
        lemma_rank_bound(c, k - 1);
        let f = factorial((k - 1) as nat) as int;
        let d = c[k - 1];
        assert(0 <= d <= k - 1);
        assert(0 <= d * f <= (k - 1) * f) by (nonlinear_arith)
            requires
                0 <= d <= k - 1,
                0 <= f,
        ;
        assert(factorial(k as nat) == k * f);
        assert(k * f == (k - 1) * f + f) by (nonlinear_arith);
        assert(rank(c, k) == rank(c, k - 1) + d * f);
        assert(rank(c, k - 1) < f);
        assert(rank(c, k) < k * f);
    } else if k == 1 {
        assert(rank(c, k) == 0);
        assert(factorial(1) == 1);
    } else if k == 0 {
        assert(rank(c, k) == 0);
        assert(factorial(0) == 1);
    }
}

/// Setting the counter of position `p` to `v` changes the rank below `k` by
/// the difference in units of `factorial(p)`.
pub proof fn lemma_rank_update(c: Seq<int>, p: int, v: int, k: int)
    requires
        1 <= p < c.len(),
        k <= c.len(),
    ensures
        rank(c.update(p, v), k) == rank(c, k) + if p < k {
            (v - c[p]) * factorial(p as nat)
        } else {
            0
        },
    decreases k,
{
    if k > 1 {
        lemma_rank_update(c, p, v, k - 1);
        if p == k - 1 {
            assert(v * factorial(p as nat) == c[p] * factorial(p as nat) + (v - c[p]) * factorial(
                p as nat,
            )) by (nonlinear_arith);
        }
    }
}

} // verus!
