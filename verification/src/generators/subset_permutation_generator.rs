//! Every ordering of every way of taking some of the numbers of a list.
use super::permutation_generator::{
    lemma_expanded, lemma_selection_of_wf, lemma_selection_values, pair_total,
    PermutationGenerator, Selection,
};
use super::subset_generator::{
    lemma_paired_total, lemma_reading_of_none, lemma_reading_tells_digits,
    lemma_remaining_readings, lemma_remaining_within, lemma_tally_counts, lemma_tally_keys,
    lemma_total_within, lemma_ways_capacity, paired, reading, tally, total, ways,
    KVPairIterator, KeyCount, Odometer, Taking,
};
use crate::base_types::numbers::NumberType;
use vstd::prelude::*;

verus! {

/// Those of the ways of taking copies that take `size` copies in all, in
/// their order.
pub open spec fn of_size<T>(all: Seq<Seq<(T, usize)>>, size: int) -> Seq<Seq<(T, usize)>>
    decreases all.len(),
{
    if all.len() == 0 {
        Seq::empty()
    } else {
        of_size(all.drop_last(), size) + if pair_total(all.last())
            == size {
            seq![all.last()]
        } else {
            Seq::empty()
        }
    }
}

/// The ways of taking from `top` copies down to one copy in all, those that
/// take more before those that take fewer, and those that take equally many
/// in their order.
pub open spec fn arranged<T>(all: Seq<Seq<(T, usize)>>, top: int) -> Seq<Seq<(T, usize)>>
    decreases top,
{
    if top <= 0 {
        Seq::empty()
    } else {
        of_size(all, top) + arranged(all, top - 1)
    }
}

/// Every way of taking some of the copies of the values of the pairs, but
/// for taking none, in the order in which they are counted through.
pub open spec fn takings<T>(pairs: Seq<(T, usize)>) -> Seq<Seq<(T, usize)>> {
    (Taking {
        values: Seq::new(pairs.len(), |j: int| pairs[j].0),
        odometer: Odometer {
            digits: Seq::new(pairs.len(), |j: int| 0int),
            limits: Seq::new(pairs.len(), |j: int| pairs[j].1 as int),
        },
    }).remaining()
}

/// The distinct orderings of each of the ways of taking copies, the last
/// way first.
pub open spec fn orderings_of_all<T>(subsets: Seq<Seq<(T, usize)>>) -> Seq<Seq<T>>
    decreases subsets.len(),
{
    if subsets.len() == 0 {
        Seq::empty()
    } else {
        Selection::of(subsets.last()).remaining() + orderings_of_all(subsets.drop_last())
    }
}

/// What a traversal of the orderings of the ways of taking copies holds: the
/// ways that are yet to be ordered, and the orderings of the way at hand.
pub struct Traversal<T> {
    pub subsets: Seq<Seq<(T, usize)>>,
    pub current: Option<Selection<T>>,
}

impl<T> Traversal<T> {
    /// The orderings of the way at hand are well formed.
    pub open spec fn wf(self) -> bool {
        self.current matches Some(selection) ==> selection.wf()
    }

    /// What a traversal over the items holds at first: every way of taking
    /// some of them, those that take more before those that take fewer.
    pub open spec fn of(items: Seq<T>) -> Traversal<T> where T: NumberType {
        Traversal { subsets: arranged(takings(tally(items)), items.len() as int), current: None }
    }

    /// The orderings that are yet to be yielded: those left of the way at
    /// hand, then those of the ways yet to be ordered, the last way first.
    pub open spec fn remaining(self) -> Seq<Seq<T>> {
        (match self.current {
            Some(selection) => selection.remaining(),
            None => Seq::empty(),
        }) + orderings_of_all(self.subsets)
    }
}

/// Each way of taking copies of the values of the pairs holds the values of
/// the pairs, each with a count that is no more than the count of the pair;
/// its counts sum to no more than the counts of the pairs.
pub proof fn lemma_takings<T>(pairs: Seq<(T, usize)>)
    ensures
        forall|k: int|
            0 <= k < takings(pairs).len() ==> {
                &&& (#[trigger] takings(pairs)[k]).len() == pairs.len()
                &&& pair_total(takings(pairs)[k]) <= pair_total(pairs)
                &&& forall|j: int|
                    0 <= j < pairs.len() ==> (#[trigger] takings(pairs)[k][j]).0 == pairs[j].0
                        && takings(pairs)[k][j].1 <= pairs[j].1
            },
{
    let values = Seq::new(pairs.len(), |j: int| pairs[j].0);
    let odometer = Odometer {
        digits: Seq::new(pairs.len(), |j: int| 0int),
        limits: Seq::new(pairs.len(), |j: int| pairs[j].1 as int),
    };
    lemma_remaining_within(odometer);
    assert forall|k: int| 0 <= k < takings(pairs).len() implies {
        &&& (#[trigger] takings(pairs)[k]).len() == pairs.len()
        &&& pair_total(takings(pairs)[k]) <= pair_total(pairs)
        &&& forall|j: int|
            0 <= j < pairs.len() ==> (#[trigger] takings(pairs)[k][j]).0 == pairs[j].0
                && takings(pairs)[k][j].1 <= pairs[j].1
    } by {
        let digits = odometer.remaining()[k];
        assert((Odometer { digits, limits: odometer.limits }).wf());
        assert(takings(pairs)[k] == paired(values, digits));
        lemma_total_within(digits, odometer.limits);
        lemma_paired_total(values, digits);
        lemma_paired_total(values, odometer.limits);
        assert(paired(values, odometer.limits) =~= pairs);
    }
}

/// Whether `way` takes some of the copies of the values of the pairs: it
/// holds the values of the pairs in their order, each with a count that is
/// no more than the count of the pair, and takes one copy at least.
pub open spec fn takes_some_of<T>(way: Seq<(T, usize)>, pairs: Seq<(T, usize)>) -> bool {
    &&& way.len() == pairs.len()
    &&& forall|j: int|
        0 <= j < pairs.len() ==> (#[trigger] way[j]).0 == pairs[j].0 && way[j].1 <= pairs[j].1
    &&& pair_total(way) >= 1
}

/// The ways of taking copies that are counted through are all the ways
/// there are, each once.
///
/// There are as many as the product of the counts of the pairs, each raised
/// by one, less the one way of taking nothing. Each of them takes some of
/// the copies; no two of them are the same; and every way of taking some of
/// the copies is among them. The values that a way expands to are as many as
/// its counts sum to.
#[verifier::rlimit(30)]
pub proof fn lemma_takings_are_all_ways<T>(pairs: Seq<(T, usize)>)
    ensures
        takings(pairs).len() == ways(pairs) - 1,
        forall|k: int|
            0 <= k < takings(pairs).len() ==> takes_some_of(#[trigger] takings(pairs)[k], pairs),
        forall|i: int, j: int|
            0 <= i < j < takings(pairs).len() ==> takings(pairs)[i] != takings(pairs)[j],
        forall|way: Seq<(T, usize)>| #[trigger]
            takes_some_of(way, pairs) ==> exists|k: int|
                0 <= k < takings(pairs).len() && takings(pairs)[k] == way,
        forall|k: int|
            0 <= k < takings(pairs).len() ==> super::permutation_generator::expanded(
                #[trigger] takings(pairs)[k],
            ).len() == pair_total(takings(pairs)[k]),
{
    let n = pairs.len() as int;
    let values = Seq::new(pairs.len(), |j: int| pairs[j].0);
    let zeros = Seq::new(pairs.len(), |j: int| 0int);
    let limits = Seq::new(pairs.len(), |j: int| pairs[j].1 as int);
    let odometer = Odometer { digits: zeros, limits };
    let all = takings(pairs);
    odometer.lemma_remaining();
    lemma_remaining_within(odometer);
    lemma_remaining_readings(odometer);
    lemma_takings(pairs);
    lemma_ways_capacity(pairs, limits, n);
    assert(pairs.take(n) =~= pairs);
    assert(reading(zeros, limits, n) == 0) by {
        super::subset_generator::lemma_total_of_zeros(zeros.take(n));
        lemma_reading_of_none(zeros, limits, n);
    }
    assert forall|k: int| 0 <= k < all.len() implies takes_some_of(#[trigger] all[k], pairs) by {
        let digits = odometer.remaining()[k];
        assert((Odometer { digits, limits }).wf());
        assert(all[k] == paired(values, digits));
        lemma_paired_total(values, digits);
        lemma_total_within(digits, limits);
        if total(digits) == 0 {
            assert(digits.take(n) =~= digits);
            lemma_reading_of_none(digits, limits, n);
        }
    }
    assert forall|i: int, j: int| 0 <= i < j < all.len() implies all[i] != all[j] by {
        let a = odometer.remaining()[i];
        let b = odometer.remaining()[j];
        assert((Odometer { digits: a, limits }).wf());
        assert((Odometer { digits: b, limits }).wf());
        assert(all[i] == paired(values, a));
        assert(all[j] == paired(values, b));
        if all[i] == all[j] {
            assert forall|p: int| 0 <= p < n implies a[p] == b[p] by {
                assert(paired(values, a)[p].1 == paired(values, b)[p].1);
            }
            assert(a =~= b);
        }
    }
    assert forall|way: Seq<(T, usize)>| #[trigger] takes_some_of(way, pairs) implies exists|
        k: int,
    |
        0 <= k < all.len() && all[k] == way by {
        let digits = Seq::new(pairs.len(), |j: int| way[j].1 as int);
        assert(paired(values, digits) =~= way);
        lemma_paired_total(values, digits);
        super::subset_generator::lemma_counted(digits, limits, n);
        let r = reading(digits, limits, n);
        if r == 0 {
            lemma_reading_tells_digits(digits, zeros, limits, n);
            assert(digits =~= zeros);
            super::subset_generator::lemma_total_of_zeros(zeros);
        }
        let k = r - 1;
        let found = odometer.remaining()[k];
        assert((Odometer { digits: found, limits }).wf());
        lemma_reading_tells_digits(digits, found, limits, n);
        assert(digits =~= found);
        assert(all[k] == paired(values, found));
    }
    assert forall|k: int| 0 <= k < all.len() implies super::permutation_generator::expanded(
        #[trigger] all[k],
    ).len() == pair_total(all[k]) by {
        lemma_expanded(all[k], |t: T| true);
    }
}

/// Each of the arranged ways is one of the ways that were arranged: what
/// holds of each of these holds of each of the arranged ones.
pub proof fn lemma_arranged<T>(
    all: Seq<Seq<(T, usize)>>,
    top: int,
    good: spec_fn(Seq<(T, usize)>) -> bool,
)
    requires
        forall|m: int| 0 <= m < all.len() ==> good(#[trigger] all[m]),
    ensures
        forall|k: int| 0 <= k < arranged(all, top).len() ==> good(#[trigger] arranged(all, top)[k]),
    decreases top,
{
    if top > 0 {
        lemma_arranged(all, top - 1, good);
        lemma_of_size(all, top, good);
        let first = of_size(all, top);
        let rest = arranged(all, top - 1);
        assert forall|k: int| 0 <= k < arranged(all, top).len() implies good(
            #[trigger] arranged(all, top)[k],
        ) by {
            if k < first.len() {
                assert(arranged(all, top)[k] == first[k]);
            } else {
                assert(arranged(all, top)[k] == rest[k - first.len()]);
            }
        }
    }
}

/// Each of the ways of one size is one of the ways it was taken from: what
/// holds of each of these holds of each of that size.
pub proof fn lemma_of_size<T>(
    all: Seq<Seq<(T, usize)>>,
    size: int,
    good: spec_fn(Seq<(T, usize)>) -> bool,
)
    requires
        forall|m: int| 0 <= m < all.len() ==> good(#[trigger] all[m]),
    ensures
        forall|k: int| 0 <= k < of_size(all, size).len() ==> good(#[trigger] of_size(all, size)[k]),
    decreases all.len(),
{
    if all.len() > 0 {
        let before = all.drop_last();
        assert forall|m: int| 0 <= m < before.len() implies good(#[trigger] before[m]) by {
            assert(before[m] == all[m]);
        }
        lemma_of_size(before, size, good);
        assert(good(all[all.len() - 1]));
        let first = of_size(before, size);
        assert forall|k: int| 0 <= k < of_size(all, size).len() implies good(
            #[trigger] of_size(all, size)[k],
        ) by {
            if k < first.len() {
                assert(of_size(all, size)[k] == first[k]);
            } else {
                assert(of_size(all, size)[k] == all[all.len() - 1]);
            }
        }
    }
}

/// Whether the values of the pairs meet `good` and the counts of the pairs
/// sum to a machine number.
pub open spec fn fit_to_order<T>(pairs: Seq<(T, usize)>, good: spec_fn(T) -> bool) -> bool {
    &&& pair_total(pairs) <= usize::MAX
    &&& forall|j: int| 0 <= j < pairs.len() ==> good((#[trigger] pairs[j]).0)
}

/// Each value of each ordering of the ways is a value of one of the ways:
/// what holds of every value of every way holds of every value of every
/// ordering.
pub proof fn lemma_orderings_of_all<T>(subsets: Seq<Seq<(T, usize)>>, good: spec_fn(T) -> bool)
    requires
        forall|m: int| 0 <= m < subsets.len() ==> fit_to_order(#[trigger] subsets[m], good),
    ensures
        forall|k: int, i: int|
            0 <= k < orderings_of_all(subsets).len() && 0 <= i < orderings_of_all(
                subsets,
            )[k].len() ==> good(#[trigger] orderings_of_all(subsets)[k][i]),
    decreases subsets.len(),
{
    if subsets.len() > 0 {
        let before = subsets.drop_last();
        assert forall|m: int| 0 <= m < before.len() implies fit_to_order(
            #[trigger] before[m],
            good,
        ) by {
            assert(before[m] == subsets[m]);
        }
        lemma_orderings_of_all(before, good);
        let last = subsets.last();
        assert(fit_to_order(subsets[subsets.len() - 1], good));
        lemma_selection_of_wf(last);
        lemma_expanded(last, good);
        lemma_selection_values(Selection::of(last), good);
        let first = Selection::of(last).remaining();
        let rest = orderings_of_all(before);
        let all = orderings_of_all(subsets);
        assert forall|k: int, i: int| 0 <= k < all.len() && 0 <= i < all[k].len() implies good(
            #[trigger] all[k][i],
        ) by {
            if k < first.len() {
                assert(all[k] == first[k]);
            } else {
                assert(all[k] == rest[k - first.len()]);
            }
        }
    }
}

/// Each value of each ordering that a traversal over a list yields is an
/// item of the list: what holds of every item holds of every value of every
/// ordering.
pub proof fn lemma_traversal_values<T: NumberType>(items: Seq<T>, good: spec_fn(T) -> bool)
    requires
        items.len() <= usize::MAX,
        forall|i: int| 0 <= i < items.len() ==> good(#[trigger] items[i]),
    ensures
        Traversal::of(items).wf(),
        forall|k: int, i: int|
            0 <= k < Traversal::of(items).remaining().len() && 0 <= i < Traversal::of(
                items,
            ).remaining()[k].len() ==> good(#[trigger] Traversal::of(items).remaining()[k][i]),
{
    let pairs = tally(items);
    lemma_tally_counts(items);
    lemma_tally_keys(items, good);
    lemma_takings(pairs);
    let all = takings(pairs);
    let fit = |way: Seq<(T, usize)>| fit_to_order(way, good);
    assert forall|m: int| 0 <= m < all.len() implies fit(#[trigger] all[m]) by {
        assert forall|j: int| 0 <= j < all[m].len() implies good((#[trigger] all[m][j]).0) by {
            assert(all[m][j].0 == pairs[j].0);
        }
    }
    lemma_arranged(all, items.len() as int, fit);
    let subsets = arranged(all, items.len() as int);
    assert forall|m: int| 0 <= m < subsets.len() implies fit_to_order(
        #[trigger] subsets[m],
        good,
    ) by {
        assert(fit(subsets[m]));
    }
    lemma_orderings_of_all(subsets, good);
    assert(Traversal::of(items).remaining() =~= orderings_of_all(subsets));
}

/// A copy of the pairs.
pub fn copy_pairs<T: Copy>(pairs: &Vec<(T, usize)>) -> (copy: Vec<(T, usize)>)
    ensures
        copy@ == pairs@,
{
    let mut copy = Vec::new();
    let mut k: usize = 0;
    while k < pairs.len()
        invariant
            k <= pairs.len(),
            copy@ == pairs@.take(k as int),
        decreases pairs.len() - k,
    {
        copy.push(pairs[k]);
        proof {
            assert(copy@ =~= pairs@.take(k + 1));
        }
        k = k + 1;
    }
    proof {
        assert(pairs@.take(k as int) =~= pairs@);
    }
    copy
}

/// Whether the counts of the pairs sum to `size`.
pub fn takes<T: Copy>(pairs: &Vec<(T, usize)>, size: usize) -> (b: bool)
    ensures
        b == (pair_total(pairs@) == size),
{
    let mut sum: usize = 0;
    let mut k: usize = 0;
    while k < pairs.len()
        invariant
            k <= pairs.len(),
            sum == pair_total(pairs@.take(k as int)),
            sum <= size,
        decreases pairs.len() - k,
    {
        let count = pairs[k].1;
        proof {
            assert(pairs@.take(k + 1).drop_last() =~= pairs@.take(k as int));
        }
        if count > size - sum {
            proof {
                lemma_pair_total_grows(pairs@, k + 1);
            }
            return false;
        }
        sum = sum + count;
        k = k + 1;
    }
    proof {
        assert(pairs@.take(k as int) =~= pairs@);
    }
    sum == size
}

/// The counts of the first pairs sum to no more than the counts of all.
pub proof fn lemma_pair_total_grows<T>(pairs: Seq<(T, usize)>, k: int)
    requires
        0 <= k <= pairs.len(),
    ensures
        pair_total(pairs.take(k)) <= pair_total(pairs),
    decreases pairs.len() - k,
{
    if k < pairs.len() {
        lemma_pair_total_grows(pairs, k + 1);
        assert(pairs.take(k + 1).drop_last() =~= pairs.take(k));
    } else {
        assert(pairs.take(k) =~= pairs);
    }
}

/// Yields every ordering of every way of taking some of the numbers of a
/// list, each sequence of numbers once: the orderings of the ways that take
/// fewer numbers before those of the ways that take more.
pub struct SubsetPermutationGenerator<T: NumberType> {
    subsets: Vec<Vec<(T, usize)>>,
    permutation_generator: Option<PermutationGenerator<T>>,
}

impl<T: NumberType> View for SubsetPermutationGenerator<T> {
    type V = Traversal<T>;

    closed spec fn view(&self) -> Traversal<T> {
        Traversal {
            subsets: Seq::new(self.subsets@.len(), |k: int| self.subsets@[k]@),
            current: match self.permutation_generator {
                Some(generator) => Some(generator@),
                None => None,
            },
        }
    }
}

impl<T: NumberType> SubsetPermutationGenerator<T> {
    /// A traversal over the numbers that has yet to yield every ordering.
    #[verifier::rlimit(30)]
    pub fn new(t: Vec<T>) -> (generator: Self)
        ensures
            generator@ == Traversal::of(t@),
            generator@.wf(),
    {
        let top = t.len();
        let ghost items = t@;
        let mut iterator = KVPairIterator::from(KeyCount::from_iter(t));
        let ghost start = iterator@;
        let mut all: Vec<Vec<(T, usize)>> = Vec::new();
        proof {
            assert(start.remaining() =~= takings(tally(items))) by {
                assert(start.values =~= Seq::new(tally(items).len(), |j: int| tally(items)[j].0));
            }
        }
        loop
            invariant
                iterator@.wf(),
                Seq::new(all@.len(), |k: int| all@[k]@) + iterator@.remaining()
                    == start.remaining(),
            ensures
                Seq::new(all@.len(), |k: int| all@[k]@) == start.remaining(),
            decreases iterator@.remaining().len(),
        {
            let ghost before = iterator@.remaining();
            let ghost collected = Seq::new(all@.len(), |k: int| all@[k]@);
            match iterator.next() {
                Some(pairs) => {
                    all.push(pairs);
                    proof {
                        assert(Seq::new(all@.len(), |k: int| all@[k]@) =~= collected.push(
                            before[0],
                        ));
                        assert(collected.push(before[0]) + before.drop_first() =~= collected
                            + before);
                    }
                },
                None => {
                    proof {
                        assert(collected + before =~= collected);
                    }
                    break ;
                },
            }
        }
        let ghost every = Seq::new(all@.len(), |k: int| all@[k]@);
        assert(every == takings(tally(items)));
        let mut subsets: Vec<Vec<(T, usize)>> = Vec::new();
        let mut size = top;
        while size > 0
            invariant
                size <= top,
                every == Seq::new(all@.len(), |k: int| all@[k]@),
                Seq::new(subsets@.len(), |k: int| subsets@[k]@) + arranged(every, size as int)
                    == arranged(every, top as int),
            decreases size,
        {
            let ghost sorted = Seq::new(subsets@.len(), |k: int| subsets@[k]@);
            let mut k: usize = 0;
            while k < all.len()
                invariant
                    k <= all.len(),
                    every == Seq::new(all@.len(), |k: int| all@[k]@),
                    Seq::new(subsets@.len(), |k: int| subsets@[k]@) == sorted + of_size(
                        every.take(k as int),
                        size as int,
                    ),
                decreases all.len() - k,
            {
                let ghost earlier = Seq::new(subsets@.len(), |k: int| subsets@[k]@);
                proof {
                    assert(every.take(k + 1).drop_last() =~= every.take(k as int));
                    assert(every.take(k + 1).last() == all@[k as int]@);
                }
                if takes(&all[k], size) {
                    subsets.push(copy_pairs(&all[k]));
                    proof {
                        assert(Seq::new(subsets@.len(), |k: int| subsets@[k]@) =~= earlier.push(
                            all@[k as int]@,
                        ));
                    }
                }
                proof {
                    assert(Seq::new(subsets@.len(), |k: int| subsets@[k]@) =~= sorted + of_size(
                        every.take(k + 1),
                        size as int,
                    ));
                }
                k = k + 1;
            }
            proof {
                assert(every.take(k as int) =~= every);
                assert((sorted + of_size(every, size as int)) + arranged(every, size - 1)
                    =~= sorted + arranged(every, size as int));
            }
            size = size - 1;
        }
        proof {
            assert(Seq::new(subsets@.len(), |k: int| subsets@[k]@) + arranged(every, 0)
                =~= Seq::new(subsets@.len(), |k: int| subsets@[k]@));
        }
        Self { subsets, permutation_generator: None }
    }

    /// Yields the next ordering, or nothing when every ordering of every
    /// way of taking numbers has been yielded.
    pub fn next(&mut self) -> (r: Option<Vec<T>>)
        requires
            old(self)@.wf(),
        ensures
            final(self)@.wf(),
            match r {
                Some(ordering) => old(self)@.remaining().len() > 0 && ordering@ == old(self)@.remaining()[0] && final(self)@.remaining() == old(self)@.remaining().drop_first(),
                None => old(self)@.remaining().len() == 0 && final(self)@.remaining().len() == 0,
            },
    {
        loop
            invariant
                self@.wf(),
                self@.remaining() == old(self)@.remaining(),
            decreases
                    self.subsets@.len(),
                    if self.permutation_generator is Some {
                        1int
                    } else {
                        0int
                    },
        {
            let ghost before = self@;
            let taken = self.permutation_generator.take();
            let mut generator = match taken {
                Some(generator) => generator,
                None => {
                    match self.subsets.pop() {
                        Some(b) => {
                            proof {
                                assert(self@.subsets =~= before.subsets.drop_last());
                                assert(b@ == before.subsets.last());
                            }
                            PermutationGenerator::from_iter(b)
                        },
                        None => {
                            proof {
                                assert(self@ == before);
                                assert(before.subsets.len() == 0);
                            }
                            return None;
                        },
                    }
                },
            };
            let ghost rest = orderings_of_all(self@.subsets);
            let ghost pending = generator@.remaining();
            assert(pending + rest =~= before.remaining()) by {
                assert(self@.subsets =~= if before.current is Some {
                    before.subsets
                } else {
                    before.subsets.drop_last()
                });
            }
            match generator.next() {
                Some(a) => {
                    self.permutation_generator = Some(generator);
                    proof {
                        assert(self@.remaining() =~= before.remaining().drop_first());
                    }
                    return Some(a);
                },
                None => {
                    proof {
                        assert(self@.remaining() =~= before.remaining());
                    }
                },
            }
        }
    }
}

} // verus!
