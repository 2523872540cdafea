//! The values of a list with their counts, and every way of taking some of
//! the copies of each value.
use super::permutation_generator::pair_total;
use crate::base_types::numbers::{CheckedOperations, NumberType};
use vstd::prelude::*;

verus! {

/// How often `key` is among the items.
pub open spec fn occurrences<T>(items: Seq<T>, key: T) -> nat
    decreases items.len(),
{
    if items.len() == 0 {
        0
    } else {
        occurrences(items.drop_last(), key) + if items.last() == key {
            1nat
        } else {
            0nat
        }
    }
}

/// Whether the keys of the pairs ascend strictly.
pub open spec fn keys_ascend<T: NumberType, V>(pairs: Seq<(T, V)>) -> bool {
    forall|i: int, j: int| 0 <= i < j < pairs.len() ==> pairs[i].0.value() < pairs[j].0.value()
}

/// Whether the pairs hold exactly the values among the items, each with the
/// number of times it is among them, in ascending order of the values.
pub open spec fn counts_of<T: NumberType>(pairs: Seq<(T, usize)>, items: Seq<T>) -> bool {
    &&& keys_ascend(pairs)
    &&& forall|i: int|
        0 <= i < pairs.len() ==> (#[trigger] pairs[i]).1 == occurrences(items, pairs[i].0)
            && pairs[i].1 >= 1
    &&& forall|key: T| #[trigger]
        occurrences(items, key) > 0 ==> exists|i: int| 0 <= i < pairs.len() && pairs[i].0 == key
}

/// How many of the leading pairs have a key below the item.
pub open spec fn place<T: NumberType>(pairs: Seq<(T, usize)>, item: T) -> int
    decreases pairs.len(),
{
    if pairs.len() == 0 || !(pairs[0].0.value() < item.value()) {
        0
    } else {
        1 + place(pairs.drop_first(), item)
    }
}

/// The pairs after one more item has been counted: the count of its value
/// is raised by one, or the value is put in with a count of one where the
/// order of the keys wants it.
pub open spec fn noted<T: NumberType>(pairs: Seq<(T, usize)>, item: T) -> Seq<(T, usize)> {
    let at = place(pairs, item);
    if at < pairs.len() && pairs[at].0.value() == item.value() {
        pairs.update(at, (pairs[at].0, (pairs[at].1 + 1) as usize))
    } else {
        pairs.insert(at, (item, 1usize))
    }
}

/// The values among the items in ascending order, each with the number of
/// times it is among them.
pub open spec fn tally<T: NumberType>(items: Seq<T>) -> Seq<(T, usize)>
    decreases items.len(),
{
    if items.len() == 0 {
        Seq::empty()
    } else {
        noted(tally(items.drop_last()), items.last())
    }
}

/// Where the first `at` keys are below the item and the key at `at`, if
/// there is one, is not, `at` is the place of the item.
pub proof fn lemma_place<T: NumberType>(pairs: Seq<(T, usize)>, item: T, at: int)
    requires
        0 <= at <= pairs.len(),
        forall|i: int| 0 <= i < at ==> (#[trigger] pairs[i]).0.value() < item.value(),
        at < pairs.len() ==> !(pairs[at].0.value() < item.value()),
    ensures
        place(pairs, item) == at,
    decreases pairs.len(),
{
    if at > 0 {
        assert(pairs[0].0.value() < item.value());
        let rest = pairs.drop_first();
        assert forall|i: int| 0 <= i < at - 1 implies (#[trigger] rest[i]).0.value()
            < item.value() by {
            assert(rest[i] == pairs[i + 1]);
        }
        lemma_place(rest, item, at - 1);
    }
}

/// Counting one more item keeps the pairs in step with the items: they hold
/// the values among the items with their counts, in ascending order.
#[verifier::rlimit(30)]
pub proof fn lemma_noted_counts<T: NumberType>(before: Seq<(T, usize)>, item: T, seen: Seq<T>)
    requires
        counts_of(before, seen),
        seen.len() < usize::MAX,
    ensures
        counts_of(noted(before, item), seen.push(item)),
        pair_total(noted(before, item)) == pair_total(before) + 1,
{
    let next = seen.push(item);
    let at = place(before, item);
    let after = noted(before, item);
    assert(next.drop_last() =~= seen);
    lemma_place_found(before, item);
    if at < before.len() && before[at].0.value() == item.value() {
        let key = before[at].0;
        key.value_injective(item);
        lemma_occurrences_bound(seen, key);
        lemma_pair_total_update(before, at, (key, (before[at].1 + 1) as usize));
        assert forall|key: T| #[trigger] occurrences(next, key) > 0 implies exists|i: int|
            0 <= i < after.len() && after[i].0 == key by {
            if key == item {
                assert(after[at].0 == key);
            } else {
                assert(occurrences(seen, key) > 0);
                let i = choose|i: int| 0 <= i < before.len() && before[i].0 == key;
                assert(after[i].0 == key);
            }
        }
        assert forall|i: int| 0 <= i < after.len() implies (#[trigger] after[i]).1 == occurrences(
            next,
            after[i].0,
        ) && after[i].1 >= 1 by {
            assert(before[i].1 == occurrences(seen, before[i].0));
            if i != at && before[i].0 == item {
                before[i].0.value_injective(before[at].0);
            }
        }
        assert forall|i: int, j: int| 0 <= i < j < after.len() implies after[i].0.value()
            < after[j].0.value() by {
            assert(before[i].0.value() < before[j].0.value());
        }
    } else {
        lemma_pair_total_insert(before, at, (item, 1usize));
        assert forall|i: int, j: int| 0 <= i < j < after.len() implies after[i].0.value()
            < after[j].0.value() by {
            if j < at {
                assert(before[i].0.value() < before[j].0.value());
            } else if j == at {
                assert(before[i].0.value() < item.value());
            } else if i == at {
                assert(before[at].0.value() <= before[j - 1].0.value());
            } else if i < at {
                assert(before[i].0.value() < before[j - 1].0.value());
            } else {
                assert(before[i - 1].0.value() < before[j - 1].0.value());
            }
        }
        assert(occurrences(seen, item) == 0) by {
            if occurrences(seen, item) > 0 {
                let i = choose|i: int| 0 <= i < before.len() && before[i].0 == item;
                if i < at {
                    assert(before[i].0.value() < item.value());
                } else if i > at {
                    assert(before[at].0.value() < before[i].0.value());
                }
            }
        }
        assert forall|key: T| #[trigger] occurrences(next, key) > 0 implies exists|i: int|
            0 <= i < after.len() && after[i].0 == key by {
            if key == item {
                assert(after[at].0 == key);
            } else {
                assert(occurrences(seen, key) > 0);
                let i = choose|i: int| 0 <= i < before.len() && before[i].0 == key;
                if i < at {
                    assert(after[i].0 == key);
                } else {
                    assert(after[i + 1].0 == key);
                }
            }
        }
        assert forall|i: int| 0 <= i < after.len() implies (#[trigger] after[i]).1 == occurrences(
            next,
            after[i].0,
        ) && after[i].1 >= 1 by {
            if i < at {
                assert(before[i].1 == occurrences(seen, before[i].0));
                assert(before[i].0.value() < item.value());
            } else if i > at {
                assert(before[i - 1].1 == occurrences(seen, before[i - 1].0));
                if before[i - 1].0 == item {
                    assert(occurrences(seen, item) > 0);
                }
            }
        }
    }
}

/// The place of an item lies within the pairs; the keys before it are below
/// the item and the key at it, if there is one, is not.
pub proof fn lemma_place_found<T: NumberType>(pairs: Seq<(T, usize)>, item: T)
    ensures
        0 <= place(pairs, item) <= pairs.len(),
        forall|i: int|
            0 <= i < place(pairs, item) ==> (#[trigger] pairs[i]).0.value() < item.value(),
        place(pairs, item) < pairs.len() ==> !(pairs[place(pairs, item)].0.value()
            < item.value()),
    decreases pairs.len(),
{
    if pairs.len() > 0 && pairs[0].0.value() < item.value() {
        let rest = pairs.drop_first();
        lemma_place_found(rest, item);
        assert forall|i: int| 0 <= i < place(pairs, item) implies (#[trigger] pairs[i]).0.value()
            < item.value() by {
            if i > 0 {
                assert(rest[i - 1] == pairs[i]);
            }
        }
        if place(pairs, item) < pairs.len() {
            assert(rest[place(rest, item)] == pairs[place(pairs, item)]);
        }
    }
}

/// Replacing a pair changes the sum of the counts by the difference of the
/// two counts.
pub proof fn lemma_pair_total_update<T>(pairs: Seq<(T, usize)>, at: int, pair: (T, usize))
    requires
        0 <= at < pairs.len(),
    ensures
        pair_total(pairs.update(at, pair)) == pair_total(pairs) + pair.1 - pairs[at].1,
    decreases pairs.len(),
{
    if at == pairs.len() - 1 {
        assert(pairs.update(at, pair).drop_last() =~= pairs.drop_last());
    } else {
        lemma_pair_total_update(pairs.drop_last(), at, pair);
        assert(pairs.update(at, pair).drop_last() =~= pairs.drop_last().update(at, pair));
    }
}

/// Putting a pair in raises the sum of the counts by its count.
pub proof fn lemma_pair_total_insert<T>(pairs: Seq<(T, usize)>, at: int, pair: (T, usize))
    requires
        0 <= at <= pairs.len(),
    ensures
        pair_total(pairs.insert(at, pair)) == pair_total(pairs) + pair.1,
    decreases pairs.len(),
{
    if at == pairs.len() {
        assert(pairs.insert(at, pair).drop_last() =~= pairs);
    } else {
        lemma_pair_total_insert(pairs.drop_last(), at, pair);
        assert(pairs.insert(at, pair).drop_last() =~= pairs.drop_last().insert(at, pair));
    }
}

/// The tally of a list holds exactly the values among its items, each with
/// the number of times it is among them, in ascending order; the counts sum
/// to the length of the list.
pub proof fn lemma_tally_counts<T: NumberType>(items: Seq<T>)
    requires
        items.len() <= usize::MAX,
    ensures
        counts_of(tally(items), items),
        pair_total(tally(items)) == items.len(),
    decreases items.len(),
{
    if items.len() > 0 {
        lemma_tally_counts(items.drop_last());
        lemma_noted_counts(tally(items.drop_last()), items.last(), items.drop_last());
        assert(items.drop_last().push(items.last()) =~= items);
    }
}

/// Every key of the tally of a list is an item of the list: what holds of
/// every item holds of every key.
pub proof fn lemma_tally_keys<T: NumberType>(items: Seq<T>, good: spec_fn(T) -> bool)
    requires
        forall|i: int| 0 <= i < items.len() ==> good(#[trigger] items[i]),
    ensures
        forall|j: int| 0 <= j < tally(items).len() ==> good((#[trigger] tally(items)[j]).0),
    decreases items.len(),
{
    if items.len() > 0 {
        let before = tally(items.drop_last());
        let item = items.last();
        lemma_tally_keys(items.drop_last(), good);
        lemma_place_found(before, item);
        let at = place(before, item);
        assert forall|j: int| 0 <= j < tally(items).len() implies good(
            (#[trigger] tally(items)[j]).0,
        ) by {
            if at < before.len() && before[at].0.value() == item.value() {
                assert(good(before[j].0));
            } else {
                if j < at {
                    assert(good(before[j].0));
                } else if j > at {
                    assert(good(before[j - 1].0));
                }
            }
        }
    }
}

/// No value occurs more often than there are items.
pub proof fn lemma_occurrences_bound<T>(items: Seq<T>, key: T)
    ensures
        occurrences(items, key) <= items.len(),
    decreases items.len(),
{
    if items.len() > 0 {
        lemma_occurrences_bound(items.drop_last(), key);
    }
}

/// The distinct values of a list, each with the number of times it occurs.
pub struct KeyCount<T: NumberType> {
    keys: Vec<(T, usize)>,
}

impl<T: NumberType> View for KeyCount<T> {
    type V = Seq<(T, usize)>;

    closed spec fn view(&self) -> Seq<(T, usize)> {
        self.keys@
    }
}

impl<T: NumberType> KeyCount<T> {
    /// The values among the items with their counts.
    pub fn from_iter(iter: Vec<T>) -> (counts: Self)
        ensures
            counts@ == tally(iter@),
            counts_of(counts@, iter@),
    {
        let mut keys: Vec<(T, usize)> = Vec::new();
        let mut n: usize = 0;
        while n < iter.len()
            invariant
                n <= iter.len(),
                keys@ == tally(iter@.take(n as int)),
                counts_of(keys@, iter@.take(n as int)),
            decreases iter.len() - n,
        {
            let item = iter[n];
            let ghost seen = iter@.take(n as int);
            let ghost next = iter@.take(n + 1);
            let ghost before = keys@;
            proof {
                assert(next.drop_last() =~= seen);
                assert(next.last() == item);
            }
            let mut at: usize = 0;
            while at < keys.len() && keys[at].0.is_less(item)
                invariant
                    at <= keys.len(),
                    keys@ == before,
                    forall|i: int| 0 <= i < at ==> (#[trigger] keys@[i]).0.value() < item.value(),
                decreases keys.len() - at,
            {
                at = at + 1;
            }
            proof {
                lemma_place(before, item, at as int);
                lemma_noted_counts(before, item, seen);
                assert(seen.push(item) =~= next);
            }
            if at < keys.len() && keys[at].0.is_equal(item) {
                let (key, count) = keys[at];
                proof {
                    lemma_occurrences_bound(seen, key);
                }
                keys.set(at, (key, count + 1));
            } else {
                keys.insert(at, (item, 1));
            }
            n = n + 1;
        }
        proof {
            assert(iter@.take(n as int) =~= iter@);
        }
        KeyCount { keys }
    }

    /// How often the key was among the items, if it was among them.
    pub fn get(&self, key: &T) -> (count: Option<usize>)
        ensures
            match count {
                Some(count) => exists|i: int|
                    0 <= i < self@.len() && self@[i].0 == *key && self@[i].1 == count,
                None => forall|i: int| 0 <= i < self@.len() ==> self@[i].0 != *key,
            },
    {
        let mut at: usize = 0;
        while at < self.keys.len()
            invariant
                at <= self.keys.len(),
                forall|i: int| 0 <= i < at ==> self.keys@[i].0 != *key,
            decreases self.keys.len() - at,
        {
            if self.keys[at].0.is_equal(*key) {
                proof {
                    self.keys@[at as int].0.value_injective(*key);
                    assert(self@[at as int].0 == *key && self@[at as int].1
                        == self.keys@[at as int].1);
                }
                return Some(self.keys[at].1);
            }
            at = at + 1;
        }
        None
    }

    /// The values with their counts, in ascending order of the values.
    pub fn into_iter(self) -> (pairs: Vec<(T, usize)>)
        ensures
            pairs@ == self@,
    {
        self.keys
    }
}

/// How many readings the first `k` digits of a counter have, where digit
/// `j` runs from zero to `limits[j]`.
pub open spec fn capacity(limits: Seq<int>, k: int) -> int
    decreases k,
{
    if k <= 0 {
        1
    } else {
        capacity(limits, k - 1) * (limits[k - 1] + 1)
    }
}

/// The first `k` digits read as one number. The last digit counts units;
/// digit `j` runs from zero to `limits[j]`.
pub open spec fn reading(digits: Seq<int>, limits: Seq<int>, k: int) -> int
    decreases k,
{
    if k <= 0 {
        0
    } else {
        reading(digits, limits, k - 1) * (limits[k - 1] + 1) + digits[k - 1]
    }
}

/// Among the first `k` digits, the position of the last one that is below
/// its limit; less than zero where there is none.
pub open spec fn turn(digits: Seq<int>, limits: Seq<int>, k: int) -> int
    decreases k,
{
    if k <= 0 {
        -1
    } else if digits[k - 1] < limits[k - 1] {
        k - 1
    } else {
        turn(digits, limits, k - 1)
    }
}

/// The first `k` digits after one count: the last digit below its limit is
/// raised by one and every digit behind it is set to zero.
pub open spec fn counted(digits: Seq<int>, limits: Seq<int>, k: int) -> Seq<int> {
    let p = turn(digits, limits, k);
    Seq::new(
        if k < 0 {
            0nat
        } else {
            k as nat
        },
        |j: int|
            if j < p {
                digits[j]
            } else if j == p {
                digits[j] + 1
            } else {
                0
            },
    )
}

/// The sum of the digits.
pub open spec fn total(digits: Seq<int>) -> int
    decreases digits.len(),
{
    if digits.len() == 0 {
        0
    } else {
        total(digits.drop_last()) + digits.last()
    }
}

/// A counter of mixed radix: digit `j` runs from zero to `limits[j]`.
pub struct Odometer {
    pub digits: Seq<int>,
    pub limits: Seq<int>,
}

impl Odometer {
    /// Each digit lies between zero and its limit.
    pub open spec fn wf(self) -> bool {
        &&& self.digits.len() == self.limits.len()
        &&& forall|j: int| 0 <= j < self.digits.len() ==> 0 <= #[trigger] self.digits[j]
            <= self.limits[j]
    }

    /// The counter after one count, if a digit is below its limit.
    pub open spec fn step(self) -> Option<Odometer> {
        if turn(self.digits, self.limits, self.digits.len() as int) < 0 {
            None
        } else {
            Some(
                Odometer {
                    digits: counted(self.digits, self.limits, self.digits.len() as int),
                    limits: self.limits,
                },
            )
        }
    }

    /// How many counts are left until every digit is at its limit.
    pub open spec fn left(self) -> int {
        capacity(self.limits, self.limits.len() as int) - 1 - reading(
            self.digits,
            self.limits,
            self.limits.len() as int,
        )
    }

    /// The digits after each of the counts that are left, in their order.
    pub open spec fn remaining(self) -> Seq<Seq<int>>
        decreases self.left(),
        when self.wf()
        via Self::remaining_decreases
    {
        match self.step() {
            Some(next) => seq![next.digits] + next.remaining(),
            None => Seq::empty(),
        }
    }

    #[via_fn]
    proof fn remaining_decreases(self) {
        self.lemma_step();
        if self.step() is Some {
            self.step().unwrap().lemma_step();
        }
    }

    /// A count leads from a well-formed counter to a well-formed one and
    /// raises its reading by one; where no count is possible, none is left.
    pub proof fn lemma_step(self)
        requires
            self.wf(),
        ensures
            self.left() >= 0,
            self.step() matches Some(next) ==> next.wf() && next.left() == self.left() - 1
                && reading(next.digits, next.limits, next.limits.len() as int) == reading(
                self.digits,
                self.limits,
                self.limits.len() as int,
            ) + 1,
            self.step() is None ==> self.left() == 0,
    {
        lemma_counted(self.digits, self.limits, self.digits.len() as int);
    }

    /// The digits that are left to come are the digits after the next count,
    /// followed by those left to come after it, as many as counts are left.
    pub proof fn lemma_remaining(self)
        requires
            self.wf(),
        ensures
            self.remaining().len() == self.left(),
            self.step() matches Some(next) ==> next.wf() && self.remaining().len() > 0
                && self.remaining()[0] == next.digits && next.remaining()
                == self.remaining().drop_first(),
            self.step() is None ==> self.remaining().len() == 0,
        decreases self.left(),
    {
        self.lemma_step();
        match self.step() {
            Some(next) => {
                next.lemma_step();
                next.lemma_remaining();
                assert(self.remaining().drop_first() =~= next.remaining());
            },
            None => {},
        }
    }
}

/// The reading of the first `k` digits depends on those digits alone.
pub proof fn lemma_reading_of_prefix(a: Seq<int>, b: Seq<int>, limits: Seq<int>, k: int)
    requires
        forall|j: int| 0 <= j < k ==> a[j] == b[j],
    ensures
        reading(a, limits, k) == reading(b, limits, k),
    decreases k,
{
    if k > 0 {
        lemma_reading_of_prefix(a, b, limits, k - 1);
    }
}

/// A count on the first `k` digits: the digits stay within their limits;
/// where a digit is below its limit the reading grows by one, and where none
/// is the reading is the highest there is.
pub proof fn lemma_counted(digits: Seq<int>, limits: Seq<int>, k: int)
    requires
        0 <= k <= digits.len(),
        digits.len() == limits.len(),
        forall|j: int| 0 <= j < digits.len() ==> 0 <= #[trigger] digits[j] <= limits[j],
    ensures
        -1 <= turn(digits, limits, k) < k,
        turn(digits, limits, k) >= 0 ==> digits[turn(digits, limits, k)] < limits[turn(
            digits,
            limits,
            k,
        )],
        forall|j: int| turn(digits, limits, k) < j < k ==> digits[j] == limits[j],
        forall|j: int| 0 <= j < k ==> 0 <= #[trigger] counted(digits, limits, k)[j] <= limits[j],
        0 <= reading(digits, limits, k) <= capacity(limits, k) - 1,
        turn(digits, limits, k) >= 0 ==> reading(counted(digits, limits, k), limits, k) == reading(
            digits,
            limits,
            k,
        ) + 1,
        turn(digits, limits, k) < 0 ==> reading(digits, limits, k) == capacity(limits, k) - 1,
    decreases k,
{
    if k > 0 {
        lemma_counted(digits, limits, k - 1);
        let base = limits[k - 1] + 1;
        let high = reading(digits, limits, k - 1);
        let room = capacity(limits, k - 1);
        assert(high * base + digits[k - 1] <= room * base - 1) by (nonlinear_arith)
            requires
                0 <= high <= room - 1,
                0 <= digits[k - 1] <= base - 1,
        ;
        assert(0 <= high * base) by (nonlinear_arith)
            requires
                0 <= high,
                0 <= base,
        ;
        if digits[k - 1] < limits[k - 1] {
            lemma_reading_of_prefix(counted(digits, limits, k), digits, limits, k - 1);
        } else {
            if turn(digits, limits, k) >= 0 {
                lemma_reading_of_prefix(
                    counted(digits, limits, k),
                    counted(digits, limits, k - 1),
                    limits,
                    k - 1,
                );
                assert((high + 1) * base == high * base + base) by (nonlinear_arith);
            } else {
                assert((room - 1) * base + base - 1 == room * base - 1) by (nonlinear_arith);
            }
        }
    }
}

/// The digits after each of the counts that are left lie between zero and
/// their limits.
pub proof fn lemma_remaining_within(odometer: Odometer)
    requires
        odometer.wf(),
    ensures
        forall|k: int|
            0 <= k < odometer.remaining().len() ==> (Odometer {
                digits: #[trigger] odometer.remaining()[k],
                limits: odometer.limits,
            }).wf(),
    decreases odometer.left(),
{
    odometer.lemma_remaining();
    odometer.lemma_step();
    match odometer.step() {
        Some(next) => {
            next.lemma_step();
            lemma_remaining_within(next);
            assert forall|k: int| 0 <= k < odometer.remaining().len() implies (Odometer {
                digits: #[trigger] odometer.remaining()[k],
                limits: odometer.limits,
            }).wf() by {
                if k > 0 {
                    assert(odometer.remaining()[k] == next.remaining()[k - 1]);
                }
            }
        },
        None => {},
    }
}

/// Digits that lie between zero and their limits sum to no more than the
/// limits.
pub proof fn lemma_total_within(digits: Seq<int>, limits: Seq<int>)
    requires
        digits.len() == limits.len(),
        forall|j: int| 0 <= j < digits.len() ==> 0 <= #[trigger] digits[j] <= limits[j],
    ensures
        0 <= total(digits) <= total(limits),
    decreases digits.len(),
{
    if digits.len() > 0 {
        lemma_total_within(digits.drop_last(), limits.drop_last());
    }
}

/// The counts of values paired with digits sum to the sum of the digits.
pub proof fn lemma_paired_total<T>(values: Seq<T>, digits: Seq<int>)
    requires
        digits.len() == values.len(),
        forall|j: int| 0 <= j < digits.len() ==> 0 <= #[trigger] digits[j] <= usize::MAX,
    ensures
        pair_total(paired(values, digits)) == total(digits),
    decreases digits.len(),
{
    if digits.len() > 0 {
        lemma_paired_total(values.drop_last(), digits.drop_last());
        assert(paired(values, digits).drop_last() =~= paired(
            values.drop_last(),
            digits.drop_last(),
        ));
    }
}

/// The digits after the count of number `k` read as the reading before the
/// first count raised by `k + 1`.
pub proof fn lemma_remaining_readings(odometer: Odometer)
    requires
        odometer.wf(),
    ensures
        forall|k: int|
            0 <= k < odometer.remaining().len() ==> reading(
                #[trigger] odometer.remaining()[k],
                odometer.limits,
                odometer.limits.len() as int,
            ) == reading(odometer.digits, odometer.limits, odometer.limits.len() as int) + k + 1,
    decreases odometer.left(),
{
    odometer.lemma_remaining();
    odometer.lemma_step();
    match odometer.step() {
        Some(next) => {
            next.lemma_step();
            lemma_remaining_readings(next);
            assert forall|k: int| 0 <= k < odometer.remaining().len() implies reading(
                #[trigger] odometer.remaining()[k],
                odometer.limits,
                odometer.limits.len() as int,
            ) == reading(odometer.digits, odometer.limits, odometer.limits.len() as int) + k
                + 1 by {
                if k > 0 {
                    assert(odometer.remaining()[k] == next.remaining()[k - 1]);
                }
            }
        },
        None => {},
    }
}

/// Digits within their limits that read the same over their first `k`
/// places are the same over these places.
pub proof fn lemma_reading_tells_digits(a: Seq<int>, b: Seq<int>, limits: Seq<int>, k: int)
    requires
        0 <= k <= limits.len(),
        a.len() == limits.len(),
        b.len() == limits.len(),
        forall|j: int| 0 <= j < limits.len() ==> 0 <= #[trigger] a[j] <= limits[j],
        forall|j: int| 0 <= j < limits.len() ==> 0 <= #[trigger] b[j] <= limits[j],
        reading(a, limits, k) == reading(b, limits, k),
    ensures
        forall|j: int| 0 <= j < k ==> a[j] == b[j],
    decreases k,
{
    if k > 0 {
        let base = limits[k - 1] + 1;
        let x = reading(a, limits, k - 1);
        let y = reading(b, limits, k - 1);
        let p = a[k - 1];
        let q = b[k - 1];
        assert(x == y && p == q) by (nonlinear_arith)
            requires
                x * base + p == y * base + q,
                0 <= p < base,
                0 <= q < base,
        ;
        lemma_reading_tells_digits(a, b, limits, k - 1);
    }
}

/// Digits that are all zero read as zero, and digits that are not below
/// zero and sum to zero read as zero.
pub proof fn lemma_reading_of_none(digits: Seq<int>, limits: Seq<int>, k: int)
    requires
        0 <= k <= digits.len(),
        forall|j: int| 0 <= j < digits.len() ==> 0 <= #[trigger] digits[j],
        total(digits.take(k)) == 0,
    ensures
        reading(digits, limits, k) == 0,
    decreases k,
{
    if k > 0 {
        assert(digits.take(k).drop_last() =~= digits.take(k - 1));
        lemma_total_not_below_zero(digits.take(k - 1));
        lemma_reading_of_none(digits, limits, k - 1);
        assert(reading(digits, limits, k - 1) * (limits[k - 1] + 1) == 0) by (nonlinear_arith)
            requires
                reading(digits, limits, k - 1) == 0,
        ;
    }
}

/// Digits that are all zero sum to zero.
pub proof fn lemma_total_of_zeros(digits: Seq<int>)
    requires
        forall|j: int| 0 <= j < digits.len() ==> #[trigger] digits[j] == 0,
    ensures
        total(digits) == 0,
    decreases digits.len(),
{
    if digits.len() > 0 {
        lemma_total_of_zeros(digits.drop_last());
    }
}

/// Digits that are not below zero sum to no less than zero.
pub proof fn lemma_total_not_below_zero(digits: Seq<int>)
    requires
        forall|j: int| 0 <= j < digits.len() ==> 0 <= #[trigger] digits[j],
    ensures
        0 <= total(digits),
    decreases digits.len(),
{
    if digits.len() > 0 {
        lemma_total_not_below_zero(digits.drop_last());
    }
}

/// In how many ways copies of the values of the pairs can be taken, taking
/// none among them: the product of the counts, each raised by one.
pub open spec fn ways<T>(pairs: Seq<(T, usize)>) -> int
    decreases pairs.len(),
{
    if pairs.len() == 0 {
        1
    } else {
        ways(pairs.drop_last()) * (pairs.last().1 + 1)
    }
}

/// The ways of taking copies are as many as a counter with the counts as
/// its limits has readings.
pub proof fn lemma_ways_capacity<T>(pairs: Seq<(T, usize)>, limits: Seq<int>, k: int)
    requires
        0 <= k <= pairs.len(),
        limits.len() == pairs.len(),
        forall|j: int| 0 <= j < pairs.len() ==> #[trigger] limits[j] == pairs[j].1,
    ensures
        capacity(limits, k) == ways(pairs.take(k)),
    decreases k,
{
    if k > 0 {
        lemma_ways_capacity(pairs, limits, k - 1);
        assert(pairs.take(k).drop_last() =~= pairs.take(k - 1));
    }
}

/// The values with the digits as their counts.
pub open spec fn paired<T>(values: Seq<T>, digits: Seq<int>) -> Seq<(T, usize)> {
    Seq::new(values.len(), |j: int| (values[j], digits[j] as usize))
}

/// What an enumeration of the ways to take copies holds: the values, and a
/// counter with one digit for each value that says how many copies of it
/// are taken and how many there are.
pub struct Taking<T> {
    pub values: Seq<T>,
    pub odometer: Odometer,
}

impl<T> Taking<T> {
    /// There is one digit for each value, and the counter is well formed
    /// with limits that a machine number holds.
    pub open spec fn wf(self) -> bool {
        &&& self.odometer.wf()
        &&& self.values.len() == self.odometer.digits.len()
        &&& forall|j: int|
            0 <= j < self.odometer.limits.len() ==> #[trigger] self.odometer.limits[j]
                <= usize::MAX
    }

    /// The ways of taking copies that are yet to be yielded: the values,
    /// each with the number of copies taken.
    pub open spec fn remaining(self) -> Seq<Seq<(T, usize)>> {
        Seq::new(
            self.odometer.remaining().len(),
            |k: int| paired(self.values, self.odometer.remaining()[k]),
        )
    }
}

/// Enumerates every way of taking some of the copies of each value, but for
/// taking none at all.
pub struct KVPairIterator<T: NumberType> {
    keys: Vec<(T, (usize, usize))>,
}

impl<T: NumberType> View for KVPairIterator<T> {
    type V = Taking<T>;

    closed spec fn view(&self) -> Taking<T> {
        Taking {
            values: Seq::new(self.keys@.len(), |j: int| self.keys@[j].0),
            odometer: Odometer {
                digits: Seq::new(self.keys@.len(), |j: int| self.keys@[j].1.0 as int),
                limits: Seq::new(self.keys@.len(), |j: int| self.keys@[j].1.1 as int),
            },
        }
    }
}

impl<T: NumberType> KVPairIterator<T> {
    /// An enumeration over the values with their counts that has yet to
    /// yield every way of taking copies.
    pub fn from(value: KeyCount<T>) -> (iterator: Self)
        ensures
            iterator@.wf(),
            iterator@.values == Seq::new(value@.len(), |j: int| value@[j].0),
            iterator@.odometer.digits == Seq::new(value@.len(), |j: int| 0int),
            iterator@.odometer.limits == Seq::new(value@.len(), |j: int| value@[j].1 as int),
    {
        let pairs = value.into_iter();
        let mut keys: Vec<(T, (usize, usize))> = Vec::new();
        let mut j: usize = 0;
        while j < pairs.len()
            invariant
                j <= pairs.len(),
                keys@.len() == j,
                forall|k: int| 0 <= k < j ==> #[trigger] keys@[k] == (pairs@[k].0, (0usize, pairs@[k].1)),
            decreases pairs.len() - j,
        {
            let (t, v) = pairs[j];
            keys.push((t, (0, v)));
            j = j + 1;
        }
        let iterator = KVPairIterator { keys };
        proof {
            assert(iterator@.values =~= Seq::new(value@.len(), |j: int| value@[j].0));
            assert(iterator@.odometer.digits =~= Seq::new(value@.len(), |j: int| 0int));
            assert(iterator@.odometer.limits =~= Seq::new(
                value@.len(),
                |j: int| value@[j].1 as int,
            ));
        }
        iterator
    }

    /// Yields the next way of taking copies: each value with the number of
    /// copies taken of it.
    pub fn next(&mut self) -> (r: Option<Vec<(T, usize)>>)
        requires
            old(self)@.wf(),
        ensures
            final(self)@.wf(),
            final(self)@.values == old(self)@.values,
            final(self)@.odometer.limits == old(self)@.odometer.limits,
            match r {
                Some(pairs) => old(self)@.remaining().len() > 0 && pairs@ == old(self)@.remaining()[0] && final(self)@.remaining() == old(self)@.remaining().drop_first() && Some(final(self)@.odometer) == old(self)@.odometer.step(),
                None => old(self)@.remaining().len() == 0 && *final(self) == *old(self),
            },
    {
        let n = self.keys.len();
        let ghost before = self@;
        proof {
            before.odometer.lemma_remaining();
            lemma_counted(before.odometer.digits, before.odometer.limits, n as int);
        }
        let mut p: usize = n;
        let mut found = false;
        while p > 0 && !found
            invariant
                p <= n,
                n == self.keys@.len(),
                self@ == before,
                before.wf(),
                turn(before.odometer.digits, before.odometer.limits, n as int) == if found {
                    p - 1
                } else {
                    turn(before.odometer.digits, before.odometer.limits, p as int)
                },
                found ==> p > 0,
            decreases p + if found { 0int } else { 1int },
        {
            let (count, max) = self.keys[p - 1].1;
            if count < max {
                found = true;
            } else {
                p = p - 1;
            }
        }
        if !found {
            return None;
        }
        let last_non_full = p - 1;
        let mut j: usize = p;
        while j < n
            invariant
                p <= j <= n,
                last_non_full == p - 1,
                n == self.keys@.len(),
                n == before.values.len(),
                n == before.odometer.digits.len(),
                self@.values == before.values,
                self@.odometer.limits == before.odometer.limits,
                forall|k: int| 0 <= k < p ==> #[trigger] self.keys@[k].1.0 == before.odometer.digits[k],
                forall|k: int| p <= k < j ==> #[trigger] self.keys@[k].1.0 == 0,
            decreases n - j,
        {
            let (t, (_, max)) = self.keys[j];
            let ghost earlier = self@;
            self.keys.set(j, (t, (0, max)));
            proof {
                assert(self@.values =~= earlier.values);
                assert(self@.odometer.limits =~= earlier.odometer.limits);
            }
            j = j + 1;
        }
        let (t, (count, max)) = self.keys[last_non_full];
        let ghost earlier = self@;
        self.keys.set(last_non_full, (t, (count + 1, max)));
        proof {
            assert(self@.values =~= earlier.values);
            assert(self@.odometer.limits =~= earlier.odometer.limits);
            assert(self@.odometer.digits =~= counted(
                before.odometer.digits,
                before.odometer.limits,
                n as int,
            ));
        }
        let mut pairs: Vec<(T, usize)> = Vec::new();
        j = 0;
        while j < n
            invariant
                j <= n,
                n == self.keys@.len(),
                pairs@.len() == j,
                forall|k: int| 0 <= k < j ==> #[trigger] pairs@[k] == (self.keys@[k].0, self.keys@[k].1.0),
            decreases n - j,
        {
            let (t, (size, _)) = self.keys[j];
            pairs.push((t, size));
            j = j + 1;
        }
        proof {
            let next = before.odometer.step().unwrap();
            assert(self@.odometer == next);
            assert(pairs@ =~= paired(before.values, next.digits));
            assert(self@.remaining() =~= before.remaining().drop_first());
        }
        Some(pairs)
    }
}

} // verus!
