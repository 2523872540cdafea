//! Why the generator of orderings yields every ordering of its items, each
//! once.
//!
//! The orderings that the generator yields are described a second time
//! here, by the way they are built up: every ordering of the first `k`
//! items is every ordering of the first `k - 1` items, once for each item
//! that is brought to the place behind them in turn. The laws are proved of
//! this description, and the description is proved to be what the
//! generator yields.
use super::permutation_generator::{factorial, fresh, swapped, Arrangement};
use vstd::prelude::*;

verus! {

/// The place whose item is exchanged with the item at place `i` when the
/// counter of place `i` stands at `j`.
pub open spec fn partner(i: int, j: int) -> int {
    if i % 2 == 0 {
        0
    } else {
        j
    }
}

/// The ordering that is left when every ordering of the first `k` items of
/// `a` has been yielded.
pub open spec fn settled<T>(a: Seq<T>, k: int) -> Seq<T>
    decreases k, 0int,
{
    if k <= 1 {
        a
    } else {
        settled(round(a, k - 1, k - 1), k - 1)
    }
}

/// The ordering with which round `j` of place `i` starts: `a` for the first
/// round; for a later one, what the round before left, with the item at
/// place `i` exchanged for the item at the partner place.
pub open spec fn round<T>(a: Seq<T>, i: int, j: int) -> Seq<T>
    decreases i, j + 1,
{
    if j <= 0 || i < 1 {
        a
    } else {
        swapped(settled(round(a, i, j - 1), i), partner(i, j - 1), i)
    }
}

/// The orderings of the first `k` items of `a` that are yielded after `a`
/// itself.
pub open spec fn outs<T>(a: Seq<T>, k: int) -> Seq<Seq<T>>
    decreases k, 0int,
{
    if k <= 1 {
        Seq::empty()
    } else {
        passed(a, k - 1, k - 1)
    }
}

/// The orderings that are yielded after `a` up to the end of round `j` of
/// place `i`.
pub open spec fn passed<T>(a: Seq<T>, i: int, j: int) -> Seq<Seq<T>>
    decreases i, j + 1,
{
    if j < 0 || i < 1 {
        Seq::empty()
    } else if j == 0 {
        outs(a, i)
    } else {
        passed(a, i, j - 1) + seq![round(a, i, j)] + outs(round(a, i, j), i)
    }
}

/// What the generator holds after `m` more steps.
pub open spec fn after<T>(s: Arrangement<T>, m: nat) -> Arrangement<T>
    decreases m,
{
    if m == 0 {
        s
    } else {
        after(s.step().1, (m - 1) as nat)
    }
}

/// Steps add up.
pub proof fn lemma_after_add<T>(s: Arrangement<T>, m: nat, more: nat)
    ensures
        after(s, m + more) == after(after(s, m), more),
    decreases m,
{
    if m > 0 {
        lemma_after_add(s.step().1, (m - 1) as nat, more);
    }
}

/// After `m` steps that each yield an ordering, the orderings yet to be
/// yielded are those that were yet to be yielded but for the first `m`.
pub proof fn lemma_after_remaining<T>(s: Arrangement<T>, m: nat)
    requires
        s.wf(),
        m <= s.remaining().len(),
    ensures
        after(s, m).wf(),
        after(s, m).a.len() == s.a.len(),
        after(s, m).remaining() == s.remaining().skip(m as int),
    decreases m,
{
    s.lemma_remaining();
    if m > 0 {
        let next = s.step().1;
        lemma_after_remaining(next, (m - 1) as nat);
        assert(s.remaining().drop_first().skip(m - 1) =~= s.remaining().skip(m as int));
    } else {
        assert(s.remaining().skip(0) =~= s.remaining());
    }
}

/// The counters after every ordering of the first `k` items has been
/// yielded: the counter of each place below `k` is used up.
pub open spec fn used_up(c: Seq<int>, k: int) -> Seq<int> {
    Seq::new(
        c.len(),
        |p: int|
            if 1 <= p < k {
                p
            } else {
                c[p]
            },
    )
}

/// A search from place `q` that passes places whose counters are used up
/// and comes to place `i`, whose counter is not, exchanges there: it
/// yields the ordering with the items at `i` and at its partner exchanged,
/// sets the counters it has passed to zero and counts at `i`.
pub proof fn lemma_scan_passes<T>(s: Arrangement<T>, i: int)
    requires
        s.counters_in_range(),
        1 <= s.i <= i < s.a.len(),
        forall|p: int| s.i <= p < i ==> s.c[p] == p,
        s.c[i] < i,
    ensures
        s.scan() == (
            Some(swapped(s.a, partner(i, s.c[i]), i)),
            Arrangement {
                a: swapped(s.a, partner(i, s.c[i]), i),
                c: Seq::new(
                    s.c.len(),
                    |p: int|
                        if s.i <= p < i {
                            0
                        } else if p == i {
                            s.c[i] + 1
                        } else {
                            s.c[p]
                        },
                ),
                i: 1,
            },
        ),
    decreases i - s.i,
{
    let goal = Seq::new(
        s.c.len(),
        |p: int|
            if s.i <= p < i {
                0
            } else if p == i {
                s.c[i] + 1
            } else {
                s.c[p]
            },
    );
    if s.i == i {
        assert(s.c.update(i, s.c[i] + 1) =~= goal);
    } else {
        let passed = Arrangement { a: s.a, c: s.c.update(s.i, 0), i: s.i + 1 };
        lemma_scan_passes(passed, i);
        assert(Seq::new(
            passed.c.len(),
            |p: int|
                if passed.i <= p < i {
                    0
                } else if p == i {
                    passed.c[i] + 1
                } else {
                    passed.c[p]
                },
        ) =~= goal);
    }
}

/// A search that passes only places whose counters are used up yields
/// nothing.
pub proof fn lemma_scan_finds_none<T>(s: Arrangement<T>)
    requires
        s.counters_in_range(),
        1 <= s.i,
        forall|p: int| s.i <= p < s.a.len() ==> s.c[p] == p,
    ensures
        s.scan().0 is None,
    decreases s.a.len() - s.i,
{
    if s.i < s.a.len() {
        lemma_scan_finds_none(Arrangement { a: s.a, c: s.c.update(s.i, 0), i: s.i + 1 });
    }
}

/// What the generator does over the orderings of the first `k` items.
///
/// A generator that stands between two orderings with the counters below
/// place `k` at zero yields the orderings of the first `k` items that come
/// after the one it holds, and then holds the ordering that these settle
/// in, with the counters below place `k` used up.
pub proof fn lemma_run<T>(s: Arrangement<T>, k: int)
    requires
        s.counters_in_range(),
        s.i == 1,
        k <= s.a.len(),
        forall|p: int| 1 <= p < k ==> s.c[p] == 0,
    ensures
        outs(s.a, k).len() <= s.remaining().len(),
        s.remaining().take(outs(s.a, k).len() as int) == outs(s.a, k),
        after(s, outs(s.a, k).len()).a == settled(s.a, k),
        after(s, outs(s.a, k).len()).c == used_up(s.c, k),
        after(s, outs(s.a, k).len()).i == 1,
    decreases k, 0int,
{
    if k <= 1 {
        assert(s.remaining().take(0) =~= Seq::<Seq<T>>::empty());
        assert(used_up(s.c, k) =~= s.c);
    } else {
        lemma_rounds(s, k - 1, k - 1);
        assert(Seq::new(
            s.c.len(),
            |p: int|
                if 1 <= p < k - 1 {
                    p
                } else if p == k - 1 {
                    k - 1
                } else {
                    s.c[p]
                },
        ) =~= used_up(s.c, k));
    }
}

/// What the generator does up to the end of round `j` of place `i`.
#[verifier::rlimit(30)]
pub proof fn lemma_rounds<T>(s: Arrangement<T>, i: int, j: int)
    requires
        s.counters_in_range(),
        s.i == 1,
        1 <= i < s.a.len(),
        0 <= j <= i,
        forall|p: int| 1 <= p <= i ==> s.c[p] == 0,
    ensures
        passed(s.a, i, j).len() <= s.remaining().len(),
        s.remaining().take(passed(s.a, i, j).len() as int) == passed(s.a, i, j),
        after(s, passed(s.a, i, j).len()).a == settled(round(s.a, i, j), i),
        after(s, passed(s.a, i, j).len()).c == Seq::new(
            s.c.len(),
            |p: int|
                if 1 <= p < i {
                    p
                } else if p == i {
                    j
                } else {
                    s.c[p]
                },
        ),
        after(s, passed(s.a, i, j).len()).i == 1,
    decreases i, j + 1,
{
    let n = s.a.len();
    let goal = Seq::new(
        s.c.len(),
        |p: int|
            if 1 <= p < i {
                p
            } else if p == i {
                j
            } else {
                s.c[p]
            },
    );
    if j == 0 {
        lemma_run(s, i);
        assert(used_up(s.c, i) =~= goal);
    } else {
        lemma_rounds(s, i, j - 1);
        let before = passed(s.a, i, j - 1);
        let m = before.len();
        let t = after(s, m);
        lemma_after_remaining(s, m);
        lemma_scan_passes(t, i);
        let start = round(s.a, i, j);
        assert(start == swapped(t.a, partner(i, j - 1), i));
        t.lemma_remaining();
        let u = t.step().1;
        assert(u.a == start);
        assert(forall|p: int| 1 <= p < i ==> u.c[p] == 0);
        lemma_run(u, i);
        let more = outs(start, i).len();
        lemma_after_add(s, m, 1);
        assert(after(t, 1) == u) by {
            reveal_with_fuel(after, 2);
        }
        lemma_after_add(s, m + 1, more);
        let all = passed(s.a, i, j);
        assert(all =~= before + seq![start] + outs(start, i));
        assert(s.remaining().skip(m as int)[0] == start);
        assert(u.remaining() =~= s.remaining().skip(m as int + 1)) by {
            assert(s.remaining().skip(m as int).drop_first() =~= s.remaining().skip(m as int + 1));
        }
        assert(s.remaining().take(all.len() as int) =~= all) by {
            assert forall|x: int| 0 <= x < all.len() implies s.remaining()[x] == all[x] by {
                if x < m {
                    assert(s.remaining().take(m as int)[x] == before[x]);
                } else if x == m {
                } else {
                    assert(u.remaining().take(more as int)[x - m - 1] == outs(start, i)[x - m
                        - 1]);
                    assert(s.remaining().skip(m as int + 1)[x - m - 1] == s.remaining()[x]);
                }
            }
        }
        assert(after(s, all.len()).c =~= goal);
    }
}

/// The generator yields the ordering it was given and then the orderings
/// that come after it by the description.
pub proof fn lemma_generator_yields<T>(a: Seq<T>)
    ensures
        fresh(a).remaining() == seq![a] + outs(a, a.len() as int),
{
    let n = a.len() as int;
    let first = fresh(a);
    first.lemma_remaining();
    let s = first.step().1;
    lemma_run(s, n);
    let m = outs(a, n).len();
    lemma_after_remaining(s, m);
    let t = after(s, m);
    lemma_scan_finds_none(t);
    t.lemma_remaining();
    assert(s.remaining().skip(m as int).len() == 0);
    assert(s.remaining().take(m as int) =~= s.remaining());
    assert(first.remaining() =~= seq![a] + s.remaining());
}

/// The place that an item exchanged between places `x` and `y` comes from.
pub open spec fn exchanged(x: int, y: int, p: int) -> int {
    if p == y {
        x
    } else if p == x {
        y
    } else {
        p
    }
}

/// The place in the ordering given at which the item stood that stands at
/// place `p` when every ordering of the first `k` items has been yielded.
///
/// For an odd `k` the first and the last of the `k` items have changed
/// places. For an even `k` the last item has come to the front of the
/// last but one, which has gone to the end; the two before them have come
/// to the front, and the others have moved up behind these.
pub open spec fn settled_from(k: int, p: int) -> int {
    if k <= 1 || p >= k || p < 0 {
        p
    } else if k % 2 == 1 {
        exchanged(0, k - 1, p)
    } else if k == 2 {
        1 - p
    } else if p == 0 {
        k - 3
    } else if p == 1 {
        k - 2
    } else if p <= k - 3 {
        p - 1
    } else if p == k - 2 {
        k - 1
    } else {
        0
    }
}

/// The places `0..=m` in the order in which their items come to place `m`
/// in the rounds of an even place `m` from four on.
pub open spec fn cycle(m: int, t: int) -> int {
    if t == 0 {
        m
    } else if t <= m - 3 {
        m - 2 - t
    } else if t == m - 2 {
        m - 2
    } else if t == m - 1 {
        m - 1
    } else {
        0
    }
}

/// `t` moved `j` on around a cycle of `m + 1`.
pub open spec fn shifted(t: int, j: int, m: int) -> int {
    if t + j <= m {
        t + j
    } else {
        t + j - (m + 1)
    }
}

/// The place in the ordering given at which the item stood that stands at
/// place `p` at the start of round `j` of place `i`.
pub open spec fn round_from(i: int, j: int, p: int) -> int {
    if p > i || p < 0 || j <= 0 || i < 1 {
        p
    } else if i % 2 == 1 {
        if j == i {
            if i == 1 {
                1 - p
            } else if p == 0 {
                i
            } else if p == 1 {
                i - 1
            } else if p <= i - 2 {
                p - 1
            } else if p == i - 1 {
                i - 2
            } else {
                0
            }
        } else if p == 0 {
            if j % 2 == 1 {
                i
            } else {
                0
            }
        } else if p == i - 1 {
            if j % 2 == 1 {
                0
            } else {
                i
            }
        } else if p == i {
            if j == 1 {
                i - 1
            } else {
                j - 1
            }
        } else if p < j {
            if p == 1 {
                i - 1
            } else {
                p - 1
            }
        } else {
            p
        }
    } else if i == 2 {
        if j == 1 {
            if p == 0 {
                2
            } else if p == 1 {
                0
            } else {
                1
            }
        } else {
            if p == 0 {
                1
            } else if p == 1 {
                2
            } else {
                0
            }
        }
    } else {
        cycle(i, shifted(cycle(i, p), j, i))
    }
}

/// How the places of the settled ordering follow from the last round of
/// the place before.
#[verifier::rlimit(40)]
pub proof fn lemma_settled_from_step(k: int, p: int)
    requires
        k >= 2,
        0 <= p,
    ensures
        settled_from(k, p) == round_from(k - 1, k - 1, settled_from(k - 1, p)),
        0 <= settled_from(k, p),
        p < k ==> settled_from(k, p) < k,
        p >= k ==> settled_from(k, p) == p,
{
    let i = k - 1;
    let q = settled_from(i, p);
    if p < k && k > 2 {
        if k % 2 == 1 {
            if i >= 4 {
                // The last round of an even place has come all the way but
                // one around the cycle.
                assert(shifted(cycle(i, q), i, i) == if cycle(i, q) == 0 {
                    i
                } else {
                    cycle(i, q) - 1
                });
            }
        } else {
            assert(q == exchanged(0, i - 1, p));
        }
    }
}

/// Going around the cycle twice brings every place back.
#[verifier::rlimit(40)]
pub proof fn lemma_cycle_turns_back(m: int, t: int)
    requires
        4 <= m,
        0 <= t <= m,
    ensures
        0 <= cycle(m, t) <= m,
        cycle(m, cycle(m, t)) == t,
{
}

/// At an even place from four on, a round moves each item one on around
/// the cycle.
#[verifier::rlimit(40)]
pub proof fn lemma_cycle_advances(m: int, p: int)
    requires
        4 <= m,
        m % 2 == 0,
        0 <= p <= m,
    ensures
        0 <= settled_from(m, exchanged(0, m, p)) <= m,
        cycle(m, settled_from(m, exchanged(0, m, p))) == shifted(cycle(m, p), 1, m),
{
}

/// How the places of a round follow from the round before, at an even place
/// from four on.
#[verifier::rlimit(40)]
pub proof fn lemma_round_from_step_even(i: int, j: int, p: int)
    requires
        4 <= i,
        i % 2 == 0,
        0 <= j < i,
        0 <= p <= i,
    ensures
        round_from(i, j + 1, p) == round_from(
            i,
            j,
            settled_from(i, exchanged(partner(i, j), i, p)),
        ),
        0 <= round_from(i, j + 1, p) <= i,
{
    let r = settled_from(i, exchanged(0, i, p));
    lemma_cycle_advances(i, p);
    lemma_cycle_turns_back(i, p);
    lemma_cycle_turns_back(i, r);
    let c = cycle(i, p);
    lemma_cycle_turns_back(i, shifted(c, j + 1, i));
    assert(shifted(shifted(c, 1, i), j, i) == shifted(c, j + 1, i));
    if j == 0 {
        assert(cycle(i, cycle(i, r)) == r);
    }
}

/// How the places of a round follow from the round before, at place two.
#[verifier::rlimit(40)]
pub proof fn lemma_round_from_step_two(j: int, p: int)
    requires
        0 <= j < 2,
        0 <= p <= 2,
    ensures
        round_from(2, j + 1, p) == round_from(
            2,
            j,
            settled_from(2, exchanged(partner(2, j), 2, p)),
        ),
        0 <= round_from(2, j + 1, p) <= 2,
{
}

/// How the places of a round but the last follow from the round before, at
/// an odd place.
#[verifier::rlimit(40)]
pub proof fn lemma_round_from_step_odd(i: int, j: int, p: int)
    requires
        1 <= i,
        i % 2 == 1,
        0 <= j < i - 1,
        0 <= p <= i,
    ensures
        round_from(i, j + 1, p) == round_from(
            i,
            j,
            settled_from(i, exchanged(partner(i, j), i, p)),
        ),
        0 <= round_from(i, j + 1, p) <= i,
{
    let q = exchanged(j, i, p);
    let r = settled_from(i, q);
    assert(r == exchanged(0, i - 1, q));
}

/// How the places of the last round follow from the round before, at an
/// odd place.
#[verifier::rlimit(40)]
pub proof fn lemma_round_from_step_odd_last(i: int, p: int)
    requires
        1 <= i,
        i % 2 == 1,
        0 <= p <= i,
    ensures
        round_from(i, i, p) == round_from(
            i,
            i - 1,
            settled_from(i, exchanged(partner(i, i - 1), i, p)),
        ),
        0 <= round_from(i, i, p) <= i,
{
    let q = exchanged(i - 1, i, p);
    let r = settled_from(i, q);
    assert(r == exchanged(0, i - 1, q));
}

/// How the places of a round follow from the round before.
pub proof fn lemma_round_from_step(i: int, j: int, p: int)
    requires
        1 <= i,
        0 <= j < i,
        0 <= p,
    ensures
        round_from(i, j + 1, p) == round_from(
            i,
            j,
            settled_from(i, exchanged(partner(i, j), i, p)),
        ),
        0 <= round_from(i, j + 1, p),
        p <= i ==> round_from(i, j + 1, p) <= i,
        p > i ==> round_from(i, j + 1, p) == p,
{
    if p <= i {
        if i % 2 == 1 {
            if j == i - 1 {
                lemma_round_from_step_odd_last(i, p);
            } else {
                lemma_round_from_step_odd(i, j, p);
            }
        } else if i == 2 {
            lemma_round_from_step_two(j, p);
        } else {
            lemma_round_from_step_even(i, j, p);
        }
    } else {
        assert(exchanged(partner(i, j), i, p) == p);
        assert(settled_from(i, p) == p);
    }
}

/// `a` with the item of each place taken from another place.
pub open spec fn rearranged<T>(a: Seq<T>, from: spec_fn(int) -> int) -> Seq<T> {
    Seq::new(a.len(), |p: int| a[from(p)])
}

/// The ordering that is left when every ordering of the first `k` items has
/// been yielded holds at each place the item from the place that
/// `settled_from` names.
pub proof fn lemma_settled_is<T>(a: Seq<T>, k: int)
    requires
        k <= a.len(),
    ensures
        settled(a, k) == rearranged(a, |p: int| settled_from(k, p)),
    decreases k, 0int,
{
    if k <= 1 {
        assert(a =~= rearranged(a, |p: int| settled_from(k, p)));
    } else {
        let b = round(a, k - 1, k - 1);
        lemma_round_is(a, k - 1, k - 1);
        lemma_settled_is(b, k - 1);
        assert forall|p: int| 0 <= p < a.len() implies settled(a, k)[p] == a[settled_from(
            k,
            p,
        )] by {
            lemma_settled_from_step(k, p);
            lemma_settled_from_step(k - 1 + 1, p);
            let q = settled_from(k - 1, p);
            lemma_settled_from_bounds(k - 1, p);
            assert(settled(b, k - 1)[p] == b[q]);
            assert(b[q] == a[round_from(k - 1, k - 1, q)]);
        }
        assert(settled(a, k) =~= rearranged(a, |p: int| settled_from(k, p)));
    }
}

/// The places that `settled_from` names lie within the first `k` for the
/// first `k` places, and are the places themselves behind these.
#[verifier::rlimit(40)]
pub proof fn lemma_settled_from_bounds(k: int, p: int)
    requires
        0 <= p,
    ensures
        0 <= settled_from(k, p),
        p < k ==> settled_from(k, p) < k,
        p >= k ==> settled_from(k, p) == p,
{
}

/// The places that `round_from` names lie within the first `i + 1` for the
/// first `i + 1` places, and are the places themselves behind these.
#[verifier::rlimit(40)]
pub proof fn lemma_round_from_bounds(i: int, j: int, p: int)
    requires
        0 <= p,
        0 <= j <= i,
    ensures
        0 <= round_from(i, j, p),
        p <= i ==> round_from(i, j, p) <= i,
        p > i ==> round_from(i, j, p) == p,
{
}

/// The ordering with which round `j` of place `i` starts holds at each
/// place the item from the place that `round_from` names.
pub proof fn lemma_round_is<T>(a: Seq<T>, i: int, j: int)
    requires
        1 <= i < a.len(),
        0 <= j <= i,
    ensures
        round(a, i, j) == rearranged(a, |p: int| round_from(i, j, p)),
    decreases i, j + 1,
{
    if j == 0 {
        assert(a =~= rearranged(a, |p: int| round_from(i, j, p)));
    } else {
        let before = round(a, i, j - 1);
        lemma_round_is(a, i, j - 1);
        lemma_settled_is(before, i);
        let left = settled(before, i);
        let x = partner(i, j - 1);
        assert forall|p: int| 0 <= p < a.len() implies round(a, i, j)[p] == a[round_from(
            i,
            j,
            p,
        )] by {
            lemma_round_from_step(i, j - 1, p);
            let q = exchanged(x, i, p);
            assert(swapped(left, x, i)[p] == left[q]);
            lemma_settled_from_bounds(i, q);
            let r = settled_from(i, q);
            assert(left[q] == before[r]);
            lemma_round_from_bounds(i, j - 1, r);
            assert(before[r] == a[round_from(i, j - 1, r)]);
        }
        assert(round(a, i, j) =~= rearranged(a, |p: int| round_from(i, j, p)));
    }
}

/// The place from which the item comes that stands at place `i` at the start
/// of round `j` of place `i`: no two rounds bring the item of the same
/// place there.
#[verifier::rlimit(40)]
pub proof fn lemma_last_differs(i: int, r: int, j: int)
    requires
        1 <= i,
        0 <= r < j <= i,
    ensures
        round_from(i, r, i) != round_from(i, j, i),
        0 <= round_from(i, r, i) <= i,
        0 <= round_from(i, j, i) <= i,
{
    if i % 2 == 0 && i >= 4 {
        lemma_round_from_turns_back(i, r, i);
        lemma_round_from_turns_back(i, j, i);
    }
}

/// At an even place from four on, the place that an item comes from tells
/// the place it stands at: going the same number of rounds back around the
/// cycle brings it there.
#[verifier::rlimit(40)]
pub proof fn lemma_round_from_turns_back(i: int, j: int, p: int)
    requires
        4 <= i,
        i % 2 == 0,
        0 <= j <= i,
        0 <= p <= i,
    ensures
        0 <= round_from(i, j, p) <= i,
        cycle(i, p) == shifted(cycle(i, round_from(i, j, p)), i + 1 - j, i) || (j == 0
            && round_from(i, j, p) == p),
{
    lemma_cycle_turns_back(i, p);
    if j > 0 {
        let c = cycle(i, p);
        lemma_cycle_turns_back(i, shifted(c, j, i));
    }
}

/// No two places hold an item from the same place at the start of a round.
#[verifier::rlimit(40)]
pub proof fn lemma_round_from_differs(i: int, j: int, p: int, q: int)
    requires
        1 <= i,
        0 <= j <= i,
        0 <= p < q <= i,
    ensures
        round_from(i, j, p) != round_from(i, j, q),
{
    if i % 2 == 0 && i >= 4 {
        lemma_round_from_turns_back(i, j, p);
        lemma_round_from_turns_back(i, j, q);
        lemma_cycle_turns_back(i, p);
        lemma_cycle_turns_back(i, q);
    }
}

/// Whether no item is twice among the first `k` items.
pub open spec fn distinct_below<T>(a: Seq<T>, k: int) -> bool {
    forall|p: int, q: int| 0 <= p < q < k && q < a.len() ==> a[p] != a[q]
}

/// Whether `item` is one of the first `k` items of `a`.
pub open spec fn among<T>(a: Seq<T>, k: int, item: T) -> bool {
    exists|q: int| 0 <= q < k && q < a.len() && #[trigger] a[q] == item
}

/// Whether `x` orders the first `k` items of `a` anew and leaves the others
/// in place: it is as long as `a`, holds what `a` holds from place `k` on,
/// and each of its first `k` items is one of the first `k` items of `a`.
pub open spec fn reorders<T>(x: Seq<T>, a: Seq<T>, k: int) -> bool {
    &&& x.len() == a.len()
    &&& forall|p: int| k <= p < a.len() ==> x[p] == a[p]
    &&& forall|p: int| 0 <= p < k && p < a.len() ==> among(a, k, #[trigger] x[p])
}

/// `a` followed by the orderings of its first `k` items that come after it.
pub open spec fn all_of<T>(a: Seq<T>, k: int) -> Seq<Seq<T>> {
    seq![a] + outs(a, k)
}

/// `a` followed by the orderings that are yielded up to the end of round
/// `j` of place `i`.
pub open spec fn up_to<T>(a: Seq<T>, i: int, j: int) -> Seq<Seq<T>> {
    seq![a] + passed(a, i, j)
}

/// Whether the orderings are pairwise different.
pub open spec fn pairwise_different<T>(orderings: Seq<Seq<T>>) -> bool {
    forall|x: int, y: int| 0 <= x < y < orderings.len() ==> orderings[x] != orderings[y]
}

/// The orderings of the first `k` items of `a` are pairwise different, where
/// the first `k` items are, and each of them orders the first `k` items
/// anew.
pub proof fn lemma_all_of_different<T>(a: Seq<T>, k: int)
    requires
        k <= a.len(),
        distinct_below(a, k),
    ensures
        pairwise_different(all_of(a, k)),
        forall|x: int|
            0 <= x < all_of(a, k).len() ==> reorders(#[trigger] all_of(a, k)[x], a, k)
                && distinct_below(all_of(a, k)[x], k),
    decreases k, 0int,
{
    if k <= 1 {
        assert(all_of(a, k) =~= seq![a]);
        assert forall|p: int| 0 <= p < k && p < a.len() implies among(a, k, #[trigger] a[p]) by {
            assert(a[p] == a[p]);
        }
        assert(reorders(a, a, k));
    } else {
        lemma_up_to_different(a, k - 1, k - 1);
        assert(all_of(a, k) =~= up_to(a, k - 1, k - 1));
    }
}

/// The ordering with which a round starts orders the first `i + 1` items
/// anew, and holds none of them twice where the ordering given holds none
/// twice.
pub proof fn lemma_round_reorders<T>(a: Seq<T>, i: int, j: int)
    requires
        1 <= i < a.len(),
        0 <= j <= i,
        distinct_below(a, i + 1),
    ensures
        reorders(round(a, i, j), a, i + 1),
        distinct_below(round(a, i, j), i + 1),
        round(a, i, j)[i] == a[round_from(i, j, i)],
        0 <= round_from(i, j, i) <= i,
{
    let start = round(a, i, j);
    lemma_round_is(a, i, j);
    lemma_round_from_bounds(i, j, i);
    assert(distinct_below(start, i + 1)) by {
        assert forall|p: int, q: int| 0 <= p < q < i + 1 && q < start.len() implies start[p]
            != start[q] by {
            lemma_round_from_differs(i, j, p, q);
            lemma_round_from_bounds(i, j, p);
            lemma_round_from_bounds(i, j, q);
            let u = round_from(i, j, p);
            let v = round_from(i, j, q);
            if u < v {
                assert(a[u] != a[v]);
            } else {
                assert(a[v] != a[u]);
            }
        }
    }
    assert(reorders(start, a, i + 1)) by {
        assert forall|p: int| 0 <= p < i + 1 && p < a.len() implies among(
            a,
            i + 1,
            #[trigger] start[p],
        ) by {
            lemma_round_from_bounds(i, j, p);
            assert(a[round_from(i, j, p)] == start[p]);
        }
        assert forall|p: int| i + 1 <= p < a.len() implies start[p] == a[p] by {
            lemma_round_from_bounds(i, j, p);
        }
    }
}

/// The orderings that are yielded up to the end of round `j` of place `i`
/// are pairwise different, where the first `i + 1` items are; each of them
/// orders the first `i + 1` items anew, and holds at place `i` the item
/// that one of the rounds so far has brought there.
#[verifier::rlimit(30)]
pub proof fn lemma_up_to_different<T>(a: Seq<T>, i: int, j: int)
    requires
        1 <= i < a.len(),
        0 <= j <= i,
        distinct_below(a, i + 1),
    ensures
        pairwise_different(up_to(a, i, j)),
        forall|x: int|
            0 <= x < up_to(a, i, j).len() ==> reorders(#[trigger] up_to(a, i, j)[x], a, i + 1)
                && distinct_below(up_to(a, i, j)[x], i + 1) && exists|r: int|
                0 <= r <= j && up_to(a, i, j)[x][i] == a[round_from(i, r, i)],
    decreases i, j + 1,
{
    let start = round(a, i, j);
    lemma_round_is(a, i, j);
    lemma_round_reorders(a, i, j);
    lemma_all_of_different(start, i);
    let block = all_of(start, i);
    assert forall|x: int| 0 <= x < block.len() implies reorders(#[trigger] block[x], a, i + 1)
        && distinct_below(block[x], i + 1) && block[x][i] == a[round_from(i, j, i)] by {
        let e = block[x];
        assert(reorders(e, start, i));
        assert(e[i] == start[i]);
        assert forall|p: int| 0 <= p < i + 1 && p < a.len() implies among(
            a,
            i + 1,
            #[trigger] e[p],
        ) by {
            if p < i {
                assert(among(start, i, e[p]));
                let m = choose|m: int| 0 <= m < i && m < start.len() && #[trigger] start[m] == e[p];
                lemma_round_from_bounds(i, j, m);
                assert(a[round_from(i, j, m)] == e[p]);
            } else {
                lemma_round_from_bounds(i, j, i);
                assert(a[round_from(i, j, i)] == e[p]);
            }
        }
        assert forall|p: int, q: int| 0 <= p < q < i + 1 && q < e.len() implies e[p]
            != e[q] by {
            if q == i {
                assert(among(start, i, e[p]));
                let m = choose|m: int| 0 <= m < i && m < start.len() && #[trigger] start[m] == e[p];
                assert(start[m] != start[i]);
            }
        }
    }
    if j == 0 {
        assert(up_to(a, i, j) =~= block);
        assert forall|x: int| 0 <= x < up_to(a, i, j).len() implies exists|r: int|
            0 <= r <= j && (#[trigger] up_to(a, i, j)[x])[i] == a[round_from(i, r, i)] by {
            assert(block[x][i] == a[round_from(i, 0, i)]);
        }
    } else {
        lemma_up_to_different(a, i, j - 1);
        let before = up_to(a, i, j - 1);
        let all = up_to(a, i, j);
        assert(all =~= before + block);
        assert forall|x: int| 0 <= x < all.len() implies reorders(#[trigger] all[x], a, i + 1)
            && distinct_below(all[x], i + 1) && exists|r: int|
            0 <= r <= j && all[x][i] == a[round_from(i, r, i)] by {
            if x < before.len() {
                assert(all[x] == before[x]);
                let r = choose|r: int|
                    0 <= r <= j - 1 && before[x][i] == a[round_from(i, r, i)];
                assert(0 <= r <= j && all[x][i] == a[round_from(i, r, i)]);
            } else {
                assert(all[x] == block[x - before.len()]);
                assert(all[x][i] == a[round_from(i, j, i)]);
            }
        }
        assert forall|x: int, y: int| 0 <= x < y < all.len() implies all[x] != all[y] by {
            if y < before.len() {
                assert(before[x] != before[y]);
            } else if x >= before.len() {
                assert(block[x - before.len()] != block[y - before.len()]);
            } else {
                assert(all[x] == before[x]);
                assert(all[y] == block[y - before.len()]);
                let r = choose|r: int|
                    0 <= r <= j - 1 && before[x][i] == a[round_from(i, r, i)];
                lemma_last_differs(i, r, j);
                let u = round_from(i, r, i);
                let v = round_from(i, j, i);
                if u < v {
                    assert(a[u] != a[v]);
                } else {
                    assert(a[v] != a[u]);
                }
                assert(all[x][i] != all[y][i]);
            }
        }
    }
}

/// Whether each of the numbers is below `n` and not below zero, and none
/// is there twice.
pub open spec fn places_below(b: Seq<int>, n: int) -> bool {
    &&& forall|p: int| 0 <= p < b.len() ==> 0 <= #[trigger] b[p] < n
    &&& forall|p: int, q: int| 0 <= p < q < b.len() ==> b[p] != b[q]
}

/// Whether `v` is one of the numbers.
pub open spec fn has_place(b: Seq<int>, v: int) -> bool {
    exists|p: int| 0 <= p < b.len() && #[trigger] b[p] == v
}

/// As many different places below `n` as there are places below `n` are
/// all of them.
pub proof fn lemma_all_places(b: Seq<int>, v: int)
    requires
        places_below(b, b.len() as int),
        0 <= v < b.len(),
    ensures
        has_place(b, v),
    decreases b.len(),
{
    let n = b.len() as int;
    if has_place(b, n - 1) {
        let m = choose|m: int| 0 <= m < b.len() && #[trigger] b[m] == n - 1;
        if v != n - 1 {
            // Put the last number where the highest place stands and leave
            // the last out.
            let shorter = b.update(m, b[n - 1]).drop_last();
            assert(places_below(shorter, n - 1)) by {
                assert forall|p: int| 0 <= p < shorter.len() implies 0 <= #[trigger] shorter[p]
                    < n - 1 by {
                    if p == m {
                        assert(b[n - 1] != b[m]);
                    } else {
                        assert(b[p] != b[m]);
                    }
                }
                assert forall|p: int, q: int| 0 <= p < q < shorter.len() implies shorter[p]
                    != shorter[q] by {
                    if p == m {
                        assert(b[q] != b[n - 1]);
                    } else if q == m {
                        assert(b[p] != b[n - 1]);
                    } else {
                        assert(b[p] != b[q]);
                    }
                }
            }
            lemma_all_places(shorter, v);
            let p = choose|p: int| 0 <= p < shorter.len() && #[trigger] shorter[p] == v;
            if p == m {
                assert(b[n - 1] == v);
            } else {
                assert(b[p] == v);
            }
        }
    } else {
        // No number is the highest place: then the numbers but the last
        // are all the places below it, and the last is one of them again.
        let shorter = b.drop_last();
        assert(places_below(shorter, n - 1)) by {
            assert forall|p: int| 0 <= p < shorter.len() implies 0 <= #[trigger] shorter[p] < n
                - 1 by {
                assert(b[p] != n - 1);
            }
            assert forall|p: int, q: int| 0 <= p < q < shorter.len() implies shorter[p]
                != shorter[q] by {
                assert(b[p] != b[q]);
            }
        }
        assert(b[n - 1] != n - 1);
        if n - 1 > 0 {
            lemma_all_places(shorter, b[n - 1]);
            let p = choose|p: int| 0 <= p < shorter.len() && #[trigger] shorter[p] == b[n - 1];
            assert(b[p] == b[n - 1]);
        }
    }
}

/// An ordering that orders the first `k` items of another anew holds each
/// of the first `k` items of the other among its first `k` items, where
/// neither holds an item twice.
pub proof fn lemma_reorders_back<T>(x: Seq<T>, a: Seq<T>, k: int)
    requires
        0 <= k <= a.len(),
        reorders(x, a, k),
        distinct_below(x, k),
        distinct_below(a, k),
    ensures
        reorders(a, x, k),
{
    let from = Seq::new(
        k as nat,
        |p: int| choose|q: int| 0 <= q < k && q < a.len() && #[trigger] a[q] == x[p],
    );
    assert forall|p: int| 0 <= p < k implies 0 <= #[trigger] from[p] < k && a[from[p]]
        == x[p] by {
        assert(among(a, k, x[p]));
    }
    assert(places_below(from, k)) by {
        assert forall|p: int, q: int| 0 <= p < q < from.len() implies from[p] != from[q] by {
            assert(a[from[p]] == x[p]);
            assert(a[from[q]] == x[q]);
            assert(x[p] != x[q]);
        }
    }
    assert forall|q: int| 0 <= q < k && q < x.len() implies among(x, k, #[trigger] a[q]) by {
        lemma_all_places(from, q);
        let p = choose|p: int| 0 <= p < from.len() && #[trigger] from[p] == q;
        assert(x[p] == a[q]);
    }
}

/// Each of the first `i + 1` places is the place from which some round of
/// place `i` brings its item to place `i`.
pub proof fn lemma_some_round_brings(i: int, q: int)
    requires
        1 <= i,
        0 <= q <= i,
    ensures
        exists|j: int| 0 <= j <= i && #[trigger] round_from(i, j, i) == q,
{
    let from = Seq::new((i + 1) as nat, |r: int| round_from(i, r, i));
    assert(places_below(from, i + 1)) by {
        assert forall|r: int| 0 <= r < from.len() implies 0 <= #[trigger] from[r] < i + 1 by {
            if r < i {
                lemma_last_differs(i, r, i);
            } else {
                lemma_last_differs(i, 0, r);
            }
        }
        assert forall|r: int, t: int| 0 <= r < t < from.len() implies from[r] != from[t] by {
            lemma_last_differs(i, r, t);
        }
    }
    lemma_all_places(from, q);
    let j = choose|j: int| 0 <= j < from.len() && #[trigger] from[j] == q;
    assert(round_from(i, j, i) == q);
}

/// Whether `x` is one of the orderings.
pub open spec fn is_among<T>(orderings: Seq<Seq<T>>, x: Seq<T>) -> bool {
    exists|k: int| 0 <= k < orderings.len() && #[trigger] orderings[k] == x
}

/// The orderings of a round are among the orderings up to the end of every
/// later round.
pub proof fn lemma_round_is_within<T>(a: Seq<T>, i: int, j: int, later: int, x: Seq<T>)
    requires
        1 <= i,
        0 <= j <= later,
        is_among(all_of(round(a, i, j), i), x),
    ensures
        is_among(up_to(a, i, later), x),
    decreases later - j,
{
    let block = all_of(round(a, i, j), i);
    let k = choose|k: int| 0 <= k < block.len() && #[trigger] block[k] == x;
    if later == j {
        if j == 0 {
            assert(up_to(a, i, 0) =~= block);
            assert(up_to(a, i, 0)[k] == x);
        } else {
            let before = up_to(a, i, j - 1);
            assert(up_to(a, i, j) =~= before + block);
            assert(up_to(a, i, j)[before.len() + k] == x);
        }
    } else {
        lemma_round_is_within(a, i, j, later - 1, x);
        let before = up_to(a, i, later - 1);
        let m = choose|m: int| 0 <= m < before.len() && #[trigger] before[m] == x;
        assert(up_to(a, i, later) =~= before + all_of(round(a, i, later), i));
        assert(up_to(a, i, later)[m] == x);
    }
}

/// Every ordering of the first `k` items is among the orderings of the first
/// `k` items.
#[verifier::rlimit(30)]
pub proof fn lemma_all_of_complete<T>(a: Seq<T>, k: int, x: Seq<T>)
    requires
        k <= a.len(),
        distinct_below(a, k),
        reorders(x, a, k),
        distinct_below(x, k),
    ensures
        is_among(all_of(a, k), x),
    decreases k,
{
    if k <= 1 {
        assert(x =~= a) by {
            assert forall|p: int| 0 <= p < a.len() implies x[p] == a[p] by {
                if p < k {
                    assert(among(a, k, x[p]));
                }
            }
        }
        assert(all_of(a, k)[0] == x);
    } else {
        let i = k - 1;
        assert(among(a, k, x[i]));
        let q = choose|q: int| 0 <= q < k && q < a.len() && #[trigger] a[q] == x[i];
        lemma_some_round_brings(i, q);
        let j = choose|j: int| 0 <= j <= i && #[trigger] round_from(i, j, i) == q;
        let start = round(a, i, j);
        lemma_round_reorders(a, i, j);
        lemma_reorders_back(start, a, k);
        assert(reorders(x, start, i)) by {
            assert forall|p: int| 0 <= p < i && p < start.len() implies among(
                start,
                i,
                #[trigger] x[p],
            ) by {
                assert(among(a, k, x[p]));
                let r = choose|r: int| 0 <= r < k && r < a.len() && #[trigger] a[r] == x[p];
                assert(among(start, k, a[r]));
                let t = choose|t: int|
                    0 <= t < k && t < start.len() && #[trigger] start[t] == x[p];
                assert(x[p] != x[i]);
                assert(t < i);
            }
            assert forall|p: int| i <= p < start.len() implies x[p] == start[p] by {
                if p > i {
                    assert(x[p] == a[p]);
                }
            }
        }
        lemma_all_of_complete(start, i, x);
        lemma_round_is_within(a, i, j, i, x);
        assert(all_of(a, k) =~= up_to(a, i, i));
    }
}

/// The generator yields every ordering once.
///
/// A generator that is given `n` items of which no two are the same yields
/// `factorial(n)` orderings. No two of them are the same; each of them
/// holds the items given, none of them twice; and every ordering that holds
/// the items given, none of them twice, is among them.
pub proof fn lemma_generator_yields_every_ordering_once<T>(a: Seq<T>)
    requires
        distinct_below(a, a.len() as int),
    ensures
        fresh(a).remaining().len() == factorial(a.len()),
        pairwise_different(fresh(a).remaining()),
        forall|x: int|
            0 <= x < fresh(a).remaining().len() ==> reorders(
                #[trigger] fresh(a).remaining()[x],
                a,
                a.len() as int,
            ) && distinct_below(fresh(a).remaining()[x], a.len() as int),
        forall|x: Seq<T>|
            reorders(x, a, a.len() as int) && distinct_below(x, a.len() as int)
                ==> #[trigger] is_among(fresh(a).remaining(), x),
{
    lemma_generator_yields(a);
    lemma_all_of_different(a, a.len() as int);
    fresh(a).lemma_remaining();
    assert forall|x: Seq<T>|
        reorders(x, a, a.len() as int) && distinct_below(
            x,
            a.len() as int,
        ) implies #[trigger] is_among(fresh(a).remaining(), x) by {
        lemma_all_of_complete(a, a.len() as int, x);
    }
}

} // verus!
