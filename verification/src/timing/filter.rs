//! Adapters that let through only the items that pass a test.
use super::{BlockedSender, first_of, rest_of, MyReciever, MySender};
use std::marker::PhantomData;
use vstd::prelude::*;

verus! {

/// Whether the test can be put to every item and its contract allows one
/// answer for each.
pub open spec fn decided<T, F: Fn(&T) -> bool>(func: F) -> bool {
    &&& forall|x: T| #[trigger] call_requires(func, (&x,))
    &&& forall|x: T|
        !(#[trigger] call_ensures(func, (&x,), true) && call_ensures(func, (&x,), false))
}

/// Whether the test can be put to every item and answers `test`: whatever
/// it answers on an item is what `test` says of the item.
pub open spec fn answers<T, F: Fn(&T) -> bool>(func: F, test: spec_fn(T) -> bool) -> bool {
    &&& forall|x: T| #[trigger] call_requires(func, (&x,))
    &&& forall|x: T, b: bool| #[trigger] call_ensures(func, (&x,), b) ==> b == test(x)
}

/// What a decided test says of an item: whether it may answer that the item
/// passes.
pub open spec fn verdict<T, F: Fn(&T) -> bool>(func: F) -> spec_fn(T) -> bool {
    |x: T| call_ensures(func, (&x,), true)
}

/// Those of the items that pass the test, in their order.
pub open spec fn kept<T>(items: Seq<T>, test: spec_fn(T) -> bool) -> Seq<T>
    decreases items.len(),
{
    if items.len() == 0 {
        Seq::empty()
    } else {
        kept(items.drop_last(), test) + if test(items.last()) {
            seq![items.last()]
        } else {
            Seq::empty()
        }
    }
}

/// A sender that hands on the items that pass a test and takes the others
/// without handing them on.
#[verifier::reject_recursive_types(T)]
pub struct SenderFilter<'a, S: MySender<T>, T, F> {
    pub sender: &'a mut S,
    pub func: F,
    pub seen: Ghost<Seq<T>>,
    pub base: Ghost<Seq<T>>,
    pub test: Ghost<spec_fn(T) -> bool>,
}

impl<'a, S: MySender<T>, T, F: Fn(&T) -> bool> SenderFilter<'a, S, T, F> {
    /// A filter before the given sender.
    pub fn new(sender: &'a mut S, func: F) -> (filter: Self)
        requires
            old(sender).valid_sender(),
            decided::<T, F>(func),
        ensures
            filter.valid_sender(),
            filter.sent() == Seq::<T>::empty(),
            filter.func == func,
            filter.test@ == verdict::<T, F>(func),
            filter.base@ == old(sender).sent(),
            *filter.sender == *old(sender),
            *final(filter.sender) == *final(sender),
    {
        Self::deciding(sender, func, Ghost(verdict::<T, F>(func)))
    }

    /// A filter before the given sender, for a test that is known to answer
    /// `test`.
    pub fn deciding(sender: &'a mut S, func: F, test: Ghost<spec_fn(T) -> bool>) -> (filter: Self)
        requires
            old(sender).valid_sender(),
            answers::<T, F>(func, test@),
        ensures
            filter.valid_sender(),
            filter.sent() == Seq::<T>::empty(),
            filter.func == func,
            filter.test == test,
            filter.base@ == old(sender).sent(),
            *filter.sender == *old(sender),
            *final(filter.sender) == *final(sender),
    {
        let ghost base = sender.sent();
        let filter = SenderFilter {
            sender,
            func,
            seen: Ghost(Seq::empty()),
            base: Ghost(base),
            test,
        };
        proof {
            assert(filter.sender.sent() =~= base + kept(Seq::<T>::empty(), test@));
        }
        filter
    }
}

impl<'a, S: MySender<T>, T, F: Fn(&T) -> bool> SenderFilter<'a, S, T, F> {
    /// A filter that has been set before a sender that is fit for use, with
    /// a test that is decided, and has seen no item yet is fit for use.
    pub proof fn lemma_set_before(self)
        requires
            self.sender.valid_sender(),
            decided::<T, F>(self.func),
            self.test@ == verdict::<T, F>(self.func),
            self.base@ == self.sender.sent(),
            self.seen@ == Seq::<T>::empty(),
        ensures
            self.valid_sender(),
            self.sent() == Seq::<T>::empty(),
    {
        assert(self.sender.sent() =~= self.base@ + kept(self.seen@, self.test@));
    }
}

impl<'a, S: MySender<T>, T, F: Fn(&T) -> bool> MySender<T> for SenderFilter<'a, S, T, F> {
    open spec fn valid_sender(&self) -> bool {
        &&& self.sender.valid_sender()
        &&& answers::<T, F>(self.func, self.test@)
        &&& self.sender.sent() == self.base@ + kept(self.seen@, self.test@)
    }

    open spec fn sent(&self) -> Seq<T> {
        self.seen@
    }

    open spec fn done(&self) -> bool {
        self.sender.done()
    }

    /// An item that passes the test is answered as the sender behind
    /// answers it; an item that does not pass is taken.
    open spec fn takes(&self, value: T) -> Option<bool> {
        if (self.test@)(value) {
            self.sender.takes(value)
        } else {
            Some(true)
        }
    }

    /// Hands the item on to the sender behind where it passes the test, and
    /// answers what that sender answers; an item that does not pass is not
    /// handed on, and the answer is `true`.
    fn send(&mut self, value: T) -> (accepted: bool)
        ensures
            !(old(self).test@)(value) ==> accepted,
            *final(final(self).sender) == *final(old(self).sender),
            final(self).func == old(self).func,
            final(self).test == old(self).test,
            final(self).base == old(self).base,
    {
        proof {
            assert(self.seen@.push(value).drop_last() =~= self.seen@);
        }
        self.seen = Ghost(self.seen@.push(value));
        if (self.func)(&value) {
            let accepted = self.sender.send(value);
            proof {
                assert(self.sender.sent() =~= self.base@ + kept(self.seen@, self.test@));
            }
            accepted
        } else {
            proof {
                assert(self.sender.sent() =~= self.base@ + kept(self.seen@, self.test@));
            }
            true
        }
    }

    fn set_done(&mut self)
        ensures
            *final(final(self).sender) == *final(old(self).sender),
            final(self).func == old(self).func,
            final(self).test == old(self).test,
            final(self).base == old(self).base,
            final(self).seen == old(self).seen,
    {
        self.sender.set_done();
    }
}

/// A receiver that hands out the items of another receiver that pass a test
/// and drops the others.
#[verifier::reject_recursive_types(T)]
pub struct ReceiverFilter<'a, R: MyReciever<T>, T, F> {
    pub receiver: &'a mut R,
    pub func: F,
    pub start: Ghost<int>,
    pub test: Ghost<spec_fn(T) -> bool>,
    pub p: PhantomData<T>,
}

impl<'a, R: MyReciever<T>, T, F: Fn(&T) -> bool> ReceiverFilter<'a, R, T, F> {
    /// A filter behind the given receiver.
    pub fn new(receiver: &'a mut R, func: F) -> (filter: Self)
        requires
            old(receiver).valid_receiver(),
            decided::<T, F>(func),
        ensures
            filter.valid_receiver(),
            filter.received() == Seq::<T>::empty(),
            filter.func == func,
            filter.test@ == verdict::<T, F>(func),
            *filter.receiver == *old(receiver),
            *final(filter.receiver) == *final(receiver),
    {
        let ghost start = receiver.received().len() as int;
        let filter = ReceiverFilter {
            receiver,
            func,
            start: Ghost(start),
            test: Ghost(verdict::<T, F>(func)),
            p: PhantomData,
        };
        proof {
            assert(filter.receiver.received().skip(start) =~= Seq::<T>::empty());
        }
        filter
    }
}

impl<'a, R: MyReciever<T>, T, F: Fn(&T) -> bool> ReceiverFilter<'a, R, T, F> {
    /// A filter that has been set behind a receiver that is fit for use, with
    /// a test that is decided, is fit for use and has handed out nothing.
    pub proof fn lemma_set_behind(self)
        requires
            self.receiver.valid_receiver(),
            decided::<T, F>(self.func),
            self.test@ == verdict::<T, F>(self.func),
            self.start@ == self.receiver.received().len(),
        ensures
            self.valid_receiver(),
            self.received() == Seq::<T>::empty(),
    {
        assert(self.receiver.received().skip(self.start@) =~= Seq::<T>::empty());
    }
}

impl<'a, R: MyReciever<T>, T, F: Fn(&T) -> bool> MyReciever<T> for ReceiverFilter<'a, R, T, F> {
    open spec fn valid_receiver(&self) -> bool {
        &&& self.receiver.valid_receiver()
        &&& answers::<T, F>(self.func, self.test@)
        &&& 0 <= self.start@ <= self.receiver.received().len()
    }

    open spec fn received(&self) -> Seq<T> {
        kept(self.receiver.received().skip(self.start@), self.test@)
    }

    open spec fn finished(&self) -> bool {
        self.receiver.finished()
    }

    /// What is handed out next lies with the test as well: an item that is
    /// ready behind the filter and does not pass is dropped, and nothing is
    /// handed out in its place at that call.
    open spec fn ready(&self) -> Option<Seq<T>> {
        None
    }

    /// Asks the receiver behind for its next item and hands it out where it
    /// passes the test. Nothing is handed out where the receiver behind
    /// hands out nothing, or where its item does not pass: that item is
    /// dropped.
    fn receive(&mut self) -> (item: Option<T>)
        ensures
            *final(final(self).receiver) == *final(old(self).receiver),
            final(self).func == old(self).func,
            final(self).test == old(self).test,
            final(self).start == old(self).start,
            final(self).receiver.received() == old(self).receiver.received() ==> item is None,
            final(self).receiver.received() != old(self).receiver.received() ==> final(self).receiver.received() == old(self).receiver.received().push(
                final(self).receiver.received().last(),
            ) && item == if (old(self).test@)(final(self).receiver.received().last()) {
                Some(final(self).receiver.received().last())
            } else {
                None
            },
            old(self).receiver.ready() matches Some(items) ==> final(self).receiver.ready()
                == Some(rest_of(items)) && item == match first_of(items) {
                Some(t) => if (old(self).test@)(t) {
                    Some(t)
                } else {
                    None
                },
                None => None,
            },
    {
        let ghost before = self.receiver.received().skip(self.start@);
        let ghost log = self.receiver.received();
        match self.receiver.receive() {
            Some(t) => {
                proof {
                    let after = self.receiver.received().skip(self.start@);
                    assert(after =~= before.push(t));
                    assert(after.drop_last() =~= before);
                    assert(self.receiver.received().last() == t);
                    assert(self.receiver.received().len() == log.len() + 1);
                }
                if (self.func)(&t) {
                    Some(t)
                } else {
                    None
                }
            },
            None => None,
        }
    }

    fn isdone(&self) -> (b: bool) {
        self.receiver.isdone()
    }
}

} // verus!
