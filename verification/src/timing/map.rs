//! Adapters that change each item on its way.
use super::{BlockedSender, first_of, rest_of, MyReciever, MySender};
use std::marker::PhantomData;
use vstd::prelude::*;

verus! {

/// Whether the function can be applied to every item and its contract
/// allows one result for each.
pub open spec fn determined<A, B, F: Fn(A) -> B>(func: F) -> bool {
    &&& forall|x: A| #[trigger] call_requires(func, (x,))
    &&& forall|x: A, y: B, z: B|
        #[trigger] call_ensures(func, (x,), y) && #[trigger] call_ensures(func, (x,), z) ==> y
            == z
}

/// Whether the function can be applied to every item and computes `image`:
/// whatever it makes of an item is what `image` makes of it.
pub open spec fn computes<A, B, F: Fn(A) -> B>(func: F, image: spec_fn(A) -> B) -> bool {
    &&& forall|x: A| #[trigger] call_requires(func, (x,))
    &&& forall|x: A, y: B| #[trigger] call_ensures(func, (x,), y) ==> y == image(x)
}

/// What a determined function makes of each item.
pub open spec fn outcome<A, B, F: Fn(A) -> B>(func: F) -> spec_fn(A) -> B {
    |x: A| choose|y: B| call_ensures(func, (x,), y)
}

/// What `image` makes of each of the items, in their order.
pub open spec fn images<A, B>(items: Seq<A>, image: spec_fn(A) -> B) -> Seq<B> {
    Seq::new(items.len(), |k: int| image(items[k]))
}

/// A sender that hands on what a function makes of each item.
#[verifier::reject_recursive_types(U)]
pub struct SenderMap<'a, S: MySender<T>, T, U, F> {
    pub sender: &'a mut S,
    pub func: F,
    pub seen: Ghost<Seq<U>>,
    pub base: Ghost<Seq<T>>,
    pub image: Ghost<spec_fn(U) -> T>,
}

impl<'a, S: MySender<T>, T, U, F: Fn(U) -> T> SenderMap<'a, S, T, U, F> {
    /// A sender that applies the function before the given sender.
    pub fn new(sender: &'a mut S, func: F) -> (map: Self)
        requires
            old(sender).valid_sender(),
            determined::<U, T, F>(func),
        ensures
            map.valid_sender(),
            map.sent() == Seq::<U>::empty(),
            map.func == func,
            map.image@ == outcome::<U, T, F>(func),
            map.base@ == old(sender).sent(),
            *map.sender == *old(sender),
            *final(map.sender) == *final(sender),
    {
        let ghost base = sender.sent();
        let ghost image = outcome::<U, T, F>(func);
        let map = SenderMap {
            sender,
            func,
            seen: Ghost(Seq::empty()),
            base: Ghost(base),
            image: Ghost(image),
        };
        proof {
            assert(map.sender.sent() =~= base + images(Seq::<U>::empty(), image));
        }
        map
    }
}

impl<'a, S: MySender<T>, T, U, F: Fn(U) -> T> SenderMap<'a, S, T, U, F> {
    /// A map that has been set before a sender that is fit for use, with a
    /// function that is determined, and has seen no item yet is fit for use.
    pub proof fn lemma_set_before(self)
        requires
            self.sender.valid_sender(),
            determined::<U, T, F>(self.func),
            self.image@ == outcome::<U, T, F>(self.func),
            self.base@ == self.sender.sent(),
            self.seen@ == Seq::<U>::empty(),
        ensures
            self.valid_sender(),
            self.sent() == Seq::<U>::empty(),
    {
        assert(self.sender.sent() =~= self.base@ + images(self.seen@, self.image@));
    }
}

impl<'a, S: MySender<T>, T, U, F: Fn(U) -> T> MySender<U> for SenderMap<'a, S, T, U, F> {
    open spec fn valid_sender(&self) -> bool {
        &&& self.sender.valid_sender()
        &&& computes::<U, T, F>(self.func, self.image@)
        &&& self.sender.sent() == self.base@ + images(self.seen@, self.image@)
    }

    open spec fn sent(&self) -> Seq<U> {
        self.seen@
    }

    open spec fn done(&self) -> bool {
        self.sender.done()
    }

    /// What the sender behind answers to what the function makes of the
    /// item.
    open spec fn takes(&self, value: U) -> Option<bool> {
        self.sender.takes((self.image@)(value))
    }

    /// Hands what the function makes of the item on to the sender behind
    /// and answers what that sender answers.
    fn send(&mut self, value: U) -> (accepted: bool)
        ensures
            *final(final(self).sender) == *final(old(self).sender),
            final(self).func == old(self).func,
            final(self).image == old(self).image,
            final(self).base == old(self).base,
    {
        let ghost given = value;
        self.seen = Ghost(self.seen@.push(value));
        let value = (self.func)(value);
        let accepted = self.sender.send(value);
        proof {
            assert(value == (self.image@)(given));
            assert(self.sender.sent() =~= self.base@ + images(self.seen@, self.image@));
        }
        accepted
    }

    fn set_done(&mut self)
        ensures
            *final(final(self).sender) == *final(old(self).sender),
            final(self).func == old(self).func,
            final(self).image == old(self).image,
            final(self).base == old(self).base,
            final(self).seen == old(self).seen,
    {
        self.sender.set_done();
    }
}

/// A receiver that hands out what a function makes of each item of another
/// receiver.
#[verifier::reject_recursive_types(T)]
pub struct ReceiverMap<'a, R: MyReciever<T>, T, U, F> {
    pub receiver: &'a mut R,
    pub func: F,
    pub start: Ghost<int>,
    pub image: Ghost<spec_fn(T) -> U>,
}

impl<'a, R: MyReciever<T>, T, U, F: Fn(T) -> U> ReceiverMap<'a, R, T, U, F> {
    /// A receiver that applies the function behind the given receiver.
    pub fn new(receiver: &'a mut R, func: F) -> (map: Self)
        requires
            old(receiver).valid_receiver(),
            determined::<T, U, F>(func),
        ensures
            map.valid_receiver(),
            map.received() == Seq::<U>::empty(),
            map.func == func,
            map.image@ == outcome::<T, U, F>(func),
            *map.receiver == *old(receiver),
            *final(map.receiver) == *final(receiver),
    {
        let ghost start = receiver.received().len() as int;
        let map = ReceiverMap {
            receiver,
            func,
            start: Ghost(start),
            image: Ghost(outcome::<T, U, F>(func)),
        };
        proof {
            assert(map.received() =~= Seq::<U>::empty());
        }
        map
    }
}

impl<'a, R: MyReciever<T>, T, U, F: Fn(T) -> U> ReceiverMap<'a, R, T, U, F> {
    /// A map that has been set behind a receiver that is fit for use, with a
    /// function that is determined, is fit for use and has handed out
    /// nothing.
    pub proof fn lemma_set_behind(self)
        requires
            self.receiver.valid_receiver(),
            determined::<T, U, F>(self.func),
            self.image@ == outcome::<T, U, F>(self.func),
            self.start@ == self.receiver.received().len(),
        ensures
            self.valid_receiver(),
            self.received() == Seq::<U>::empty(),
    {
        assert(self.received() =~= Seq::<U>::empty());
    }
}

impl<'a, R: MyReciever<T>, T, U, F: Fn(T) -> U> MyReciever<U> for ReceiverMap<'a, R, T, U, F> {
    open spec fn valid_receiver(&self) -> bool {
        &&& self.receiver.valid_receiver()
        &&& computes::<T, U, F>(self.func, self.image@)
        &&& 0 <= self.start@ <= self.receiver.received().len()
    }

    open spec fn received(&self) -> Seq<U> {
        images(self.receiver.received().skip(self.start@), self.image@)
    }

    open spec fn finished(&self) -> bool {
        self.receiver.finished()
    }

    /// What the function makes of the items that the receiver behind holds
    /// ready.
    open spec fn ready(&self) -> Option<Seq<U>> {
        match self.receiver.ready() {
            Some(items) => Some(images(items, self.image@)),
            None => None,
        }
    }

    /// Asks the receiver behind for its next item and hands out what the
    /// function makes of it; nothing where the receiver behind hands out
    /// nothing.
    fn receive(&mut self) -> (item: Option<U>)
        ensures
            *final(final(self).receiver) == *final(old(self).receiver),
            final(self).func == old(self).func,
            final(self).image == old(self).image,
            final(self).start == old(self).start,
            item is None <==> final(self).receiver.received() == old(self).receiver.received(),
            item matches Some(u) ==> final(self).receiver.received().len() == old(self).receiver.received().len() + 1 && final(self).receiver.received().drop_last()
                == old(self).receiver.received() && u == (old(self).image@)(
                final(self).receiver.received().last(),
            ),
            old(self).receiver.ready() matches Some(items) ==> final(self).receiver.ready()
                == Some(rest_of(items)) && item == match first_of(items) {
                Some(t) => Some((old(self).image@)(t)),
                None => None,
            },
    {
        let ghost before = self.receiver.received().skip(self.start@);
        let ghost log = self.receiver.received();
        let ghost held = self.receiver.ready();
        match self.receiver.receive() {
            Some(t) => {
                let ghost given = t;
                let u = (self.func)(t);
                proof {
                    let after = self.receiver.received().skip(self.start@);
                    assert(after =~= before.push(given));
                    assert(u == (self.image@)(given));
                    assert(images(after, self.image@) =~= images(before, self.image@).push(u));
                    assert(self.receiver.received().drop_last() =~= log);
                    if held is Some {
                        assert(images(rest_of(held.unwrap()), self.image@) =~= rest_of(
                            images(held.unwrap(), self.image@),
                        ));
                    }
                }
                Some(u)
            },
            None => {
                proof {
                    if held is Some {
                        assert(images(rest_of(held.unwrap()), self.image@) =~= rest_of(
                            images(held.unwrap(), self.image@),
                        ));
                    }
                }
                None
            },
        }
    }

    fn isdone(&self) -> (b: bool) {
        self.receiver.isdone()
    }
}

} // verus!
