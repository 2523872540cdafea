//! Senders and receivers: the two ends through which results are handed on
//! one at a time, and the adapters that can be set before them.
use self::filter::{decided, verdict, ReceiverFilter, SenderFilter};
use self::iterators::ReceiverToIterator;
use self::map::{determined, outcome, ReceiverMap, SenderMap};
use std::marker::PhantomData;
use vstd::prelude::*;

pub mod caching;
pub mod filter;
pub mod iterators;
pub mod map;
pub mod threaded;

verus! {

/// The sending end: something that takes items one at a time and can be told
/// that no more will come.
pub trait MySender<T>: Sized {
    /// Whether the sender is fit for use.
    spec fn valid_sender(&self) -> bool;

    /// The items that the sender has been sent and still accounts for, in the
    /// order in which they were sent.
    spec fn sent(&self) -> Seq<T>;

    /// Whether the sender has been told that no more items will come.
    spec fn done(&self) -> bool;

    /// What the sender answers when it is sent the item, where the sender
    /// alone decides that; nothing where the answer lies with someone else.
    spec fn takes(&self, value: T) -> Option<bool>;

    /// Hands an item to the sender. The answer is `false` when what lies
    /// behind the sender no longer accepts items.
    ///
    /// Where the sender alone decides the answer, the answer is what `takes`
    /// says.
    fn send(&mut self, value: T) -> (accepted: bool)
        requires
            old(self).valid_sender(),
        ensures
            final(self).valid_sender(),
            final(self).sent() == old(self).sent().push(value),
            final(self).done() == old(self).done(),
            old(self).takes(value) matches Some(answer) ==> accepted == answer,
    ;

    /// Tells the sender that no more items will come.
    fn set_done(&mut self)
        requires
            old(self).valid_sender(),
        ensures
            final(self).valid_sender(),
            final(self).sent() == old(self).sent(),
            final(self).done(),
    ;

    /// A sender before this one that hands on what the function makes of
    /// each item.
    fn map<'a, U, F: Fn(U) -> T>(&'a mut self, func: F) -> (map: SenderMap<'a, Self, T, U, F>)
        requires
            old(self).valid_sender(),
            determined::<U, T, F>(func),
        ensures
            *map.sender == *old(self),
            *final(map.sender) == *final(self),
            map.func == func,
            map.image@ == outcome::<U, T, F>(func),
            map.base@ == old(self).sent(),
            map.seen@ == Seq::<U>::empty(),
    {
        let ghost base = self.sent();
        SenderMap {
            sender: self,
            func,
            seen: Ghost(Seq::empty()),
            base: Ghost(base),
            image: Ghost(outcome::<U, T, F>(func)),
        }
    }

    /// A sender before this one that hands on the items that pass the test
    /// and takes the others without handing them on.
    fn filter<'a, F: Fn(&T) -> bool>(&'a mut self, func: F) -> (filter: SenderFilter<
        'a,
        Self,
        T,
        F,
    >)
        requires
            old(self).valid_sender(),
            decided::<T, F>(func),
        ensures
            *filter.sender == *old(self),
            *final(filter.sender) == *final(self),
            filter.func == func,
            filter.test@ == verdict::<T, F>(func),
            filter.base@ == old(self).sent(),
            filter.seen@ == Seq::<T>::empty(),
    {
        let ghost base = self.sent();
        SenderFilter {
            sender: self,
            func,
            seen: Ghost(Seq::empty()),
            base: Ghost(base),
            test: Ghost(verdict::<T, F>(func)),
        }
    }

    /// A sender before this one that keeps the news that no more items will
    /// come to itself.
    fn blocked<'a>(&'a mut self) -> (blocked: BlockedSender<'a, Self, T>)
        requires
            old(self).valid_sender(),
        ensures
            *blocked.sender == *old(self),
            *final(blocked.sender) == *final(self),
            blocked.start@ == old(self).sent().len(),
            !blocked.told_done@,
    {
        let ghost start = self.sent().len() as int;
        BlockedSender { sender: self, start: Ghost(start), told_done: Ghost(false), p: PhantomData }
    }
}

/// The first of the items, if there is one.
pub open spec fn first_of<T>(items: Seq<T>) -> Option<T> {
    if items.len() > 0 {
        Some(items[0])
    } else {
        None
    }
}

/// The items but the first.
pub open spec fn rest_of<T>(items: Seq<T>) -> Seq<T> {
    if items.len() > 0 {
        items.drop_first()
    } else {
        items
    }
}

/// The receiving end: something that hands out items one at a time, if one
/// is ready, and says whether more can come.
pub trait MyReciever<T>: Sized {
    /// Whether the receiver is fit for use.
    spec fn valid_receiver(&self) -> bool;

    /// The items that the receiver has handed out, in their order.
    spec fn received(&self) -> Seq<T>;

    /// Whether no more items will be handed out.
    spec fn finished(&self) -> bool;

    /// The items that are ready to be handed out, one at each call and in
    /// their order, where the receiver alone holds what is ready; nothing
    /// where what is handed out next lies with someone else.
    spec fn ready(&self) -> Option<Seq<T>>;

    /// Hands out the next item, if one is ready. Nothing may mean that none
    /// is ready yet, or that none will come: `isdone` tells the two apart.
    ///
    /// Where the receiver alone holds what is ready, the first of the ready
    /// items is handed out and the others stay ready, and nothing is handed
    /// out where none is ready.
    fn receive(&mut self) -> (item: Option<T>)
        requires
            old(self).valid_receiver(),
        ensures
            final(self).valid_receiver(),
            final(self).received() == match item {
                Some(t) => old(self).received().push(t),
                None => old(self).received(),
            },
            old(self).ready() matches Some(items) ==> item == first_of(items) && final(self).ready() == Some(rest_of(items)),
    ;

    /// Whether no more items will be handed out.
    fn isdone(&self) -> (b: bool)
        requires
            self.valid_receiver(),
        ensures
            b == self.finished(),
    ;

    /// A receiver behind this one that hands out what the function makes of
    /// each item.
    fn map<'a, U, F: Fn(T) -> U>(&'a mut self, func: F) -> (map: ReceiverMap<'a, Self, T, U, F>)
        requires
            old(self).valid_receiver(),
            determined::<T, U, F>(func),
        ensures
            *map.receiver == *old(self),
            *final(map.receiver) == *final(self),
            map.func == func,
            map.image@ == outcome::<T, U, F>(func),
            map.start@ == old(self).received().len(),
    {
        let ghost start = self.received().len() as int;
        ReceiverMap {
            receiver: self,
            func,
            start: Ghost(start),
            image: Ghost(outcome::<T, U, F>(func)),
        }
    }

    /// A receiver behind this one that hands out the items that pass the
    /// test and drops the others.
    fn filter<'a, F: Fn(&T) -> bool>(&'a mut self, func: F) -> (filter: ReceiverFilter<
        'a,
        Self,
        T,
        F,
    >)
        requires
            old(self).valid_receiver(),
            decided::<T, F>(func),
        ensures
            *filter.receiver == *old(self),
            *final(filter.receiver) == *final(self),
            filter.func == func,
            filter.test@ == verdict::<T, F>(func),
            filter.start@ == old(self).received().len(),
    {
        let ghost start = self.received().len() as int;
        ReceiverFilter {
            receiver: self,
            func,
            start: Ghost(start),
            test: Ghost(verdict::<T, F>(func)),
            p: PhantomData,
        }
    }

    /// Something that pulls items from this receiver until it says that no
    /// more will come.
    fn into_iterator(self) -> (pulling: ReceiverToIterator<T, Self>)
        ensures
            pulling.receiver == self,
    {
        ReceiverToIterator { receiver: self, p: PhantomData }
    }
}

/// A sender that hands items on to another sender and keeps the news that no
/// more items will come to itself.
pub struct BlockedSender<'a, S: MySender<T>, T> {
    pub sender: &'a mut S,
    pub start: Ghost<int>,
    pub told_done: Ghost<bool>,
    pub p: PhantomData<T>,
}

impl<'a, S: MySender<T>, T> BlockedSender<'a, S, T> {
    /// A blocked sender before the given one.
    pub fn new(sender: &'a mut S) -> (blocked: Self)
        requires
            old(sender).valid_sender(),
        ensures
            blocked.valid_sender(),
            blocked.sent() == Seq::<T>::empty(),
            !blocked.done(),
            *blocked.sender == *old(sender),
            *final(blocked.sender) == *final(sender),
            blocked.start@ == old(sender).sent().len(),
    {
        let ghost start = sender.sent().len() as int;
        BlockedSender { sender, start: Ghost(start), told_done: Ghost(false), p: PhantomData }
    }
}

impl<'a, S: MySender<T>, T> BlockedSender<'a, S, T> {
    /// A blocked sender that has been set before a sender that is fit for
    /// use and has been sent nothing yet is fit for use.
    pub proof fn lemma_set_before(self)
        requires
            self.sender.valid_sender(),
            self.start@ == self.sender.sent().len(),
        ensures
            self.valid_sender(),
            self.sent() == Seq::<T>::empty(),
            self.done() == self.told_done@,
    {
        assert(self.sent() =~= Seq::<T>::empty());
    }
}

impl<'a, S: MySender<T>, T> MySender<T> for BlockedSender<'a, S, T> {
    open spec fn valid_sender(&self) -> bool {
        &&& self.sender.valid_sender()
        &&& 0 <= self.start@ <= self.sender.sent().len()
    }

    open spec fn sent(&self) -> Seq<T> {
        self.sender.sent().subrange(self.start@, self.sender.sent().len() as int)
    }

    open spec fn done(&self) -> bool {
        self.told_done@
    }

    /// What the sender behind answers.
    open spec fn takes(&self, value: T) -> Option<bool> {
        self.sender.takes(value)
    }

    /// Hands the item on to the sender behind and answers what that sender
    /// answers.
    fn send(&mut self, value: T) -> (accepted: bool)
        ensures
            final(self).sender.sent() == old(self).sender.sent().push(value),
            final(self).sender.done() == old(self).sender.done(),
            *final(final(self).sender) == *final(old(self).sender),
            final(self).start == old(self).start,
    {
        let accepted = self.sender.send(value);
        proof {
            assert(self.sent() =~= old(self).sent().push(value));
        }
        accepted
    }

    fn set_done(&mut self)
        ensures
            *final(self).sender == *old(self).sender,
            *final(final(self).sender) == *final(old(self).sender),
            final(self).start == old(self).start,
    {
        self.told_done = Ghost(true);
    }
}

} // verus!
