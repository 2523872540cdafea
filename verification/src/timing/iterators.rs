//! Ends that are driven by a list of items or by a caller that pulls.
use super::{first_of, rest_of, MyReciever, MySender};
use std::marker::PhantomData;
use vstd::prelude::*;

verus! {

/// Sends the items of a list to a sender.
pub struct SendOnIterator<T, S: MySender<T>> {
    pub sender: S,
    pub p: PhantomData<T>,
}

impl<T, S: MySender<T>> SendOnIterator<T, S> {
    /// Takes the sender that items are to be sent to.
    pub fn new(sender: S) -> (r: Self)
        ensures
            r.sender == sender,
    {
        Self { sender, p: PhantomData }
    }

    /// Sends each of the items in turn, then tells the sender that no more
    /// will come.
    pub fn consume(&mut self, iter: Vec<T>)
        requires
            old(self).sender.valid_sender(),
        ensures
            final(self).sender.valid_sender(),
            final(self).sender.sent() == old(self).sender.sent() + iter@,
            final(self).sender.done(),
    {
        let ghost base = self.sender.sent();
        for value in items: iter
            invariant
                self.sender.valid_sender(),
                self.sender.sent() == base + items.seq().take(items.index() as int),
        {
            self.sender.send(value);
            proof {
                assert(self.sender.sent() =~= base + items.seq().take(items.index() + 1));
            }
        }
        self.sender.set_done();
    }

    /// Sends each of the items in turn to the sender, then tells it that no
    /// more will come.
    pub fn new_and_consume(sender: S, iter: Vec<T>) -> (sender_after: S)
        requires
            sender.valid_sender(),
        ensures
            sender_after.valid_sender(),
            sender_after.sent() == sender.sent() + iter@,
            sender_after.done(),
    {
        let mut this = Self::new(sender);
        this.consume(iter);
        this.sender
    }
}

/// What one look at a receiver gives.
pub enum Polled<T> {
    /// No more items will come.
    Done,
    /// The next item.
    Item(T),
    /// No item is ready yet.
    Pending,
}

/// Pulls items from a receiver until it says that no more will come.
pub struct ReceiverToIterator<T, R: MyReciever<T>> {
    pub receiver: R,
    pub p: PhantomData<T>,
}

impl<T, R: MyReciever<T>> ReceiverToIterator<T, R> {
    /// Takes the receiver that items are to be pulled from.
    pub fn new(receiver: R) -> (r: Self)
        ensures
            r.receiver == receiver,
    {
        Self { receiver, p: PhantomData }
    }

    /// Looks at the receiver once: the end, where the receiver says that no
    /// more items will come; else the next item, where one is ready.
    ///
    /// Where the receiver is not done and holds alone what is ready, the
    /// first of the ready items is the item and the others stay ready, and
    /// the look is pending where none is ready.
    pub fn poll(&mut self) -> (polled: Polled<T>)
        requires
            old(self).receiver.valid_receiver(),
        ensures
            final(self).receiver.valid_receiver(),
            old(self).receiver.finished() ==> polled is Done && final(self).receiver == old(self).receiver,
            !old(self).receiver.finished() ==> match polled {
                Polled::Done => false,
                Polled::Item(t) => final(self).receiver.received() == old(self).receiver.received().push(t),
                Polled::Pending => final(self).receiver.received() == old(self).receiver.received(),
            },
            !old(self).receiver.finished() ==> (old(self).receiver.ready() matches Some(items)
                ==> final(self).receiver.ready() == Some(rest_of(items)) && match first_of(
                items,
            ) {
                Some(t) => polled == Polled::Item(t),
                None => polled is Pending,
            }),
    {
        if self.receiver.isdone() {
            return Polled::Done;
        }
        match self.receiver.receive() {
            Some(t) => Polled::Item(t),
            None => Polled::Pending,
        }
    }
}

} // verus!
