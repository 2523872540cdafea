//! A sender that keeps what it is sent until it is received again.
use super::{BlockedSender, MyReciever, MySender};
use std::collections::VecDeque;
use vstd::prelude::*;

verus! {

/// A queue that is a sender and a receiver at once: what is sent is held in
/// order until it is received or cleared.
pub struct CachingTransciever<T> {
    pub queue: VecDeque<T>,
    pub done: bool,
    pub taken: Ghost<Seq<T>>,
}

impl<T> CachingTransciever<T> {
    /// An empty queue that has not been told that no more items will come.
    pub fn default() -> (cache: Self)
        ensures
            cache.queue@ == Seq::<T>::empty(),
            !cache.done,
            cache.taken@ == Seq::<T>::empty(),
    {
        CachingTransciever { queue: VecDeque::new(), done: false, taken: Ghost(Seq::empty()) }
    }

    /// The items held.
    pub fn as_ref(&self) -> (queue: &VecDeque<T>)
        ensures
            *queue == self.queue,
    {
        &self.queue
    }

    /// The items held, to be changed.
    pub fn as_mut(&mut self) -> (queue: &mut VecDeque<T>)
        ensures
            *queue == old(self).queue,
            final(self).queue == *final(queue),
            final(self).done == old(self).done,
            final(self).taken == old(self).taken,
    {
        &mut self.queue
    }
}

impl<T> MySender<T> for CachingTransciever<T> {
    open spec fn valid_sender(&self) -> bool {
        true
    }

    open spec fn sent(&self) -> Seq<T> {
        self.queue@
    }

    open spec fn done(&self) -> bool {
        self.done
    }

    /// The queue takes every item.
    open spec fn takes(&self, value: T) -> Option<bool> {
        Some(true)
    }

    fn send(&mut self, value: T) -> (accepted: bool)
        ensures
            accepted,
            final(self).taken == old(self).taken,
    {
        self.queue.push_back(value);
        true
    }

    fn set_done(&mut self)
        ensures
            final(self).queue == old(self).queue,
            final(self).taken == old(self).taken,
    {
        self.done = true;
    }
}

impl<T> MyReciever<T> for CachingTransciever<T> {
    open spec fn valid_receiver(&self) -> bool {
        true
    }

    open spec fn received(&self) -> Seq<T> {
        self.taken@
    }

    open spec fn finished(&self) -> bool {
        self.queue@.len() == 0 && self.done
    }

    open spec fn ready(&self) -> Option<Seq<T>> {
        Some(self.queue@)
    }

    fn receive(&mut self) -> (item: Option<T>)
        ensures
            match item {
                Some(t) => old(self).queue@.len() > 0 && t == old(self).queue@[0] && final(self).queue@ == old(self).queue@.drop_first(),
                None => old(self).queue@.len() == 0 && final(self).queue@ == old(self).queue@,
            },
            final(self).done == old(self).done,
    {
        let item = self.queue.pop_front();
        proof {
            if item is Some {
                self.taken = Ghost(self.taken@.push(item.unwrap()));
                assert(self.queue@ =~= old(self).queue@.drop_first());
            }
        }
        item
    }

    fn isdone(&self) -> (b: bool) {
        self.queue.len() == 0 && self.done
    }
}

} // verus!
