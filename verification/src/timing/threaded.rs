//! A sender and a receiver at the two ends of a bounded channel between two
//! threads.
use super::{BlockedSender, MyReciever, MySender};
use std::sync::mpsc::{Receiver, RecvTimeoutError, SyncSender};
use std::time::Duration;
use vstd::prelude::*;

verus! {

/// The sending half of a bounded channel of the standard library.
#[verifier::external_type_specification]
#[verifier::external_body]
#[verifier::reject_recursive_types(T)]
pub struct ExSyncSender<T>(SyncSender<T>);

/// The receiving half of a channel of the standard library.
#[verifier::external_type_specification]
#[verifier::external_body]
#[verifier::reject_recursive_types(T)]
pub struct ExReceiver<T>(Receiver<T>);

/// What waiting for an item at the receiving half of a channel gave.
pub enum Waited<T> {
    /// An item arrived.
    Item(T),
    /// No item arrived in time.
    Nothing,
    /// The sending half is gone and no item is left.
    Disconnected,
}

/// How many items the channel holds before sending waits.
pub const CAPACITY: usize = 10;

/// How many milliseconds receiving waits for an item.
pub const PATIENCE: u64 = 10;

/// Calls `std::sync::mpsc::sync_channel`, which opens a channel that holds
/// up to `bound` items. Nothing is claimed of the two halves.
#[verifier::external_body]
fn open_channel<T>(bound: usize) -> (halves: (SyncSender<T>, Receiver<T>)) {
    std::sync::mpsc::sync_channel(bound)
}

/// Calls `SyncSender::send`, which waits until the channel has room and
/// hands the item over, or fails when the receiving half is gone. The
/// answer says whether the item was handed over; which of the two happens
/// lies with the other thread, so nothing is claimed of it.
#[verifier::external_body]
fn hand_over<T>(sender: &SyncSender<T>, value: T) -> (delivered: bool) {
    sender.send(value).is_ok()
}

/// Calls `Receiver::recv_timeout`, which waits up to the given number of
/// milliseconds for an item. What comes back lies with the other thread, so
/// nothing is claimed of it.
#[verifier::external_body]
fn wait_for<T>(receiver: &Receiver<T>, millis: u64) -> (waited: Waited<T>) {
    match receiver.recv_timeout(Duration::from_millis(millis)) {
        Ok(item) => Waited::Item(item),
        Err(RecvTimeoutError::Timeout) => Waited::Nothing,
        Err(RecvTimeoutError::Disconnected) => Waited::Disconnected,
    }
}

/// The sending end of a bounded channel. Sending waits while the channel is
/// full; once the sender has been told that no more items will come it lets
/// go of the channel and accepts nothing.
#[verifier::reject_recursive_types(T)]
pub struct ThreadSender<T> {
    channel: Option<SyncSender<T>>,
    log: Ghost<Seq<T>>,
}

/// The receiving end of a bounded channel. It is done once it has found the
/// sending end gone.
#[verifier::reject_recursive_types(T)]
pub struct ThreadReceiver<T> {
    channel: Receiver<T>,
    disconnected: bool,
    log: Ghost<Seq<T>>,
}

impl<T> MySender<T> for ThreadSender<T> {
    closed spec fn valid_sender(&self) -> bool {
        true
    }

    closed spec fn sent(&self) -> Seq<T> {
        self.log@
    }

    closed spec fn done(&self) -> bool {
        self.channel is None
    }

    /// A sender that has let go of the channel takes nothing; whether the
    /// channel takes an item lies with the receiving thread.
    open spec fn takes(&self, value: T) -> Option<bool> {
        if self.done() {
            Some(false)
        } else {
            None
        }
    }

    /// Hands the item to the channel, waiting while it is full. The answer is
    /// `false` where the sender has been told that no more items will come,
    /// or the receiving end is gone.
    fn send(&mut self, value: T) -> (accepted: bool)
        ensures
            old(self).done() ==> !accepted,
    {
        proof {
            self.log = Ghost(self.log@.push(value));
        }
        match &self.channel {
            Some(channel) => Self::answer(true, hand_over(channel, value)),
            None => Self::answer(false, false),
        }
    }

    fn set_done(&mut self) {
        self.channel = None;
    }
}

impl<T> MyReciever<T> for ThreadReceiver<T> {
    closed spec fn valid_receiver(&self) -> bool {
        true
    }

    closed spec fn received(&self) -> Seq<T> {
        self.log@
    }

    closed spec fn finished(&self) -> bool {
        self.disconnected
    }

    /// What arrives at the channel lies with the sending thread.
    open spec fn ready(&self) -> Option<Seq<T>> {
        None
    }

    /// Waits a short while for an item. Where the sending end is found gone,
    /// the receiver is done from then on.
    fn receive(&mut self) -> (item: Option<T>)
        ensures
            old(self).finished() ==> final(self).finished(),
            item is Some ==> final(self).finished() == old(self).finished(),
    {
        let waited = wait_for(&self.channel, PATIENCE);
        self.take(waited)
    }

    fn isdone(&self) -> (b: bool) {
        self.disconnected
    }
}

impl<T> ThreadReceiver<T> {
    /// Takes what waiting at the channel gave: an item is handed out; that
    /// the sending end is gone is noted, and the receiver is done from then
    /// on; that nothing arrived in time changes nothing.
    pub fn take(&mut self, waited: Waited<T>) -> (item: Option<T>)
        ensures
            match waited {
                Waited::Item(a) => item == Some(a) && final(self).received() == old(self).received().push(a) && final(self).finished() == old(self).finished(),
                Waited::Disconnected => item is None && final(self).received() == old(self).received() && final(self).finished(),
                Waited::Nothing => item is None && final(self).received() == old(self).received() && final(self).finished() == old(self).finished(),
            },
    {
        match waited {
            Waited::Item(a) => {
                proof {
                    self.log = Ghost(self.log@.push(a));
                }
                Some(a)
            },
            Waited::Disconnected => {
                self.disconnected = true;
                None
            },
            Waited::Nothing => None,
        }
    }
}

impl<T> ThreadSender<T> {
    /// What sending answers: whether the sender still held the channel and
    /// the channel took the item.
    pub fn answer(open: bool, delivered: bool) -> (accepted: bool)
        ensures
            accepted == (open && delivered),
    {
        open && delivered
    }
}

/// The two ends of a new channel that holds up to ten items.
pub fn channel<T>() -> (ends: (ThreadSender<T>, ThreadReceiver<T>))
    ensures
        ends.0.valid_sender(),
        ends.0.sent() == Seq::<T>::empty(),
        !ends.0.done(),
        ends.1.valid_receiver(),
        ends.1.received() == Seq::<T>::empty(),
        !ends.1.finished(),
{
    let (sender, receiver) = open_channel(CAPACITY);
    (
        ThreadSender { channel: Some(sender), log: Ghost(Seq::empty()) },
        ThreadReceiver { channel: receiver, disconnected: false, log: Ghost(Seq::empty()) },
    )
}

} // verus!
