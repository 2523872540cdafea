use rust_countdown::timing::caching::CachingTransciever;
use rust_countdown::timing::filter::{ReceiverFilter, SenderFilter};
use rust_countdown::timing::iterators::{Polled, ReceiverToIterator, SendOnIterator};
use rust_countdown::timing::map::{ReceiverMap, SenderMap};
use rust_countdown::timing::threaded::{channel, ThreadSender, Waited, CAPACITY};
use rust_countdown::timing::{BlockedSender, MyReciever, MySender};

fn held(cache: &CachingTransciever<u32>) -> Vec<u32> {
    cache.as_ref().iter().copied().collect()
}

#[test]
fn a_cache_hands_out_what_it_was_sent_in_order() {
    let mut cache = CachingTransciever::default();
    assert!(!cache.isdone());
    assert!(cache.send(3u32));
    assert!(cache.send(4));
    assert_eq!(held(&cache), vec![3, 4]);
    cache.set_done();
    assert!(!cache.isdone());
    assert_eq!(cache.receive(), Some(3));
    assert_eq!(cache.receive(), Some(4));
    assert_eq!(cache.receive(), None);
    assert!(cache.isdone());
    cache.set_done();
    assert!(cache.isdone());
    cache.as_mut().push_back(9);
    assert_eq!(held(&cache), vec![9]);
    cache.as_mut().clear();
    assert_eq!(held(&cache), Vec::<u32>::new());
}

#[test]
fn a_blocked_sender_keeps_the_end_to_itself() {
    let mut cache = CachingTransciever::default();
    cache.send(1u32);
    {
        let mut blocked = BlockedSender::new(&mut cache);
        assert!(blocked.send(2));
        blocked.set_done();
        assert!(blocked.send(3));
    }
    assert_eq!(held(&cache), vec![1, 2, 3]);
    assert!(!cache.done);
}

#[test]
fn a_sender_filter_hands_on_what_passes() {
    let mut cache = CachingTransciever::default();
    {
        let mut filter = SenderFilter::new(&mut cache, |n: &u32| n % 2 == 0);
        for n in 1..=6 {
            assert!(filter.send(n));
        }
        filter.set_done();
    }
    assert_eq!(held(&cache), vec![2, 4, 6]);
    assert!(cache.done);
}

#[test]
fn a_sender_map_hands_on_what_the_function_makes() {
    let mut cache = CachingTransciever::default();
    {
        let mut map = SenderMap::new(&mut cache, |n: u8| n as u32 * 10);
        map.send(1);
        map.send(2);
        map.set_done();
    }
    assert_eq!(held(&cache), vec![10, 20]);
    assert!(cache.done);
}

#[test]
fn receiver_adapters_change_what_comes_out() {
    let mut cache = CachingTransciever::default();
    for n in 1..=4u32 {
        cache.send(n);
    }
    cache.set_done();
    {
        let mut filter = ReceiverFilter::new(&mut cache, |n: &u32| n % 2 == 0);
        assert!(!filter.isdone());
        assert_eq!(filter.receive(), None);
        assert_eq!(filter.receive(), Some(2));
    }
    {
        let mut map = ReceiverMap::new(&mut cache, |n: u32| n + 100);
        assert_eq!(map.receive(), Some(103));
        assert_eq!(map.receive(), Some(104));
        assert_eq!(map.receive(), None);
        assert!(map.isdone());
    }
}

#[test]
fn a_list_is_sent_on_item_by_item() {
    let mut on = SendOnIterator::new(CachingTransciever::default());
    on.consume(vec![1u32, 2, 3]);
    assert_eq!(held(&on.sender), vec![1, 2, 3]);
    assert!(on.sender.done);
    let cache = SendOnIterator::new_and_consume(CachingTransciever::default(), vec![7u32, 8]);
    assert_eq!(held(&cache), vec![7, 8]);
    assert!(cache.done);
}

#[test]
fn polling_tells_items_from_the_end() {
    let mut cache = CachingTransciever::default();
    cache.send(5u32);
    let mut pull = ReceiverToIterator::new(cache);
    assert!(matches!(pull.poll(), Polled::Item(5)));
    assert!(matches!(pull.poll(), Polled::Pending));
    pull.receiver.set_done();
    assert!(matches!(pull.poll(), Polled::Done));
    assert!(matches!(pull.poll(), Polled::Done));
}

#[test]
fn a_channel_delivers_in_order_and_ends() {
    let (mut sender, receiver) = channel();
    for n in 0..CAPACITY as u32 {
        assert!(sender.send(n));
    }
    let mut pull = ReceiverToIterator::new(receiver);
    let mut got = Vec::new();
    for _ in 0..CAPACITY {
        match pull.poll() {
            Polled::Item(n) => got.push(n),
            _ => panic!(),
        }
    }
    assert_eq!(got, (0..CAPACITY as u32).collect::<Vec<u32>>());
    assert!(matches!(pull.poll(), Polled::Pending));
    assert!(sender.send(77));
    sender.set_done();
    assert!(!sender.send(99));
    sender.set_done();
    assert!(matches!(pull.poll(), Polled::Item(77)));
    assert!(matches!(pull.poll(), Polled::Pending));
    assert!(matches!(pull.poll(), Polled::Done));
    assert!(pull.receiver.isdone());
    assert_eq!(pull.receiver.receive(), None);
}

#[test]
fn a_sender_without_a_receiver_is_not_accepted() {
    let (mut sender, receiver) = channel::<u32>();
    drop(receiver);
    assert!(!sender.send(1));
    assert!(!sender.send(2));
}

#[test]
fn a_receiver_takes_what_waiting_gave() {
    let (_sender, mut receiver) = channel::<u32>();
    assert_eq!(receiver.take(Waited::Nothing), None);
    assert!(!receiver.isdone());
    assert_eq!(receiver.take(Waited::Item(4)), Some(4));
    assert!(!receiver.isdone());
    assert_eq!(receiver.take(Waited::Disconnected), None);
    assert!(receiver.isdone());
    assert_eq!(receiver.take(Waited::Item(5)), Some(5));
    assert!(receiver.isdone());
    assert!(ThreadSender::<u32>::answer(true, true));
    assert!(!ThreadSender::<u32>::answer(true, false));
    assert!(!ThreadSender::<u32>::answer(false, true));
}

#[test]
fn senders_and_receivers_set_their_own_adapters() {
    let mut cache = CachingTransciever::default();
    {
        let mut filter = MySender::filter(&mut cache, |n: &u32| n % 2 == 0);
        {
            let mut blocked = filter.blocked();
            assert!(blocked.send(1));
            assert!(blocked.send(2));
            blocked.set_done();
        }
        let mut map = MySender::map(&mut filter, |n: u8| n as u32 + 3);
        assert!(map.send(1));
        assert!(map.send(2));
    }
    assert_eq!(held(&cache), vec![2, 4]);
    assert!(!cache.done);
    {
        let mut filter = MyReciever::filter(&mut cache, |n: &u32| *n > 2);
        assert_eq!(filter.receive(), None);
        let mut map = MyReciever::map(&mut filter, |n: u32| n * 10);
        assert_eq!(map.receive(), Some(40));
    }
    cache.send(6);
    cache.set_done();
    let mut pull = cache.into_iterator();
    assert!(matches!(pull.poll(), Polled::Item(6)));
    assert!(matches!(pull.poll(), Polled::Done));
}

#[test]
fn senders_answer_as_the_sender_behind_answers() {
    let (sender, receiver) = channel::<u32>();
    let mut sender = sender;
    drop(receiver);
    {
        let mut filter = SenderFilter::new(&mut sender, |n: &u32| *n > 2);
        assert!(filter.send(1));
        assert!(!filter.send(5));
        let mut blocked = BlockedSender::new(&mut filter);
        assert!(blocked.send(2));
        assert!(!blocked.send(7));
    }
    {
        let mut map = SenderMap::new(&mut sender, |n: u8| n as u32);
        assert!(!map.send(1));
    }
}
