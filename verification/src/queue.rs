//! The first-in-first-out queue of messages.
//!
//! A queue is modelled by the sequence of the messages it holds, oldest first.
//! Both operations take `&mut self`: whoever shares a queue between threads has
//! to hold it exclusively for the length of a call, so every call sees the
//! queue between two whole operations and never inside one.

use std::collections::VecDeque;
use vstd::prelude::*;

verus! {

/// Messages waiting in the order in which they arrived.
pub struct Queue {
    messages: VecDeque<String>,
}

impl View for Queue {
    type V = Seq<Seq<char>>;

    /// The waiting messages, oldest first.
    closed spec fn view(&self) -> Seq<Seq<char>> {
        self.messages@.map_values(|message: String| message@)
    }
}

/// The queue after `message` has joined it at the tail.
pub open spec fn enqueued(queue: Seq<Seq<char>>, message: Seq<char>) -> Seq<Seq<char>> {
    queue.push(message)
}

/// What one retrieval hands out: the oldest message, or the empty message
/// where nothing waits.
pub open spec fn head_or_empty(queue: Seq<Seq<char>>) -> Seq<char> {
    if queue.len() == 0 {
        Seq::empty()
    } else {
        queue[0]
    }
}

/// The queue after one retrieval.
pub open spec fn dequeued(queue: Seq<Seq<char>>) -> Seq<Seq<char>> {
    if queue.len() == 0 {
        queue
    } else {
        queue.drop_first()
    }
}

/// The queue after each of `messages` has joined it, in their order.
pub open spec fn enqueued_all(queue: Seq<Seq<char>>, messages: Seq<Seq<char>>) -> Seq<Seq<char>>
    decreases messages.len(),
{
    if messages.len() == 0 {
        queue
    } else {
        enqueued(enqueued_all(queue, messages.drop_last()), messages.last())
    }
}

/// What `count` retrievals in a row hand out, in the order of the calls.
pub open spec fn retrieved(queue: Seq<Seq<char>>, count: nat) -> Seq<Seq<char>>
    decreases count,
{
    if count == 0 {
        Seq::empty()
    } else {
        seq![head_or_empty(queue)] + retrieved(dequeued(queue), (count - 1) as nat)
    }
}

/// The queue after `count` retrievals in a row.
pub open spec fn dequeued_times(queue: Seq<Seq<char>>, count: nat) -> Seq<Seq<char>>
    decreases count,
{
    if count == 0 {
        queue
    } else {
        dequeued_times(dequeued(queue), (count - 1) as nat)
    }
}

/// Creates an empty queue.
pub fn new_queue() -> (queue: Queue)
    ensures
        queue@ == Seq::<Seq<char>>::empty(),
{
    let queue = Queue { messages: VecDeque::new() };
    assert(queue@ =~= Seq::<Seq<char>>::empty());
    queue
}

impl Queue {
    /// Appends `message` at the tail.
    pub fn add_message(&mut self, message: String)
        ensures
            final(self)@ == enqueued(old(self)@, message@),
    {
        self.messages.push_back(message);
        assert(self@ =~= enqueued(old(self)@, message@));
    }

    /// Removes the oldest message and returns it. An empty queue stays empty
    /// and gives the empty message.
    pub fn retrieve_message(&mut self) -> (message: String)
        ensures
            message@ == head_or_empty(old(self)@),
            final(self)@ == dequeued(old(self)@),
    {
        match self.messages.pop_front() {
            Some(message) => {
                assert(self@ =~= dequeued(old(self)@));
                message
            },
            None => String::new(),
        }
    }
}

/// Joining messages one by one is appending them.
pub proof fn lemma_enqueued_all_appends(queue: Seq<Seq<char>>, messages: Seq<Seq<char>>)
    ensures
        enqueued_all(queue, messages) == queue + messages,
    decreases messages.len(),
{
    if messages.len() == 0 {
        assert(queue + messages =~= queue);
    } else {
        lemma_enqueued_all_appends(queue, messages.drop_last());
        assert(queue + messages =~= (queue + messages.drop_last()).push(messages.last()));
    }
}

/// Retrievals that the queue can serve hand out its front, oldest first, and
/// leave what stood behind it.
pub proof fn lemma_retrieved_is_front(queue: Seq<Seq<char>>, count: nat)
    requires
        count <= queue.len(),
    ensures
        retrieved(queue, count) == queue.take(count as int),
        dequeued_times(queue, count) == queue.skip(count as int),
    decreases count,
{
    if count == 0 {
        assert(queue.take(0) =~= Seq::<Seq<char>>::empty());
        assert(queue.skip(0) =~= queue);
    } else {
        lemma_retrieved_is_front(dequeued(queue), (count - 1) as nat);
        assert(queue.take(count as int) =~= seq![queue[0]] + queue.drop_first().take(count - 1));
        assert(queue.skip(count as int) =~= queue.drop_first().skip(count - 1));
    }
}

/// First in, first out: after any messages have joined a queue with no
/// retrieval in between, as many retrievals as the queue then holds messages
/// hand out what waited before and then exactly those messages, in the order in
/// which they joined, and leave the queue empty.
pub proof fn lemma_fifo_order(queue: Seq<Seq<char>>, messages: Seq<Seq<char>>)
    ensures
        retrieved(enqueued_all(queue, messages), queue.len() + messages.len()) == queue + messages,
        dequeued_times(enqueued_all(queue, messages), queue.len() + messages.len())
            == Seq::<Seq<char>>::empty(),
        queue.len() == 0 ==> retrieved(enqueued_all(queue, messages), messages.len()) == messages,
{
    let full = queue + messages;
    lemma_enqueued_all_appends(queue, messages);
    lemma_retrieved_is_front(full, full.len());
    assert(full.take(full.len() as int) =~= full);
    assert(full.skip(full.len() as int) =~= Seq::<Seq<char>>::empty());
    if queue.len() == 0 {
        assert(full =~= messages);
    }
}

/// Retrieving from a queue that holds nothing gives the empty message, as
/// often as it is tried, and the queue stays as it is.
pub proof fn lemma_retrieval_from_empty(count: nat)
    ensures
        head_or_empty(Seq::<Seq<char>>::empty()) == Seq::<char>::empty(),
        dequeued(Seq::<Seq<char>>::empty()) == Seq::<Seq<char>>::empty(),
        dequeued_times(Seq::<Seq<char>>::empty(), count) == Seq::<Seq<char>>::empty(),
    decreases count,
{
    if count > 0 {
        lemma_retrieval_from_empty((count - 1) as nat);
    }
}

/// No loss and no duplication: in whatever order the messages of `messages`
/// join an empty queue, one call after the other, retrieving as many times as
/// there are messages hands out each of them exactly as often as it was sent.
pub proof fn lemma_every_message_once(messages: Seq<Seq<char>>, arrival: Seq<Seq<char>>)
    requires
        arrival.to_multiset() == messages.to_multiset(),
    ensures
        retrieved(enqueued_all(Seq::empty(), arrival), messages.len()).to_multiset()
            == messages.to_multiset(),
        dequeued_times(enqueued_all(Seq::empty(), arrival), messages.len())
            == Seq::<Seq<char>>::empty(),
{
    arrival.to_multiset_ensures();
    messages.to_multiset_ensures();
    assert(arrival.len() == messages.len());
    lemma_fifo_order(Seq::empty(), arrival);
}

} // verus!
