//! The named queues.
//!
//! A registry is modelled by the map from each name to the messages that wait
//! in the queue of that name. No name occurs twice; an operation that fails
//! leaves the registry as it was.

use crate::error::BrokerError;
use crate::queue::{dequeued, enqueued, head_or_empty, new_queue, Queue};
use vstd::hash_map::StringHashMap;
use vstd::prelude::*;

verus! {

/// A queue together with the name it goes by.
struct Entry {
    name: String,
    queue: Queue,
}

/// The queues in a row, and for each name the place of its queue in the row.
struct Table {
    entries: Vec<Entry>,
    places: StringHashMap<usize>,
}

/// All queues that exist at the moment, each under its name.
pub struct Registry {
    table: Table,
}

/// Every entry is found under its name, and every place leads to the entry
/// of that name.
spec fn consistent(entries: Seq<Entry>, places: Map<Seq<char>, usize>) -> bool {
    &&& forall|i: int|
        0 <= i < entries.len() ==> places.contains_key(#[trigger] entries[i].name@)
            && places[entries[i].name@] == i
    &&& forall|name: Seq<char>| #[trigger]
        places.contains_key(name) ==> 0 <= places[name] < entries.len()
            && entries[places[name] as int].name@ == name
}

/// The map from names to waiting messages that a table stands for.
spec fn contents(entries: Seq<Entry>, places: Map<Seq<char>, usize>) -> Map<
    Seq<char>,
    Seq<Seq<char>>,
> {
    Map::new(
        |name: Seq<char>| places.contains_key(name),
        |name: Seq<char>| entries[places[name] as int].queue@,
    )
}

impl Table {
    /// A table without entries.
    fn new() -> (table: Table)
        ensures
            table.entries@ == Seq::<Entry>::empty(),
            table.places@ == Map::<Seq<char>, usize>::empty(),
    {
        Table { entries: Vec::new(), places: StringHashMap::new() }
    }
}

impl View for Registry {
    type V = Map<Seq<char>, Seq<Seq<char>>>;

    /// The waiting messages of each queue, oldest first, under the queue's name.
    closed spec fn view(&self) -> Map<Seq<char>, Seq<Seq<char>>> {
        contents(self.table.entries@, self.table.places@)
    }
}

impl Registry {
    #[verifier::type_invariant]
    spec fn well_formed(self) -> bool {
        consistent(self.table.entries@, self.table.places@)
    }

    /// A registry without any queue.
    pub fn new() -> (registry: Registry)
        ensures
            registry@ == Map::<Seq<char>, Seq<Seq<char>>>::empty(),
    {
        let registry = Registry { table: Table::new() };
        assert(registry@ =~= Map::<Seq<char>, Seq<Seq<char>>>::empty());
        registry
    }

    /// The place of the queue called `name`.
    fn find(&self, name: &str) -> (found: Option<usize>)
        ensures
            found is Some <==> self@.contains_key(name@),
            found matches Some(i) ==> i < self.table.entries@.len() && self.table.places@[name@]
                == i,
    {
        proof {
            use_type_invariant(self);
        }
        match self.table.places.get(name) {
            Some(place) => Some(*place),
            None => None,
        }
    }

    /// Moves the table out and leaves an empty one behind. It changes outside
    /// the registry and comes back through `put_table`, so that the registry
    /// is never seen with a table that is out of step with itself.
    fn take_table(&mut self) -> (table: Table)
        ensures
            table == old(self).table,
            consistent(table.entries@, table.places@),
            final(self)@ == Map::<Seq<char>, Seq<Seq<char>>>::empty(),
    {
        proof {
            use_type_invariant(&*self);
        }
        let mut table = Table::new();
        core::mem::swap(&mut self.table, &mut table);
        assert(self@ =~= Map::<Seq<char>, Seq<Seq<char>>>::empty());
        table
    }

    /// Moves `table` in, in place of the one that is there.
    fn put_table(&mut self, table: Table)
        requires
            consistent(table.entries@, table.places@),
        ensures
            final(self).table == table,
    {
        let mut table = table;
        core::mem::swap(&mut self.table, &mut table);
    }

    /// Whether a queue called `name` exists.
    pub fn contains(&self, name: &str) -> (present: bool)
        ensures
            present == self@.contains_key(name@),
    {
        self.table.places.contains_key(name)
    }

    /// Adds an empty queue called `name`, unless the name is taken.
    pub fn create(&mut self, name: String) -> (result: Result<(), BrokerError>)
        ensures
            old(self)@.contains_key(name@) ==> result == Err::<(), BrokerError>(
                BrokerError::QueueAlreadyExists,
            ) && final(self)@ == old(self)@,
            !old(self)@.contains_key(name@) ==> result == Ok::<(), BrokerError>(())
                && final(self)@ == old(self)@.insert(name@, Seq::empty()),
    {
        if self.contains(name.as_str()) {
            return Err(BrokerError::QueueAlreadyExists);
        }
        let mut table = self.take_table();
        let ghost before = table;
        let place = table.entries.len();
        let key = name.clone();
        table.entries.push(Entry { name, queue: new_queue() });
        table.places.insert(key, place);
        proof {
            assert forall|i: int| 0 <= i < table.entries@.len() implies table.places@.contains_key(
                #[trigger] table.entries@[i].name@,
            ) && table.places@[table.entries@[i].name@] == i by {
                if i < place {
                    assert(table.entries@[i] == before.entries@[i]);
                }
            }
            assert(contents(table.entries@, table.places@) =~= contents(
                before.entries@,
                before.places@,
            ).insert(name@, Seq::empty()));
        }
        self.put_table(table);
        Ok(())
    }

    /// Removes the queue called `name` together with the messages it still
    /// holds, if there is such a queue.
    pub fn delete(&mut self, name: &str) -> (result: Result<(), BrokerError>)
        ensures
            old(self)@.contains_key(name@) ==> result == Ok::<(), BrokerError>(())
                && final(self)@ == old(self)@.remove(name@),
            !old(self)@.contains_key(name@) ==> result == Err::<(), BrokerError>(
                BrokerError::QueueNotFound,
            ) && final(self)@ == old(self)@,
    {
        let place = match self.find(name) {
            Some(place) => place,
            None => {
                return Err(BrokerError::QueueNotFound);
            },
        };
        let mut table = self.take_table();
        let ghost before = table;
        let last = table.entries.len() - 1;
        // The last entry takes the place of the one that leaves.
        if place != last {
            let moved = table.entries[last].name.clone();
            table.places.insert(moved, place);
        }
        table.places.remove(name);
        let _ = table.entries.swap_remove(place);
        proof {
            assert(before.entries@[place as int].name@ == name@);
            assert forall|i: int| 0 <= i < table.entries@.len() implies table.places@.contains_key(
                #[trigger] table.entries@[i].name@,
            ) && table.places@[table.entries@[i].name@] == i by {
                if i == place {
                    assert(table.entries@[i] == before.entries@[last as int]);
                } else {
                    assert(table.entries@[i] == before.entries@[i]);
                }
            }
            assert forall|other: Seq<char>| #[trigger]
                table.places@.contains_key(other) implies 0 <= table.places@[other]
                < table.entries@.len() && table.entries@[table.places@[other] as int].name@
                == other by {
                if place != last && other == before.entries@[last as int].name@ {
                } else {
                    assert(before.places@.contains_key(other));
                    assert(before.places@[other] != place);
                    assert(before.places@[other] != last);
                }
            }
            assert(contents(table.entries@, table.places@) =~= contents(
                before.entries@,
                before.places@,
            ).remove(name@));
        }
        self.put_table(table);
        Ok(())
    }

    /// Appends `message` to the queue called `name`, if there is such a queue.
    pub fn enqueue(&mut self, name: &str, message: String) -> (result: Result<(), BrokerError>)
        ensures
            old(self)@.contains_key(name@) ==> result == Ok::<(), BrokerError>(())
                && final(self)@ == old(self)@.insert(name@, enqueued(old(self)@[name@], message@)),
            !old(self)@.contains_key(name@) ==> result == Err::<(), BrokerError>(
                BrokerError::QueueNotFound,
            ) && final(self)@ == old(self)@,
    {
        let place = match self.find(name) {
            Some(place) => place,
            None => {
                return Err(BrokerError::QueueNotFound);
            },
        };
        let mut table = self.take_table();
        let ghost before = table;
        table.entries[place].queue.add_message(message);
        proof {
            lemma_queue_replaced(before.entries@, table.entries@, table.places@, place as int);
        }
        self.put_table(table);
        Ok(())
    }

    /// Removes the oldest message of the queue called `name` and returns it,
    /// or the empty message where that queue holds nothing. Fails if there is
    /// no such queue.
    pub fn dequeue(&mut self, name: &str) -> (result: Result<String, BrokerError>)
        ensures
            old(self)@.contains_key(name@) ==> (result matches Ok(message) && message@
                == head_or_empty(old(self)@[name@])) && final(self)@ == old(self)@.insert(
                name@,
                dequeued(old(self)@[name@]),
            ),
            !old(self)@.contains_key(name@) ==> (result matches Err(e) && e
                == BrokerError::QueueNotFound) && final(self)@ == old(self)@,
    {
        let place = match self.find(name) {
            Some(place) => place,
            None => {
                return Err(BrokerError::QueueNotFound);
            },
        };
        let mut table = self.take_table();
        let ghost before = table;
        let message = table.entries[place].queue.retrieve_message();
        proof {
            lemma_queue_replaced(before.entries@, table.entries@, table.places@, place as int);
        }
        self.put_table(table);
        Ok(message)
    }
}

/// A change to the queue of one entry changes the messages under that
/// entry's name and nothing else.
proof fn lemma_queue_replaced(
    before: Seq<Entry>,
    after: Seq<Entry>,
    places: Map<Seq<char>, usize>,
    place: int,
)
    requires
        consistent(before, places),
        0 <= place < before.len(),
        after.len() == before.len(),
        after[place].name@ == before[place].name@,
        forall|i: int| 0 <= i < before.len() && i != place ==> after[i] == before[i],
    ensures
        consistent(after, places),
        contents(after, places) == contents(before, places).insert(
            before[place].name@,
            after[place].queue@,
        ),
{
    assert forall|i: int| 0 <= i < after.len() implies places.contains_key(
        #[trigger] after[i].name@,
    ) && places[after[i].name@] == i by {
        assert(after[i].name@ == before[i].name@);
    }
    assert forall|name: Seq<char>| #[trigger]
        places.contains_key(name) implies 0 <= places[name] < after.len() && after[places[name] as int].name@
        == name by {
        assert(before[places[name] as int].name@ == name);
    }
    assert(contents(after, places) =~= contents(before, places).insert(
        before[place].name@,
        after[place].queue@,
    ));
}

} // verus!
