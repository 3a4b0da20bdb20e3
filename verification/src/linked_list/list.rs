//! A doubly linked list of listeners that owns its entries.

use crate::chain::{
    is_chain, key_at, lemma_link_back, lemma_link_front, lemma_unlink, linked_at, linked_back,
    linked_front, with_next, with_prev, Links,
};
use crate::notify::{
    can_deliver, carried_out, has_tags, is_run, lemma_run_step, Notification,
};
use crate::roster::{
    all_stay, first_pending, first_pending_from, granted, has_key, is_fifo, keys,
    lemma_fifo_prefix, lemma_first_notified, lemma_first_pending_from, lemma_is_first_pending,
    lemma_newcomer, lemma_notified, lemma_notified_none, lemma_notified_step,
    lemma_pending_monotonic, lemma_prepended, lemma_pushed, lemma_removed, lemma_removed_first,
    lemma_restated, notified_count, pending_count, position, registered, state_of, with_notified,
    without, woken, Roster,
};
use crate::state::{take_state, RegisterResult, State};
use crate::task::{all_woken, Task, TaskRef, TaskSink, WakeNow};
use crate::util::replace;
use vstd::prelude::*;

verus! {

/// The order in which listeners are notified.
#[derive(Clone, Copy, Debug, PartialEq, Eq, Structural)]
pub enum QueueStrategy {
    /// First come, first notified.
    Fifo,
    /// Last come, first notified.
    Lifo,
}

/// An entry of the list, for one registered listener.
#[derive(Debug)]
pub struct Entry<T> {
    /// The state of the listener.
    pub state: State<T>,
    /// The previous entry in the list.
    pub prev: Option<usize>,
    /// The next entry in the list.
    pub next: Option<usize>,
}

/// The links between the entries of a list.
pub open spec fn links_of<T>(entries: Seq<Option<Entry<T>>>) -> Map<usize, Links> {
    Map::new(
        |k: usize| k < entries.len() && entries[k as int] is Some,
        |k: usize| Links { prev: entries[k as int]->0.prev, next: entries[k as int]->0.next },
    )
}

/// The listeners of a list, in the given order.
pub open spec fn roster_of<T>(entries: Seq<Option<Entry<T>>>, order: Seq<usize>) -> Roster<T> {
    Seq::new(order.len(), |i: int| (order[i], entries[order[i] as int]->0.state))
}

/// `free` lists the places without an entry, but for the one that is kept for
/// the cached entry.
pub open spec fn is_free<T>(entries: Seq<Option<Entry<T>>>, free: Seq<usize>) -> bool {
    &&& free.no_duplicates()
    &&& forall|i: int|
        0 <= i < free.len() ==> 0 < (#[trigger] free[i]) < entries.len()
            && entries[free[i] as int] is None
    &&& forall|k: usize|
        0 < k < entries.len() && (#[trigger] entries[k as int]) is None ==> free.contains(k)
}

/// Two sequences of places that differ in nothing but links.
pub open spec fn same_but_links<T>(a: Seq<Option<Entry<T>>>, b: Seq<Option<Entry<T>>>) -> bool {
    &&& a.len() == b.len()
    &&& forall|k: int|
        #![trigger a[k]]
        #![trigger b[k]]
        0 <= k < a.len() ==> (a[k] is Some <==> b[k] is Some) && (a[k] is Some ==> a[k]->0.state
            == b[k]->0.state)
}

/// The unused places stay what they are where only entries change.
proof fn lemma_kept_free<T>(
    before: Seq<Option<Entry<T>>>,
    after: Seq<Option<Entry<T>>>,
    free: Seq<usize>,
)
    requires
        is_free(before, free),
        before.len() == after.len(),
        forall|k: int|
            0 <= k < before.len() ==> ((#[trigger] before[k]) is None <==> after[k] is None),
    ensures
        is_free(after, free),
{
    assert forall|k: usize|
        0 < k < after.len() && (#[trigger] after[k as int]) is None implies free.contains(k) by {
        assert(before[k as int] is None);
    }
    assert forall|i: int| 0 <= i < free.len() implies 0 < (#[trigger] free[i]) < after.len()
        && after[free[i] as int] is None by {
        assert(before[free[i] as int] is None);
    }
}

/// Emptying a place adds it to the unused ones, unless it is the cached entry's.
proof fn lemma_freed<T>(
    before: Seq<Option<Entry<T>>>,
    after: Seq<Option<Entry<T>>>,
    free: Seq<usize>,
    key: usize,
)
    requires
        is_free(before, free),
        before.len() == after.len(),
        key < before.len(),
        before[key as int] is Some,
        after[key as int] is None,
        forall|k: int|
            0 <= k < before.len() && k != key ==> ((#[trigger] before[k]) is None <==> after[k]
                is None),
    ensures
        is_free(after, if key == 0 { free } else { free.push(key) }),
{
    let grown = if key == 0 { free } else { free.push(key) };
    assert forall|k: usize|
        0 < k < after.len() && (#[trigger] after[k as int]) is None implies grown.contains(k) by {
        if k == key {
            assert(grown[free.len() as int] == k);
        } else {
            assert(before[k as int] is None);
            let i = free.index_of(k);
            assert(grown[i] == k);
        }
    }
    assert forall|i: int| 0 <= i < grown.len() implies 0 < (#[trigger] grown[i]) < after.len()
        && after[grown[i] as int] is None by {
        if i < free.len() {
            assert(grown[i] == free[i]);
            assert(before[free[i] as int] is None);
        }
    }
    assert forall|i: int, j: int| 0 <= i < j < grown.len() implies grown[i] != grown[j] by {
        assert(grown[i] == free[i]);
        assert(before[free[i] as int] is None);
        if j < free.len() {
            assert(grown[j] == free[j]);
        }
    }
}

/// Changes the next entry of an entry.
fn set_next<T>(entries: &mut Vec<Option<Entry<T>>>, key: usize, next: Option<usize>)
    requires
        key < old(entries)@.len(),
        old(entries)@[key as int] is Some,
    ensures
        same_but_links(old(entries)@, final(entries)@),
        links_of(final(entries)@) == with_next(links_of(old(entries)@), Some(key), next),
{
    match &mut entries[key] {
        Some(entry) => {
            entry.next = next;
        },
        None => {},
    }
    proof {
        assert(links_of(entries@) =~= with_next(links_of(old(entries)@), Some(key), next));
    }
}

/// Changes the previous entry of an entry.
fn set_prev<T>(entries: &mut Vec<Option<Entry<T>>>, key: usize, prev: Option<usize>)
    requires
        key < old(entries)@.len(),
        old(entries)@[key as int] is Some,
    ensures
        same_but_links(old(entries)@, final(entries)@),
        links_of(final(entries)@) == with_prev(links_of(old(entries)@), Some(key), prev),
{
    match &mut entries[key] {
        Some(entry) => {
            entry.prev = prev;
        },
        None => {},
    }
    proof {
        assert(links_of(entries@) =~= with_prev(links_of(old(entries)@), Some(key), prev));
    }
}

/// Changes the state of an entry. Returns the state before, and the next entry.
fn set_state<T>(entries: &mut Vec<Option<Entry<T>>>, key: usize, state: State<T>) -> (out: (
    State<T>,
    Option<usize>,
))
    requires
        key < old(entries)@.len(),
        old(entries)@[key as int] is Some,
    ensures
        out.0 == old(entries)@[key as int]->0.state,
        out.1 == links_of(old(entries)@)[key].next,
        links_of(final(entries)@) == links_of(old(entries)@),
        final(entries)@.len() == old(entries)@.len(),
        final(entries)@[key as int] is Some,
        final(entries)@[key as int]->0.state == state,
        forall|k: int|
            #![trigger final(entries)@[k]]
            #![trigger old(entries)@[k]]
            0 <= k < old(entries)@.len() && k != key ==> final(entries)@[k] == old(entries)@[k],
        forall|free: Seq<usize>|
            is_free(old(entries)@, free) ==> #[trigger] is_free(final(entries)@, free),
{
    let ghost before = entries@;
    let out = match &mut entries[key] {
        Some(entry) => (replace(&mut entry.state, state), entry.next),
        None => (State::NotifiedTaken, None),
    };
    proof {
        assert(links_of(entries@) =~= links_of(before));
        assert forall|free: Seq<usize>| is_free(before, free) implies #[trigger] is_free(
            entries@,
            free,
        ) by {
            lemma_kept_free(before, entries@, free);
        }
    }
    out
}

/// Joins the neighbours of the entry at position `at` and returns them.
fn join_neighbours<T>(
    entries: &mut Vec<Option<Entry<T>>>,
    head: &mut Option<usize>,
    tail: &mut Option<usize>,
    key: usize,
    Ghost(order): Ghost<Seq<usize>>,
    Ghost(at): Ghost<int>,
) -> (links: Links)
    requires
        is_chain(order, links_of(old(entries)@), *old(head), *old(tail)),
        0 <= at < order.len(),
        order[at] == key,
    ensures
        same_but_links(old(entries)@, final(entries)@),
        is_chain(
            order.remove(at),
            links_of(final(entries)@).remove(key),
            *final(head),
            *final(tail),
        ),
        links == (Links { prev: key_at(order, at - 1), next: key_at(order, at + 1) }),
        old(entries)@[key as int] is Some,
        key < old(entries)@.len(),
{
    let ghost before = links_of(entries@);
    proof {
        lemma_unlink(order, before, *head, *tail, at);
        assert(linked_at(order, before, at));
        assert forall|i: int| 0 <= i < order.len() implies before.contains_key(
            #[trigger] order[i],
        ) by {
            assert(order.to_set().contains(order[i]));
        }
    }
    let (prev, next) = match &entries[key] {
        Some(entry) => (entry.prev, entry.next),
        None => (None, None),
    };
    match prev {
        None => {
            *head = next;
        },
        Some(p) => {
            set_next(entries, p, next);
        },
    }
    match next {
        None => {
            *tail = prev;
        },
        Some(n) => {
            set_prev(entries, n, prev);
        },
    }
    Links { prev, next }
}

/// A linked list of listeners.
///
/// The place with the number zero is kept for one entry at all times, so that a
/// list with a single listener needs no further room.
pub struct List<T> {
    entries: Vec<Option<Entry<T>>>,
    free: Vec<usize>,
    head: Option<usize>,
    tail: Option<usize>,
    start: Option<usize>,
    len: usize,
    notified: usize,
    cache_used: bool,
    strategy: QueueStrategy,
    order: Ghost<Seq<usize>>,
}

impl<T> View for List<T> {
    type V = Roster<T>;

    closed spec fn view(&self) -> Roster<T> {
        roster_of(self.entries@, self.order@)
    }
}

/// A roster with a new listener, at the place that the strategy gives it.
pub open spec fn joined<T>(r: Roster<T>, strategy: QueueStrategy, key: usize) -> Roster<T> {
    match strategy {
        QueueStrategy::Fifo => r.push((key, State::Created)),
        QueueStrategy::Lifo => r.insert(0, (key, State::Created)),
    }
}

/// A new listener is known by its key, and the others still by theirs.
pub proof fn lemma_joined<T>(r: Roster<T>, strategy: QueueStrategy, key: usize)
    requires
        keys(r).no_duplicates(),
        !has_key(r, key),
    ensures
        has_key(joined(r, strategy, key), key),
        state_of(joined(r, strategy, key), key) == State::<T>::Created,
        all_stay(r, joined(r, strategy, key)),
{
    lemma_newcomer(r, r.len() as int, key, State::<T>::Created);
    lemma_newcomer(r, 0, key, State::<T>::Created);
}

impl<T> List<T> {
    /// The order in which listeners are notified.
    pub closed spec fn order_by(&self) -> QueueStrategy {
        self.strategy
    }

    /// Whether the cached entry is in use.
    pub closed spec fn uses_cache(&self) -> bool {
        self.cache_used
    }

    /// The number of places that are in use.
    spec fn in_use(&self) -> int {
        self.entries@.len() - self.free@.len() - if self.cache_used {
            0int
        } else {
            1
        }
    }

    /// The links, the counters and the unused places are in order.
    pub closed spec fn wf(&self) -> bool {
        &&& self.entries@.len() > 0
        &&& self.cache_used == self.entries@[0] is Some
        &&& is_free(self.entries@, self.free@)
        &&& is_chain(self.order@, links_of(self.entries@), self.head, self.tail)
        &&& self.len == self.order@.len()
        &&& self.len == self.in_use()
        &&& self.notified == notified_count(self@)
        &&& self.start == key_at(self.order@, first_pending(self@))
        &&& self.strategy is Fifo ==> is_fifo(self@)
        &&& forall|i: int| 0 <= i < self@.len() ==> !((#[trigger] self@[i]).1 is NotifiedTaken)
    }

    /// What every user of a list can know: no two listeners share a key, no tag
    /// is missing, and where listeners come first to last the notified ones
    /// come first.
    pub proof fn lemma_list(&self)
        requires
            self.wf(),
        ensures
            keys(self@).no_duplicates(),
            forall|i: int| 0 <= i < self@.len() ==> !((#[trigger] self@[i]).1 is NotifiedTaken),
            self.order_by() is Fifo ==> is_fifo(self@),
            self@.len() <= usize::MAX,
            0 <= notified_count(self@) <= self@.len(),
    {
        self.lemma_order();
        lemma_pending_monotonic(self@, 0, self@.len() as int);
    }

    /// Every entry of the order has a place of its own.
    proof fn lemma_order(&self)
        requires
            self.wf(),
        ensures
            forall|i: int|
                0 <= i < self.order@.len() ==> (#[trigger] self.order@[i]) < self.entries@.len()
                    && self.entries@[self.order@[i] as int] is Some,
            keys(self@) == self.order@,
            keys(self@).no_duplicates(),
            0 <= first_pending(self@) <= self@.len(),
    {
        assert forall|i: int| 0 <= i < self.order@.len() implies (#[trigger] self.order@[i])
            < self.entries@.len() && self.entries@[self.order@[i] as int] is Some by {
            assert(self.order@.to_set().contains(self.order@[i]));
            assert(links_of(self.entries@).dom().contains(self.order@[i]));
        }
        assert(keys(self@) =~= self.order@);
        lemma_first_pending_from(self@, 0);
    }

    /// Creates an empty list.
    pub fn new(strategy: QueueStrategy) -> (list: Self)
        ensures
            list.wf(),
            list@ == Roster::<T>::empty(),
            list.order_by() == strategy,
            !list.uses_cache(),
    {
        let mut entries: Vec<Option<Entry<T>>> = Vec::new();
        entries.push(None);
        let list = List {
            entries,
            free: Vec::new(),
            head: None,
            tail: None,
            start: None,
            len: 0,
            notified: 0,
            cache_used: false,
            strategy,
            order: Ghost(Seq::empty()),
        };
        proof {
            assert(links_of(list.entries@).dom() =~= list.order@.to_set());
            assert(list@ =~= Roster::<T>::empty());
        }
        list
    }

    /// Finds a place for an entry and puts it there.
    fn place(&mut self, entry: Entry<T>) -> (key: usize)
        requires
            old(self).entries@.len() > 0,
            old(self).cache_used == old(self).entries@[0] is Some,
            is_free(old(self).entries@, old(self).free@),
        ensures
            key == 0 <==> !old(self).cache_used,
            key < old(self).entries@.len() ==> old(self).entries@[key as int] is None,
            key <= old(self).entries@.len(),
            final(self).entries@.len() == if key < old(self).entries@.len() {
                old(self).entries@.len()
            } else {
                old(self).entries@.len() + 1
            },
            final(self).entries@[key as int] == Some(entry),
            forall|k: int|
                0 <= k < old(self).entries@.len() && k != key ==> final(self).entries@[k]
                    == #[trigger] old(self).entries@[k],
            final(self).cache_used,
            final(self).in_use() == old(self).in_use() + 1,
            is_free(final(self).entries@, final(self).free@),
            final(self).head == old(self).head,
            final(self).tail == old(self).tail,
            final(self).start == old(self).start,
            final(self).len == old(self).len,
            final(self).notified == old(self).notified,
            final(self).strategy == old(self).strategy,
            final(self).order == old(self).order,
    {
        if self.cache_used {
            match self.free.pop() {
                Some(key) => {
                    self.entries[key] = Some(entry);
                    proof {
                        let before = old(self).free@;
                        assert(before[before.len() - 1] == key);
                        assert(self.free@ =~= before.drop_last());
                        assert forall|k: usize|
                            0 < k < self.entries@.len() && (#[trigger] self.entries@[k as int])
                                is None implies self.free@.contains(k) by {
                            assert(old(self).entries@[k as int] is None);
                            assert(before.contains(k));
                            let i = before.index_of(k);
                            assert(self.free@[i] == k);
                        }
                        assert forall|i: int| 0 <= i < self.free@.len() implies 0 < (
                        #[trigger] self.free@[i]) < self.entries@.len()
                            && self.entries@[self.free@[i] as int] is None by {
                            assert(before[i] == self.free@[i]);
                            assert(before[i] != before[before.len() - 1]);
                        }
                    }
                    key
                },
                None => {
                    let key = self.entries.len();
                    self.entries.push(Some(entry));
                    proof {
                        assert forall|k: usize|
                            0 < k < self.entries@.len() && (#[trigger] self.entries@[k as int])
                                is None implies self.free@.contains(k) by {
                            assert(old(self).entries@[k as int] is None);
                        }
                    }
                    key
                },
            }
        } else {
            self.cache_used = true;
            self.entries[0] = Some(entry);
            proof {
                assert forall|k: usize|
                    0 < k < self.entries@.len() && (#[trigger] self.entries@[k as int])
                        is None implies self.free@.contains(k) by {
                    assert(old(self).entries@[k as int] is None);
                }
            }
            0
        }
    }

    /// Inserts a new listener into the list and returns its key.
    pub fn insert(&mut self) -> (key: usize)
        requires
            old(self).wf(),
        ensures
            final(self).wf(),
            final(self).order_by() == old(self).order_by(),
            final(self)@ == joined(old(self)@, old(self).order_by(), key),
            !has_key(old(self)@, key),
            key == 0 <==> !old(self).uses_cache(),
            final(self).uses_cache(),
    {
        let ghost before = links_of(self.entries@);
        proof {
            self.lemma_order();
        }
        let (prev, next) = match self.strategy {
            QueueStrategy::Fifo => (self.tail, None),
            QueueStrategy::Lifo => (None, self.head),
        };
        let key = self.place(Entry { state: State::Created, prev, next });
        let ghost placed = self.entries@;
        proof {
            assert(links_of(placed) =~= before.insert(key, Links { prev, next }));
            assert(!before.contains_key(key));
            assert forall|i: int| 0 <= i < self.order@.len() implies self.order@[i] != key by {
                assert(before.contains_key(self.order@[i]));
            }
        }
        match self.strategy {
            QueueStrategy::Fifo => {
                proof {
                    lemma_pushed(old(self)@, key, State::Created);
                    lemma_fifo_prefix(old(self)@, 0);
                    lemma_link_back(self.order@, before, self.head, self.tail, key);
                }
                match replace(&mut self.tail, Some(key)) {
                    None => {
                        self.head = Some(key);
                    },
                    Some(t) => {
                        set_next(&mut self.entries, t, Some(key));
                    },
                }
                if self.start.is_none() {
                    self.start = Some(key);
                }
                proof {
                    assert(links_of(self.entries@) =~= linked_back(before, old(self).tail, key));
                    self.order@ = self.order@.push(key);
                    assert(self@ =~= old(self)@.push((key, State::Created)));
                    lemma_fifo_prefix(self@, 0);
                }
            },
            QueueStrategy::Lifo => {
                proof {
                    lemma_prepended(old(self)@, key, State::Created);
                    lemma_link_front(self.order@, before, self.head, self.tail, key);
                }
                match replace(&mut self.head, Some(key)) {
                    None => {
                        self.tail = Some(key);
                    },
                    Some(h) => {
                        set_prev(&mut self.entries, h, Some(key));
                    },
                }
                self.start = Some(key);
                proof {
                    assert(links_of(self.entries@) =~= linked_front(before, old(self).head, key));
                    self.order@ = self.order@.insert(0, key);
                    assert(self@ =~= old(self)@.insert(0, (key, State::Created)));
                }
            },
        }
        proof {
            assert(self.entries.len() == self.entries@.len());
        }
        self.len = self.len + 1;
        key
    }

    /// The first entry at or after `from` that has no notification yet.
    fn skip_notified(&self, from: Option<usize>, Ghost(at): Ghost<int>) -> (found: Option<usize>)
        requires
            is_chain(self.order@, links_of(self.entries@), self.head, self.tail),
            0 <= at <= self.order@.len(),
            from == key_at(self.order@, at),
        ensures
            found == key_at(self.order@, first_pending_from(self@, at)),
    {
        let mut found = from;
        let ghost mut i = at;
        loop
            invariant
                is_chain(self.order@, links_of(self.entries@), self.head, self.tail),
                0 <= at <= i <= self.order@.len(),
                found == key_at(self.order@, i),
                first_pending_from(self@, at) == first_pending_from(self@, i),
            decreases self.order@.len() - i,
        {
            match found {
                None => {
                    return None;
                },
                Some(key) => {
                    proof {
                        assert(linked_at(self.order@, links_of(self.entries@), i));
                        assert(self.order@.to_set().contains(self.order@[i]));
                        assert(links_of(self.entries@).contains_key(key));
                        assert(self@[i].1 == self.entries@[key as int]->0.state);
                    }
                    match &self.entries[key] {
                        Some(entry) => {
                            if !entry.state.is_notified() {
                                return found;
                            }
                            found = entry.next;
                        },
                        None => {},
                    }
                    proof {
                        i = i + 1;
                    }
                },
            }
        }
    }

    /// Notifies the first listener that has no notification yet, and returns the
    /// task that waits on it.
    fn notify_first(&mut self, key: usize, additional: bool, tag: T) -> (task: Option<Task>)
        requires
            old(self).wf(),
            old(self).start == Some(key),
        ensures
            final(self).wf(),
            final(self).strategy == old(self).strategy,
            final(self).cache_used == old(self).cache_used,
            first_pending(old(self)@) < old(self)@.len(),
            final(self)@ == old(self)@.update(
                first_pending(old(self)@),
                (key, State::Notified { additional, tag }),
            ),
            final(self).notified == old(self).notified + 1,
            task == match old(self)@[first_pending(old(self)@)].1 {
                State::Task(t) => Some(t),
                _ => None,
            },
    {
        let ghost r0 = self@;
        let ghost at = first_pending(r0);
        let ghost links = links_of(self.entries@);
        proof {
            self.lemma_order();
            assert(self.order@[at] == key);
            assert(linked_at(self.order@, links, at));
        }
        let (previous, next) = set_state(
            &mut self.entries,
            key,
            State::Notified { additional, tag },
        );
        proof {
            assert(self@ =~= r0.update(at, (key, State::Notified { additional, tag })));
            lemma_first_notified(r0, additional, tag);
        }
        self.start = self.skip_notified(next, Ghost(at + 1));
        self.notified = self.notified + 1;
        match previous {
            State::Task(task) => Some(task),
            _ => None,
        }
    }

    /// Notifies listeners in order, and adds the tasks that wait on them to
    /// `tasks`. Returns how many listeners were notified.
    pub fn notify_into<N: Notification<Tag = T>, S: TaskSink>(
        &mut self,
        notify: N,
        tasks: &mut S,
    ) -> (count: usize)
        requires
            old(self).wf(),
            has_tags(old(self)@, notify),
        ensures
            final(self).wf(),
            final(self).order_by() == old(self).order_by(),
            final(self).uses_cache() == old(self).uses_cache(),
            carried_out(old(self)@, notify, final(self)@),
            count == granted(old(self)@, notify.asks(), notify.wants_additional()),
            final(tasks).gathered() == old(tasks).gathered() + woken(old(self)@, count as nat),
    {
        let ghost r0 = self@;
        let mut n = notify.count();
        let additional = notify.is_additional();
        let mut rest = notify;
        let ghost mut tags: Seq<T> = Seq::empty();
        let ghost mut steps: Seq<N> = seq![notify];
        proof {
            self.lemma_list();
            lemma_notified_none(r0, additional);
            assert(is_run(steps, tags));
            assert(can_deliver(notify, tags));
            assert(tasks.gathered() + woken(r0, 0) =~= tasks.gathered());
        }
        if !additional {
            if n <= self.notified {
                return 0;
            }
            n = n - self.notified;
        }
        let wanted = n;
        while n > 0
            invariant
                self.wf(),
                self.strategy == old(self).strategy,
                self.cache_used == old(self).cache_used,
                n <= wanted,
                tags.len() == wanted - n,
                tags.len() <= pending_count(r0),
                self@ == with_notified(r0, additional, tags),
                additional == notify.wants_additional(),
                is_run(steps, tags),
                steps[0] == notify,
                steps.last() == rest,
                rest.supplies((granted(r0, notify.asks(), additional) - tags.len()) as nat),
                granted(r0, notify.asks(), additional) == if wanted <= pending_count(r0) {
                    wanted as nat
                } else {
                    pending_count(r0)
                },
                tasks.gathered() == old(tasks).gathered() + woken(r0, tags.len()),
                r0 == old(self)@,
            decreases n,
        {
            n = n - 1;
            proof {
                self.lemma_order();
                lemma_notified(r0, additional, tags);
                lemma_first_pending_from(self@, 0);
                lemma_is_first_pending(self@, first_pending(self@));
            }
            match self.start {
                None => {
                    proof {
                        assert(can_deliver(notify, tags));
                    }
                    return wanted - n - 1;
                },
                Some(key) => {
                    let ghost at = first_pending(self@);
                    proof {
                        lemma_notified_step(r0, additional, tags, r0[at].1->tag, at);
                        assert(rest.supplies(
                            ((granted(r0, notify.asks(), additional) - tags.len() - 1) + 1) as nat,
                        ));
                    }
                    let tag = rest.next_tag();
                    let task = self.notify_first(key, additional, tag);
                    proof {
                        lemma_notified_step(r0, additional, tags, tag, at);
                        lemma_run_step(steps, tags, tag, rest);
                        tags = tags.push(tag);
                        steps = steps.push(rest);
                    }
                    match task {
                        Some(task) => {
                            tasks.accept(task);
                        },
                        None => {},
                    }
                },
            }
        }
        proof {
            assert(can_deliver(notify, tags));
        }
        wanted
    }

    /// Notifies listeners in order, and wakes the tasks that wait on them.
    /// Returns how many listeners were notified.
    pub fn notify<N: Notification<Tag = T>>(&mut self, notify: N) -> (count: usize)
        requires
            old(self).wf(),
            has_tags(old(self)@, notify),
        ensures
            final(self).wf(),
            final(self).order_by() == old(self).order_by(),
            final(self).uses_cache() == old(self).uses_cache(),
            carried_out(old(self)@, notify, final(self)@),
            count == granted(old(self)@, notify.asks(), notify.wants_additional()),
            all_woken(woken(old(self)@, count as nat)),
    {
        let mut tasks = WakeNow::new();
        let count = self.notify_into(notify, &mut tasks);
        tasks.attest();
        proof {
            assert(tasks.gathered() =~= woken(old(self)@, count as nat));
        }
        count
    }

    /// Removes a listener from the list and returns its state.
    pub fn remove(&mut self, key: usize) -> (state: State<T>)
        requires
            old(self).wf(),
            has_key(old(self)@, key),
        ensures
            final(self).wf(),
            final(self).order_by() == old(self).order_by(),
            state == state_of(old(self)@, key),
            !(state is NotifiedTaken),
            final(self)@ == without(old(self)@, key),
            final(self).uses_cache() == (old(self).uses_cache() && key != 0),
    {
        let ghost at = position(self@, key);
        let ghost r0 = self@;
        let ghost before = self.entries@;
        proof {
            self.lemma_order();
            assert(self.order@[at] == key);
            lemma_removed(r0, at);
            lemma_pending_monotonic(r0, 0, r0.len() as int);
            lemma_pending_monotonic(r0.remove(at), 0, r0.len() - 1);
            lemma_removed_first(r0, at);
        }
        let links = join_neighbours(
            &mut self.entries,
            &mut self.head,
            &mut self.tail,
            key,
            Ghost(self.order@),
            Ghost(at),
        );
        let ghost joined = self.entries@;
        let entry = replace(&mut self.entries[key], None);
        let state = match entry {
            Some(entry) => entry.state,
            None => State::NotifiedTaken,
        };
        if key == 0 {
            self.cache_used = false;
        } else {
            self.free.push(key);
        }
        proof {
            assert(links_of(self.entries@) =~= links_of(joined).remove(key));
            lemma_freed(before, self.entries@, old(self).free@, key);
            self.order@ = self.order@.remove(at);
            assert(self@ =~= r0.remove(at));
            assert forall|i: int| 0 <= i < self@.len() implies !((#[trigger] self@[i]).1
                is NotifiedTaken) by {
                let o = if i < at { i } else { i + 1 };
                assert(self@[i] == r0[o]);
            }
        }
        if self.start == Some(key) {
            self.start = self.skip_notified(links.next, Ghost(at));
        }
        if state.is_notified() {
            self.notified = self.notified - 1;
        }
        self.len = self.len - 1;
        state
    }

    /// Registers a task that waits on a listener.
    ///
    /// A listener that already has a notification is removed, and its tag is
    /// returned instead.
    pub fn register(&mut self, key: usize, task: TaskRef) -> (result: RegisterResult<T>)
        requires
            old(self).wf(),
            has_key(old(self)@, key),
        ensures
            final(self).wf(),
            final(self).order_by() == old(self).order_by(),
            registered(old(self)@, key, task, final(self)@, result),
            final(self).uses_cache() == (old(self).uses_cache() && !(key == 0
                && result is Notified)),
    {
        let ghost at = position(self@, key);
        let ghost r0 = self@;
        proof {
            self.lemma_order();
            assert(self.order@[at] == key);
        }
        let taken = match &mut self.entries[key] {
            Some(entry) => take_state(&mut entry.state),
            None => State::NotifiedTaken,
        };
        let waiting = match taken {
            State::NotifiedTaken => {
                proof {
                    assert(self.entries@ =~= old(self).entries@);
                    assert(self@ =~= r0);
                }
                let mut state = self.remove(key);
                match state.take() {
                    Some(tag) => {
                        return RegisterResult::Notified(tag);
                    },
                    None => {
                        return vstd::pervasive::unreached();
                    },
                }
            },
            State::Task(other) => {
                let same = task.will_wake(&other);
                other.keep_or_replace(task, same)
            },
            _ => task.into_task(),
        };
        proof {
            assert(links_of(self.entries@) =~= links_of(old(self).entries@));
            lemma_kept_free(old(self).entries@, self.entries@, self.free@);
        }
        let ghost mid = self.entries@;
        set_state(&mut self.entries, key, State::Task(waiting));
        proof {
            lemma_restated(r0, at, State::Task(waiting));
            assert forall|i: int| 0 <= i < r0.len() implies self@[i] == #[trigger] r0.update(
                at,
                (key, State::Task(waiting)),
            )[i] by {
                if i != at {
                    assert(self.order@[i] != self.order@[at]);
                    assert(mid[self.order@[i] as int] == old(self).entries@[self.order@[i] as int]);
                }
            }
            assert(self@ =~= r0.update(at, (key, State::Task(waiting))));
            match state_of(r0, key) {
                State::Task(other) => {
                    assert(other.may_become(task, waiting));
                },
                _ => {
                    assert(task.copies_to(waiting));
                },
            }
        }
        RegisterResult::Registered
    }

    /// Whether a listener has a notification.
    pub fn is_notified(&self, key: usize) -> (notified: bool)
        requires
            self.wf(),
            has_key(self@, key),
        ensures
            notified == state_of(self@, key).notified(),
            notified == state_of(self@, key) is Notified,
    {
        proof {
            self.lemma_order();
            assert(self.order@[position(self@, key)] == key);
        }
        match &self.entries[key] {
            Some(entry) => entry.state.is_notified(),
            None => false,
        }
    }

    /// The number of listeners.
    pub fn len(&self) -> (len: usize)
        requires
            self.wf(),
        ensures
            len == self@.len(),
    {
        self.len
    }

    /// The number of listeners that have a notification.
    pub fn notified(&self) -> (notified: usize)
        requires
            self.wf(),
        ensures
            notified == notified_count(self@),
    {
        self.notified
    }
}

} // verus!
