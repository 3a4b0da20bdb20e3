//! A list of listeners that keeps its entries in a vector.

use crate::chain::{
    is_chain, key_at, lemma_link_back, lemma_unlink, linked_at, linked_back, with_next, with_prev,
    Links,
};
use crate::notify::{
    can_deliver, carried_out, has_tags, is_run, lemma_run_step, GenericNotify, Notification, OneTag,
};
use crate::roster::{
    all_stay, first_pending, granted, has_key, is_fifo, keys, lemma_carried_out_stay,
    lemma_fifo_prefix, lemma_newcomer, lemma_notified, lemma_notified_none, lemma_notified_step,
    lemma_passed_on, lemma_pushed, lemma_removed, lemma_removed_stay, lemma_restated,
    notified_count, others_stay, pending_count, position, registered, removed, state_of,
    with_notified, without, woken, woken_if, Roster,
};
use crate::state::{RegisterResult, State};
use crate::task::{all_woken, Task, TaskRef, TaskSink, WakeNow};
use crate::util::replace;
use vstd::prelude::*;

verus! {

/// How a listener is known to the list that it belongs to.
#[derive(Clone, Copy, Debug, PartialEq, Eq, Structural)]
pub enum Listener {
    /// It has an entry in the list, with this index.
    HasNode(usize),
    /// It is waiting to be added to the list, under this ticket.
    Queued(u64),
}

/// A slot of the vector.
#[derive(Debug, PartialEq)]
pub enum Entry<T> {
    /// A registered listener.
    Listener {
        /// The state of the listener.
        state: State<T>,
        /// The previous listener in the list.
        prev: Option<usize>,
        /// The next listener in the list.
        next: Option<usize>,
    },
    /// An empty slot, with the index of the next empty slot.
    Empty(usize),
    /// The slot that is never used, so that no listener has the index zero.
    Sentinel,
}

impl<T> Entry<T> {
    /// The neighbours of the listener.
    pub open spec fn links(self) -> Links {
        Links { prev: self->prev, next: self->next }
    }

    /// The state of the listener.
    pub fn state(&self) -> (state: &State<T>)
        requires
            self is Listener,
        ensures
            *state == self->state,
    {
        match self {
            Entry::Listener { state, .. } => state,
            _ => vstd::pervasive::unreached(),
        }
    }

    /// The index of the previous listener in the list.
    pub fn prev(&self) -> (prev: Option<usize>)
        requires
            self is Listener,
        ensures
            prev == self->prev,
    {
        match self {
            Entry::Listener { prev, .. } => *prev,
            _ => vstd::pervasive::unreached(),
        }
    }

    /// The index of the next listener in the list.
    pub fn next(&self) -> (next: Option<usize>)
        requires
            self is Listener,
        ensures
            next == self->next,
    {
        match self {
            Entry::Listener { next, .. } => *next,
            _ => vstd::pervasive::unreached(),
        }
    }
}

/// The links between the listeners of a vector of slots.
pub open spec fn links_of<T>(slots: Seq<Entry<T>>) -> Map<usize, Links> {
    Map::new(
        |k: usize| k < slots.len() && slots[k as int] is Listener,
        |k: usize| slots[k as int].links(),
    )
}

/// The listeners of a vector of slots, in the given order.
pub open spec fn roster_of<T>(slots: Seq<Entry<T>>, order: Seq<usize>) -> Roster<T> {
    Seq::new(order.len(), |i: int| (order[i], slots[order[i] as int]->state))
}

/// The index that follows the `i`th empty slot: the next empty slot, or the
/// number of slots where there is none.
pub open spec fn empty_at(free: Seq<usize>, slots: nat, i: int) -> int {
    if 0 <= i < free.len() {
        free[i] as int
    } else {
        slots as int
    }
}

/// The `i`th empty slot leads to the one after it.
pub open spec fn free_at<T>(slots: Seq<Entry<T>>, free: Seq<usize>, i: int) -> bool {
    &&& free[i] < slots.len()
    &&& slots[free[i] as int] is Empty
    &&& slots[free[i] as int]->Empty_0 == empty_at(free, slots.len(), i + 1)
}

/// The empty slots form a list of their own, in the given order.
pub open spec fn is_free_list<T>(slots: Seq<Entry<T>>, free: Seq<usize>) -> bool {
    &&& free.no_duplicates()
    &&& forall|i: int| 0 <= i < free.len() ==> #[trigger] free_at(slots, free, i)
}

/// Two vectors of slots that differ in nothing but the links of listeners.
pub open spec fn same_but_links<T>(a: Seq<Entry<T>>, b: Seq<Entry<T>>) -> bool {
    &&& a.len() == b.len()
    &&& forall|k: int|
        #![trigger a[k]]
        #![trigger b[k]]
        0 <= k < a.len() ==> if a[k] is Listener {
            b[k] is Listener && b[k]->state == a[k]->state
        } else {
            b[k] == a[k]
        }
}

/// Changes the next listener of an entry.
fn set_next<T>(slots: &mut Vec<Entry<T>>, key: usize, next: Option<usize>)
    requires
        key < old(slots)@.len(),
        old(slots)@[key as int] is Listener,
    ensures
        same_but_links(old(slots)@, final(slots)@),
        links_of(final(slots)@) == with_next(links_of(old(slots)@), Some(key), next),
{
    match &mut slots[key] {
        Entry::Listener { next: link, .. } => {
            *link = next;
        },
        _ => {},
    }
    proof {
        assert(links_of(slots@) =~= with_next(links_of(old(slots)@), Some(key), next));
    }
}

/// Changes the previous listener of an entry.
fn set_prev<T>(slots: &mut Vec<Entry<T>>, key: usize, prev: Option<usize>)
    requires
        key < old(slots)@.len(),
        old(slots)@[key as int] is Listener,
    ensures
        same_but_links(old(slots)@, final(slots)@),
        links_of(final(slots)@) == with_prev(links_of(old(slots)@), Some(key), prev),
{
    match &mut slots[key] {
        Entry::Listener { prev: link, .. } => {
            *link = prev;
        },
        _ => {},
    }
    proof {
        assert(links_of(slots@) =~= with_prev(links_of(old(slots)@), Some(key), prev));
    }
}

/// Joins the neighbours of the listener at position `at` and returns them.
fn join_neighbours<T>(
    slots: &mut Vec<Entry<T>>,
    head: &mut Option<usize>,
    tail: &mut Option<usize>,
    key: usize,
    Ghost(order): Ghost<Seq<usize>>,
    Ghost(at): Ghost<int>,
) -> (links: Links)
    requires
        is_chain(order, links_of(old(slots)@), *old(head), *old(tail)),
        0 <= at < order.len(),
        order[at] == key,
    ensures
        same_but_links(old(slots)@, final(slots)@),
        is_chain(
            order.remove(at),
            links_of(final(slots)@).remove(key),
            *final(head),
            *final(tail),
        ),
        links == (Links { prev: key_at(order, at - 1), next: key_at(order, at + 1) }),
        old(slots)@[key as int] is Listener,
        key < old(slots)@.len(),
{
    let ghost before = links_of(slots@);
    proof {
        lemma_unlink(order, before, *head, *tail, at);
        assert(linked_at(order, before, at));
        assert forall|i: int| 0 <= i < order.len() implies before.contains_key(#[trigger] order[i]) by {
            assert(order.to_set().contains(order[i]));
        }
    }
    let prev = slots[key].prev();
    let next = slots[key].next();
    match prev {
        None => {
            *head = next;
        },
        Some(p) => {
            set_next(slots, p, next);
        },
    }
    match next {
        None => {
            *tail = prev;
        },
        Some(n) => {
            set_prev(slots, n, prev);
        },
    }
    Links { prev, next }
}

/// A list of empty slots stays one where the empty slots stay.
proof fn lemma_free_kept<T>(before: Seq<Entry<T>>, after: Seq<Entry<T>>, free: Seq<usize>)
    requires
        is_free_list(before, free),
        before.len() == after.len(),
        forall|k: int| 0 <= k < before.len() && before[k] is Empty ==> #[trigger] after[k] == before[k],
    ensures
        is_free_list(after, free),
{
    assert forall|i: int| 0 <= i < free.len() implies #[trigger] free_at(after, free, i) by {
        assert(free_at(before, free, i));
    }
}

/// Emptying a slot puts it before the other empty slots.
proof fn lemma_freed<T>(
    before: Seq<Entry<T>>,
    joined: Seq<Entry<T>>,
    free: Seq<usize>,
    key: usize,
    first_empty: usize,
)
    requires
        is_free_list(before, free),
        same_but_links(before, joined),
        key < before.len(),
        before[key as int] is Listener,
        first_empty == empty_at(free, before.len(), 0),
    ensures
        is_free_list(joined.update(key as int, Entry::Empty(first_empty)), seq![key] + free),
{
    let after = joined.update(key as int, Entry::Empty(first_empty));
    let grown = seq![key] + free;
    assert forall|i: int| 0 <= i < grown.len() implies #[trigger] free_at(after, grown, i) by {
        if i > 0 {
            assert(free_at(before, free, i - 1));
        }
    }
    assert forall|i: int, j: int| 0 <= i < j < grown.len() implies grown[i] != grown[j] by {
        assert(free_at(before, free, j - 1));
        if i > 0 {
            assert(grown[i] == free[i - 1]);
        }
    }
}

/// What is left of the state of a listener once its notification was passed on,
/// if it was.
pub open spec fn left_of<T>(state: State<T>, propagate: bool) -> State<T> {
    if propagate && state is Notified {
        State::NotifiedTaken
    } else {
        state
    }
}

/// A linked list of listeners, whose entries stand in a vector.
pub struct ListenerSlab<T> {
    listeners: Vec<Entry<T>>,
    head: Option<usize>,
    tail: Option<usize>,
    start: Option<usize>,
    notified: usize,
    len: usize,
    first_empty: usize,
    order: Ghost<Seq<usize>>,
    free: Ghost<Seq<usize>>,
}

impl<T> View for ListenerSlab<T> {
    type V = Roster<T>;

    closed spec fn view(&self) -> Roster<T> {
        roster_of(self.listeners@, self.order@)
    }
}

impl<T> ListenerSlab<T> {
    /// The empty slots, first to be filled first.
    pub closed spec fn free_slots(&self) -> Seq<usize> {
        self.free@
    }

    /// All slots, the sentinel included.
    pub closed spec fn slots(&self) -> Seq<Entry<T>> {
        self.listeners@
    }

    /// The links, the counters and the list of empty slots are in order.
    pub closed spec fn wf(&self) -> bool {
        &&& self.listeners@.len() == 1 + self.order@.len() + self.free@.len()
        &&& self.listeners@[0] is Sentinel
        &&& forall|k: int| 0 < k < self.listeners@.len() ==> !(#[trigger] self.listeners@[k]
            is Sentinel)
        &&& is_chain(self.order@, links_of(self.listeners@), self.head, self.tail)
        &&& is_free_list(self.listeners@, self.free@)
        &&& self.first_empty == empty_at(self.free@, self.listeners@.len(), 0)
        &&& self.len == self.order@.len()
        &&& is_fifo(self@)
        &&& self.notified == notified_count(self@)
        &&& self.start == key_at(self.order@, self.notified as int)
        &&& forall|i: int| 0 <= i < self@.len() ==> !((#[trigger] self@[i]).1 is NotifiedTaken)
    }

    /// Every listener of the order has a slot of its own.
    proof fn lemma_order(&self)
        requires
            self.wf(),
        ensures
            forall|i: int|
                0 <= i < self.order@.len() ==> 0 < (#[trigger] self.order@[i])
                    < self.listeners@.len() && self.listeners@[self.order@[i] as int] is Listener,
            keys(self@) == self.order@,
            keys(self@).no_duplicates(),
            forall|k: usize| has_key(self@, k) ==> self.order@.contains(k),
    {
        assert forall|i: int| 0 <= i < self.order@.len() implies 0 < (#[trigger] self.order@[i])
            < self.listeners@.len() && self.listeners@[self.order@[i] as int] is Listener by {
            assert(self.order@.to_set().contains(self.order@[i]));
            assert(links_of(self.listeners@).dom().contains(self.order@[i]));
        }
        assert(keys(self@) =~= self.order@);
        assert forall|k: usize| has_key(self@, k) implies self.order@.contains(k) by {
            let i = position(self@, k);
            assert(self.order@[i] == k);
        }
    }

    /// What can be known of the listeners.
    pub proof fn lemma_slab(&self)
        requires
            self.wf(),
        ensures
            keys(self@).no_duplicates(),
            is_fifo(self@),
            0 <= notified_count(self@) <= self@.len(),
            self@.len() + self.free_slots().len() + 1 == self.slots().len(),
            self.slots().len() <= usize::MAX,
            self.free_slots().no_duplicates(),
            forall|i: int|
                0 <= i < self@.len() ==> 0 < (#[trigger] self@[i]).0 < self.slots().len(),
            forall|i: int|
                0 <= i < self.free_slots().len() ==> 0 < #[trigger] self.free_slots()[i]
                    < self.slots().len() && !has_key(self@, self.free_slots()[i]),
            forall|i: int| 0 <= i < self@.len() ==> !((#[trigger] self@[i]).1 is NotifiedTaken),
            self.slots()[0] is Sentinel,
            forall|i: int|
                0 <= i < self@.len() ==> self.slots()[(#[trigger] self@[i]).0 as int] == (
                Entry::Listener {
                    state: self@[i].1,
                    prev: key_at(keys(self@), i - 1),
                    next: key_at(keys(self@), i + 1),
                }),
            is_free_list(self.slots(), self.free_slots()),
    {
        self.lemma_order();
        assert forall|i: int| 0 <= i < self@.len() implies self.slots()[(
        #[trigger] self@[i]).0 as int] == (Entry::Listener {
            state: self@[i].1,
            prev: key_at(keys(self@), i - 1),
            next: key_at(keys(self@), i + 1),
        }) by {
            let links = links_of(self.listeners@);
            assert(linked_at(self.order@, links, i));
            assert(self.listeners@[self.order@[i] as int] is Listener);
            assert(links.contains_key(self.order@[i]));
            assert(links[self.order@[i]] == self.listeners@[self.order@[i] as int].links());
        }
        lemma_fifo_prefix(self@, 0);
        assert(self.listeners.len() == self.listeners@.len());
        assert forall|i: int| 0 <= i < self@.len() implies 0 < (#[trigger] self@[i]).0
            < self.slots().len() by {
            assert(0 < self.order@[i] < self.listeners@.len());
        }
        assert forall|i: int| 0 <= i < self.free@.len() implies 0 < #[trigger] self.free@[i]
            < self.slots().len() && !has_key(self@, self.free@[i]) by {
            assert(free_at(self.listeners@, self.free@, i));
            if has_key(self@, self.free@[i]) {
                let p = position(self@, self.free@[i]);
                assert(self.order@[p] == self.free@[i]);
            }
        }
    }

    /// Creates an empty list.
    pub fn new() -> (list: Self)
        ensures
            list.wf(),
            list@ == Roster::<T>::empty(),
            list.slots() == seq![Entry::<T>::Sentinel],
            list.free_slots() == Seq::<usize>::empty(),
    {
        let mut listeners: Vec<Entry<T>> = Vec::new();
        listeners.push(Entry::Sentinel);
        let list = ListenerSlab {
            listeners,
            head: None,
            tail: None,
            start: None,
            notified: 0,
            len: 0,
            first_empty: 1,
            order: Ghost(Seq::empty()),
            free: Ghost(Seq::empty()),
        };
        proof {
            assert(list.listeners@ =~= seq![Entry::<T>::Sentinel]);
            assert(links_of(list.listeners@).dom() =~= list.order@.to_set());
            assert(list@ =~= Roster::<T>::empty());
        }
        list
    }

    /// Adds a listener behind the others and returns its index.
    ///
    /// The slot is the one that was emptied last, or a new one where none is
    /// empty.
    pub fn insert(&mut self, state: State<T>) -> (key: usize)
        requires
            old(self).wf(),
            !state.notified(),
        ensures
            final(self).wf(),
            final(self)@ == old(self)@.push((key, state)),
            !has_key(old(self)@, key),
            has_key(final(self)@, key),
            state_of(final(self)@, key) == state,
            all_stay(old(self)@, final(self)@),
            key != 0,
            key == empty_at(old(self).free_slots(), old(self).slots().len(), 0),
            old(self).free_slots().len() == 0 ==> final(self).free_slots().len() == 0,
            old(self).free_slots().len() == 0 ==> final(self).slots().len() == old(
                self,
            ).slots().len() + 1,
            old(self).free_slots().len() > 0 ==> final(self).free_slots() == old(
                self,
            ).free_slots().drop_first(),
            old(self).free_slots().len() > 0 ==> final(self).slots().len() == old(
                self,
            ).slots().len(),
    {
        proof {
            self.lemma_order();
            lemma_pushed(self@, self.first_empty, state);
            lemma_fifo_prefix(self@, 0);
            if self.free@.len() > 0 {
                assert(free_at(self.listeners@, self.free@, 0));
            }
        }
        let key = self.first_empty;
        let tail = self.tail;
        let entry = Entry::Listener { state, prev: tail, next: None };
        if self.first_empty == self.listeners.len() {
            self.listeners.push(entry);
            self.first_empty = self.listeners.len();
        } else {
            let previous = replace(&mut self.listeners[key], entry);
            match previous {
                Entry::Empty(next) => {
                    self.first_empty = next;
                },
                _ => {},
            }
        }
        self.tail = Some(key);
        match tail {
            None => {
                self.head = Some(key);
            },
            Some(t) => {
                set_next(&mut self.listeners, t, Some(key));
            },
        }
        if self.start.is_none() {
            self.start = Some(key);
        }
        self.len = self.len + 1;
        proof {
            let before = old(self).listeners@;
            let after = self.listeners@;
            let order = old(self).order@;
            assert(!links_of(before).contains_key(key));
            lemma_link_back(order, links_of(before), old(self).head, old(self).tail, key);
            self.order@ = order.push(key);
            if old(self).free@.len() > 0 {
                self.free@ = old(self).free@.drop_first();
            }
            assert(links_of(after) =~= linked_back(links_of(before), old(self).tail, key));
            assert forall|i: int| 0 <= i < order.len() implies order[i] != key by {
                assert(links_of(before).contains_key(order[i]));
            }
            assert(self@ =~= old(self)@.push((key, state)));
            assert forall|i: int| 0 <= i < self.free@.len() implies #[trigger] free_at(
                after,
                self.free@,
                i,
            ) by {
                assert(free_at(before, old(self).free@, i + 1));
                assert(old(self).free@[0] != old(self).free@[i + 1]);
            }
            lemma_newcomer(old(self)@, old(self)@.len() as int, key, state);
        }
        key
    }

    /// Notifies the first listener that has no notification yet, and returns the
    /// task that waits on it.
    fn notify_first(&mut self, key: usize, additional: bool, tag: T) -> (task: Option<Task>)
        requires
            old(self).wf(),
            old(self).start == Some(key),
        ensures
            final(self).wf(),
            first_pending(old(self)@) < old(self)@.len(),
            final(self)@ == old(self)@.update(
                first_pending(old(self)@),
                (key, State::Notified { additional, tag }),
            ),
            final(self).notified == old(self).notified + 1,
            task == match old(self)@[first_pending(old(self)@)].1 {
                State::Task(t) => Some(t),
                _ => None,
            },
            final(self).free@ == old(self).free@,
            final(self).listeners@.len() == old(self).listeners@.len(),
    {
        let ghost at = self.notified as int;
        proof {
            self.lemma_order();
            lemma_fifo_prefix(self@, 0);
            lemma_notified_none(self@, additional);
            lemma_notified_step(self@, additional, Seq::empty(), tag, at);
            lemma_notified(self@, additional, Seq::<T>::empty().push(tag));
            assert(self.order@[at] == key);
        }
        self.start = self.listeners[key].next();
        let previous = match &mut self.listeners[key] {
            Entry::Listener { state, .. } => replace(state, State::Notified { additional, tag }),
            _ => State::NotifiedTaken,
        };
        self.notified = self.notified + 1;
        proof {
            assert(linked_at(self.order@, links_of(old(self).listeners@), at));
            assert(links_of(self.listeners@) =~= links_of(old(self).listeners@));
            lemma_free_kept(old(self).listeners@, self.listeners@, self.free@);
            assert(self@ =~= old(self)@.update(at, (key, State::Notified { additional, tag })));
        }
        match previous {
            State::Task(task) => Some(task),
            _ => None,
        }
    }

    /// Notifies listeners, first to last, and adds the tasks that wait on them
    /// to `tasks`. Returns how many listeners were notified.
    pub fn notify_into<N: Notification<Tag = T>, S: TaskSink>(
        &mut self,
        notify: N,
        tasks: &mut S,
    ) -> (count: usize)
        requires
            old(self).wf(),
            has_tags(old(self)@, notify),
        ensures
            final(self).wf(),
            carried_out(old(self)@, notify, final(self)@),
            count == granted(old(self)@, notify.asks(), notify.wants_additional()),
            final(tasks).gathered() == old(tasks).gathered() + woken(old(self)@, count as nat),
            all_stay(old(self)@, final(self)@),
            final(self).free_slots() == old(self).free_slots(),
            final(self).slots().len() == old(self).slots().len(),
    {
        let ghost before = self@;
        let count = self.notify_pending(notify, tasks);
        proof {
            old(self).lemma_slab();
            lemma_carried_out_stay(before, notify, self@);
        }
        count
    }

    /// Notifies listeners, first to last, and adds the tasks that wait on them
    /// to `tasks`. Returns how many listeners were notified.
    fn notify_pending<N: Notification<Tag = T>, S: TaskSink>(
        &mut self,
        notify: N,
        tasks: &mut S,
    ) -> (count: usize)
        requires
            old(self).wf(),
            has_tags(old(self)@, notify),
        ensures
            final(self).wf(),
            carried_out(old(self)@, notify, final(self)@),
            count == granted(old(self)@, notify.asks(), notify.wants_additional()),
            final(tasks).gathered() == old(tasks).gathered() + woken(old(self)@, count as nat),
            final(self).free_slots() == old(self).free_slots(),
            final(self).slots().len() == old(self).slots().len(),
    {
        let ghost r0 = self@;
        let mut n = notify.count();
        let additional = notify.is_additional();
        let mut rest = notify;
        let ghost mut tags: Seq<T> = Seq::empty();
        let ghost mut steps: Seq<N> = seq![notify];
        proof {
            lemma_notified_none(r0, additional);
            lemma_fifo_prefix(r0, 0);
            assert(is_run(steps, tags));
            assert(can_deliver(notify, tags));
            assert(tasks.gathered() + woken(r0, 0) =~= tasks.gathered());
        }
        if !additional {
            if n <= self.notified {
                return 0;
            }
            n = n - self.notified;
        }
        let wanted = n;
        while n > 0
            invariant
                self.wf(),
                n <= wanted,
                tags.len() == wanted - n,
                tags.len() <= pending_count(r0),
                self@ == with_notified(r0, additional, tags),
                self.notified == notified_count(r0) + tags.len(),
                additional == notify.wants_additional(),
                wanted == if additional { notify.asks() as int } else { notify.asks() - notified_count(r0) },
                is_run(steps, tags),
                steps[0] == notify,
                steps.last() == rest,
                rest.supplies(
                    (granted(r0, notify.asks(), additional) - tags.len()) as nat,
                ),
                granted(r0, notify.asks(), additional) == if wanted <= pending_count(r0) {
                    wanted as nat
                } else {
                    pending_count(r0)
                },
                tasks.gathered() == old(tasks).gathered() + woken(r0, tags.len()),
                self.free@ == old(self).free@,
                self.listeners@.len() == old(self).listeners@.len(),
                r0 == old(self)@,
            decreases n,
        {
            n = n - 1;
            proof {
                self.lemma_order();
                lemma_fifo_prefix(self@, 0);
                lemma_notified(r0, additional, tags);
            }
            match self.start {
                None => {
                    proof {
                        assert(can_deliver(notify, tags));
                    }
                    return wanted - n - 1;
                },
                Some(key) => {
                    let ghost at = first_pending(self@);
                    proof {
                        assert(rest.supplies(((granted(r0, notify.asks(), additional)
                            - tags.len() - 1) + 1) as nat));
                    }
                    let tag = rest.next_tag();
                    let task = self.notify_first(key, additional, tag);
                    proof {
                        lemma_notified_step(r0, additional, tags, tag, at);
                        lemma_run_step(steps, tags, tag, rest);
                        tags = tags.push(tag);
                        steps = steps.push(rest);
                    }
                    match task {
                        Some(task) => {
                            tasks.accept(task);
                        },
                        None => {},
                    }
                },
            }
        }
        proof {
            assert(can_deliver(notify, tags));
        }
        wanted
    }

    /// Notifies listeners, first to last, and wakes the tasks that wait on them.
    /// Returns how many listeners were notified.
    pub fn notify<N: Notification<Tag = T>>(&mut self, notify: N) -> (count: usize)
        requires
            old(self).wf(),
            has_tags(old(self)@, notify),
        ensures
            final(self).wf(),
            carried_out(old(self)@, notify, final(self)@),
            count == granted(old(self)@, notify.asks(), notify.wants_additional()),
            all_stay(old(self)@, final(self)@),
            all_woken(woken(old(self)@, count as nat)),
            final(self).free_slots() == old(self).free_slots(),
            final(self).slots().len() == old(self).slots().len(),
    {
        let mut tasks = WakeNow::new();
        let count = self.notify_into(notify, &mut tasks);
        tasks.attest();
        proof {
            assert(tasks.gathered() =~= woken(old(self)@, count as nat));
        }
        count
    }

    /// Takes a listener out of the list and returns its state.
    #[verifier::spinoff_prover]
    #[verifier::rlimit(60)]
    fn unlink(&mut self, key: usize) -> (state: State<T>)
        requires
            old(self).wf(),
            has_key(old(self)@, key),
        ensures
            final(self).wf(),
            state == state_of(old(self)@, key),
            !(state is NotifiedTaken),
            final(self)@ == without(old(self)@, key),
            final(self).free@ == seq![key] + old(self).free@,
            final(self).listeners@.len() == old(self).listeners@.len(),
    {
        let ghost at = position(self@, key);
        let ghost r0 = self@;
        proof {
            self.lemma_order();
            assert(self.order@[at] == key);
            lemma_removed(r0, at);
            lemma_fifo_prefix(r0, 0);
        }
        let links = join_neighbours(
            &mut self.listeners,
            &mut self.head,
            &mut self.tail,
            key,
            Ghost(self.order@),
            Ghost(at),
        );
        let ghost joined = self.listeners@;
        if self.start == Some(key) {
            self.start = links.next;
        }
        let entry = replace(&mut self.listeners[key], Entry::Empty(self.first_empty));
        self.first_empty = key;
        let state = match entry {
            Entry::Listener { state, .. } => state,
            _ => State::NotifiedTaken,
        };
        if state.is_notified() {
            self.notified = self.notified.saturating_sub(1);
        }
        self.len = self.len - 1;
        proof {
            let after = self.listeners@;
            assert(after == joined.update(key as int, after[key as int]));
            assert(links_of(after) =~= links_of(joined).remove(key));
            lemma_freed(old(self).listeners@, joined, old(self).free@, key, old(self).first_empty);
            self.order@ = self.order@.remove(at);
            self.free@ = seq![key] + self.free@;
            assert(self@ =~= r0.remove(at));
            lemma_fifo_prefix(self@, 0);
            assert forall|i: int| 0 <= i < self@.len() implies !((#[trigger] self@[i]).1
                is NotifiedTaken) by {
                let o = if i < at { i } else { i + 1 };
                assert(self@[i] == r0[o]);
            }
        }
        state
    }

    /// Removes a listener from the list and returns its state. Puts the tasks to
    /// be woken by that behind those in `tasks`. See [`ListenerSlab::remove`].
    pub fn remove_into<S: TaskSink>(&mut self, key: usize, propagate: bool, tasks: &mut S) -> (state:
        Option<State<T>>)
        requires
            old(self).wf(),
            has_key(old(self)@, key),
        ensures
            final(self).wf(),
            final(self)@ == removed(old(self)@, key, propagate),
            others_stay(old(self)@, final(self)@, key),
            state == Some(left_of(state_of(old(self)@, key), propagate)),
            final(tasks).gathered() == old(tasks).gathered() + woken_if(
                old(self)@,
                key,
                propagate,
            ),
            final(self).free_slots() == seq![key] + old(self).free_slots(),
            final(self).slots().len() == old(self).slots().len(),
    {
        proof {
            self.lemma_slab();
            lemma_removed_stay(self@, key, propagate);
            assert(tasks.gathered() + Seq::<Task>::empty() =~= tasks.gathered());
        }
        let state = self.unlink(key);
        if propagate {
            match state {
                State::Notified { additional, tag } => {
                    let ghost r1 = self@;
                    let notify = GenericNotify::new(1, additional, OneTag { tag: Some(tag) });
                    self.notify_into(notify, tasks);
                    proof {
                        lemma_passed_on(r1, notify, self@);
                    }
                    return Some(State::NotifiedTaken);
                },
                state => {
                    return Some(state);
                },
            }
        }
        Some(state)
    }

    /// Removes a listener from the list and returns its state.
    ///
    /// With `propagate`, a notification that the listener had is passed on to
    /// another one, and the state comes back without its tag.
    pub fn remove(&mut self, key: usize, propagate: bool) -> (state: Option<State<T>>)
        requires
            old(self).wf(),
            has_key(old(self)@, key),
        ensures
            final(self).wf(),
            final(self)@ == removed(old(self)@, key, propagate),
            others_stay(old(self)@, final(self)@, key),
            all_woken(woken_if(old(self)@, key, propagate)),
            state == Some(left_of(state_of(old(self)@, key), propagate)),
            final(self).free_slots() == seq![key] + old(self).free_slots(),
            final(self).slots().len() == old(self).slots().len(),
    {
        let mut tasks = WakeNow::new();
        let state = self.remove_into(key, propagate, &mut tasks);
        tasks.attest();
        proof {
            assert(tasks.gathered() =~= woken_if(old(self)@, key, propagate));
        }
        state
    }

    /// Registers a task that waits on a listener.
    ///
    /// A listener that already has a notification is removed, and its tag is
    /// returned instead.
    pub fn register(&mut self, listener: &mut Option<Listener>, task: TaskRef) -> (result:
        RegisterResult<T>)
        requires
            old(self).wf(),
            *old(listener) matches Some(Listener::HasNode(key)) ==> has_key(old(self)@, key),
        ensures
            final(self).wf(),
            match *old(listener) {
                Some(Listener::HasNode(key)) => registered(
                    old(self)@,
                    key,
                    task,
                    final(self)@,
                    result,
                ) && *final(listener) == (if result is Notified {
                    None
                } else {
                    *old(listener)
                }),
                _ => result is NeverInserted && final(self)@ == old(self)@ && *final(listener)
                    == *old(listener),
            },
            final(self).slots().len() == old(self).slots().len(),
            final(self).free_slots() == if result is Notified {
                seq![old(listener)->0->HasNode_0] + old(self).free_slots()
            } else {
                old(self).free_slots()
            },
    {
        let key = match listener {
            Some(Listener::HasNode(key)) => *key,
            _ => {
                return RegisterResult::NeverInserted;
            },
        };
        let ghost at = position(self@, key);
        let ghost r0 = self@;
        proof {
            self.lemma_order();
            assert(self.order@[at] == key);
        }
        if self.listeners[key].state().is_notified() {
            let state = self.unlink(key);
            *listener = None;
            match state {
                State::Notified { tag, .. } => {
                    return RegisterResult::Notified(tag);
                },
                _ => {
                    return vstd::pervasive::unreached();
                },
            }
        }
        let previous = match &mut self.listeners[key] {
            Entry::Listener { state, .. } => replace(state, State::NotifiedTaken),
            _ => State::NotifiedTaken,
        };
        let waiting = match previous {
            State::Task(other) => {
                let same = task.will_wake(&other);
                other.keep_or_replace(task, same)
            },
            _ => task.into_task(),
        };
        match &mut self.listeners[key] {
            Entry::Listener { state, .. } => {
                *state = State::Task(waiting);
            },
            _ => {},
        }
        proof {
            lemma_restated(r0, at, State::Task(waiting));
            assert(links_of(self.listeners@) =~= links_of(old(self).listeners@));
            lemma_free_kept(old(self).listeners@, self.listeners@, self.free@);
            assert(self@ =~= r0.update(at, (key, State::Task(waiting))));
            match state_of(r0, key) {
                State::Task(other) => {
                    assert(other.may_become(task, waiting));
                },
                _ => {
                    assert(task.copies_to(waiting));
                },
            }
        }
        RegisterResult::Registered
    }

    /// The number of listeners.
    pub fn len(&self) -> (len: usize)
        requires
            self.wf(),
        ensures
            len == self@.len(),
    {
        self.len
    }

    /// The number of listeners that have a notification.
    pub fn notified(&self) -> (notified: usize)
        requires
            self.wf(),
        ensures
            notified == notified_count(self@),
    {
        self.notified
    }

    /// The first listener.
    pub fn head(&self) -> (head: Option<usize>)
        requires
            self.wf(),
        ensures
            head == key_at(keys(self@), 0),
    {
        proof {
            self.lemma_order();
        }
        self.head
    }

    /// The last listener.
    pub fn tail(&self) -> (tail: Option<usize>)
        requires
            self.wf(),
        ensures
            tail == key_at(keys(self@), keys(self@).len() - 1),
    {
        proof {
            self.lemma_order();
        }
        self.tail
    }

    /// The first listener that has no notification yet.
    pub fn start(&self) -> (start: Option<usize>)
        requires
            self.wf(),
        ensures
            start == key_at(keys(self@), first_pending(self@)),
    {
        proof {
            self.lemma_order();
            lemma_fifo_prefix(self@, 0);
        }
        self.start
    }

    /// The slot that the next listener will have.
    pub fn first_empty(&self) -> (first_empty: usize)
        requires
            self.wf(),
        ensures
            first_empty == empty_at(self.free_slots(), self.slots().len(), 0),
    {
        self.first_empty
    }

    /// The slot with the given index.
    pub fn entry(&self, index: usize) -> (entry: &Entry<T>)
        requires
            index < self.slots().len(),
        ensures
            *entry == self.slots()[index as int],
    {
        &self.listeners[index]
    }
}

} // verus!
