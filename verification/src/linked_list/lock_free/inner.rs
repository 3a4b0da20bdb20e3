//! The list of listeners in slots that never move, and its operations.
//!
//! Exclusive access stands for one thread running an operation from start to
//! end, with no other one interfering.

use crate::chain::{
    is_chain, key_at, lemma_link_back, lemma_unlink, linked_at, linked_back, unlinked, Links,
};
use crate::linked_list::lock_free::indexes::{is_with, wrapped_sum, Indexes};
use crate::linked_list::lock_free::link::{
    blank, flags, lemma_clear, lemma_occupied, waiting_state, Link, ADDITIONAL, NOTIFIED, NOTIFYING, OCCUPIED,
};
use crate::linked_list::lock_free::slots::Slots;
use crate::notify::{untagged, GenericNotify, Notification, NothingProducer};
use crate::roster::{
    all_stay, granted, has_key, is_at, is_fifo, is_pollable, keys, lemma_fifo_prefix,
    lemma_is_first_pending, lemma_newcomer, lemma_notified, lemma_notified_none,
    lemma_notified_stay, lemma_notified_step, lemma_pending_monotonic, lemma_pushed, lemma_removed,
    lemma_removed_stay, lemma_restated, lemma_restated_stay, lemma_without_keys, notified_count,
    others_stay,
    pending_before, position, registered, state_of, with_notified, with_state, without, woken,
    Roster,
};
use crate::state::{RegisterResult, State};
use crate::task::{all_woken, Task, TaskRef, TaskSink, WakeNow};
use crate::wakeups::{
    exactly_the_told_are_woken_untagged, notification_comes_to, told_by_two, told_tasks,
};
use std::task::Waker;
use vstd::prelude::*;

verus! {

/// The index that a word holds: zero stands for none.
pub open spec fn index_in(word: usize) -> Option<usize> {
    if word == 0 {
        None
    } else {
        Some(word)
    }
}

/// Writes `new` if the word is `current`. Returns what the word was.
fn compare_exchange(word: &mut usize, current: usize, new: usize) -> (previous: usize)
    ensures
        previous == *old(word),
        *final(word) == if previous == current { new } else { previous },
{
    let previous = *word;
    if previous == current {
        *word = new;
    }
    previous
}

/// What a listener that was just removed had received.
#[derive(Clone, Copy, Debug, PartialEq, Eq, Structural)]
pub enum NotificationState {
    /// No notification.
    Unnotified,
    /// A plain notification.
    Notified,
    /// An additional notification.
    NotifiedAdditional,
}

/// What a listener in the given state has received.
pub open spec fn received(state: State<()>) -> NotificationState {
    match state {
        State::Notified { additional, .. } => if additional {
            NotificationState::NotifiedAdditional
        } else {
            NotificationState::Notified
        },
        _ => NotificationState::Unnotified,
    }
}

/// A listener of a lock-free list.
#[derive(Debug)]
pub struct Listener {
    /// The index of the listener's slot, until the listener is removed.
    pub index: Option<usize>,
}

/// A linked list of listeners in slots that never move.
pub struct Inner {
    slots: Slots,
    indexes: Indexes,
    head: usize,
    tail: usize,
    notifying: bool,
    standard_notify: usize,
    additional_notify: usize,
    order: Ghost<Seq<usize>>,
}

/// The neighbours of the listeners in `order`, as the slots have them.
pub open spec fn links_of(slots: &Slots, order: Seq<usize>) -> Map<usize, Links> {
    Map::new(
        |k: usize| order.to_set().contains(k),
        |k: usize|
            Links {
                prev: index_in(slots.link(k as nat).prev),
                next: index_in(slots.link(k as nat).next),
            },
    )
}

/// A slot belongs to a listener, and nobody is in the middle of changing it. The
/// waker of a notified listener is gone.
pub open spec fn at_rest(link: Link) -> bool {
    let f = flags(link.state);
    &&& f.occupied && !f.registering && !f.notifying
    &&& f.additional ==> f.notified
    &&& f.notified ==> link.waker is None
}

/// The slot of the listener at position `i` is at rest.
pub open spec fn settled(slots: &Slots, order: Seq<usize>, i: int) -> bool {
    at_rest(slots.link(order[i] as nat))
}

/// The listeners in `order`, with their states.
pub open spec fn roster_of(slots: &Slots, order: Seq<usize>) -> Roster<()> {
    Seq::new(order.len(), |i: int| (order[i], slots.link(order[i] as nat).listener_state()))
}

/// What the slots say of the listeners depends on nothing but the links.
proof fn lemma_same_links(a: &Slots, b: &Slots, order: Seq<usize>)
    requires
        forall|i: int|
            0 <= i < order.len() ==> b.link(order[i] as nat) == a.link(#[trigger] order[i] as nat),
    ensures
        links_of(a, order) == links_of(b, order),
        roster_of(a, order) == roster_of(b, order),
        forall|i: int|
            0 <= i < order.len() ==> #[trigger] settled(b, order, i) == settled(a, order, i),
{
    assert forall|k: usize| order.to_set().contains(k) implies a.link(k as nat) == b.link(
        k as nat,
    ) by {
        let i = choose|i: int| 0 <= i < order.len() && order[i] == k;
    }
    assert(links_of(a, order) =~= links_of(b, order));
    assert(roster_of(a, order) =~= roster_of(b, order));
}

/// What the neighbours of a listener are.
proof fn lemma_links(slots: &Slots, order: Seq<usize>)
    ensures
        forall|i: int|
            0 <= i < order.len() ==> links_of(slots, order)[#[trigger] order[i]] == (Links {
                prev: index_in(slots.link(order[i] as nat).prev),
                next: index_in(slots.link(order[i] as nat).next),
            }),
        forall|k: usize| #[trigger]
            links_of(slots, order).contains_key(k) <==> order.contains(k),
{
    assert forall|i: int| 0 <= i < order.len() implies order.to_set().contains(
        #[trigger] order[i],
    ) by {}
}

/// The slots that belong to none of the given listeners hold in `after` what they
/// held in `before`.
pub open spec fn unused_kept(before: &Inner, after: &Inner, r: Roster<()>) -> bool {
    forall|i: usize|
        i < usize::MAX && !has_key(r, i) ==> #[trigger] after.content(i) == before.content(i)
}

/// The slots of the same listeners as before may have changed, and no others.
spec fn untouched(before: Inner, after: Inner) -> bool {
    &&& after.order == before.order
    &&& forall|i: nat|
        i < usize::MAX && !before.order@.contains(i as usize) ==> #[trigger] after.slots.link(i)
            == before.slots.link(i)
}

/// Which slots belong to listeners.
proof fn lemma_used(inner: &Inner)
    ensures
        forall|k: usize| #[trigger] has_key(inner@, k) <==> inner.order@.contains(k),
{
    assert forall|k: usize| #[trigger] has_key(inner@, k) <==> inner.order@.contains(k) by {
        if has_key(inner@, k) {
            let i = position(inner@, k);
            assert(inner.order@[i] == k);
        }
        if inner.order@.contains(k) {
            let i = inner.order@.index_of(k);
            assert(is_at(inner@, k, i));
        }
    }
}

/// An index was given back, unless somebody kept the given back indexes: then it
/// is lost.
pub open spec fn gave_back(before: Indexes, after: Indexes, index: usize) -> bool {
    &&& before.busy() ==> after.given_back() == before.given_back()
    &&& !before.busy() ==> is_with(before.given_back(), index, after.given_back())
}

impl View for Inner {
    type V = Roster<()>;

    closed spec fn view(&self) -> Roster<()> {
        roster_of(&self.slots, self.order@)
    }
}

impl Inner {
    /// Indexes that are free.
    pub closed spec fn indexes(&self) -> Indexes {
        self.indexes
    }

    /// The slot with the given index.
    pub closed spec fn slot(&self, index: usize) -> Link {
        self.slots.link(index as nat)
    }

    /// What is in a slot apart from its neighbours: the state word and the waker.
    pub open spec fn content(&self, index: usize) -> (usize, Option<Waker>) {
        (self.slot(index).state, self.slot(index).waker)
    }

    /// What is in a slot once its listener is removed: the slot is not occupied
    /// any more.
    pub open spec fn vacated(&self, index: usize) -> (usize, Option<Waker>) {
        (self.slot(index).state & !OCCUPIED, self.slot(index).waker)
    }

    /// Whether somebody is the notifier.
    pub closed spec fn has_notifier(&self) -> bool {
        self.notifying
    }

    /// The number of plain notifications that the notifier has yet to see.
    pub closed spec fn standard(&self) -> usize {
        self.standard_notify
    }

    /// The number of additional notifications that the notifier has yet to see.
    pub closed spec fn additional(&self) -> usize {
        self.additional_notify
    }

    spec fn indexes_wf(&self) -> bool {
        &&& self.indexes.wf()
        &&& 1 <= self.indexes.next_new()
        &&& self.indexes.given_back().no_duplicates()
        &&& forall|i: int|
            0 <= i < self.indexes.given_back().len() ==> 1 <= #[trigger] self.indexes.given_back()[i]
                < self.indexes.next_new()
        &&& forall|i: int|
            0 <= i < self.indexes.given_back().len() ==> !self.order@.contains(
                #[trigger] self.indexes.given_back()[i],
            )
        &&& forall|i: int|
            0 <= i < self.order@.len() ==> 1 <= #[trigger] self.order@[i] < self.indexes.next_new()
        &&& forall|i: nat|
            self.indexes.next_new() <= i < usize::MAX ==> #[trigger] self.slots.link(i)
                == blank()
    }

    spec fn chain_wf(&self) -> bool {
        &&& is_chain(
            self.order@,
            links_of(&self.slots, self.order@),
            index_in(self.head),
            index_in(self.tail),
        )
        &&& forall|i: int| 0 <= i < self.order@.len() ==> settled(&self.slots, self.order@, i)
    }

    /// The slots form one list, the free indexes belong to nobody, and the
    /// notified listeners come first.
    pub closed spec fn wf(&self) -> bool {
        &&& self.slots.wf()
        &&& self.indexes_wf()
        &&& self.chain_wf()
        &&& is_fifo(self@)
    }

    /// Creates a list without listeners.
    pub fn new() -> (inner: Self)
        ensures
            inner.wf(),
            inner@ == Roster::<()>::empty(),
            forall|i: usize| i < usize::MAX ==> #[trigger] inner.slot(i) == blank(),
            !inner.has_notifier(),
            inner.standard() == 0,
            inner.additional() == 0,
            !inner.indexes().busy(),
            inner.indexes().given_back() == Seq::<usize>::empty(),
            inner.indexes().next_new() == 1,
    {
        let inner = Inner {
            slots: Slots::new(),
            indexes: Indexes::new(),
            head: 0,
            tail: 0,
            notifying: false,
            standard_notify: 0,
            additional_notify: 0,
            order: Ghost(Seq::empty()),
        };
        proof {
            assert(links_of(&inner.slots, inner.order@).dom() =~= inner.order@.to_set());
            assert(inner@ =~= Roster::<()>::empty());
        }
        inner
    }

    /// There is never enough information to tell for sure, so the answer is yes.
    pub fn notifyable(&self, _limit: usize) -> (b: bool)
        ensures
            b,
    {
        true
    }

    /// How many of the first `n` given back indexes are left once those whose
    /// slots are still being notified are passed over, lowest first.
    pub open spec fn usable(&self, n: nat) -> nat
        decreases n,
    {
        if n > 0 && flags(self.slot(self.indexes().given_back()[n - 1]).state).notifying {
            self.usable((n - 1) as nat)
        } else {
            n
        }
    }

    /// The index of the next listener's slot: the lowest given back one whose
    /// slot is not being notified any more, or a new one.
    pub open spec fn next_index(&self) -> usize {
        let left = self.usable(self.indexes().given_back().len());
        if self.indexes().busy() || left == 0 {
            self.indexes().next_new()
        } else {
            self.indexes().given_back()[left - 1]
        }
    }

    /// The indexes that can be handed out again once the next listener has its
    /// slot.
    pub open spec fn left_over(&self) -> Seq<usize> {
        let left = self.usable(self.indexes().given_back().len());
        if self.indexes().busy() {
            self.indexes().given_back()
        } else if left == 0 {
            Seq::empty()
        } else {
            self.indexes().given_back().take(left - 1)
        }
    }

    /// Finds a free slot for a listener.
    fn allocate_slot(&mut self) -> (index: usize)
        requires
            old(self).wf(),
            old(self).next_index() < usize::MAX,
        ensures
            final(self).wf(),
            final(self)@ == old(self)@,
            index == old(self).next_index(),
            1 <= index < final(self).indexes().next_new(),
            !final(self).order@.contains(index),
            !final(self).indexes().given_back().contains(index),
            final(self).indexes().busy() == old(self).indexes().busy(),
            final(self).indexes().given_back() == old(self).left_over(),
            final(self).indexes().next_new() == if index == old(self).indexes().next_new() {
                index + 1
            } else {
                old(self).indexes().next_new() as int
            },
            forall|i: nat|
                i < usize::MAX ==> #[trigger] final(self).slots.link(i) == old(
                    self,
                ).slots.link(i),
            final(self).order == old(self).order,
            final(self).head == old(self).head,
            final(self).tail == old(self).tail,
            final(self).notifying == old(self).notifying,
            final(self).standard_notify == old(self).standard_notify,
            final(self).additional_notify == old(self).additional_notify,
    {
        let ghost before = *self;
        let ghost all = self.indexes.given_back();
        let ghost mut left: nat = all.len();
        loop
            invariant
                self.wf(),
                before.wf(),
                before == *old(self),
                all == before.indexes.given_back(),
                self.indexes.busy() == before.indexes.busy(),
                self.indexes.busy() ==> left == all.len(),
                left <= all.len(),
                self.indexes.given_back() == all.take(left as int),
                before.usable(all.len()) == before.usable(left),
                self.indexes.next_new() == before.indexes.next_new(),
                before.next_index() < usize::MAX,
                forall|i: nat|
                    i < usize::MAX ==> #[trigger] self.slots.link(i) == before.slots.link(i),
                self@ == before@,
                self.order == before.order,
                self.head == before.head,
                self.tail == before.tail,
                self.notifying == before.notifying,
                self.standard_notify == before.standard_notify,
                self.additional_notify == before.additional_notify,
            decreases left,
        {
            let ghost back = self.indexes.given_back();
            let index = self.indexes.allocate();
            proof {
                if !before.indexes.busy() && left > 0 {
                    assert(back[left - 1] == all[left - 1]);
                    assert(back.drop_last() =~= all.take(left - 1));
                } else if !before.indexes.busy() {
                    assert(all.take(0) =~= Seq::<usize>::empty());
                } else {
                    assert(all.take(left as int) =~= all);
                }
            }
            let word = self.slots.get(index).state;
            proof {
                lemma_same_links(&before.slots, &self.slots, self.order@);
                lemma_occupied();
            }
            if word & NOTIFYING == 0 {
                return index;
            }
            proof {
                left = (left - 1) as nat;
            }
        }
    }

    /// Links a slot that is set up in behind the last listener.
    fn append(&mut self, index: usize)
        requires
            old(self).wf(),
            1 <= index < old(self).indexes().next_new(),
            !old(self).order@.contains(index),
            !old(self).indexes().given_back().contains(index),
            old(self).slot(index).state == OCCUPIED,
            old(self).slot(index).next == 0,
        ensures
            final(self).wf(),
            final(self)@ == old(self)@.push((index, waiting_state(old(self).slot(index).waker))),
            forall|i: usize|
                i < usize::MAX ==> #[trigger] final(self).content(i) == old(self).content(i),
            final(self).indexes == old(self).indexes,
            final(self).notifying == old(self).notifying,
            final(self).standard_notify == old(self).standard_notify,
            final(self).additional_notify == old(self).additional_notify,
    {
        let ghost before = *self;
        let ghost order = self.order@;
        let ghost links = links_of(&self.slots, order);
        let mut tail = self.tail;
        self.slots.get(index).prev = tail;
        loop
            invariant_except_break
                tail == before.tail,
                self.head == before.head,
                self.tail == before.tail,
                forall|i: nat|
                    i != index && i < usize::MAX ==> #[trigger] self.slots.link(i)
                        == before.slots.link(i),
            invariant
                before.wf(),
                before == *old(self),
                order == before.order@,
                links == links_of(&before.slots, order),
                1 <= index < before.indexes.next_new(),
                !order.contains(index),
                !before.indexes.given_back().contains(index),
                before.slot(index).state == OCCUPIED,
                before.slot(index).next == 0,
                self.slots.wf(),
                self.order == before.order,
                self.indexes == before.indexes,
                self.notifying == before.notifying,
                self.standard_notify == before.standard_notify,
                self.additional_notify == before.additional_notify,
                self.slots.link(index as nat) == (Link { prev: tail, ..before.slot(index) }),
            ensures
                tail == before.tail,
                self.head == if tail == 0 { index } else { before.head },
                self.tail == index,
                tail != 0 ==> self.slots.link(tail as nat) == (Link {
                    next: index,
                    ..before.slot(tail)
                }),
                forall|i: nat|
                    i != index && (tail == 0 || i != tail) && i < usize::MAX
                        ==> #[trigger] self.slots.link(i) == before.slots.link(i),
            decreases 0int,
        {
            proof {
                lemma_links(&before.slots, order);
                if order.len() > 0 {
                    assert(linked_at(order, links, order.len() - 1));
                    assert(order.contains(order.last()));
                }
            }
            // With nobody else appending, the first attempt succeeds.
            if tail == 0 {
                let old_head = compare_exchange(&mut self.head, 0, index);
                if old_head == 0 {
                    self.tail = index;
                    break;
                }
                tail = old_head;
                self.slots.get(index).prev = tail;
            } else {
                let old_next = compare_exchange(&mut self.slots.get(tail).next, 0, index);
                if old_next == 0 {
                    compare_exchange(&mut self.tail, tail, index);
                    break;
                }
                tail = old_next;
                self.slots.get(index).prev = tail;
            }
        }
        proof {
            let grown = order.push(index);
            self.order@ = grown;
            lemma_links(&before.slots, order);
            lemma_links(&self.slots, grown);
            lemma_link_back(order, links, index_in(before.head), index_in(tail), index);
            if order.len() > 0 {
                assert(linked_at(order, links, order.len() - 1));
                assert(order.contains(order.last()));
                assert(tail == order.last());
            }
            lemma_occupied();
            assert forall|i: int| 0 <= i < grown.len() implies #[trigger] settled(
                &self.slots,
                grown,
                i,
            ) && self@[i] == before@.push((index, waiting_state(before.slot(index).waker)))[i] by {
                if i < order.len() {
                    assert(order.contains(order[i]));
                    assert(settled(&before.slots, order, i));
                }
            }
            assert forall|k: usize| grown.contains(k) <==> k == index || order.contains(k) by {
                if order.contains(k) {
                    let i = choose|i: int| 0 <= i < order.len() && order[i] == k;
                    assert(grown[i] == k);
                }
                assert(grown[order.len() as int] == index);
            }
            assert(links_of(&self.slots, grown) =~= linked_back(links, index_in(tail), index));
            assert(self@ =~= before@.push((index, waiting_state(before.slot(index).waker))));
            lemma_pushed(before@, index, waiting_state(before.slot(index).waker));
        }
    }

    /// Creates a listener. A waker that was left in its slot stays there.
    pub fn listen(&mut self) -> (listener: Listener)
        requires
            old(self).wf(),
            old(self).next_index() < usize::MAX,
        ensures
            final(self).wf(),
            listener.index == Some(old(self).next_index()),
            !has_key(old(self)@, old(self).next_index()),
            final(self)@ == old(self)@.push(
                (
                    old(self).next_index(),
                    waiting_state(old(self).slot(old(self).next_index()).waker),
                ),
            ),
            has_key(final(self)@, old(self).next_index()),
            all_stay(old(self)@, final(self)@),
            state_of(final(self)@, old(self).next_index()) == waiting_state(
                old(self).slot(old(self).next_index()).waker,
            ),
            unused_kept(old(self), final(self), final(self)@),
            final(self).indexes().busy() == old(self).indexes().busy(),
            final(self).indexes().given_back() == old(self).left_over(),
            final(self).indexes().next_new() == if old(self).next_index() == old(
                self,
            ).indexes().next_new() {
                old(self).indexes().next_new() + 1
            } else {
                old(self).indexes().next_new() as int
            },
            final(self).has_notifier() == old(self).has_notifier(),
            final(self).standard() == old(self).standard(),
            final(self).additional() == old(self).additional(),
    {
        let index = self.allocate_slot();
        let ghost before = *self;
        proof {
            assert forall|i: usize| i < usize::MAX implies #[trigger] self.content(i) == old(
                self,
            ).content(i) by {
                assert(self.slots.link(i as nat) == old(self).slots.link(i as nat));
            }
        }
        let slot = self.slots.get(index);
        slot.state = OCCUPIED;
        slot.next = 0;
        proof {
            let order = self.order@;
            assert forall|i: int| 0 <= i < order.len() implies self.slots.link(order[i] as nat)
                == before.slots.link(#[trigger] order[i] as nat) by {
                assert(order.contains(order[i]));
            }
            lemma_same_links(&before.slots, &self.slots, order);
            assert forall|i: int| 0 <= i < order.len() implies settled(&self.slots, order, i) by {
                assert(settled(&before.slots, order, i));
            }
            assert(!has_key(before@, index)) by {
                if has_key(before@, index) {
                    let i = position(before@, index);
                    assert(order[i] == index);
                }
            }
        }
        let ghost set_up = *self;
        self.append(index);
        proof {
            assert forall|i: usize|
                i < usize::MAX && !has_key(self@, i) implies #[trigger] self.content(i) == old(
                self,
            ).content(i) by {
                assert(is_at(self@, index, before@.len() as int));
                assert(has_key(self@, index));
                assert(set_up.slots.link(i as nat) == before.slots.link(i as nat));
                assert(set_up.content(i) == before.content(i));
            }
            before.lemma_inner();
            lemma_newcomer(
                before@,
                before@.len() as int,
                index,
                waiting_state(before.slot(index).waker),
            );
        }
        Listener { index: Some(index) }
    }

    /// Joins the neighbours of a slot.
    fn join_neighbours(&mut self, prev: usize, next: usize)
        requires
            old(self).slots.wf(),
            prev < usize::MAX,
            next < usize::MAX,
            prev == next ==> prev == 0,
        ensures
            final(self).slots.wf(),
            final(self).head == if prev == 0 { next } else { old(self).head },
            final(self).tail == if next == 0 { prev } else { old(self).tail },
            forall|i: nat|
                i < usize::MAX ==> #[trigger] final(self).slots.link(i) == (if i == prev && i
                    != 0 {
                    Link { next, ..old(self).slots.link(i) }
                } else if i == next && i != 0 {
                    Link { prev, ..old(self).slots.link(i) }
                } else {
                    old(self).slots.link(i)
                }),
            final(self).indexes == old(self).indexes,
            final(self).order == old(self).order,
            final(self).notifying == old(self).notifying,
            final(self).standard_notify == old(self).standard_notify,
            final(self).additional_notify == old(self).additional_notify,
    {
        if prev == 0 {
            self.head = next;
        } else {
            self.slots.get(prev).next = next;
        }
        if next == 0 {
            self.tail = prev;
        } else {
            self.slots.get(next).prev = prev;
        }
    }

    /// Takes a slot out of the list. Returns its state word.
    fn unlink(&mut self, index: usize, Ghost(at): Ghost<int>) -> (word: usize)
        requires
            old(self).wf(),
            0 <= at < old(self).order@.len(),
            old(self).order@[at] == index,
        ensures
            final(self).slots.wf(),
            final(self).chain_wf(),
            final(self)@ == old(self)@.remove(at),
            final(self).order@ == old(self).order@.remove(at),
            word == old(self).slot(index).state,
            final(self).content(index) == old(self).vacated(index),
            forall|i: usize|
                i < usize::MAX && i != index ==> #[trigger] final(self).content(i) == old(
                    self,
                ).content(i),
            final(self).indexes == old(self).indexes,
            forall|i: nat|
                final(self).indexes.next_new() <= i < usize::MAX
                    ==> #[trigger] final(self).slots.link(i) == old(self).slots.link(i),
            final(self).notifying == old(self).notifying,
            final(self).standard_notify == old(self).standard_notify,
            final(self).additional_notify == old(self).additional_notify,
    {
        let ghost before = *self;
        let ghost order = self.order@;
        let ghost links = links_of(&self.slots, order);
        proof {
            lemma_links(&before.slots, order);
            assert(linked_at(order, links, at));
        }
        let slot = self.slots.get(index);
        let word = slot.state;
        slot.state = word & !OCCUPIED;
        let prev = slot.prev;
        slot.prev = 0;
        let next = slot.next;
        self.join_neighbours(prev, next);
        proof {
            let rest = order.remove(at);
            self.order@ = rest;
            lemma_unlink(order, links, index_in(before.head), index_in(before.tail), at);
            lemma_links(&self.slots, rest);
            assert forall|i: int| 0 <= i < rest.len() implies #[trigger] settled(
                &self.slots,
                rest,
                i,
            ) && self@[i] == before@.remove(at)[i] by {
                let o = if i < at { i } else { i + 1 };
                assert(rest[i] == order[o]);
                assert(settled(&before.slots, order, o));
            }
            assert forall|k: usize| rest.contains(k) <==> k != index && order.contains(k) by {
                if rest.contains(k) {
                    let i = choose|i: int| 0 <= i < rest.len() && rest[i] == k;
                    let o = if i < at { i } else { i + 1 };
                    assert(order[o] == k);
                }
                if order.contains(k) && k != index {
                    let o = choose|o: int| 0 <= o < order.len() && order[o] == k;
                    let i = if o < at { o } else { o - 1 };
                    assert(rest[i] == k);
                }
            }
            assert(links_of(&self.slots, rest) =~= unlinked(links, index));
            assert(self@ =~= before@.remove(at));
        }
        word
    }

    /// What can be known of the listeners of the list.
    pub proof fn lemma_inner(&self)
        requires
            self.wf(),
        ensures
            keys(self@).no_duplicates(),
            is_fifo(self@),
            self@.len() < usize::MAX,
            forall|i: int|
                0 <= i < self@.len() ==> 1 <= (#[trigger] self@[i]).0 < self.indexes().next_new(),
            forall|i: int| 0 <= i < self@.len() ==> !((#[trigger] self@[i]).1 is NotifiedTaken),
            forall|i: int|
                0 <= i < self@.len() ==> !((#[trigger] self@[i]).1 matches State::Task(
                    Task::Unparker(_),
                )),
            forall|i: int|
                0 <= i < self@.len() ==> at_rest(self.slot((#[trigger] self@[i]).0)) && self.slot(
                    self@[i].0,
                ).listener_state() == self@[i].1,
    {
        assert forall|i: int| 0 <= i < self@.len() implies at_rest(
            self.slot((#[trigger] self@[i]).0),
        ) by {
            assert(settled(&self.slots, self.order@, i));
        }
        assert(keys(self@) =~= self.order@);
        lemma_bounded(self.order@, self.indexes.next_new());
    }

    /// Removes a listener. Returns what it had received.
    fn take(&mut self, listener: &mut Listener) -> (state: NotificationState)
        requires
            old(self).wf(),
            old(listener).index matches Some(key) ==> has_key(old(self)@, key),
        ensures
            final(self).wf(),
            final(listener).index is None,
            match old(listener).index {
                Some(key) => {
                    &&& final(self)@ == without(old(self)@, key)
                    &&& others_stay(old(self)@, final(self)@, key)
                    &&& state == received(state_of(old(self)@, key))
                    &&& final(self).content(key) == old(self).vacated(key)
                    &&& gave_back(old(self).indexes(), final(self).indexes(), key)
                },
                None => {
                    &&& final(self)@ == old(self)@
                    &&& state is Unnotified
                    &&& final(self).indexes() == old(self).indexes()
                },
            },
            unused_kept(old(self), final(self), old(self)@),
            final(self).indexes().busy() == old(self).indexes().busy(),
            final(self).indexes().next_new() == old(self).indexes().next_new(),
            final(self).has_notifier() == old(self).has_notifier(),
            final(self).standard() == old(self).standard(),
            final(self).additional() == old(self).additional(),
    {
        let index = match listener.index.take() {
            Some(index) => index,
            None => return NotificationState::Unnotified,
        };
        let ghost before = *self;
        let ghost at = position(self@, index);
        let word = self.unlink(index, Ghost(at));
        let ghost joined = *self;
        self.indexes.free(index);
        proof {
            lemma_removed(before@, at);
            lemma_given_back(before, joined, *self, at);
            before.lemma_inner();
            lemma_removed_stay(before@, index, false);
            assert forall|i: usize|
                i < usize::MAX && i != index implies #[trigger] self.content(i)
                == before.content(i) by {
                assert(joined.content(i) == before.content(i));
            }
        }
        if word & NOTIFIED == 0 {
            NotificationState::Unnotified
        } else if word & ADDITIONAL == 0 {
            NotificationState::Notified
        } else {
            NotificationState::NotifiedAdditional
        }
    }

    /// Removes a listener without passing its notification on. Returns whether
    /// it had one.
    pub fn discard(&mut self, listener: &mut Listener) -> (notified: bool)
        requires
            old(self).wf(),
            old(listener).index matches Some(key) ==> has_key(old(self)@, key),
        ensures
            final(self).wf(),
            final(listener).index is None,
            match old(listener).index {
                Some(key) => {
                    &&& final(self)@ == without(old(self)@, key)
                    &&& others_stay(old(self)@, final(self)@, key)
                    &&& notified == state_of(old(self)@, key).notified()
                    &&& final(self).content(key) == old(self).vacated(key)
                    &&& gave_back(old(self).indexes(), final(self).indexes(), key)
                },
                None => {
                    &&& final(self)@ == old(self)@
                    &&& !notified
                    &&& final(self).indexes() == old(self).indexes()
                },
            },
            unused_kept(old(self), final(self), old(self)@),
            final(self).indexes().busy() == old(self).indexes().busy(),
            final(self).indexes().next_new() == old(self).indexes().next_new(),
            final(self).has_notifier() == old(self).has_notifier(),
            final(self).standard() == old(self).standard(),
            final(self).additional() == old(self).additional(),
    {
        proof {
            self.lemma_inner();
        }
        match self.take(listener) {
            NotificationState::Unnotified => false,
            _ => true,
        }
    }

    /// Polls a listener for its notification. Returns whether there is one; if
    /// not, `waker` is woken when there is.
    pub fn poll(&mut self, listener: &mut Listener, waker: &Waker) -> (ready: bool)
        requires
            old(self).wf(),
            old(listener).index is Some,
            has_key(old(self)@, old(listener).index->0),
        ensures
            final(self).wf(),
            registered(
                old(self)@,
                old(listener).index->0,
                TaskRef::Waker(waker),
                final(self)@,
                if ready {
                    RegisterResult::Notified(())
                } else {
                    RegisterResult::Registered
                },
            ),
            final(listener).index == (if ready {
                None
            } else {
                old(listener).index
            }),
            others_stay(old(self)@, final(self)@, old(listener).index->0),
            !ready ==> has_key(final(self)@, old(listener).index->0),
            !ready ==> final(self).indexes() == old(self).indexes(),
            ready ==> final(self).content(old(listener).index->0) == old(self).vacated(
                old(listener).index->0,
            ),
            ready ==> gave_back(
                old(self).indexes(),
                final(self).indexes(),
                old(listener).index->0,
            ),
            unused_kept(old(self), final(self), old(self)@),
            final(self).indexes().busy() == old(self).indexes().busy(),
            final(self).indexes().next_new() == old(self).indexes().next_new(),
            final(self).has_notifier() == old(self).has_notifier(),
            final(self).standard() == old(self).standard(),
            final(self).additional() == old(self).additional(),
    {
        let index = listener.index.unwrap();
        let ghost before = *self;
        let ghost order = self.order@;
        let ghost at = position(self@, index);
        let slot = self.slots.get(index);
        proof {
            assert(settled(&before.slots, order, at));
        }
        if slot.state & NOTIFIED != 0 {
            proof {
                before.lemma_inner();
                lemma_removed_stay(before@, index, false);
                lemma_same_links(&before.slots, &self.slots, order);
                assert forall|i: int| 0 <= i < order.len() implies settled(&self.slots, order, i) by {
                    assert(settled(&before.slots, order, i));
                }
            }
            self.take(listener);
            true
        } else {
            slot.register(waker);
            proof {
                let after = self.slots.link(index as nat);
                lemma_restated_slot(before, *self, at);
                lemma_restated(before@, at, after.listener_state());
                assert(with_state(before@, index, after.listener_state()) == self@);
                before.lemma_inner();
                lemma_restated_stay(before@, index, after.listener_state());
            }
            false
        }
    }
}

/// Different numbers below a bound are at most so many.
proof fn lemma_bounded(order: Seq<usize>, bound: usize)
    requires
        order.no_duplicates(),
        bound >= 1,
        forall|i: int| 0 <= i < order.len() ==> 1 <= #[trigger] order[i] < bound,
    ensures
        order.len() < bound,
    decreases bound,
{
    if order.len() > 0 {
        assert(1 <= order[0] < bound);
        if order.contains((bound - 1) as usize) {
            let at = order.index_of((bound - 1) as usize);
            let rest = order.remove(at);
            assert forall|i: int| 0 <= i < rest.len() implies 1 <= #[trigger] rest[i] < bound - 1 by {
                let o = if i < at { i } else { i + 1 };
                assert(rest[i] == order[o]);
            }
            assert(rest.no_duplicates()) by {
                assert forall|i: int, j: int| 0 <= i < j < rest.len() implies rest[i] != rest[j] by {
                    let a = if i < at { i } else { i + 1 };
                    let b = if j < at { j } else { j + 1 };
                    assert(order[a] != order[b]);
                }
            }
            lemma_bounded(rest, (bound - 1) as usize);
        } else {
            assert forall|i: int| 0 <= i < order.len() implies 1 <= #[trigger] order[i] < bound
                - 1 by {
                assert(order.contains(order[i]));
            }
            lemma_bounded(order, (bound - 1) as usize);
        }
    }
}

/// Giving the index of an unlinked slot back leaves the list in order.
proof fn lemma_given_back(before: Inner, joined: Inner, after: Inner, at: int)
    requires
        before.wf(),
        0 <= at < before.order@.len(),
        joined.slots.wf(),
        joined.chain_wf(),
        joined@ == before@.remove(at),
        joined.order@ == before.order@.remove(at),
        joined.indexes == before.indexes,
        forall|i: nat|
            joined.indexes.next_new() <= i < usize::MAX ==> #[trigger] joined.slots.link(i)
                == before.slots.link(i),
        after.slots == joined.slots,
        after.order == joined.order,
        after.head == joined.head,
        after.tail == joined.tail,
        after.indexes.wf(),
        after.indexes.next_new() == joined.indexes.next_new(),
        after.indexes.given_back() == joined.indexes.given_back() || is_with(
            joined.indexes.given_back(),
            before.order@[at],
            after.indexes.given_back(),
        ),
    ensures
        after.wf(),
        after@ == before@.remove(at),
{
    let order = before.order@;
    let rest = after.order@;
    let index = order[at];
    let old_back = joined.indexes.given_back();
    let back = after.indexes.given_back();
    lemma_removed(before@, at);
    assert forall|i: int| 0 <= i < rest.len() implies 1 <= #[trigger] rest[i]
        < after.indexes.next_new() && rest[i] != index by {
        let o = if i < at { i } else { i + 1 };
        assert(rest[i] == order[o]);
    }
    assert forall|k: usize| rest.contains(k) implies order.contains(k) && k != index by {
        let i = choose|i: int| 0 <= i < rest.len() && rest[i] == k;
        let o = if i < at { i } else { i + 1 };
        assert(order[o] == k);
    }
    if back != old_back {
        let p = choose|p: int| 0 <= p <= old_back.len() && back == #[trigger] old_back.insert(p, index);
        assert(order.contains(index));
        assert forall|i: int| 0 <= i < back.len() implies 1 <= #[trigger] back[i]
            < after.indexes.next_new() && !rest.contains(back[i]) && (i != p ==> back[i]
            != index) by {
            if i < p {
                assert(back[i] == old_back[i]);
            } else if i > p {
                assert(back[i] == old_back[i - 1]);
            }
        }
        assert forall|i: int, j: int| 0 <= i < j < back.len() implies back[i] != back[j] by {
            let a = if i < p { i } else { i - 1 };
            let b = if j < p { j } else { j - 1 };
            if i != p && j != p {
                assert(back[i] == old_back[a]);
                assert(back[j] == old_back[b]);
            }
        }
    }
}

/// Changing no more than the state word and the waker of a listener's slot
/// leaves the list in order.
proof fn lemma_restated_slot(before: Inner, after: Inner, at: int)
    requires
        before.wf(),
        0 <= at < before.order@.len(),
        after.slots.wf(),
        after.indexes == before.indexes,
        after.order == before.order,
        after.head == before.head,
        after.tail == before.tail,
        ({
            let index = before.order@[at];
            &&& after.slots.link(index as nat).prev == before.slots.link(index as nat).prev
            &&& after.slots.link(index as nat).next == before.slots.link(index as nat).next
            &&& settled(&after.slots, after.order@, at)
            &&& forall|i: nat|
                i != index && i < usize::MAX ==> #[trigger] after.slots.link(i)
                    == before.slots.link(i)
        }),
    ensures
        after.slots.wf(),
        after.indexes_wf(),
        after.chain_wf(),
        after@ == before@.update(
            at,
            (
                before.order@[at],
                after.slots.link(before.order@[at] as nat).listener_state(),
            ),
        ),
{
    let order = before.order@;
    lemma_links(&before.slots, order);
    lemma_links(&after.slots, order);
    assert(links_of(&after.slots, order) =~= links_of(&before.slots, order));
    assert forall|i: int| 0 <= i < order.len() implies #[trigger] settled(
        &after.slots,
        order,
        i,
    ) by {
        assert(settled(&before.slots, order, i));
    }
    assert(after@ =~= before@.update(
        at,
        (order[at], after.slots.link(order[at] as nat).listener_state()),
    ));
}

/// Whether to notify plainly or additionally.
#[derive(Clone, Copy, Debug, PartialEq, Eq, Structural)]
pub enum NotifyMethod {
    /// See to it that so many listeners are notified.
    Standard,
    /// Notify so many listeners more.
    Additional,
}

impl NotifyMethod {
    /// The other method.
    pub fn invert(self) -> (other: Self)
        ensures
            other != self,
    {
        match self {
            NotifyMethod::Standard => NotifyMethod::Additional,
            NotifyMethod::Additional => NotifyMethod::Standard,
        }
    }
}

/// Makes sure that no notification is missed: goes on until neither method has
/// found anything to do when it was last tried.
#[derive(Clone, Copy, Debug, PartialEq, Eq, Structural)]
pub struct NotifyState {
    /// The method that was tried last.
    pub current: NotifyMethod,
    /// Whether the plain method has made progress when it was last tried.
    pub standard_progress: bool,
    /// Whether the additional method has made progress when it was last tried.
    pub additional_progress: bool,
}

impl NotifyState {
    /// Both methods are yet to be tried.
    pub fn new() -> (state: Self)
        ensures
            state == (NotifyState {
                current: NotifyMethod::Standard,
                standard_progress: true,
                additional_progress: true,
            }),
    {
        NotifyState {
            current: NotifyMethod::Standard,
            standard_progress: true,
            additional_progress: true,
        }
    }

    /// The current method has found something to do.
    pub fn make_progress(&mut self)
        ensures
            *final(self) == match old(self).current {
                NotifyMethod::Standard => (NotifyState { standard_progress: true, ..*old(self) }),
                NotifyMethod::Additional => (NotifyState {
                    additional_progress: true,
                    ..*old(self)
                }),
            },
    {
        match self.current {
            NotifyMethod::Standard => {
                self.standard_progress = true;
            },
            NotifyMethod::Additional => {
                self.additional_progress = true;
            },
        }
    }

    /// The method to try next: the other one in turn, or none if neither has
    /// made progress.
    pub fn next_method(&mut self) -> (method: Option<NotifyMethod>)
        ensures
            !old(self).standard_progress && !old(self).additional_progress ==> method is None
                && *final(self) == *old(self),
            old(self).standard_progress || old(self).additional_progress ==> method == Some(
                final(self).current,
            ) && *final(self) == match old(self).current {
                NotifyMethod::Standard => (NotifyState {
                    current: NotifyMethod::Additional,
                    standard_progress: false,
                    ..*old(self)
                }),
                NotifyMethod::Additional => (NotifyState {
                    current: NotifyMethod::Standard,
                    additional_progress: false,
                    ..*old(self)
                }),
            },
    {
        if !self.standard_progress && !self.additional_progress {
            return None;
        }
        match self.current {
            NotifyMethod::Standard => {
                self.standard_progress = false;
            },
            NotifyMethod::Additional => {
                self.additional_progress = false;
            },
        }
        self.current = self.current.invert();
        Some(self.current)
    }
}

/// What the notifier does with the slot that it has come to.
#[derive(Clone, Copy, Debug, PartialEq, Eq, Structural)]
pub enum CursorStep {
    /// Stops: the listener is being removed, and there is no way around it.
    Stop,
    /// Looks at where the slot leads now: the listener is being removed.
    Retry,
    /// Goes on. A plain notification counts the listener.
    Skip {
        /// Whether the listener counts.
        spend: bool,
    },
    /// Notifies the listener.
    Notify,
}

/// Decides what the notifier does with a slot, by the slot's state word and by
/// whether the notifier has only just come to the slot.
pub fn cursor_step(word: usize, again: bool, additional: bool) -> (step: CursorStep)
    ensures
        step == if !flags(word).occupied {
            if again {
                CursorStep::Stop
            } else {
                CursorStep::Retry
            }
        } else if flags(word).notified {
            CursorStep::Skip { spend: !additional }
        } else {
            CursorStep::Notify
        },
{
    if word & OCCUPIED == 0 {
        if again {
            CursorStep::Stop
        } else {
            CursorStep::Retry
        }
    } else if word & NOTIFIED != 0 {
        CursorStep::Skip { spend: !additional }
    } else {
        CursorStep::Notify
    }
}

/// So many tags that hold nothing.
pub open spec fn units(n: nat) -> Seq<()> {
    Seq::new(n, |i: int| ())
}

/// The roster after so many additional and then so many plain notifications.
pub open spec fn drained(r: Roster<()>, additional: usize, standard: usize) -> Roster<()> {
    untagged(untagged(r, additional, true), standard, false)
}

/// How many listeners so many additional and then so many plain notifications
/// reach.
pub open spec fn reached(r: Roster<()>, additional: usize, standard: usize) -> nat {
    granted(r, additional, true) + granted(untagged(r, additional, true), standard, false)
}

/// The tasks that so many additional and then so many plain notifications wake.
pub open spec fn woken_by(r: Roster<()>, additional: usize, standard: usize) -> Seq<Task> {
    woken(r, granted(r, additional, true)) + woken(
        untagged(r, additional, true),
        granted(untagged(r, additional, true), standard, false),
    )
}

impl Inner {
    /// Notifies listeners by one of the two methods. Returns how many, and puts
    /// the tasks to be woken behind those in `tasks`.
    fn notify_by<S: TaskSink>(&mut self, additional: bool, count: usize, tasks: &mut S) -> (notified:
        usize)
        requires
            old(self).wf(),
        ensures
            final(self).wf(),
            final(self)@ == untagged(old(self)@, count, additional),
            notified == granted(old(self)@, count, additional),
            final(tasks).gathered() == old(tasks).gathered() + woken(old(self)@, notified as nat),
            untouched(*old(self), *final(self)),
            final(self).indexes == old(self).indexes,
            final(self).notifying == old(self).notifying,
            final(self).standard_notify == old(self).standard_notify,
            final(self).additional_notify == old(self).additional_notify,
    {
        let ghost before = *self;
        let ghost r = self@;
        let ghost order = self.order@;
        let ghost links = links_of(&self.slots, order);
        let ghost mut at: int = 0;
        let ghost first_tasks = tasks.gathered();
        let mut left: usize = count;
        let mut notified: usize = 0;
        let mut cursor = self.head;
        let mut prev_cursor = cursor;
        proof {
            lemma_notified_none(r, additional);
            assert(units(0) =~= Seq::empty());
            assert(first_tasks + Seq::<Task>::empty() =~= first_tasks);
            self.lemma_inner();
        }
        while cursor != 0 && left > 0
            invariant
                before.wf(),
                before == *old(self),
                r == before@,
                order == before.order@,
                self.wf(),
                untouched(before, *self),
                self.indexes == before.indexes,
                self.notifying == before.notifying,
                self.standard_notify == before.standard_notify,
                self.additional_notify == before.additional_notify,
                0 <= at <= order.len(),
                order.len() < usize::MAX,
                index_in(cursor) == key_at(order, at),
                left + (if additional { pending_before(r, at) as int } else { at }) == count,
                notified == pending_before(r, at),
                self@ == with_notified(r, additional, units(notified as nat)),
                tasks.gathered() == first_tasks + woken(r, notified as nat),
                forall|i: int| 0 <= i < at ==> (#[trigger] self@[i]).1.notified(),
            ensures
                left == 0 || at == order.len(),
            decreases order.len() - at,
        {
            let ghost now = *self;
            proof {
                assert(settled(&self.slots, order, at));
                lemma_links(&self.slots, order);
                assert(linked_at(order, links_of(&self.slots, order), at));
                assert(order.contains(order[at]));
                lemma_pending_monotonic(r, at, at + 1);
            }
            let slot = self.slots.get(cursor);
            match cursor_step(slot.state, prev_cursor == cursor, additional) {
                CursorStep::Stop => {
                    break;
                },
                CursorStep::Retry => {
                    cursor = slot.next;
                },
                CursorStep::Skip { spend } => {
                    prev_cursor = cursor;
                    cursor = slot.next;
                    if spend {
                        left = left - 1;
                    }
                    proof {
                        lemma_restated_slot(now, *self, at);
                        assert(self@ =~= now@);
                        at = at + 1;
                    }
                },
                CursorStep::Notify => {
                    prev_cursor = cursor;
                    let waker = slot.notify_quietly(additional);
                    left = left - 1;
                    notified = notified + 1;
                    cursor = slot.next;
                    match waker {
                        Some(waker) => tasks.accept(Task::Waker(waker)),
                        None => {},
                    }
                    proof {
                        let tags = units((notified - 1) as nat);
                        lemma_restated_slot(now, *self, at);
                        lemma_is_first_pending(now@, at);
                        lemma_notified_step(r, additional, tags, (), at);
                        assert(tags.push(()) =~= units(notified as nat));
                        at = at + 1;
                    }
                },
            }
        }
        proof {
            lemma_pending_monotonic(r, at, order.len() as int);
            lemma_fifo_prefix(r, at);
            assert(notified == granted(r, count, additional));
        }
        notified
    }

    /// Carries out all notifications that have been asked for. Returns how many
    /// listeners were reached, but no more than `limit`.
    #[verifier::spinoff_prover]
    fn notify_locked<S: TaskSink>(&mut self, limit: usize, tasks: &mut S) -> (count: usize)
        requires
            old(self).wf(),
        ensures
            final(self).wf(),
            final(self)@ == drained(old(self)@, old(self).additional(), old(self).standard()),
            count == if reached(old(self)@, old(self).additional(), old(self).standard()) < limit {
                reached(old(self)@, old(self).additional(), old(self).standard())
            } else {
                limit as nat
            },
            final(tasks).gathered() == old(tasks).gathered() + woken_by(
                old(self)@,
                old(self).additional(),
                old(self).standard(),
            ),
            final(self).standard_notify == 0,
            final(self).additional_notify == 0,
            untouched(*old(self), *final(self)),
            final(self).indexes == old(self).indexes,
            final(self).notifying == old(self).notifying,
    {
        let ghost r = self@;
        let ghost a = self.additional_notify;
        let ghost s = self.standard_notify;
        let ghost between = untagged(r, a, true);
        let ghost first_tasks = tasks.gathered();
        let ghost middle_tasks = tasks.gathered() + woken(r, granted(r, a, true));
        let ghost last_tasks = middle_tasks + woken(between, granted(between, s, false));
        let ghost mut phase: int = 0;
        let mut state = NotifyState::new();
        let mut notified: usize = 0;
        proof {
            self.lemma_inner();
            lemma_reached(r, a, s);
        }
        loop
            invariant
                self.wf(),
                untouched(*old(self), *self),
                self.indexes == old(self).indexes,
                self.notifying == old(self).notifying,
                between == untagged(r, a, true),
                middle_tasks == first_tasks + woken(r, granted(r, a, true)),
                last_tasks == middle_tasks + woken(between, granted(between, s, false)),
                granted(r, a, true) + granted(between, s, false) < usize::MAX,
                0 <= phase <= 3,
                phase == 0 ==> {
                    &&& state.current is Standard && state.standard_progress
                        && state.additional_progress
                    &&& self@ == r && tasks.gathered() == first_tasks && notified == 0
                    &&& self.additional_notify == a && self.standard_notify == s
                },
                phase == 1 ==> {
                    &&& state.current is Additional && !state.standard_progress
                        && state.additional_progress
                    &&& self@ == between && notified == granted(r, a, true)
                    &&& tasks.gathered() == middle_tasks
                    &&& self.additional_notify == 0 && self.standard_notify == s
                },
                phase >= 2 ==> {
                    &&& !state.additional_progress
                    &&& phase == 2 ==> state.current is Standard
                    &&& phase == 3 ==> !state.standard_progress
                    &&& self@ == untagged(between, s, false)
                    &&& notified == granted(r, a, true) + granted(between, s, false)
                    &&& tasks.gathered() == last_tasks
                    &&& self.additional_notify == 0 && self.standard_notify == 0
                },
            ensures
                phase >= 2,
            decreases 3 - phase,
        {
            proof {
                lemma_untagged_none(self@);
                assert(tasks.gathered() + Seq::<Task>::empty() =~= tasks.gathered());
            }
            match state.next_method() {
                None => {
                    break;
                },
                Some(NotifyMethod::Standard) => {
                    let count = self.standard_notify;
                    self.standard_notify = 0;
                    if count > 0 {
                        state.make_progress();
                        notified = notified + self.notify_by(false, count, tasks);
                    }
                },
                Some(NotifyMethod::Additional) => {
                    let count = self.additional_notify;
                    self.additional_notify = 0;
                    if count > 0 {
                        state.make_progress();
                        notified = notified + self.notify_by(true, count, tasks);
                    }
                },
            }
            proof {
                phase = phase + 1;
            }
        }
        proof {
            assert(tasks.gathered() =~= first_tasks + woken_by(r, a, s));
        }
        if notified < limit {
            notified
        } else {
            limit
        }
    }
}

/// Asking for no notification changes nothing.
proof fn lemma_untagged_none(r: Roster<()>)
    ensures
        granted(r, 0, true) == 0,
        granted(r, 0, false) == 0,
        untagged(r, 0, true) == r,
        untagged(r, 0, false) == r,
        woken(r, 0) == Seq::<Task>::empty(),
{
    lemma_pending_monotonic(r, 0, r.len() as int);
    lemma_notified_none(r, true);
    lemma_notified_none(r, false);
    assert(units(0) =~= Seq::empty());
}

/// Carrying out what was left for the notifier takes no listener away.
proof fn lemma_drained_stay(r: Roster<()>, additional: usize, standard: usize)
    requires
        keys(r).no_duplicates(),
    ensures
        all_stay(r, drained(r, additional, standard)),
{
    let between = untagged(r, additional, true);
    let after = drained(r, additional, standard);
    lemma_notified_stay(r, true, units(granted(r, additional, true)));
    lemma_notified_stay(between, false, units(granted(between, standard, false)));
    assert forall|k: usize| has_key(r, k) implies #[trigger] has_key(after, k) by {
        assert(has_key(between, k));
    }
    assert forall|k: usize| is_pollable(r, k) implies #[trigger] is_pollable(after, k) by {
        assert(is_pollable(between, k));
    }
}

/// No more listeners are reached than there are.
proof fn lemma_reached(r: Roster<()>, additional: usize, standard: usize)
    ensures
        reached(r, additional, standard) <= r.len(),
{
    lemma_pending_monotonic(r, 0, r.len() as int);
    lemma_notified(r, true, units(granted(r, additional, true)));
}

/// A counter after a request for `count` notifications, if it counts this kind.
pub open spec fn bumped(counter: usize, count: usize, counts: bool) -> usize {
    if counts {
        wrapped_sum(counter, count)
    } else {
        counter
    }
}

/// How often a thread tries to become the notifier.
pub const TRIES: usize = 128;

impl Inner {
    /// Tries to become the notifier for a while. Returns whether that succeeded.
    pub fn become_notifier(&mut self) -> (taken: bool)
        requires
            old(self).wf(),
        ensures
            final(self).wf(),
            final(self)@ == old(self)@,
            taken == !old(self).has_notifier(),
            final(self).has_notifier(),
            final(self).standard() == old(self).standard(),
            final(self).additional() == old(self).additional(),
            final(self).indexes() == old(self).indexes(),
            forall|i: usize| #[trigger] final(self).slot(i) == old(self).slot(i),
    {
        let ghost before = *self;
        let mut tries: usize = 0;
        while tries < TRIES
            invariant
                tries <= TRIES,
                tries > 0 ==> before.notifying,
                *self == before,
                before == *old(self),
                before.wf(),
            decreases TRIES - tries,
        {
            if !self.notifying {
                self.notifying = true;
                return true;
            }
            tries = tries + 1;
        }
        false
    }

    /// Lets somebody else become the notifier.
    pub fn finish_notifying(&mut self)
        requires
            old(self).wf(),
        ensures
            final(self).wf(),
            final(self)@ == old(self)@,
            !final(self).has_notifier(),
            final(self).standard() == old(self).standard(),
            final(self).additional() == old(self).additional(),
            final(self).indexes() == old(self).indexes(),
            forall|i: usize| #[trigger] final(self).slot(i) == old(self).slot(i),
    {
        self.notifying = false;
    }

    /// Notifies listeners, and returns how many. Puts the tasks to be woken
    /// behind those in `tasks`.
    ///
    /// If somebody else is the notifier, the request is left for them.
    pub fn notify_into<N: Notification<Tag = ()>, S: TaskSink>(
        &mut self,
        notify: N,
        tasks: &mut S,
    ) -> (count: usize)
        requires
            old(self).wf(),
        ensures
            final(self).wf(),
            ({
                let additional = bumped(
                    old(self).additional(),
                    notify.asks(),
                    notify.wants_additional(),
                );
                let standard = bumped(
                    old(self).standard(),
                    notify.asks(),
                    !notify.wants_additional(),
                );
                if old(self).has_notifier() {
                    &&& final(self)@ == old(self)@
                    &&& final(self).additional() == additional
                    &&& final(self).standard() == standard
                    &&& count == 0
                    &&& final(tasks).gathered() == old(tasks).gathered()
                } else {
                    &&& final(self)@ == drained(old(self)@, additional, standard)
                    &&& final(self).additional() == 0
                    &&& final(self).standard() == 0
                    &&& count == if reached(old(self)@, additional, standard) < notify.asks() {
                        reached(old(self)@, additional, standard)
                    } else {
                        notify.asks() as nat
                    }
                    &&& final(tasks).gathered() == old(tasks).gathered() + woken_by(
                        old(self)@,
                        additional,
                        standard,
                    )
                }
            }),
            final(self).has_notifier() == old(self).has_notifier(),
            final(self).indexes() == old(self).indexes(),
            unused_kept(old(self), final(self), old(self)@),
            all_stay(old(self)@, final(self)@),
    {
        let limit = notify.count();
        if notify.is_additional() {
            self.additional_notify = self.additional_notify.wrapping_add(limit);
        } else {
            self.standard_notify = self.standard_notify.wrapping_add(limit);
        }
        if !self.become_notifier() {
            return 0;
        }
        let ghost before = *self;
        proof {
            self.lemma_inner();
            lemma_drained_stay(self@, self.additional(), self.standard());
        }
        let count = self.notify_locked(limit, tasks);
        let ghost after = *self;
        self.finish_notifying();
        proof {
            lemma_used(&before);
            assert forall|i: usize|
                i < usize::MAX && !has_key(old(self)@, i) implies #[trigger] self.content(i)
                == old(self).content(i) by {
                assert(!has_key(before@, i));
                assert(after.slots.link(i as nat) == before.slots.link(i as nat));
                assert(self.slot(i) == after.slot(i) && before.slot(i) == old(self).slot(i));
            }
        }
        count
    }

    /// Notifies listeners, wakes their tasks, and returns how many listeners
    /// were notified.
    ///
    /// If somebody else is the notifier, the request is left for them.
    pub fn notify<N: Notification<Tag = ()>>(&mut self, notify: N) -> (count: usize)
        requires
            old(self).wf(),
        ensures
            final(self).wf(),
            ({
                let additional = bumped(
                    old(self).additional(),
                    notify.asks(),
                    notify.wants_additional(),
                );
                let standard = bumped(
                    old(self).standard(),
                    notify.asks(),
                    !notify.wants_additional(),
                );
                if old(self).has_notifier() {
                    &&& final(self)@ == old(self)@
                    &&& final(self).additional() == additional
                    &&& final(self).standard() == standard
                    &&& count == 0
                } else {
                    &&& final(self)@ == drained(old(self)@, additional, standard)
                    &&& final(self).additional() == 0
                    &&& final(self).standard() == 0
                    &&& count == if reached(old(self)@, additional, standard) < notify.asks() {
                        reached(old(self)@, additional, standard)
                    } else {
                        notify.asks() as nat
                    }
                    &&& all_woken(woken_by(old(self)@, additional, standard))
                }
            }),
            final(self).has_notifier() == old(self).has_notifier(),
            final(self).indexes() == old(self).indexes(),
            unused_kept(old(self), final(self), old(self)@),
            all_stay(old(self)@, final(self)@),
    {
        let mut tasks = WakeNow::new();
        let ghost additional = bumped(
            self.additional(),
            notify.asks(),
            notify.wants_additional(),
        );
        let ghost standard = bumped(self.standard(), notify.asks(), !notify.wants_additional());
        let count = self.notify_into(notify, &mut tasks);
        tasks.attest();
        proof {
            if !old(self).has_notifier() {
                assert(tasks.gathered() =~= woken_by(old(self)@, additional, standard));
            }
        }
        count
    }

    /// Removes a listener. If it had a notification, another listener gets one.
    /// Puts the tasks to be woken by that behind those in `tasks`.
    pub fn remove_into<S: TaskSink>(&mut self, listener: &mut Listener, tasks: &mut S)
        requires
            old(self).wf(),
            old(listener).index matches Some(key) ==> has_key(old(self)@, key),
        ensures
            final(self).wf(),
            final(listener).index is None,
            final(self).has_notifier() == old(self).has_notifier(),
            final(self).indexes().busy() == old(self).indexes().busy(),
            final(self).indexes().next_new() == old(self).indexes().next_new(),
            unused_kept(old(self), final(self), old(self)@),
            match old(listener).index {
                Some(key) => {
                    &&& others_stay(old(self)@, final(self)@, key)
                    &&& final(self).content(key) == old(self).vacated(key)
                    &&& gave_back(old(self).indexes(), final(self).indexes(), key)
                },
                None => final(self).indexes() == old(self).indexes(),
            },
            match old(listener).index {
                Some(key) => match state_of(old(self)@, key) {
                    State::Notified { additional, .. } => {
                        let more = bumped(old(self).additional(), 1, additional);
                        let standard = bumped(old(self).standard(), 1, !additional);
                        if old(self).has_notifier() {
                            &&& final(self)@ == without(old(self)@, key)
                            &&& final(self).additional() == more
                            &&& final(self).standard() == standard
                            &&& final(tasks).gathered() == old(tasks).gathered()
                        } else {
                            &&& final(self)@ == drained(without(old(self)@, key), more, standard)
                            &&& final(self).additional() == 0
                            &&& final(self).standard() == 0
                            &&& final(tasks).gathered() == old(tasks).gathered() + woken_by(
                                without(old(self)@, key),
                                more,
                                standard,
                            )
                        }
                    },
                    _ => {
                        &&& final(self)@ == without(old(self)@, key)
                        &&& final(self).additional() == old(self).additional()
                        &&& final(self).standard() == old(self).standard()
                        &&& final(tasks).gathered() == old(tasks).gathered()
                    },
                },
                None => {
                    &&& final(self)@ == old(self)@
                    &&& final(self).additional() == old(self).additional()
                    &&& final(self).standard() == old(self).standard()
                    &&& final(tasks).gathered() == old(tasks).gathered()
                },
            },
    {
        proof {
            self.lemma_inner();
            match listener.index {
                Some(key) => lemma_without_keys(self@, key),
                None => {},
            }
        }
        let state = self.take(listener);
        let ghost between = *self;
        match state {
            NotificationState::Unnotified => {},
            NotificationState::Notified => {
                self.notify_into(GenericNotify::new(1, false, NothingProducer), tasks);
            },
            NotificationState::NotifiedAdditional => {
                self.notify_into(GenericNotify::new(1, true, NothingProducer), tasks);
            },
        }
        proof {
            assert forall|i: usize|
                i < usize::MAX && !has_key(between@, i) implies #[trigger] self.content(i)
                == between.content(i) by {}
            assert forall|i: usize|
                i < usize::MAX && !has_key(old(self)@, i) implies #[trigger] self.content(i)
                == old(self).content(i) by {
                assert(!has_key(between@, i));
                assert(between.content(i) == old(self).content(i));
            }
        }
    }

    /// Removes a listener. If it had a notification, another listener gets one.
    pub fn remove(&mut self, listener: &mut Listener)
        requires
            old(self).wf(),
            old(listener).index matches Some(key) ==> has_key(old(self)@, key),
        ensures
            final(self).wf(),
            final(listener).index is None,
            final(self).has_notifier() == old(self).has_notifier(),
            final(self).indexes().busy() == old(self).indexes().busy(),
            final(self).indexes().next_new() == old(self).indexes().next_new(),
            unused_kept(old(self), final(self), old(self)@),
            match old(listener).index {
                Some(key) => {
                    &&& others_stay(old(self)@, final(self)@, key)
                    &&& final(self).content(key) == old(self).vacated(key)
                    &&& gave_back(old(self).indexes(), final(self).indexes(), key)
                },
                None => final(self).indexes() == old(self).indexes(),
            },
            match old(listener).index {
                Some(key) => match state_of(old(self)@, key) {
                    State::Notified { additional, .. } => {
                        let more = bumped(old(self).additional(), 1, additional);
                        let standard = bumped(old(self).standard(), 1, !additional);
                        if old(self).has_notifier() {
                            &&& final(self)@ == without(old(self)@, key)
                            &&& final(self).additional() == more
                            &&& final(self).standard() == standard
                        } else {
                            &&& final(self)@ == drained(without(old(self)@, key), more, standard)
                            &&& final(self).additional() == 0
                            &&& final(self).standard() == 0
                            &&& all_woken(woken_by(without(old(self)@, key), more, standard))
                        }
                    },
                    _ => {
                        &&& final(self)@ == without(old(self)@, key)
                        &&& final(self).additional() == old(self).additional()
                        &&& final(self).standard() == old(self).standard()
                    },
                },
                None => {
                    &&& final(self)@ == old(self)@
                    &&& final(self).additional() == old(self).additional()
                    &&& final(self).standard() == old(self).standard()
                },
            },
    {
        let mut tasks = WakeNow::new();
        self.remove_into(listener, &mut tasks);
        tasks.attest();
        proof {
            match old(listener).index {
                Some(key) => match state_of(old(self)@, key) {
                    State::Notified { additional, .. } => {
                        let more = bumped(old(self).additional(), 1, additional);
                        let standard = bumped(old(self).standard(), 1, !additional);
                        if !old(self).has_notifier() {
                            assert(tasks.gathered() =~= woken_by(
                                without(old(self)@, key),
                                more,
                                standard,
                            ));
                        }
                    },
                    _ => {},
                },
                None => {},
            }
        }
    }
}

/// Where nothing was left for the notifier, a notification does what it does in
/// every other list.
pub proof fn notifies_like_other_lists(r: Roster<()>, count: usize)
    ensures
        drained(r, bumped(0, count, true), bumped(0, count, false)) == untagged(r, count, true),
        reached(r, bumped(0, count, true), bumped(0, count, false)) == granted(r, count, true),
        drained(r, bumped(0, count, false), bumped(0, count, true)) == untagged(r, count, false),
        reached(r, bumped(0, count, false), bumped(0, count, true)) == granted(r, count, false),
{
    lemma_untagged_none(r);
    lemma_untagged_none(untagged(r, count, true));
}

/// A notification that is left for the notifier is not lost: as many listeners
/// are notified in the end as if both notifications had been carried out one
/// after the other, or more.
pub proof fn left_notification_is_not_lost(
    r: Roster<()>,
    first: usize,
    second: usize,
    additional: bool,
)
    requires
        first + second <= usize::MAX,
    ensures
        ({
            let sum = bumped(bumped(0, first, true), second, true);
            let one_by_one = untagged(untagged(r, first, additional), second, additional);
            let at_once = untagged(r, sum, additional);
            &&& sum == first + second
            &&& notified_count(at_once) >= notified_count(one_by_one)
            &&& additional ==> notified_count(at_once) == notified_count(one_by_one)
        }),
{
    let sum = (first + second) as usize;
    let between = untagged(r, first, additional);
    lemma_pending_monotonic(r, 0, r.len() as int);
    lemma_notified(r, additional, units(granted(r, first, additional)));
    lemma_notified(r, additional, units(granted(r, sum, additional)));
    lemma_pending_monotonic(between, 0, between.len() as int);
    lemma_notified(between, additional, units(granted(between, second, additional)));
}

/// What requests that were left for the notifier come to: so many additional
/// notifications, and then a plain one. The former notify as many more as they ask
/// for, the latter sees to it that as many as it asks for are notified, both as
/// far as there are listeners. Just those who are reached are counted, and just
/// their tasks are woken, in the order of the listeners.
pub proof fn left_requests_come_to(r: Roster<()>, additional: usize, standard: usize)
    ensures
        ({
            let after = drained(r, additional, standard);
            let all = r.len() as int;
            let more = if notified_count(r) + additional <= all {
                notified_count(r) + additional
            } else {
                all
            };
            let asked = if standard <= all {
                standard as int
            } else {
                all
            };
            &&& after.len() == r.len()
            &&& keys(after) == keys(r)
            &&& notified_count(after) == if more < asked {
                asked
            } else {
                more
            }
            &&& reached(r, additional, standard) == notified_count(after) - notified_count(r)
            &&& woken_by(r, additional, standard) == told_tasks(r, after, all)
            &&& forall|i: int|
                0 <= i < r.len() ==> (#[trigger] after[i] == r[i] || !r[i].1.notified()
                    && after[i].1 is Notified)
        }),
{
    let between = untagged(r, additional, true);
    let after = drained(r, additional, standard);
    notification_comes_to(r, additional, true);
    notification_comes_to(between, standard, false);
    exactly_the_told_are_woken_untagged(r, additional, true);
    exactly_the_told_are_woken_untagged(between, standard, false);
    assert forall|i: int| 0 <= i < r.len() implies (#[trigger] after[i] == r[i]
        || !r[i].1.notified() && after[i].1 is Notified) by {
        assert(between[i] == r[i] || !r[i].1.notified() && between[i].1 is Notified);
        assert(after[i] == between[i] || !between[i].1.notified() && after[i].1 is Notified);
    }
    assert forall|i: int| 0 <= i < r.len() && between[i].1 is Notified implies (
    #[trigger] after[i]).1 is Notified by {
        assert(after[i] == between[i] || !between[i].1.notified());
    }
    assert forall|i: int| 0 <= i < r.len() implies (#[trigger] between[i] == r[i]
        || between[i].1 is Notified) by {}
    told_by_two(r, between, after, r.len() as int);
}

/// A request adds what it asks for to the counter of its kind, as long as that
/// fits, and leaves the other counter alone.
pub proof fn request_is_counted(counter: usize, count: usize)
    ensures
        bumped(counter, count, false) == counter,
        counter + count <= usize::MAX ==> bumped(counter, count, true) == counter + count,
        counter + count > usize::MAX ==> bumped(counter, count, true) == counter + count
            - usize::MAX - 1,
{
}

/// What a listener has received is told apart: nothing, a plain notification or
/// an additional one.
pub proof fn received_is_told(state: State<()>)
    ensures
        received(state) is Unnotified <==> !(state is Notified),
        received(state) is NotifiedAdditional <==> state is Notified && state->additional,
        received(state) is Notified <==> state is Notified && !state->additional,
{
}

impl Inner {
    /// The slot of the next listener belongs to nobody, and nobody is in the
    /// middle of notifying it. All lower ones that were given back are passed over
    /// because somebody is.
    pub proof fn next_slot_is_free(&self)
        requires
            self.wf(),
            self.next_index() < usize::MAX,
        ensures
            1 <= self.next_index() <= self.indexes().next_new(),
            !has_key(self@, self.next_index()),
            !flags(self.slot(self.next_index()).state).notifying,
            !self.left_over().contains(self.next_index()),
            self.left_over().is_prefix_of(self.indexes().given_back()),
            self.indexes().busy() ==> self.left_over() == self.indexes().given_back(),
            !self.indexes().busy() && self.indexes().given_back().len() > 0 && !flags(
                self.slot(self.indexes().given_back().last()).state,
            ).notifying ==> self.left_over() == self.indexes().given_back().drop_last(),
            forall|i: int|
                0 <= i < self.indexes().given_back().len() && !self.indexes().busy()
                    && #[trigger] self.indexes().given_back()[i] < self.next_index() ==> flags(
                    self.slot(self.indexes().given_back()[i]).state,
                ).notifying,
    {
        let back = self.indexes().given_back();
        let left = self.usable(back.len());
        self.lemma_usable(back.len());
        self.indexes().lemma_lowest_first();
        lemma_used(self);
        lemma_occupied();
        assert(self.left_over().is_prefix_of(back));
        assert(back.len() > 0 ==> back.take(back.len() - 1) =~= back.drop_last());
        if self.indexes().busy() || left == 0 {
            assert(self.slots.link(self.next_index() as nat) == blank());
            if self.order@.contains(self.next_index()) {
                let i = self.order@.index_of(self.next_index());
                assert(self.order@[i] < self.indexes.next_new());
            }
            if self.left_over().contains(self.next_index()) {
                let i = choose|i: int|
                    0 <= i < self.left_over().len() && self.left_over()[i] == self.next_index();
                assert(back[i] < self.indexes.next_new());
            }
        } else {
            assert(back[left - 1] == self.next_index());
            assert(!self.order@.contains(back[left - 1]));
            if self.left_over().contains(self.next_index()) {
                let i = choose|i: int|
                    0 <= i < self.left_over().len() && self.left_over()[i] == self.next_index();
                assert(back[i] == back[left - 1]);
            }
            assert forall|i: int|
                0 <= i < back.len() && #[trigger] back[i] < self.next_index() implies flags(
                self.slot(back[i]).state,
            ).notifying by {
                if i < left {
                    assert(back[i] >= back[left - 1]);
                }
            }
        }
    }

    proof fn lemma_usable(&self, n: nat)
        requires
            n <= self.indexes().given_back().len(),
        ensures
            self.usable(n) <= n,
            self.usable(n) > 0 ==> !flags(
                self.slot(self.indexes().given_back()[self.usable(n) - 1]).state,
            ).notifying,
            forall|i: int|
                self.usable(n) <= i < n ==> flags(
                    self.slot(#[trigger] self.indexes().given_back()[i]).state,
                ).notifying,
        decreases n,
    {
        if n > 0 && flags(self.slot(self.indexes().given_back()[n - 1]).state).notifying {
            self.lemma_usable((n - 1) as nat);
        }
    }

    /// A listener that is removed leaves its slot unoccupied, and everything else
    /// of the slot as it is.
    pub proof fn vacated_is_not_occupied(&self, index: usize)
        ensures
            !flags(self.vacated(index).0).occupied,
            flags(self.vacated(index).0).notified == flags(self.slot(index).state).notified,
            flags(self.vacated(index).0).notifying == flags(self.slot(index).state).notifying,
            self.vacated(index).1 == self.slot(index).waker,
    {
        lemma_clear(self.slot(index).state);
    }
}

} // verus!
