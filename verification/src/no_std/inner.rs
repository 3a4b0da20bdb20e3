//! The state of an event for platforms without an operating system.
//!
//! The list is guarded by a spinlock. Whoever finds it locked puts the operation
//! into a queue, and whoever unlocks it carries out what is in the queue.

use crate::no_std::entries::{left_of, Listener, ListenerSlab};
use crate::no_std::node::{
    ledger_of, Ledger, Node, TaskWaiting, VecProducer, Wait,
};
use crate::no_std::queue::Queue;
use crate::notify::{
    can_deliver, carried_out, has_tags, is_run, lemma_run_step, GenericNotify, Notification,
};
use crate::roster::{
    granted, has_key, is_at, is_fifo, keys, lemma_newcomer, lemma_registered_stay, position,
    published, registered, state_of, without, woken, woken_if, Roster,
};
use crate::spin::{Mutex, MutexGuard};
use crate::state::{RegisterResult, State};
use crate::table::Table;
use crate::task::{
    accept_all, all_woken, lemma_both_woken, listed, Task, TaskRef, TaskSink, WakeNow,
};
use std::collections::VecDeque;
use vstd::prelude::*;

verus! {

/// The ledger after all operations of the queue, first to last.
pub open spec fn run<T>(nodes: Seq<Node<T>>, ledger: Ledger<T>) -> Ledger<T>
    decreases nodes.len(),
{
    if nodes.len() == 0 {
        ledger
    } else {
        run(nodes.drop_first(), nodes[0].applied(ledger))
    }
}

/// The tasks that all operations of the queue wake once the list is unlocked.
pub open spec fn run_wakes<T>(nodes: Seq<Node<T>>, ledger: Ledger<T>) -> Seq<Task>
    decreases nodes.len(),
{
    if nodes.len() == 0 {
        Seq::empty()
    } else {
        let later = run_wakes(nodes.drop_first(), nodes[0].applied(ledger));
        match nodes[0].wakes(ledger) {
            Some(task) => seq![task] + later,
            None => later,
        }
    }
}

/// The tasks that all operations of the queue wake at once, while the list is
/// locked.
pub open spec fn run_tells<T>(nodes: Seq<Node<T>>, ledger: Ledger<T>) -> Seq<Task>
    decreases nodes.len(),
{
    if nodes.len() == 0 {
        Seq::empty()
    } else {
        nodes[0].tells(ledger) + run_tells(nodes.drop_first(), nodes[0].applied(ledger))
    }
}

/// Two operations are about the same listener.
pub open spec fn collide<T>(a: Node<T>, b: Node<T>) -> bool {
    match (a, b) {
        (Node::AddListener { ticket: s }, Node::AddListener { ticket: t }) => s == t,
        (
            Node::RemoveListener { listener: k, .. },
            Node::RemoveListener { listener: l, .. },
        ) => k == l,
        _ => false,
    }
}

/// Every operation of the queue can be carried out, and no listener is added or
/// removed twice.
pub open spec fn sound<T>(nodes: Seq<Node<T>>, ledger: Ledger<T>) -> bool {
    &&& forall|i: int| 0 <= i < nodes.len() ==> (#[trigger] nodes[i]).ready(ledger)
    &&& forall|i: int, j: int|
        0 <= i < j < nodes.len() ==> !collide(#[trigger] nodes[i], #[trigger] nodes[j])
}

/// The keys of the listeners and the empty slots are all different, and are
/// slots other than the first.
pub open spec fn well_kept<T>(ledger: Ledger<T>) -> bool {
    &&& ledger.roster.len() + ledger.free.len() + 1 == ledger.slots
    &&& ledger.slots <= usize::MAX
    &&& keys(ledger.roster).no_duplicates()
    &&& ledger.free.no_duplicates()
    &&& forall|i: int|
        0 <= i < ledger.roster.len() ==> 0 < (#[trigger] ledger.roster[i]).0 < ledger.slots
    &&& forall|i: int|
        0 <= i < ledger.free.len() ==> 0 < #[trigger] ledger.free[i] < ledger.slots && !has_key(
            ledger.roster,
            ledger.free[i],
        )
}

/// An operation keeps what another one needs.
pub proof fn lemma_still_ready<T>(node: Node<T>, other: Node<T>, ledger: Ledger<T>)
    requires
        node.ready(ledger),
        other.ready(ledger),
        !collide(node, other),
    ensures
        other.ready(node.applied(ledger)),
{
    match (node, other) {
        (Node::Notify(notify), Node::RemoveListener { listener, .. }) => {
            let after = node.applied(ledger).roster;
            let p = position(ledger.roster, listener);
            assert(is_at(after, listener, p));
        },
        (Node::AddListener { ticket }, Node::RemoveListener { listener, .. }) => {
            let after = node.applied(ledger).roster;
            let p = position(ledger.roster, listener);
            assert(is_at(after, listener, p));
        },
        (
            Node::RemoveListener { listener: gone, propagate },
            Node::RemoveListener { listener, .. },
        ) => {
            let after = node.applied(ledger).roster;
            let g = position(ledger.roster, gone);
            let p = position(ledger.roster, listener);
            assert(ledger.roster[g].0 == gone && ledger.roster[p].0 == listener);
            let q = if p < g { p } else { p - 1 };
            assert(is_at(without(ledger.roster, gone), listener, q));
            assert(is_at(after, listener, q));
        },
        _ => {},
    }
}

/// Carrying out the first operation leaves the others sound.
pub proof fn lemma_sound_rest<T>(nodes: Seq<Node<T>>, ledger: Ledger<T>)
    requires
        sound(nodes, ledger),
        nodes.len() > 0,
    ensures
        nodes[0].ready(ledger),
        sound(nodes.drop_first(), nodes[0].applied(ledger)),
{
    let rest = nodes.drop_first();
    let after = nodes[0].applied(ledger);
    assert forall|i: int| 0 <= i < rest.len() implies (#[trigger] rest[i]).ready(after) by {
        assert(nodes[i + 1].ready(ledger));
        lemma_still_ready(nodes[0], nodes[i + 1], ledger);
    }
    assert forall|i: int, j: int| 0 <= i < j < rest.len() implies !collide(
        #[trigger] rest[i],
        #[trigger] rest[j],
    ) by {
        assert(!collide(nodes[i + 1], nodes[j + 1]));
    }
}

/// One more operation that can be carried out and is about another listener
/// leaves the queue sound.
proof fn lemma_sound_push<T>(nodes: Seq<Node<T>>, ledger: Ledger<T>, node: Node<T>)
    requires
        sound(nodes, ledger),
        node.ready(ledger),
        forall|i: int| 0 <= i < nodes.len() ==> !collide(#[trigger] nodes[i], node),
    ensures
        sound(nodes.push(node), ledger),
{
}

/// The key by which a listener is known, if it is known not to be in the queue.
pub open spec fn entry_of<T>(ledger: Ledger<T>, listener: Listener) -> usize {
    match listener {
        Listener::HasNode(key) => key,
        Listener::Queued(ticket) => ledger.waiting[ticket].entry,
    }
}

/// The ledger once a listener knows its key.
pub open spec fn resolved<T>(ledger: Ledger<T>, listener: Listener) -> Ledger<T> {
    match listener {
        Listener::HasNode(_) => ledger,
        Listener::Queued(ticket) => Ledger { waiting: ledger.waiting.remove(ticket), ..ledger },
    }
}

/// The listener has an entry or waits to be added, and none of the operations
/// is its removal.
pub open spec fn is_known<T>(nodes: Seq<Node<T>>, ledger: Ledger<T>, listener: Listener) -> bool {
    &&& listener matches Listener::Queued(ticket) ==> ledger.waiting.contains_key(ticket)
        && ledger.waiting[ticket].entry != usize::MAX
    &&& listener is HasNode || entry_of(ledger, listener) != 0 ==> {
        &&& has_key(ledger.roster, entry_of(ledger, listener))
        &&& forall|i: int|
            0 <= i < nodes.len() ==> !(#[trigger] nodes[i] matches Node::RemoveListener {
                listener: key,
                ..
            } && key == entry_of(ledger, listener))
    }
}

/// The task that waits for a listener to be added, if there is one.
pub open spec fn waiter_of<T>(ledger: Ledger<T>, listener: Listener) -> Seq<Task> {
    match listener {
        Listener::HasNode(_) => Seq::empty(),
        Listener::Queued(ticket) => listed(ledger.waiting[ticket].task),
    }
}

/// The two are different listeners.
pub open spec fn apart<T>(ledger: Ledger<T>, a: Listener, b: Listener) -> bool {
    a != b && (entry_of(ledger, a) == 0 || entry_of(ledger, a) != entry_of(ledger, b))
}

/// What a listener needs to stay known.
proof fn lemma_stays_known<T>(
    nodes: Seq<Node<T>>,
    ledger: Ledger<T>,
    more: Seq<Node<T>>,
    after: Ledger<T>,
    listener: Listener,
)
    requires
        is_known(nodes, ledger, listener),
        listener is HasNode || entry_of(ledger, listener) != 0 ==> has_key(
            after.roster,
            entry_of(ledger, listener),
        ),
        listener matches Listener::Queued(ticket) ==> after.waiting.contains_key(ticket)
            && after.waiting[ticket].entry == ledger.waiting[ticket].entry,
        more == nodes || more.len() == nodes.len() + 1 && more.drop_last() == nodes && !(more.last()
            matches Node::RemoveListener { listener: key, .. } && key == entry_of(
            ledger,
            listener,
        )),
    ensures
        is_known(more, after, listener),
{
    if more != nodes {
        assert forall|i: int| 0 <= i < nodes.len() implies more[i] == nodes[i] by {
            assert(more.drop_last()[i] == nodes[i]);
        }
    }
}

/// The next key is nobody's.
pub proof fn lemma_fresh_key<T>(ledger: Ledger<T>)
    requires
        well_kept(ledger),
        ledger.with_listener().slots <= usize::MAX,
    ensures
        !has_key(ledger.roster, ledger.next_key()),
        0 < ledger.next_key() < usize::MAX,
        ledger.next_key() < ledger.with_listener().slots,
{
    let key = ledger.next_key();
    if ledger.free.len() > 0 {
        assert(ledger.free[0] == key);
    } else if has_key(ledger.roster, key) {
        let p = position(ledger.roster, key);
        assert(ledger.roster[p].0 < ledger.slots);
    }
}

/// Carrying out the first operation leaves a listener known.
pub proof fn lemma_known_step<T>(nodes: Seq<Node<T>>, ledger: Ledger<T>, listener: Listener)
    requires
        sound(nodes, ledger),
        well_kept(ledger),
        nodes.len() > 0,
        nodes[0].applied(ledger).slots <= usize::MAX,
        is_known(nodes, ledger, listener),
    ensures
        is_known(nodes.drop_first(), nodes[0].applied(ledger), listener),
{
    let node = nodes[0];
    let rest = nodes.drop_first();
    let after = node.applied(ledger);
    assert(node.ready(ledger));
    let key = entry_of(ledger, listener);
    assert forall|i: int| 0 <= i < rest.len() implies rest[i] == #[trigger] nodes[i + 1] by {}
    if listener is HasNode || key != 0 {
        let removal = Node::<T>::RemoveListener { listener: key, propagate: false };
        lemma_still_ready(node, removal, ledger);
        assert(entry_of(after, listener) == key);
        assert forall|i: int| 0 <= i < rest.len() implies !(#[trigger] rest[i]
            matches Node::RemoveListener { listener: k, .. } && k == key) by {
            assert(rest[i] == nodes[i + 1]);
        }
    } else {
        match node {
            Node::AddListener { ticket } if Listener::Queued(ticket) == listener => {
                lemma_fresh_key(ledger);
                let added = ledger.next_key();
                assert(is_at(after.roster, added, ledger.roster.len() as int));
                assert forall|i: int| 0 <= i < rest.len() implies !(#[trigger] rest[i]
                    matches Node::RemoveListener { listener: k, .. } && k == added) by {
                    assert(rest[i] == nodes[i + 1]);
                    assert(nodes[i + 1].ready(ledger));
                }
            },
            _ => {},
        }
    }
}

/// Takes as many tags out of a notification as listeners are asked for.
fn collect_tags<N: Notification>(notify: N) -> (tags: VecDeque<N::Tag>)
    requires
        notify.supplies(notify.asks() as nat),
    ensures
        can_deliver(notify, tags@),
        tags@.len() == notify.asks(),
{
    let count = notify.count();
    let mut rest = notify;
    let mut tags: VecDeque<N::Tag> = VecDeque::new();
    let ghost mut steps: Seq<N> = seq![notify];
    let mut n: usize = 0;
    while n < count
        invariant
            n <= count,
            count == notify.asks(),
            tags@.len() == n,
            is_run(steps, tags@),
            steps[0] == notify,
            steps.last() == rest,
            rest.supplies((count - n) as nat),
        decreases count - n,
    {
        proof {
            assert(rest.supplies(((count - n - 1) + 1) as nat));
        }
        let tag = rest.next_tag();
        proof {
            lemma_run_step(steps, tags@, tag, rest);
            steps = steps.push(rest);
        }
        tags.push_back(tag);
        n = n + 1;
    }
    tags
}

/// The state of an event.
pub struct Inner<T> {
    notified: usize,
    list: Mutex<ListenerSlab<T>>,
    queue: Queue<Node<T>>,
    waiting: Table<TaskWaiting>,
}

/// Proof that the list of an event is locked.
#[derive(Debug)]
pub struct ListGuard {
    guard: MutexGuard,
}

impl<T> Inner<T> {
    /// The listeners, and those that wait to be added.
    pub closed spec fn ledger(&self) -> Ledger<T> {
        ledger_of(self.list.value(), self.waiting)
    }

    /// The operations that were put off.
    pub closed spec fn put_off(&self) -> Seq<Node<T>> {
        self.queue@
    }

    /// Whether somebody has locked the list.
    pub closed spec fn is_locked(&self) -> bool {
        self.list.is_locked()
    }

    /// The number of notified listeners that is made known to senders.
    pub closed spec fn known(&self) -> usize {
        self.notified
    }

    /// The ticket of the next listener that is put off.
    pub closed spec fn next_ticket(&self) -> u64 {
        self.waiting.next_ticket()
    }

    /// The list is in order, what was put off can be carried out, and nothing is
    /// put off while the list is unlocked.
    pub closed spec fn wf(&self) -> bool {
        &&& self.list.value().wf()
        &&& self.waiting.wf()
        &&& self.queue.wf()
        &&& sound(self.put_off(), self.ledger())
        &&& !self.is_locked() ==> self.put_off().len() == 0 && self.known() == published(
            self.ledger().roster,
        )
    }

    /// The listener is one of this event's, and nobody has asked for its removal.
    pub open spec fn knows(&self, listener: Listener) -> bool {
        is_known(self.put_off(), self.ledger(), listener)
    }

    /// Creates the state of an event without listeners.
    pub fn new() -> (inner: Self)
        ensures
            inner.wf(),
            !inner.is_locked(),
            inner.ledger().roster == Roster::<T>::empty(),
            inner.ledger().waiting == Map::<u64, Wait>::empty(),
            inner.ledger().free == Seq::<usize>::empty(),
            inner.ledger().slots == 1,
            inner.put_off() == Seq::<Node<T>>::empty(),
            inner.known() == usize::MAX,
            inner.next_ticket() == 0,
    {
        let inner = Inner {
            notified: usize::MAX,
            list: Mutex::new(ListenerSlab::new()),
            queue: Queue::new(),
            waiting: Table::new(),
        };
        proof {
            assert(inner.ledger().waiting =~= Map::<u64, Wait>::empty());
        }
        inner
    }

    /// What can be known of an event. While its list is unlocked, nothing is put
    /// off and the number of notified listeners is known.
    pub proof fn lemma_inner(&self)
        requires
            self.wf(),
        ensures
            sound(self.put_off(), self.ledger()),
            well_kept(self.ledger()),
            is_fifo(self.ledger().roster),
            !self.is_locked() ==> self.put_off().len() == 0,
            !self.is_locked() ==> self.known() == published(self.ledger().roster),
    {
        self.list.value().lemma_slab();
    }

    /// Locks the list, unless somebody else has locked it.
    pub fn try_lock(&mut self) -> (guard: Option<ListGuard>)
        requires
            old(self).wf(),
        ensures
            final(self).wf(),
            guard is Some <==> !old(self).is_locked(),
            final(self).is_locked(),
            final(self).ledger() == old(self).ledger(),
            final(self).put_off() == old(self).put_off(),
            final(self).known() == old(self).known(),
            final(self).next_ticket() == old(self).next_ticket(),
    {
        match self.list.try_lock() {
            Some(guard) => Some(ListGuard { guard }),
            None => None,
        }
    }

    /// Carries out a first operation and then all that were put off. Puts the
    /// tasks to be woken at once behind those in `at_once`, and those to be woken
    /// once the list is unlocked behind those in `tasks`.
    #[verifier::spinoff_prover]
    #[verifier::rlimit(60)]
    fn process_nodes_slow<S: TaskSink>(
        &mut self,
        start_node: Node<T>,
        at_once: &mut S,
        tasks: &mut Vec<Task>,
        guard: &ListGuard,
    )
        requires
            old(self).list.value().wf(),
            old(self).waiting.wf(),
            old(self).queue.wf(),
            old(self).is_locked(),
            start_node.ready(old(self).ledger()),
            sound(seq![start_node] + old(self).put_off(), old(self).ledger()),
        ensures
            final(self).list.value().wf(),
            final(self).waiting.wf(),
            final(self).queue.wf(),
            final(self).is_locked(),
            final(self).put_off().len() == 0,
            final(self).ledger() == run(
                old(self).put_off(),
                start_node.applied(old(self).ledger()),
            ),
            final(tasks)@ == old(tasks)@ + run_wakes(
                seq![start_node] + old(self).put_off(),
                old(self).ledger(),
            ),
            final(at_once).gathered() == old(at_once).gathered() + run_tells(
                seq![start_node] + old(self).put_off(),
                old(self).ledger(),
            ),
            forall|l: Listener|
                is_known(seq![start_node] + old(self).put_off(), old(self).ledger(), l)
                    ==> #[trigger] final(self).knows(l),
            final(self).next_ticket() == old(self).next_ticket(),
    {
        let ghost nodes = self.queue@;
        let ghost ledger = self.ledger();
        let ghost first = start_node.applied(ledger);
        let ghost first_tasks = tasks@;
        let ghost first_told = at_once.gathered();
        let ghost all = seq![start_node] + nodes;
        proof {
            self.list.value().lemma_slab();
            assert(all.drop_first() =~= nodes);
            lemma_sound_rest(all, ledger);
        }
        match start_node.apply_into(self.list.get_mut(&guard.guard), &mut self.waiting, at_once) {
            Some(task) => tasks.push(task),
            None => {},
        }
        proof {
            assert(first_tasks + run_wakes(all, ledger) =~= tasks@ + run_wakes(nodes, first));
            assert(first_told + run_tells(all, ledger) =~= at_once.gathered() + run_tells(
                nodes,
                first,
            ));
            self.list.value().lemma_slab();
            assert forall|l: Listener| is_known(all, ledger, l) implies #[trigger] self.knows(l) by {
                lemma_known_step(all, ledger, l);
            }
        }
        let mut finished = false;
        while !finished
            invariant
                self.list.value().wf(),
                self.waiting.wf(),
                self.queue.wf(),
                self.is_locked(),
                sound(self.queue@, self.ledger()),
                run(self.queue@, self.ledger()) == run(nodes, first),
                tasks@ + run_wakes(self.queue@, self.ledger()) == first_tasks + run_wakes(
                    all,
                    ledger,
                ),
                at_once.gathered() + run_tells(self.queue@, self.ledger()) == first_told
                    + run_tells(all, ledger),
                forall|l: Listener| is_known(all, ledger, l) ==> #[trigger] self.knows(l),
                self.next_ticket() == old(self).next_ticket(),
                finished ==> self.queue@.len() == 0,
            decreases self.queue@.len() + if finished { 0int } else { 1 },
        {
            let ghost before = *self;
            let ghost now = self.ledger();
            let ghost queued = self.queue@;
            let ghost tasks_now = tasks@;
            let ghost told_now = at_once.gathered();
            proof {
                self.list.value().lemma_slab();
            }
            match self.queue.pop() {
                Some(node) => {
                    proof {
                        lemma_sound_rest(queued, now);
                    }
                    match node.apply_into(
                        self.list.get_mut(&guard.guard),
                        &mut self.waiting,
                        at_once,
                    ) {
                        Some(task) => tasks.push(task),
                        None => {},
                    }
                    proof {
                        assert(tasks_now + run_wakes(queued, now) =~= tasks@ + run_wakes(
                            self.queue@,
                            self.ledger(),
                        ));
                        assert(told_now + run_tells(queued, now) =~= at_once.gathered()
                            + run_tells(self.queue@, self.ledger()));
                        self.list.value().lemma_slab();
                        assert forall|l: Listener| is_known(all, ledger, l) implies #[trigger] self.knows(
                            l,
                        ) by {
                            assert(before.knows(l));
                            lemma_known_step(queued, now, l);
                        }
                    }
                },
                None => {
                    finished = true;
                    proof {
                        assert forall|l: Listener| is_known(all, ledger, l) implies #[trigger] self.knows(
                            l,
                        ) by {
                            assert(before.knows(l));
                        }
                    }
                },
            }
        }
        proof {
            assert(tasks@ + Seq::<Task>::empty() =~= tasks@);
            assert(at_once.gathered() + Seq::<Task>::empty() =~= at_once.gathered());
        }
    }

    /// Carries out what was put off, makes the number of notified listeners
    /// known, and unlocks the list. Puts the tasks to be woken by that behind
    /// those in `tasks`: first those that wake up while the list is still locked,
    /// then those that waited for it to be unlocked.
    pub fn unlock_into<S: TaskSink>(&mut self, guard: ListGuard, tasks: &mut S)
        requires
            old(self).wf(),
            old(self).is_locked(),
        ensures
            final(self).wf(),
            !final(self).is_locked(),
            final(self).put_off().len() == 0,
            final(self).known() == published(final(self).ledger().roster),
            final(self).ledger() == run(old(self).put_off(), old(self).ledger()),
            final(tasks).gathered() == old(tasks).gathered() + run_tells(
                old(self).put_off(),
                old(self).ledger(),
            ) + run_wakes(old(self).put_off(), old(self).ledger()),
            forall|l: Listener| old(self).knows(l) ==> #[trigger] final(self).knows(l),
            final(self).next_ticket() == old(self).next_ticket(),
    {
        let ghost nodes = self.queue@;
        let ghost ledger = self.ledger();
        // Tasks to wake up after the list is unlocked.
        let mut later: Vec<Task> = Vec::new();
        match self.queue.pop() {
            Some(start_node) => {
                proof {
                    lemma_sound_rest(nodes, ledger);
                    assert(seq![start_node] + nodes.drop_first() =~= nodes);
                }
                self.process_nodes_slow(start_node, tasks, &mut later, &guard);
            },
            None => {
                proof {
                    assert(tasks.gathered() + Seq::<Task>::empty() =~= tasks.gathered());
                }
            },
        }
        proof {
            assert(later@ =~= run_wakes(nodes, ledger));
        }
        let ghost processed = *self;
        let list = self.list.get(&guard.guard);
        let notified = list.notified();
        self.notified = if notified < list.len() {
            notified
        } else {
            usize::MAX
        };
        self.list.unlock(guard.guard);
        accept_all(later, tasks);
        proof {
            assert forall|l: Listener| old(self).knows(l) implies #[trigger] self.knows(l) by {
                assert(processed.knows(l));
            }
        }
    }

    /// Carries out what was put off, unlocks the list, and wakes the tasks that
    /// waited for that.
    pub fn unlock(&mut self, guard: ListGuard)
        requires
            old(self).wf(),
            old(self).is_locked(),
        ensures
            final(self).wf(),
            !final(self).is_locked(),
            final(self).put_off().len() == 0,
            final(self).known() == published(final(self).ledger().roster),
            final(self).ledger() == run(old(self).put_off(), old(self).ledger()),
            forall|l: Listener| old(self).knows(l) ==> #[trigger] final(self).knows(l),
            final(self).next_ticket() == old(self).next_ticket(),
            all_woken(run_tells(old(self).put_off(), old(self).ledger())),
            all_woken(run_wakes(old(self).put_off(), old(self).ledger())),
    {
        let mut tasks = WakeNow::new();
        self.unlock_into(guard, &mut tasks);
        tasks.attest();
        proof {
            lemma_both_woken(
                run_tells(old(self).put_off(), old(self).ledger()),
                run_wakes(old(self).put_off(), old(self).ledger()),
                tasks.gathered(),
            );
        }
    }

    /// Unlocks the list where nothing was put off, so that nobody else is woken.
    fn unlock_quietly<S: TaskSink>(&mut self, guard: ListGuard, tasks: &mut S)
        requires
            old(self).wf(),
            old(self).is_locked(),
            old(self).put_off().len() == 0,
        ensures
            final(self).wf(),
            !final(self).is_locked(),
            final(self).put_off() == old(self).put_off(),
            final(self).ledger() == old(self).ledger(),
            final(tasks).gathered() == old(tasks).gathered(),
            forall|l: Listener| old(self).knows(l) ==> #[trigger] final(self).knows(l),
            final(self).next_ticket() == old(self).next_ticket(),
    {
        self.unlock_into(guard, tasks);
        proof {
            assert(tasks.gathered() =~= old(tasks).gathered());
            assert(self.put_off() =~= old(self).put_off());
        }
    }

    /// Whether fewer than `limit` listeners are known to be notified.
    pub fn notifyable(&self, limit: usize) -> (b: bool)
        ensures
            b == (self.known() < limit),
    {
        self.notified < limit
    }

    /// Adds a listener to the list. If the list is locked, that is put off.
    ///
    /// Does nothing if the listener is registered already.
    pub fn insert(&mut self, listener: &mut Option<Listener>)
        requires
            old(self).wf(),
            *old(listener) is None && old(self).is_locked() ==> old(self).next_ticket() < u64::MAX,
        ensures
            final(self).wf(),
            final(self).is_locked() == old(self).is_locked(),
            forall|l: Listener| old(self).knows(l) ==> #[trigger] final(self).knows(l),
            if *old(listener) is Some {
                &&& *final(listener) == *old(listener)
                &&& final(self).ledger() == old(self).ledger()
                &&& final(self).put_off() == old(self).put_off()
                &&& final(self).known() == old(self).known()
            } else if !old(self).is_locked() {
                &&& *final(listener) == Some(Listener::HasNode(old(self).ledger().next_key()))
                &&& !has_key(old(self).ledger().roster, old(self).ledger().next_key())
                &&& final(self).ledger() == old(self).ledger().with_listener()
                &&& final(self).put_off() == old(self).put_off()
                &&& final(self).knows(Listener::HasNode(old(self).ledger().next_key()))
                &&& state_of(
                    final(self).ledger().roster,
                    old(self).ledger().next_key(),
                ) is Created
            } else {
                let ticket = old(self).next_ticket();
                &&& *final(listener) == Some(Listener::Queued(ticket))
                &&& !old(self).ledger().waiting.contains_key(ticket)
                &&& final(self).ledger() == (Ledger {
                    waiting: old(self).ledger().waiting.insert(
                        ticket,
                        Wait { entry: 0, task: None },
                    ),
                    ..old(self).ledger()
                })
                &&& final(self).put_off() == old(self).put_off().push(Node::AddListener { ticket })
                &&& final(self).knows(Listener::Queued(ticket))
                &&& final(self).known() == old(self).known()
            },
    {
        if listener.is_some() {
            return;
        }
        let ghost before = *self;
        match self.try_lock() {
            Some(guard) => {
                let key = self.list.get_mut(&guard.guard).insert(State::Created);
                *listener = Some(Listener::HasNode(key));
                proof {
                    assert(self.ledger() =~= before.ledger().with_listener());
                    let r = before.ledger().roster;
                    before.list.value().lemma_slab();
                    lemma_newcomer(r, r.len() as int, key, State::<T>::Created);
                    assert forall|l: Listener| before.knows(l) implies #[trigger] self.knows(l) by {
                        lemma_stays_known(
                            before.put_off(),
                            before.ledger(),
                            self.put_off(),
                            self.ledger(),
                            l,
                        );
                    }
                }
                self.unlock(guard);
            },
            None => {
                let (node, ticket) = Node::listener(&mut self.waiting);
                proof {
                    lemma_sound_push(before.put_off(), self.ledger(), node);
                }
                self.queue.push(node);
                *listener = Some(Listener::Queued(ticket));
                proof {
                    assert(self.put_off().drop_last() =~= before.put_off());
                    assert forall|l: Listener| before.knows(l) implies #[trigger] self.knows(l) by {
                        lemma_stays_known(
                            before.put_off(),
                            before.ledger(),
                            self.put_off(),
                            self.ledger(),
                            l,
                        );
                    }
                }
            },
        }
    }

    /// Notifies listeners, and returns how many. Puts the tasks to be woken behind
    /// those in `tasks`. If the list is locked, that is put off, with tags that
    /// are made at once.
    pub fn notify_into<N: Notification<Tag = T>, S: TaskSink>(
        &mut self,
        notify: N,
        tasks: &mut S,
    ) -> (count: usize)
        requires
            old(self).wf(),
            if old(self).is_locked() {
                notify.supplies(notify.asks() as nat)
            } else {
                has_tags(old(self).ledger().roster, notify)
            },
        ensures
            final(self).wf(),
            final(self).is_locked() == old(self).is_locked(),
            final(self).next_ticket() == old(self).next_ticket(),
            forall|l: Listener| old(self).knows(l) ==> #[trigger] final(self).knows(l),
            if !old(self).is_locked() {
                &&& carried_out(old(self).ledger().roster, notify, final(self).ledger().roster)
                &&& final(self).ledger() == (Ledger {
                    roster: final(self).ledger().roster,
                    ..old(self).ledger()
                })
                &&& final(self).put_off() == old(self).put_off()
                &&& count == granted(
                    old(self).ledger().roster,
                    notify.asks(),
                    notify.wants_additional(),
                )
                &&& final(tasks).gathered() == old(tasks).gathered() + woken(
                    old(self).ledger().roster,
                    count as nat,
                )
            } else {
                &&& final(self).ledger() == old(self).ledger()
                &&& final(self).put_off().len() == old(self).put_off().len() + 1
                &&& final(self).put_off().drop_last() == old(self).put_off()
                &&& final(self).put_off().last() matches Node::Notify(put) && {
                    &&& put.count == notify.asks()
                    &&& put.additional == notify.wants_additional()
                    &&& put.tags.tags@.len() == notify.asks()
                    &&& can_deliver(notify, put.tags.tags@)
                }
                &&& final(self).known() == old(self).known()
                &&& count == 0
                &&& final(tasks).gathered() == old(tasks).gathered()
            },
    {
        let ghost before = *self;
        match self.try_lock() {
            Some(guard) => {
                let count = self.list.get_mut(&guard.guard).notify_into(notify, tasks);
                proof {
                    assert forall|l: Listener| before.knows(l) implies #[trigger] self.knows(l) by {
                        lemma_stays_known(
                            before.put_off(),
                            before.ledger(),
                            self.put_off(),
                            self.ledger(),
                            l,
                        );
                    }
                }
                self.unlock_quietly(guard, tasks);
                count
            },
            None => {
                let count = notify.count();
                let additional = notify.is_additional();
                let tags = collect_tags(notify);
                let node = Node::Notify(
                    GenericNotify::new(count, additional, VecProducer { tags }),
                );
                proof {
                    lemma_sound_push(before.put_off(), self.ledger(), node);
                }
                self.queue.push(node);
                proof {
                    assert(self.put_off().drop_last() =~= before.put_off());
                    assert forall|l: Listener| before.knows(l) implies #[trigger] self.knows(l) by {
                        lemma_stays_known(
                            before.put_off(),
                            before.ledger(),
                            self.put_off(),
                            self.ledger(),
                            l,
                        );
                    }
                }
                0
            },
        }
    }

    /// Notifies listeners, and returns how many. If the list is locked, that is
    /// put off, with tags that are made at once.
    pub fn notify<N: Notification<Tag = T>>(&mut self, notify: N) -> (count: usize)
        requires
            old(self).wf(),
            if old(self).is_locked() {
                notify.supplies(notify.asks() as nat)
            } else {
                has_tags(old(self).ledger().roster, notify)
            },
        ensures
            final(self).wf(),
            final(self).is_locked() == old(self).is_locked(),
            final(self).next_ticket() == old(self).next_ticket(),
            forall|l: Listener| old(self).knows(l) ==> #[trigger] final(self).knows(l),
            if !old(self).is_locked() {
                &&& carried_out(old(self).ledger().roster, notify, final(self).ledger().roster)
                &&& final(self).ledger() == (Ledger {
                    roster: final(self).ledger().roster,
                    ..old(self).ledger()
                })
                &&& final(self).put_off() == old(self).put_off()
                &&& count == granted(
                    old(self).ledger().roster,
                    notify.asks(),
                    notify.wants_additional(),
                )
                &&& all_woken(woken(old(self).ledger().roster, count as nat))
            } else {
                &&& final(self).ledger() == old(self).ledger()
                &&& final(self).put_off().len() == old(self).put_off().len() + 1
                &&& final(self).put_off().drop_last() == old(self).put_off()
                &&& final(self).put_off().last() matches Node::Notify(put) && {
                    &&& put.count == notify.asks()
                    &&& put.additional == notify.wants_additional()
                    &&& put.tags.tags@.len() == notify.asks()
                    &&& can_deliver(notify, put.tags.tags@)
                }
                &&& final(self).known() == old(self).known()
                &&& count == 0
            },
    {
        let mut tasks = WakeNow::new();
        let count = self.notify_into(notify, &mut tasks);
        tasks.attest();
        proof {
            if !old(self).is_locked() {
                assert(tasks.gathered() =~= woken(old(self).ledger().roster, count as nat));
            }
        }
        count
    }

    /// Removes a listener that has an entry. Puts the tasks to be woken by that
    /// behind those in `tasks`.
    fn remove_entry<S: TaskSink>(&mut self, key: usize, propagate: bool, tasks: &mut S) -> (state:
        Option<State<T>>)
        requires
            old(self).wf(),
            old(self).knows(Listener::HasNode(key)),
        ensures
            final(self).wf(),
            final(self).is_locked() == old(self).is_locked(),
            final(self).next_ticket() == old(self).next_ticket(),
            old(self).is_locked() ==> final(self).known() == old(self).known(),
            forall|l: Listener|
                old(self).knows(l) && apart(old(self).ledger(), l, Listener::HasNode(key))
                    ==> #[trigger] final(self).knows(l),
            if !old(self).is_locked() {
                &&& state == Some(left_of(state_of(old(self).ledger().roster, key), propagate))
                &&& final(tasks).gathered() == old(tasks).gathered() + woken_if(
                    old(self).ledger().roster,
                    key,
                    propagate,
                )
                &&& final(self).ledger() == (Node::RemoveListener {
                    listener: key,
                    propagate,
                }).applied(old(self).ledger())
                &&& final(self).put_off() == old(self).put_off()
            } else {
                &&& state is None
                &&& final(tasks).gathered() == old(tasks).gathered()
                &&& final(self).ledger() == old(self).ledger()
                &&& final(self).put_off() == old(self).put_off().push(
                    Node::RemoveListener { listener: key, propagate },
                )
            },
    {
        let ghost before = *self;
        proof {
            self.list.value().lemma_slab();
            let r = self.ledger().roster;
            assert(0 < r[position(r, key)].0);
        }
        match self.try_lock() {
            Some(guard) => {
                let state = self.list.get_mut(&guard.guard).remove_into(key, propagate, tasks);
                proof {
                    assert(self.ledger() =~= (Node::RemoveListener {
                        listener: key,
                        propagate,
                    }).applied(before.ledger()));
                    assert forall|l: Listener|
                        before.knows(l) && apart(
                            before.ledger(),
                            l,
                            Listener::HasNode(key),
                        ) implies #[trigger] self.knows(l) by {
                        lemma_stays_known(
                            before.put_off(),
                            before.ledger(),
                            self.put_off(),
                            self.ledger(),
                            l,
                        );
                    }
                }
                self.unlock_quietly(guard, tasks);
                state
            },
            None => {
                let node = Node::RemoveListener { listener: key, propagate };
                proof {
                    lemma_sound_push(before.put_off(), self.ledger(), node);
                }
                self.queue.push(node);
                proof {
                    assert(self.put_off().drop_last() =~= before.put_off());
                    assert forall|l: Listener|
                        before.knows(l) && apart(
                            before.ledger(),
                            l,
                            Listener::HasNode(key),
                        ) implies #[trigger] self.knows(l) by {
                        lemma_stays_known(
                            before.put_off(),
                            before.ledger(),
                            self.put_off(),
                            self.ledger(),
                            l,
                        );
                    }
                }
                None
            },
        }
    }

    /// Removes a listener. Puts the tasks to be woken by that behind those in
    /// `tasks`. See [`Inner::remove`].
    #[verifier::spinoff_prover]
    #[verifier::rlimit(60)]
    pub fn remove_into<S: TaskSink>(
        &mut self,
        listener: &mut Option<Listener>,
        propagate: bool,
        tasks: &mut S,
    ) -> (state: Option<State<T>>)
        requires
            old(self).wf(),
            *old(listener) matches Some(l) ==> old(self).knows(l),
        ensures
            final(self).wf(),
            final(self).is_locked() == old(self).is_locked(),
            final(self).next_ticket() == old(self).next_ticket(),
            old(self).is_locked() ==> final(self).known() == old(self).known(),
            *final(listener) is None,
            *old(listener) matches Some(gone) ==> forall|l: Listener|
                old(self).knows(l) && apart(old(self).ledger(), l, gone)
                    ==> #[trigger] final(self).knows(l),
            final(tasks).gathered() == old(tasks).gathered() + (match *old(listener) {
                None => Seq::empty(),
                Some(l) => waiter_of(old(self).ledger(), l) + (if old(self).is_locked()
                    || entry_of(old(self).ledger(), l) == 0 {
                    Seq::empty()
                } else {
                    woken_if(
                        old(self).ledger().roster,
                        entry_of(old(self).ledger(), l),
                        propagate,
                    )
                }),
            }),
            match *old(listener) {
                None => {
                    &&& state is None
                    &&& final(self).ledger() == old(self).ledger()
                    &&& final(self).put_off() == old(self).put_off()
                },
                Some(l) => {
                    let before = old(self).ledger();
                    let key = entry_of(before, l);
                    if l matches Listener::Queued(ticket) && before.waiting[ticket].entry == 0 {
                        &&& state is None
                        &&& final(self).ledger() == (Ledger {
                            waiting: before.waiting.insert(
                                l->Queued_0,
                                Wait { entry: usize::MAX, task: None },
                            ),
                            ..before
                        })
                        &&& final(self).put_off() == old(self).put_off()
                    } else if !old(self).is_locked() {
                        &&& state == Some(left_of(state_of(before.roster, key), propagate))
                        &&& final(self).ledger() == (Node::RemoveListener {
                            listener: key,
                            propagate,
                        }).applied(resolved(before, l))
                        &&& final(self).put_off() == old(self).put_off()
                    } else {
                        &&& state is None
                        &&& final(self).ledger() == resolved(before, l)
                        &&& final(self).put_off() == old(self).put_off().push(
                            Node::RemoveListener { listener: key, propagate },
                        )
                    }
                },
            },
    {
        let ghost before = *self;
        let ghost first_tasks = tasks.gathered();
        proof {
            self.list.value().lemma_slab();
            assert(first_tasks + Seq::<Task>::empty() =~= first_tasks);
        }
        match listener.take() {
            Some(Listener::HasNode(key)) => {
                let state = self.remove_entry(key, propagate, tasks);
                proof {
                    let r = before.ledger().roster;
                    assert(0 < r[position(r, key)].0);
                    assert(tasks.gathered() =~= first_tasks + (Seq::<Task>::empty() + (
                    if before.is_locked() {
                        Seq::empty()
                    } else {
                        woken_if(r, key, propagate)
                    })));
                }
                state
            },
            Some(Listener::Queued(ticket)) => {
                proof {
                    self.waiting.lemma_issued(ticket);
                }
                let mut waiting = self.waiting.take(ticket);
                match waiting.cancel_into(tasks) {
                    Some(key) => {
                        proof {
                            assert(self.ledger().waiting =~= before.ledger().waiting.remove(ticket));
                            lemma_sound_without(before.put_off(), before.ledger(), ticket);
                            assert forall|l: Listener|
                                before.knows(l) && apart(
                                    before.ledger(),
                                    l,
                                    Listener::Queued(ticket),
                                ) implies #[trigger] self.knows(l) && apart(
                                self.ledger(),
                                l,
                                Listener::HasNode(key),
                            ) by {
                                lemma_stays_known(
                                    before.put_off(),
                                    before.ledger(),
                                    self.put_off(),
                                    self.ledger(),
                                    l,
                                );
                            }
                        }
                        let state = self.remove_entry(key, propagate, tasks);
                        proof {
                            assert(tasks.gathered() =~= first_tasks + (waiter_of(
                                before.ledger(),
                                Listener::Queued(ticket),
                            ) + (if before.is_locked() {
                                Seq::empty()
                            } else {
                                woken_if(before.ledger().roster, key, propagate)
                            })));
                        }
                        state
                    },
                    None => {
                        proof {
                            assert(tasks.gathered() =~= first_tasks + (waiter_of(
                                before.ledger(),
                                Listener::Queued(ticket),
                            ) + Seq::<Task>::empty()));
                        }
                        self.waiting.put(ticket, waiting);
                        proof {
                            assert(self.ledger().waiting =~= before.ledger().waiting.insert(
                                ticket,
                                Wait { entry: usize::MAX, task: None },
                            ));
                            assert forall|i: int| 0 <= i < self.put_off().len() implies (
                            #[trigger] self.put_off()[i]).ready(self.ledger()) by {
                                assert(before.put_off()[i].ready(before.ledger()));
                            }
                            assert forall|l: Listener|
                                before.knows(l) && apart(
                                    before.ledger(),
                                    l,
                                    Listener::Queued(ticket),
                                ) implies #[trigger] self.knows(l) by {
                                lemma_stays_known(
                                    before.put_off(),
                                    before.ledger(),
                                    self.put_off(),
                                    self.ledger(),
                                    l,
                                );
                            }
                        }
                        None
                    },
                }
            },
            None => None,
        }
    }

    /// Removes a listener. If it has an entry and the list is locked, that is
    /// put off. A listener that is still waiting to be added will not be added.
    pub fn remove(&mut self, listener: &mut Option<Listener>, propagate: bool) -> (state: Option<
        State<T>,
    >)
        requires
            old(self).wf(),
            *old(listener) matches Some(l) ==> old(self).knows(l),
        ensures
            final(self).wf(),
            final(self).is_locked() == old(self).is_locked(),
            final(self).next_ticket() == old(self).next_ticket(),
            old(self).is_locked() ==> final(self).known() == old(self).known(),
            *final(listener) is None,
            *old(listener) matches Some(l) ==> all_woken(waiter_of(old(self).ledger(), l)),
            *old(listener) matches Some(l) ==> !old(self).is_locked() && entry_of(
                old(self).ledger(),
                l,
            ) != 0 ==> all_woken(
                woken_if(old(self).ledger().roster, entry_of(old(self).ledger(), l), propagate),
            ),
            *old(listener) matches Some(gone) ==> forall|l: Listener|
                old(self).knows(l) && apart(old(self).ledger(), l, gone)
                    ==> #[trigger] final(self).knows(l),
            match *old(listener) {
                None => {
                    &&& state is None
                    &&& final(self).ledger() == old(self).ledger()
                    &&& final(self).put_off() == old(self).put_off()
                },
                Some(l) => {
                    let before = old(self).ledger();
                    let key = entry_of(before, l);
                    if l matches Listener::Queued(ticket) && before.waiting[ticket].entry == 0 {
                        &&& state is None
                        &&& final(self).ledger() == (Ledger {
                            waiting: before.waiting.insert(
                                l->Queued_0,
                                Wait { entry: usize::MAX, task: None },
                            ),
                            ..before
                        })
                        &&& final(self).put_off() == old(self).put_off()
                    } else if !old(self).is_locked() {
                        &&& state == Some(left_of(state_of(before.roster, key), propagate))
                        &&& final(self).ledger() == (Node::RemoveListener {
                            listener: key,
                            propagate,
                        }).applied(resolved(before, l))
                        &&& final(self).put_off() == old(self).put_off()
                    } else {
                        &&& state is None
                        &&& final(self).ledger() == resolved(before, l)
                        &&& final(self).put_off() == old(self).put_off().push(
                            Node::RemoveListener { listener: key, propagate },
                        )
                    }
                },
            },
    {
        let mut tasks = WakeNow::new();
        let state = self.remove_into(listener, propagate, &mut tasks);
        tasks.attest();
        proof {
            match *old(listener) {
                Some(l) => {
                    let r = old(self).ledger().roster;
                    let key = entry_of(old(self).ledger(), l);
                    lemma_both_woken(
                        waiter_of(old(self).ledger(), l),
                        if old(self).is_locked() || key == 0 {
                            Seq::empty()
                        } else {
                            woken_if(r, key, propagate)
                        },
                        tasks.gathered(),
                    );
                },
                None => {},
            }
        }
        state
    }

    /// Registers a task with a listener that has an entry.
    fn register_entry(&mut self, listener: &mut Option<Listener>, key: usize, task: TaskRef) -> (
    result: RegisterResult<T>)
        requires
            old(self).wf(),
            *old(listener) == Some(Listener::HasNode(key)),
            old(self).knows(Listener::HasNode(key)),
        ensures
            final(self).wf(),
            final(self).is_locked() == old(self).is_locked(),
            final(self).next_ticket() == old(self).next_ticket(),
            old(self).is_locked() ==> final(self).known() == old(self).known(),
            forall|l: Listener|
                old(self).knows(l) && apart(old(self).ledger(), l, Listener::HasNode(key))
                    ==> #[trigger] final(self).knows(l),
            *final(listener) matches Some(l) ==> final(self).knows(l),
            if !old(self).is_locked() {
                &&& registered(
                    old(self).ledger().roster,
                    key,
                    task,
                    final(self).ledger().roster,
                    result,
                )
                &&& final(self).ledger() == (Ledger {
                    roster: final(self).ledger().roster,
                    free: if result is Notified {
                        seq![key] + old(self).ledger().free
                    } else {
                        old(self).ledger().free
                    },
                    ..old(self).ledger()
                })
                &&& final(self).put_off() == old(self).put_off()
                &&& *final(listener) == (if result is Notified {
                    None
                } else {
                    Some(Listener::HasNode(key))
                })
            } else {
                &&& result is Registered
                &&& final(self).ledger() == old(self).ledger()
                &&& final(self).put_off().len() == old(self).put_off().len() + 1
                &&& final(self).put_off().drop_last() == old(self).put_off()
                &&& final(self).put_off().last() matches Node::Waiting(t) && task.copies_to(t)
                &&& *final(listener) == Some(Listener::HasNode(key))
            },
    {
        let ghost before = *self;
        match self.try_lock() {
            Some(guard) => {
                let result = self.list.get_mut(&guard.guard).register(listener, task);
                proof {
                    before.list.value().lemma_slab();
                    lemma_registered_stay(
                        before.ledger().roster,
                        key,
                        task,
                        self.ledger().roster,
                        result,
                    );
                    assert forall|l: Listener|
                        before.knows(l) && (apart(before.ledger(), l, Listener::HasNode(key)) || l
                            == Listener::HasNode(key) && !(result
                            is Notified)) implies #[trigger] self.knows(l) by {
                        lemma_stays_known(
                            before.put_off(),
                            before.ledger(),
                            self.put_off(),
                            self.ledger(),
                            l,
                        );
                    }
                }
                self.unlock(guard);
                result
            },
            None => {
                let node = Node::Waiting(task.into_task());
                proof {
                    lemma_sound_push(before.put_off(), self.ledger(), node);
                }
                self.queue.push(node);
                proof {
                    assert(self.put_off().drop_last() =~= before.put_off());
                    assert forall|l: Listener| before.knows(l) implies #[trigger] self.knows(l) by {
                        lemma_stays_known(
                            before.put_off(),
                            before.ledger(),
                            self.put_off(),
                            self.ledger(),
                            l,
                        );
                    }
                }
                RegisterResult::Registered
            },
        }
    }

    /// Registers a task that waits on a listener. Puts a task that has been
    /// waiting for the listener to be added, which is to be woken, behind those
    /// in `tasks`. See [`Inner::register`].
    pub fn register_into<S: TaskSink>(
        &mut self,
        listener: &mut Option<Listener>,
        task: TaskRef,
        tasks: &mut S,
    ) -> (result: RegisterResult<T>)
        requires
            old(self).wf(),
            *old(listener) matches Some(l) ==> old(self).knows(l),
        ensures
            final(self).wf(),
            final(self).is_locked() == old(self).is_locked(),
            final(self).next_ticket() == old(self).next_ticket(),
            old(self).is_locked() ==> final(self).known() == old(self).known(),
            *old(listener) matches Some(this) ==> forall|l: Listener|
                old(self).knows(l) && apart(old(self).ledger(), l, this)
                    ==> #[trigger] final(self).knows(l),
            *final(listener) matches Some(l) ==> final(self).knows(l),
            final(tasks).gathered() == old(tasks).gathered() + (match *old(listener) {
                Some(l) if entry_of(old(self).ledger(), l) == 0 => waiter_of(
                    old(self).ledger(),
                    l,
                ),
                _ => Seq::empty(),
            }),
            match *old(listener) {
                None => {
                    &&& result is NeverInserted
                    &&& *final(listener) is None
                    &&& final(self).ledger() == old(self).ledger()
                    &&& final(self).put_off() == old(self).put_off()
                },
                Some(l) => {
                    let before = old(self).ledger();
                    let key = entry_of(before, l);
                    if l matches Listener::Queued(ticket) && before.waiting[ticket].entry == 0 {
                        &&& result is Registered
                        &&& *final(listener) == Some(l)
                        &&& exists|t: Task| #[trigger]
                            task.copies_to(t) && final(self).ledger() == (Ledger {
                                waiting: before.waiting.insert(
                                    l->Queued_0,
                                    Wait { entry: 0, task: Some(t) },
                                ),
                                ..before
                            })
                        &&& final(self).put_off() == old(self).put_off()
                    } else if !old(self).is_locked() {
                        &&& registered(
                            before.roster,
                            key,
                            task,
                            final(self).ledger().roster,
                            result,
                        )
                        &&& final(self).ledger() == (Ledger {
                            roster: final(self).ledger().roster,
                            free: if result is Notified {
                                seq![key] + before.free
                            } else {
                                before.free
                            },
                            ..resolved(before, l)
                        })
                        &&& final(self).put_off() == old(self).put_off()
                        &&& *final(listener) == (if result is Notified {
                            None
                        } else {
                            Some(Listener::HasNode(key))
                        })
                    } else {
                        &&& result is Registered
                        &&& final(self).ledger() == resolved(before, l)
                        &&& final(self).put_off().len() == old(self).put_off().len() + 1
                        &&& final(self).put_off().drop_last() == old(self).put_off()
                        &&& final(self).put_off().last() matches Node::Waiting(t)
                            && task.copies_to(t)
                        &&& *final(listener) == Some(Listener::HasNode(key))
                    }
                },
            },
    {
        let ghost before = *self;
        proof {
            self.list.value().lemma_slab();
            assert(tasks.gathered() + Seq::<Task>::empty() =~= tasks.gathered());
            match *listener {
                Some(Listener::HasNode(key)) => {
                    let r = self.ledger().roster;
                    assert(0 < r[position(r, key)].0);
                },
                _ => {},
            }
        }
        match *listener {
            Some(Listener::HasNode(key)) => self.register_entry(listener, key, task),
            Some(Listener::Queued(ticket)) => {
                proof {
                    self.waiting.lemma_issued(ticket);
                }
                match self.waiting.get(ticket).status() {
                    Some(key) => {
                        self.waiting.take(ticket);
                        *listener = Some(Listener::HasNode(key));
                        proof {
                            assert(self.ledger().waiting =~= before.ledger().waiting.remove(ticket));
                            lemma_sound_without(before.put_off(), before.ledger(), ticket);
                            assert(is_known(
                                self.put_off(),
                                self.ledger(),
                                Listener::HasNode(key),
                            ));
                            assert forall|l: Listener|
                                before.knows(l) && apart(
                                    before.ledger(),
                                    l,
                                    Listener::Queued(ticket),
                                ) implies #[trigger] self.knows(l) && apart(
                                self.ledger(),
                                l,
                                Listener::HasNode(key),
                            ) by {
                                lemma_stays_known(
                                    before.put_off(),
                                    before.ledger(),
                                    self.put_off(),
                                    self.ledger(),
                                    l,
                                );
                            }
                        }
                        self.register_entry(listener, key, task)
                    },
                    None => {
                        let mut waiting = self.waiting.take(ticket);
                        let copy = task.into_task();
                        waiting.register_into(copy, tasks);
                        proof {
                            assert(tasks.gathered() =~= old(tasks).gathered() + waiter_of(
                                before.ledger(),
                                Listener::Queued(ticket),
                            ));
                        }
                        self.waiting.put(ticket, waiting);
                        proof {
                            assert(self.ledger().waiting =~= before.ledger().waiting.insert(
                                ticket,
                                Wait { entry: 0, task: Some(copy) },
                            ));
                            assert(task.copies_to(copy));
                            assert forall|i: int| 0 <= i < self.put_off().len() implies (
                            #[trigger] self.put_off()[i]).ready(self.ledger()) by {
                                assert(before.put_off()[i].ready(before.ledger()));
                            }
                            assert forall|l: Listener| before.knows(l) implies #[trigger] self.knows(
                                l,
                            ) by {
                                lemma_stays_known(
                                    before.put_off(),
                                    before.ledger(),
                                    self.put_off(),
                                    self.ledger(),
                                    l,
                                );
                            }
                        }
                        RegisterResult::Registered
                    },
                }
            },
            None => RegisterResult::NeverInserted,
        }
    }

    /// Registers a task that waits on a listener. If the list is locked, the
    /// task is woken when it is unlocked; if the listener is still waiting to be
    /// added, the task is woken when it is.
    pub fn register(&mut self, listener: &mut Option<Listener>, task: TaskRef) -> (result:
        RegisterResult<T>)
        requires
            old(self).wf(),
            *old(listener) matches Some(l) ==> old(self).knows(l),
        ensures
            final(self).wf(),
            final(self).is_locked() == old(self).is_locked(),
            final(self).next_ticket() == old(self).next_ticket(),
            old(self).is_locked() ==> final(self).known() == old(self).known(),
            *old(listener) matches Some(this) ==> forall|l: Listener|
                old(self).knows(l) && apart(old(self).ledger(), l, this)
                    ==> #[trigger] final(self).knows(l),
            *final(listener) matches Some(l) ==> final(self).knows(l),
            *old(listener) matches Some(l) ==> entry_of(old(self).ledger(), l) == 0 ==> all_woken(
                waiter_of(old(self).ledger(), l),
            ),
            match *old(listener) {
                None => {
                    &&& result is NeverInserted
                    &&& *final(listener) is None
                    &&& final(self).ledger() == old(self).ledger()
                    &&& final(self).put_off() == old(self).put_off()
                },
                Some(l) => {
                    let before = old(self).ledger();
                    let key = entry_of(before, l);
                    if l matches Listener::Queued(ticket) && before.waiting[ticket].entry == 0 {
                        &&& result is Registered
                        &&& *final(listener) == Some(l)
                        &&& exists|t: Task| #[trigger]
                            task.copies_to(t) && final(self).ledger() == (Ledger {
                                waiting: before.waiting.insert(
                                    l->Queued_0,
                                    Wait { entry: 0, task: Some(t) },
                                ),
                                ..before
                            })
                        &&& final(self).put_off() == old(self).put_off()
                    } else if !old(self).is_locked() {
                        &&& registered(
                            before.roster,
                            key,
                            task,
                            final(self).ledger().roster,
                            result,
                        )
                        &&& final(self).ledger() == (Ledger {
                            roster: final(self).ledger().roster,
                            free: if result is Notified {
                                seq![key] + before.free
                            } else {
                                before.free
                            },
                            ..resolved(before, l)
                        })
                        &&& final(self).put_off() == old(self).put_off()
                        &&& *final(listener) == (if result is Notified {
                            None
                        } else {
                            Some(Listener::HasNode(key))
                        })
                    } else {
                        &&& result is Registered
                        &&& final(self).ledger() == resolved(before, l)
                        &&& final(self).put_off().len() == old(self).put_off().len() + 1
                        &&& final(self).put_off().drop_last() == old(self).put_off()
                        &&& final(self).put_off().last() matches Node::Waiting(t)
                            && task.copies_to(t)
                        &&& *final(listener) == Some(Listener::HasNode(key))
                    }
                },
            },
    {
        let mut tasks = WakeNow::new();
        let result = self.register_into(listener, task, &mut tasks);
        tasks.attest();
        proof {
            match *old(listener) {
                Some(l) => {
                    if entry_of(old(self).ledger(), l) == 0 {
                        assert(tasks.gathered() =~= waiter_of(old(self).ledger(), l));
                    }
                },
                None => {},
            }
        }
        result
    }
}

/// A listener that knows its key is not in the queue any more, so the queue does
/// not need what is kept for it.
proof fn lemma_sound_without<T>(nodes: Seq<Node<T>>, ledger: Ledger<T>, ticket: u64)
    requires
        sound(nodes, ledger),
        ledger.waiting[ticket].entry != 0,
        ledger.waiting[ticket].entry != usize::MAX,
    ensures
        sound(nodes, Ledger { waiting: ledger.waiting.remove(ticket), ..ledger }),
{
    let after = Ledger { waiting: ledger.waiting.remove(ticket), ..ledger };
    assert forall|i: int| 0 <= i < nodes.len() implies (#[trigger] nodes[i]).ready(after) by {
        assert(nodes[i].ready(ledger));
    }
}

} // verus!
