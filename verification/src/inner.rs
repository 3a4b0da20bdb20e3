//! The state of an event whose list is guarded by a spinlock and a queue.
//!
//! Whoever finds the list locked puts the operation into the queue, and whoever
//! unlocks the list carries out what is in the queue.

use crate::list::{ListenerSlab, MAX_ENTRIES};
use crate::node::{ledger_of, Ledger, Node, TaskWaiting, Wait};
use crate::queue::Queue;
use crate::roster::{is_at, position, published, without, Roster};
use crate::spin::{Mutex, MutexGuard};
use crate::table::Table;
use crate::task::{accept_all, all_woken, lemma_both_woken, Task, TaskSink, WakeNow};
use vstd::prelude::*;

verus! {

/// The ledger after all operations of the queue, first to last.
pub open spec fn run(nodes: Seq<Node>, ledger: Ledger) -> Ledger
    decreases nodes.len(),
{
    if nodes.len() == 0 {
        ledger
    } else {
        run(nodes.drop_first(), nodes[0].applied(ledger))
    }
}

/// The tasks that all operations of the queue wake once the list is unlocked.
pub open spec fn run_wakes(nodes: Seq<Node>, ledger: Ledger) -> Seq<Task>
    decreases nodes.len(),
{
    if nodes.len() == 0 {
        Seq::empty()
    } else {
        let later = run_wakes(nodes.drop_first(), nodes[0].applied(ledger));
        match nodes[0].wakes(ledger) {
            Some(task) => seq![task] + later,
            None => later,
        }
    }
}

/// The tasks that all operations of the queue wake at once, while the list is
/// locked.
pub open spec fn run_tells(nodes: Seq<Node>, ledger: Ledger) -> Seq<Task>
    decreases nodes.len(),
{
    if nodes.len() == 0 {
        Seq::empty()
    } else {
        nodes[0].tells(ledger) + run_tells(nodes.drop_first(), nodes[0].applied(ledger))
    }
}

/// Two operations add or remove the same listener.
pub open spec fn collide(a: Node, b: Node) -> bool {
    match (a, b) {
        (Node::AddListener { ticket: s }, Node::AddListener { ticket: t }) => s == t,
        (
            Node::RemoveListener { listener: k, .. },
            Node::RemoveListener { listener: l, .. },
        ) => k == l,
        _ => false,
    }
}

/// Every operation of the queue can be carried out, no listener is added or
/// removed twice, and there is storage for all listeners that are added.
pub open spec fn sound(nodes: Seq<Node>, ledger: Ledger) -> bool {
    &&& ledger.size() + nodes.len() <= MAX_ENTRIES
    &&& forall|i: int| 0 <= i < nodes.len() ==> (#[trigger] nodes[i]).ready(ledger)
    &&& forall|i: int, j: int|
        0 <= i < j < nodes.len() ==> !collide(#[trigger] nodes[i], #[trigger] nodes[j])
}

/// An operation keeps what another one needs, and takes one entry at most.
proof fn lemma_still_ready(node: Node, other: Node, ledger: Ledger)
    requires
        node.ready(ledger),
        other.ready(ledger),
        !collide(node, other),
    ensures
        other.ready(node.applied(ledger)),
{
    match (node, other) {
        (
            Node::RemoveListener { listener: gone, propagate },
            Node::RemoveListener { listener, .. },
        ) => {
            let after = node.applied(ledger).roster;
            let g = position(ledger.roster, gone);
            let p = position(ledger.roster, listener);
            assert(ledger.roster[g].0 == gone && ledger.roster[p].0 == listener);
            let q = if p < g { p } else { p - 1 };
            assert(is_at(without(ledger.roster, gone), listener, q));
            assert(is_at(after, listener, q));
        },
        (_, Node::RemoveListener { listener, .. }) => {
            let after = node.applied(ledger).roster;
            let p = position(ledger.roster, listener);
            assert(is_at(after, listener, p));
        },
        _ => {},
    }
}

/// Carrying out the first operation leaves the others sound.
proof fn lemma_sound_rest(nodes: Seq<Node>, ledger: Ledger)
    requires
        sound(nodes, ledger),
        nodes.len() > 0,
    ensures
        nodes[0].ready(ledger),
        ledger.size() < MAX_ENTRIES,
        sound(nodes.drop_first(), nodes[0].applied(ledger)),
{
    let rest = nodes.drop_first();
    let after = nodes[0].applied(ledger);
    assert(nodes[0].ready(ledger));
    assert forall|i: int| 0 <= i < rest.len() implies (#[trigger] rest[i]).ready(after) by {
        assert(nodes[i + 1].ready(ledger));
        lemma_still_ready(nodes[0], nodes[i + 1], ledger);
    }
    assert forall|i: int, j: int| 0 <= i < j < rest.len() implies !collide(
        #[trigger] rest[i],
        #[trigger] rest[j],
    ) by {
        assert(!collide(nodes[i + 1], nodes[j + 1]));
    }
}

/// The state of an event.
pub struct Inner {
    notified: usize,
    list: Mutex<ListenerSlab>,
    queue: Queue<Node>,
    waiting: Table<TaskWaiting>,
}

/// Proof that the list of an event is locked.
#[derive(Debug)]
pub struct ListGuard {
    guard: MutexGuard,
}

impl Inner {
    /// The listeners, and those that wait to be added.
    pub closed spec fn ledger(&self) -> Ledger {
        ledger_of(self.list.value(), self.waiting)
    }

    /// The operations that were put off.
    pub closed spec fn put_off(&self) -> Seq<Node> {
        self.queue@
    }

    /// Whether somebody has locked the list.
    pub closed spec fn is_locked(&self) -> bool {
        self.list.is_locked()
    }

    /// The number of notified listeners that is made known to senders.
    pub closed spec fn known(&self) -> usize {
        self.notified
    }

    /// The ticket of the next listener that is put off.
    pub closed spec fn next_ticket(&self) -> u64 {
        self.waiting.next_ticket()
    }

    /// The list is in order, and what was put off can be carried out. While the
    /// list is unlocked and nothing is put off, the number of notified listeners
    /// is known.
    pub closed spec fn wf(&self) -> bool {
        &&& self.list.value().wf()
        &&& self.waiting.wf()
        &&& self.queue.wf()
        &&& sound(self.put_off(), self.ledger())
        &&& !self.is_locked() ==> self.known() == published(self.ledger().roster)
    }

    /// Creates the state of an event without listeners.
    pub fn new() -> (inner: Self)
        ensures
            inner.wf(),
            !inner.is_locked(),
            inner.known() == usize::MAX,
            inner.put_off() == Seq::<Node>::empty(),
            inner.ledger().roster == Roster::<()>::empty(),
            inner.ledger().free == Seq::<usize>::empty(),
            inner.ledger().waiting == Map::<u64, Wait>::empty(),
            inner.next_ticket() == 0,
    {
        let inner = Inner {
            notified: usize::MAX,
            list: Mutex::new(ListenerSlab::new()),
            queue: Queue::new(),
            waiting: Table::new(),
        };
        proof {
            assert(inner.ledger().waiting =~= Map::<u64, Wait>::empty());
        }
        inner
    }

    /// The number of notified listeners, or `usize::MAX` if all of them are.
    pub fn notified(&self) -> (notified: usize)
        ensures
            notified == self.known(),
    {
        self.notified
    }

    /// Locks the list, unless somebody else has locked it.
    pub fn try_lock(&mut self) -> (guard: Option<ListGuard>)
        requires
            old(self).wf(),
        ensures
            final(self).wf(),
            guard is Some <==> !old(self).is_locked(),
            final(self).is_locked(),
            final(self).ledger() == old(self).ledger(),
            final(self).put_off() == old(self).put_off(),
            final(self).known() == old(self).known(),
            final(self).next_ticket() == old(self).next_ticket(),
    {
        match self.list.try_lock() {
            Some(guard) => Some(ListGuard { guard }),
            None => None,
        }
    }

    /// Locks the list, which nobody else has locked.
    pub fn lock(&mut self) -> (guard: ListGuard)
        requires
            old(self).wf(),
            !old(self).is_locked(),
        ensures
            final(self).wf(),
            final(self).is_locked(),
            final(self).ledger() == old(self).ledger(),
            final(self).put_off() == old(self).put_off(),
            final(self).known() == old(self).known(),
            final(self).next_ticket() == old(self).next_ticket(),
    {
        let guard = self.list.lock();
        ListGuard { guard }
    }

    /// Puts off adding a listener. Returns the ticket of the listener.
    pub fn put_off_listener(&mut self) -> (ticket: u64)
        requires
            old(self).wf(),
            old(self).next_ticket() < u64::MAX,
            old(self).ledger().size() + old(self).put_off().len() < MAX_ENTRIES,
        ensures
            final(self).wf(),
            final(self).is_locked() == old(self).is_locked(),
            final(self).known() == old(self).known(),
            ticket == old(self).next_ticket(),
            !old(self).ledger().waiting.contains_key(ticket),
            final(self).ledger() == (Ledger {
                waiting: old(self).ledger().waiting.insert(ticket, Wait { entry: 0, task: None }),
                ..old(self).ledger()
            }),
            final(self).put_off() == old(self).put_off().push(Node::AddListener { ticket }),
            final(self).next_ticket() == old(self).next_ticket() + 1,
    {
        let ghost before = *self;
        let (node, ticket) = Node::listener(&mut self.waiting);
        self.queue.push(node);
        proof {
            assert forall|i: int| 0 <= i < before.put_off().len() implies (
            #[trigger] self.put_off()[i]).ready(self.ledger()) && !collide(
                self.put_off()[i],
                node,
            ) by {
                assert(self.put_off()[i] == before.put_off()[i]);
                assert(before.put_off()[i].ready(before.ledger()));
            }
            assert forall|i: int, j: int| 0 <= i < j < self.put_off().len() implies !collide(
                #[trigger] self.put_off()[i],
                #[trigger] self.put_off()[j],
            ) by {
                if j < before.put_off().len() {
                    assert(!collide(before.put_off()[i], before.put_off()[j]));
                }
            }
        }
        ticket
    }

    /// Puts off an operation that does not add a listener.
    pub fn put_off_operation(&mut self, node: Node)
        requires
            old(self).wf(),
            !(node is AddListener),
            node.ready(old(self).ledger()),
            forall|i: int|
                0 <= i < old(self).put_off().len() ==> !collide(
                    #[trigger] old(self).put_off()[i],
                    node,
                ),
            old(self).ledger().size() + old(self).put_off().len() < MAX_ENTRIES,
        ensures
            final(self).wf(),
            final(self).is_locked() == old(self).is_locked(),
            final(self).known() == old(self).known(),
            final(self).ledger() == old(self).ledger(),
            final(self).put_off() == old(self).put_off().push(node),
            final(self).next_ticket() == old(self).next_ticket(),
    {
        self.queue.push(node);
    }

    /// The key of a listener that was put off, if it has been added.
    pub fn status(&self, ticket: u64) -> (entry: Option<usize>)
        requires
            self.wf(),
            self.ledger().waiting.contains_key(ticket),
        ensures
            entry == if self.ledger().waiting[ticket].entry == 0 {
                None
            } else {
                Some(self.ledger().waiting[ticket].entry)
            },
    {
        self.waiting.get(ticket).status()
    }

    /// Lets a task wait for a listener that was put off. Puts the tasks to be
    /// woken by that behind those in `tasks`.
    pub fn register_into<S: TaskSink>(&mut self, ticket: u64, task: Task, tasks: &mut S)
        requires
            old(self).wf(),
            old(self).ledger().waiting.contains_key(ticket),
        ensures
            final(self).wf(),
            final(self).is_locked() == old(self).is_locked(),
            final(self).known() == old(self).known(),
            final(self).ledger() == (Ledger {
                waiting: old(self).ledger().waiting.insert(
                    ticket,
                    old(self).ledger().waiting[ticket].with_task(task),
                ),
                ..old(self).ledger()
            }),
            final(tasks).gathered() == old(tasks).gathered() + old(
                self,
            ).ledger().waiting[ticket].replaced_by(task),
            final(self).put_off() == old(self).put_off(),
            final(self).next_ticket() == old(self).next_ticket(),
    {
        let ghost before = *self;
        proof {
            self.waiting.lemma_issued(ticket);
        }
        let mut waiting = self.waiting.take(ticket);
        waiting.register_into(task, tasks);
        self.waiting.put(ticket, waiting);
        proof {
            assert(self.ledger().waiting =~= before.ledger().waiting.insert(ticket, waiting@));
            assert forall|i: int| 0 <= i < self.put_off().len() implies (
            #[trigger] self.put_off()[i]).ready(self.ledger()) by {
                assert(before.put_off()[i].ready(before.ledger()));
            }
        }
    }

    /// Lets a task wait for a listener that was put off.
    pub fn register(&mut self, ticket: u64, task: Task)
        requires
            old(self).wf(),
            old(self).ledger().waiting.contains_key(ticket),
        ensures
            final(self).wf(),
            final(self).is_locked() == old(self).is_locked(),
            final(self).known() == old(self).known(),
            final(self).ledger() == (Ledger {
                waiting: old(self).ledger().waiting.insert(
                    ticket,
                    old(self).ledger().waiting[ticket].with_task(task),
                ),
                ..old(self).ledger()
            }),
            final(self).put_off() == old(self).put_off(),
            all_woken(old(self).ledger().waiting[ticket].replaced_by(task)),
            final(self).next_ticket() == old(self).next_ticket(),
    {
        let mut tasks = WakeNow::new();
        self.register_into(ticket, task, &mut tasks);
        tasks.attest();
        proof {
            assert(tasks.gathered() =~= old(self).ledger().waiting[ticket].replaced_by(task));
        }
    }

    /// Forgets a listener that was put off, once it has been added and its key is
    /// known.
    pub fn forget(&mut self, ticket: u64)
        requires
            old(self).wf(),
            old(self).ledger().waiting.contains_key(ticket),
            old(self).ledger().waiting[ticket].entry != 0,
        ensures
            final(self).wf(),
            final(self).is_locked() == old(self).is_locked(),
            final(self).known() == old(self).known(),
            final(self).ledger() == (Ledger {
                waiting: old(self).ledger().waiting.remove(ticket),
                ..old(self).ledger()
            }),
            final(self).put_off() == old(self).put_off(),
            final(self).next_ticket() == old(self).next_ticket(),
    {
        let ghost before = *self;
        self.waiting.take(ticket);
        proof {
            assert(self.ledger().waiting =~= before.ledger().waiting.remove(ticket));
            assert forall|i: int| 0 <= i < self.put_off().len() implies (
            #[trigger] self.put_off()[i]).ready(self.ledger()) by {
                assert(before.put_off()[i].ready(before.ledger()));
            }
        }
    }

    /// The list, for whoever has locked it.
    pub fn list(&self, guard: &ListGuard) -> (list: &ListenerSlab)
        requires
            self.wf(),
            self.is_locked(),
        ensures
            list.wf(),
            list@ == self.ledger().roster,
            list.free_keys() == self.ledger().free,
    {
        self.list.get(&guard.guard)
    }

    /// Carries out a first operation and then all that were put off. Puts the
    /// tasks to be woken at once behind those in `at_once`, and those to be woken
    /// once the list is unlocked behind those in `tasks`.
    fn process_nodes_slow<S: TaskSink>(
        &mut self,
        start_node: Node,
        at_once: &mut S,
        tasks: &mut Vec<Task>,
        guard: &ListGuard,
    )
        requires
            old(self).list.value().wf(),
            old(self).waiting.wf(),
            old(self).queue.wf(),
            old(self).is_locked(),
            start_node.ready(old(self).ledger()),
            old(self).ledger().size() < MAX_ENTRIES,
            sound(old(self).put_off(), start_node.applied(old(self).ledger())),
        ensures
            final(self).list.value().wf(),
            final(self).waiting.wf(),
            final(self).queue.wf(),
            final(self).is_locked(),
            final(self).put_off().len() == 0,
            final(self).ledger().size() <= MAX_ENTRIES,
            final(self).ledger() == run(
                old(self).put_off(),
                start_node.applied(old(self).ledger()),
            ),
            final(tasks)@ == old(tasks)@ + run_wakes(
                seq![start_node] + old(self).put_off(),
                old(self).ledger(),
            ),
            final(at_once).gathered() == old(at_once).gathered() + run_tells(
                seq![start_node] + old(self).put_off(),
                old(self).ledger(),
            ),
            final(self).next_ticket() == old(self).next_ticket(),
    {
        let ghost nodes = self.queue@;
        let ghost ledger = self.ledger();
        let ghost first = start_node.applied(ledger);
        let ghost first_tasks = tasks@;
        let ghost first_told = at_once.gathered();
        match start_node.apply_into(self.list.get_mut(&guard.guard), &mut self.waiting, at_once) {
            Some(task) => tasks.push(task),
            None => {},
        }
        proof {
            let all = seq![start_node] + nodes;
            assert(all.drop_first() =~= nodes);
            assert(first_tasks + run_wakes(all, ledger) =~= tasks@ + run_wakes(nodes, first));
            assert(first_told + run_tells(all, ledger) =~= at_once.gathered() + run_tells(
                nodes,
                first,
            ));
        }
        let mut finished = false;
        while !finished
            invariant
                self.list.value().wf(),
                self.waiting.wf(),
                self.queue.wf(),
                self.is_locked(),
                sound(self.queue@, self.ledger()),
                run(self.queue@, self.ledger()) == run(nodes, first),
                tasks@ + run_wakes(self.queue@, self.ledger()) == first_tasks + run_wakes(
                    seq![start_node] + nodes,
                    ledger,
                ),
                at_once.gathered() + run_tells(self.queue@, self.ledger()) == first_told
                    + run_tells(seq![start_node] + nodes, ledger),
                self.next_ticket() == old(self).next_ticket(),
                finished ==> self.queue@.len() == 0,
            decreases self.queue@.len() + if finished { 0int } else { 1 },
        {
            let ghost now = self.ledger();
            let ghost queued = self.queue@;
            let ghost tasks_now = tasks@;
            let ghost told_now = at_once.gathered();
            match self.queue.pop() {
                Some(node) => {
                    proof {
                        lemma_sound_rest(queued, now);
                    }
                    match node.apply_into(
                        self.list.get_mut(&guard.guard),
                        &mut self.waiting,
                        at_once,
                    ) {
                        Some(task) => tasks.push(task),
                        None => {},
                    }
                    proof {
                        assert(tasks_now + run_wakes(queued, now) =~= tasks@ + run_wakes(
                            self.queue@,
                            self.ledger(),
                        ));
                        assert(told_now + run_tells(queued, now) =~= at_once.gathered()
                            + run_tells(self.queue@, self.ledger()));
                    }
                },
                None => {
                    finished = true;
                },
            }
        }
        proof {
            assert(tasks@ + Seq::<Task>::empty() =~= tasks@);
            assert(at_once.gathered() + Seq::<Task>::empty() =~= at_once.gathered());
        }
    }

    /// Carries out what was put off, makes the number of notified listeners
    /// known, and unlocks the list. Puts the tasks to be woken by that behind
    /// those in `tasks`: first those that wake up while the list is still locked,
    /// then those that waited for it to be unlocked.
    pub fn unlock_into<S: TaskSink>(&mut self, guard: ListGuard, tasks: &mut S)
        requires
            old(self).wf(),
            old(self).is_locked(),
        ensures
            final(self).wf(),
            !final(self).is_locked(),
            final(self).put_off().len() == 0,
            final(self).known() == published(final(self).ledger().roster),
            final(self).ledger() == run(old(self).put_off(), old(self).ledger()),
            final(tasks).gathered() == old(tasks).gathered() + run_tells(
                old(self).put_off(),
                old(self).ledger(),
            ) + run_wakes(old(self).put_off(), old(self).ledger()),
            final(self).next_ticket() == old(self).next_ticket(),
    {
        let ghost nodes = self.queue@;
        let ghost ledger = self.ledger();
        // Tasks to wake up after the list is unlocked.
        let mut later: Vec<Task> = Vec::new();
        match self.queue.pop() {
            Some(start_node) => {
                proof {
                    lemma_sound_rest(nodes, ledger);
                    assert(seq![start_node] + nodes.drop_first() =~= nodes);
                }
                self.process_nodes_slow(start_node, tasks, &mut later, &guard);
            },
            None => {
                proof {
                    assert(tasks.gathered() + Seq::<Task>::empty() =~= tasks.gathered());
                }
            },
        }
        proof {
            assert(later@ =~= run_wakes(nodes, ledger));
        }
        let list = self.list.get(&guard.guard);
        let notified = list.notified();
        self.notified = if notified < list.len() {
            notified
        } else {
            usize::MAX
        };
        self.list.unlock(guard.guard);
        accept_all(later, tasks);
    }

    /// Carries out what was put off, unlocks the list, and wakes the tasks that
    /// waited for that.
    pub fn unlock(&mut self, guard: ListGuard)
        requires
            old(self).wf(),
            old(self).is_locked(),
        ensures
            final(self).wf(),
            !final(self).is_locked(),
            final(self).put_off().len() == 0,
            final(self).known() == published(final(self).ledger().roster),
            final(self).ledger() == run(old(self).put_off(), old(self).ledger()),
            final(self).next_ticket() == old(self).next_ticket(),
            all_woken(run_tells(old(self).put_off(), old(self).ledger())),
            all_woken(run_wakes(old(self).put_off(), old(self).ledger())),
    {
        let mut tasks = WakeNow::new();
        self.unlock_into(guard, &mut tasks);
        tasks.attest();
        proof {
            lemma_both_woken(
                run_tells(old(self).put_off(), old(self).ledger()),
                run_wakes(old(self).put_off(), old(self).ledger()),
                tasks.gathered(),
            );
        }
    }
}

} // verus!
