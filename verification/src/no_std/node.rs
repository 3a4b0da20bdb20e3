//! Operations that were put off because the list was locked.

use crate::no_std::entries::{empty_at, ListenerSlab};
use crate::notify::{can_deliver, is_run, GenericNotify, Notification, TagProducer};
use crate::roster::{
    granted, has_key, lemma_pending_monotonic, removed, with_notified, woken, woken_if, Roster,
};
use crate::state::State;
use crate::table::Table;
use crate::task::{accept_one, all_woken, listed, Task, TaskSink, WakeNow};
use crate::util::replace;
use std::collections::VecDeque;
use vstd::prelude::*;

verus! {

/// A producer of tags that were made beforehand.
pub struct VecProducer<T> {
    /// The tags, the next one first.
    pub tags: VecDeque<T>,
}

impl<T> TagProducer for VecProducer<T> {
    type Tag = T;

    open spec fn holds(&self, n: nat) -> bool {
        n <= self.tags@.len()
    }

    open spec fn produces(&self, tag: T, after: Self) -> bool {
        self.tags@.len() > 0 && tag == self.tags@[0] && after.tags@ == self.tags@.drop_first()
    }

    fn next_tag(&mut self) -> T {
        let tag = self.tags.pop_front();
        proof {
            assert(self.tags@ =~= old(self).tags@.drop_first());
        }
        tag.unwrap()
    }
}

/// What comes out of a producer of tags that were made beforehand are those
/// tags, in order.
pub proof fn lemma_vec_delivers<T>(notify: GenericNotify<VecProducer<T>>, tags: Seq<T>)
    requires
        can_deliver(notify, tags),
    ensures
        tags.len() <= notify.tags.tags@.len(),
        tags == notify.tags.tags@.take(tags.len() as int),
{
    let steps = choose|steps: Seq<GenericNotify<VecProducer<T>>>| #[trigger]
        is_run(steps, tags) && steps[0] == notify;
    lemma_vec_run(steps, tags, tags.len() as int);
    let all = notify.tags.tags@;
    assert forall|i: int| 0 <= i < tags.len() implies tags[i] == all[i] by {
        lemma_vec_run(steps, tags, i);
        assert(steps[i].yields(tags[i], steps[i + 1]));
    }
    assert(tags =~= all.take(tags.len() as int));
}

proof fn lemma_vec_run<T>(steps: Seq<GenericNotify<VecProducer<T>>>, tags: Seq<T>, n: int)
    requires
        is_run(steps, tags),
        0 <= n <= tags.len(),
    ensures
        n <= steps[0].tags.tags@.len(),
        steps[n].tags.tags@ == steps[0].tags.tags@.skip(n),
    decreases n,
{
    if n > 0 {
        lemma_vec_run(steps, tags, n - 1);
        assert(steps[n - 1].yields(tags[n - 1], steps[n]));
        assert(steps[0].tags.tags@.skip(n - 1).drop_first() =~= steps[0].tags.tags@.skip(n));
    } else {
        assert(steps[0].tags.tags@.skip(0) =~= steps[0].tags.tags@);
    }
}

/// A shared place for a value.
#[derive(Debug)]
pub struct AtomicCell<T> {
    value: Option<Box<T>>,
}

impl<T> AtomicCell<T> {
    /// The value in the cell.
    pub closed spec fn value(&self) -> Option<T> {
        match self.value {
            Some(value) => Some(*value),
            None => None,
        }
    }

    /// Creates an empty cell.
    pub fn new() -> (cell: Self)
        ensures
            cell.value() is None,
    {
        AtomicCell { value: None }
    }

    /// Puts `value` into the cell, and returns what was there.
    pub fn replace(&mut self, value: Option<Box<T>>) -> (previous: Option<Box<T>>)
        ensures
            final(self).value() == match value {
                Some(value) => Some(*value),
                None => None,
            },
            match previous {
                Some(previous) => old(self).value() == Some(*previous),
                None => old(self).value() is None,
            },
    {
        replace(&mut self.value, value)
    }

    /// Takes the value out of the cell.
    pub fn take(&mut self) -> (value: Option<Box<T>>)
        ensures
            final(self).value() is None,
            match value {
                Some(value) => old(self).value() == Some(*value),
                None => old(self).value() is None,
            },
    {
        self.replace(None)
    }
}

/// The key of a listener's entry, by what the listener was told: zero stands for
/// a listener that is queued, and `usize::MAX` for a cancelled one.
pub open spec fn entry_in(id: usize) -> Option<usize> {
    if id == 0 || id == usize::MAX {
        None
    } else {
        Some(id)
    }
}

/// What a listener and the request to add it to the list share.
#[derive(Debug)]
pub struct TaskWaiting {
    task: AtomicCell<Task>,
    entry_id: usize,
}

impl TaskWaiting {
    /// The key of the listener's entry. It is zero as long as the listener is
    /// queued, and `usize::MAX` if the listener should not be added at all.
    pub closed spec fn entry(&self) -> usize {
        self.entry_id
    }

    /// The task that is waiting for the listener to be added.
    pub closed spec fn waiting(&self) -> Option<Task> {
        self.task.value()
    }

    /// A listener that is queued, with no task waiting.
    pub fn new() -> (waiting: Self)
        ensures
            waiting.entry() == 0,
            waiting.waiting() is None,
    {
        TaskWaiting { task: AtomicCell::new(), entry_id: 0 }
    }

    /// The key of the listener's entry, if the listener was added. A cancelled
    /// listener has none.
    pub fn status(&self) -> (entry: Option<usize>)
        ensures
            entry == entry_in(self.entry()),
    {
        if self.entry_id == 0 || self.entry_id == usize::MAX {
            None
        } else {
            Some(self.entry_id)
        }
    }

    /// Puts a task where it waits for the listener to be added. Returns the one
    /// that has been waiting.
    pub fn place(&mut self, task: Task) -> (previous: Option<Task>)
        ensures
            final(self)@ == placed(old(self)@, task),
            previous == old(self)@.task,
    {
        match self.task.replace(Some(Box::new(task))) {
            Some(previous) => Some(*previous),
            None => None,
        }
    }

    /// Takes the task that is waiting back if the listener is not queued any
    /// more.
    pub fn settle(&mut self) -> (task: Option<Task>)
        ensures
            final(self)@ == settled(old(self)@).0,
            task == settled(old(self)@).1,
    {
        if self.entry_id != 0 {
            self.take_task()
        } else {
            None
        }
    }

    /// Lets `task` wait for the listener to be added. Puts a task that has been
    /// waiting behind those in `tasks`, and if the listener is not queued any
    /// more, the new one too: they are to be woken.
    pub fn register_into<S: TaskSink>(&mut self, task: Task, tasks: &mut S)
        ensures
            final(self).entry() == old(self).entry(),
            final(self).waiting() == if old(self).entry() == 0 {
                Some(task)
            } else {
                None
            },
            final(tasks).gathered() == old(tasks).gathered() + listed(old(self).waiting()) + (
            if old(self).entry() == 0 {
                Seq::empty()
            } else {
                seq![task]
            }),
    {
        let previous = self.place(task);
        accept_one(previous, tasks);
        let settled = self.settle();
        accept_one(settled, tasks);
    }

    /// Lets `task` wait for the listener to be added. A task that has been
    /// waiting is woken, and if the listener is not queued any more, so is the
    /// new one.
    pub fn register(&mut self, task: Task)
        ensures
            final(self).entry() == old(self).entry(),
            final(self).waiting() == if old(self).entry() == 0 {
                Some(task)
            } else {
                None
            },
            all_woken(listed(old(self).waiting())),
            old(self).entry() != 0 ==> task.was_woken(),
    {
        let mut tasks = WakeNow::new();
        self.register_into(task, &mut tasks);
        tasks.attest();
        proof {
            let previous = listed(old(self).waiting());
            assert forall|i: int| 0 <= i < previous.len() implies (
            #[trigger] previous[i]).was_woken() by {
                assert(tasks.gathered()[i] == previous[i]);
            }
            if old(self).entry() != 0 {
                assert(tasks.gathered()[previous.len() as int] == task);
            }
        }
    }

    /// Marks the listener as cancelled, so that it is not added, and puts the
    /// task that is waiting, which is to be woken, behind those in `tasks`. See
    /// [`TaskWaiting::cancel`].
    pub fn cancel_into<S: TaskSink>(&mut self, tasks: &mut S) -> (entry: Option<usize>)
        ensures
            final(self).entry() == usize::MAX,
            final(self).waiting() is None,
            entry == entry_in(old(self).entry()),
            final(tasks).gathered() == old(tasks).gathered() + listed(old(self).waiting()),
    {
        let id = replace(&mut self.entry_id, usize::MAX);
        let task = self.take_task();
        accept_one(task, tasks);
        if id == 0 || id == usize::MAX {
            None
        } else {
            Some(id)
        }
    }

    /// Marks the listener as cancelled, so that it is not added, and wakes the
    /// task that is waiting. If the listener was added already, the key of its
    /// entry is returned; a listener that was never added has none, however often
    /// it is cancelled.
    pub fn cancel(&mut self) -> (entry: Option<usize>)
        ensures
            final(self).entry() == usize::MAX,
            final(self).waiting() is None,
            entry == entry_in(old(self).entry()),
            all_woken(listed(old(self).waiting())),
    {
        let mut tasks = WakeNow::new();
        let entry = self.cancel_into(&mut tasks);
        tasks.attest();
        proof {
            assert(tasks.gathered() =~= listed(old(self).waiting()));
        }
        entry
    }

    /// Tells the listener the key of its entry. Returns what it was told before.
    pub fn tell(&mut self, key: usize) -> (previous: usize)
        ensures
            final(self)@ == told(old(self)@, key),
            previous == old(self)@.entry,
    {
        replace(&mut self.entry_id, key)
    }

    /// Tells the listener the key of its entry. Returns what it was told before,
    /// and the task that is waiting.
    pub fn enter(&mut self, key: usize) -> (result: (usize, Option<Task>))
        ensures
            final(self).entry() == key,
            final(self).waiting() is None,
            result.0 == old(self).entry(),
            result.1 == old(self).waiting(),
    {
        let id = self.tell(key);
        (id, self.take_task())
    }

    /// Takes the task that is waiting.
    pub fn take_task(&mut self) -> (task: Option<Task>)
        ensures
            final(self)@ == taken(old(self)@),
            task == old(self)@.task,
    {
        match self.task.take() {
            Some(task) => Some(*task),
            None => None,
        }
    }
}

/// What a listener and the request to add it to the list tell each other.
pub struct Wait {
    /// The key of the listener's entry: zero as long as the listener is queued,
    /// and `usize::MAX` if it should not be added.
    pub entry: usize,
    /// The task that is waiting for the listener to be added.
    pub task: Option<Task>,
}

impl View for TaskWaiting {
    type V = Wait;

    open spec fn view(&self) -> Wait {
        Wait { entry: self.entry(), task: self.waiting() }
    }
}

/// With a task put where it waits.
pub open spec fn placed(w: Wait, task: Task) -> Wait {
    Wait { task: Some(task), ..w }
}

/// With the key of the entry told.
pub open spec fn told(w: Wait, key: usize) -> Wait {
    Wait { entry: key, ..w }
}

/// With the task taken out.
pub open spec fn taken(w: Wait) -> Wait {
    Wait { task: None, ..w }
}

/// With the task taken back if the listener is not queued any more, and that
/// task.
pub open spec fn settled(w: Wait) -> (Wait, Option<Task>) {
    if w.entry == 0 {
        (w, None)
    } else {
        (taken(w), w.task)
    }
}

/// However a task that begins to wait and the addition of the listener meet, the
/// task is handed out once, to be woken. The task is placed and then settled;
/// the listener is told its key and then the task is taken.
pub proof fn waiting_task_is_handed_out_once(w: Wait, task: Task, key: usize)
    requires
        w.entry == 0,
        w.task is None,
        key != 0,
    ensures
        // Place, settle, tell, take.
        ({
            let (b, s) = settled(placed(w, task));
            s is None && told(b, key).task == Some(task)
        }),
        // Place, tell, settle, take.
        ({
            let (b, s) = settled(told(placed(w, task), key));
            s == Some(task) && b.task is None
        }),
        // Place, tell, take, settle.
        ({
            let a = told(placed(w, task), key);
            a.task == Some(task) && settled(taken(a)).1 is None
        }),
        // Tell, place, settle, take.
        ({
            let (b, s) = settled(placed(told(w, key), task));
            s == Some(task) && b.task is None
        }),
        // Tell, place, take, settle.
        ({
            let a = placed(told(w, key), task);
            a.task == Some(task) && settled(taken(a)).1 is None
        }),
        // Tell, take, place, settle.
        ({
            let a = told(w, key);
            a.task is None && settled(placed(taken(a), task)).1 == Some(task)
        }),
{
}

/// All that operations on a list of listeners look at and change.
#[verifier::ext_equal]
pub struct Ledger<T> {
    /// The listeners.
    pub roster: Roster<T>,
    /// The empty slots, in the order in which they are used.
    pub free: Seq<usize>,
    /// The number of slots.
    pub slots: nat,
    /// The listeners that wait to be added.
    pub waiting: Map<u64, Wait>,
}

/// What the waiting listeners are told.
pub open spec fn waits(table: Table<TaskWaiting>) -> Map<u64, Wait> {
    table@.map_values(|w: TaskWaiting| w@)
}

/// The ledger of a list and of the listeners that wait to be added to it.
pub open spec fn ledger_of<T>(list: ListenerSlab<T>, table: Table<TaskWaiting>) -> Ledger<T> {
    Ledger {
        roster: list@,
        free: list.free_slots(),
        slots: list.slots().len(),
        waiting: waits(table),
    }
}

/// An operation that was put off.
pub enum Node<T> {
    /// Add a listener.
    AddListener {
        /// The ticket of the listener.
        ticket: u64,
    },
    /// Notify listeners.
    Notify(GenericNotify<VecProducer<T>>),
    /// Remove a listener.
    RemoveListener {
        /// The key of the listener.
        listener: usize,
        /// Whether to pass its notification on.
        propagate: bool,
    },
    /// Wake a task that waits for the list to be unlocked.
    Waiting(Task),
}

impl<T> Ledger<T> {
    /// The key of the next listener.
    pub open spec fn next_key(self) -> usize {
        empty_at(self.free, self.slots, 0) as usize
    }

    /// The ledger with one more listener.
    pub open spec fn with_listener(self) -> Ledger<T> {
        Ledger {
            roster: self.roster.push((self.next_key(), State::Created)),
            free: if self.free.len() > 0 {
                self.free.drop_first()
            } else {
                self.free
            },
            slots: if self.free.len() > 0 {
                self.slots
            } else {
                self.slots + 1
            },
            ..self
        }
    }
}

impl<T> Node<T> {
    /// Whether the operation can be carried out.
    pub open spec fn ready(self, ledger: Ledger<T>) -> bool {
        match self {
            Node::AddListener { ticket } => ledger.waiting.contains_key(ticket) && (
            ledger.waiting[ticket].entry == 0 || ledger.waiting[ticket].entry == usize::MAX),
            Node::Notify(notify) => notify.count <= notify.tags.tags@.len(),
            Node::RemoveListener { listener, .. } => has_key(ledger.roster, listener),
            Node::Waiting(_) => true,
        }
    }

    /// What carrying out the operation leads to.
    pub open spec fn applied(self, ledger: Ledger<T>) -> Ledger<T> {
        match self {
            Node::AddListener { ticket } => if ledger.waiting[ticket].entry == usize::MAX {
                Ledger { waiting: ledger.waiting.remove(ticket), ..ledger }
            } else {
                Ledger {
                    waiting: ledger.waiting.insert(
                        ticket,
                        Wait { entry: ledger.next_key(), task: None },
                    ),
                    ..ledger.with_listener()
                }
            },
            Node::Notify(notify) => Ledger {
                roster: with_notified(
                    ledger.roster,
                    notify.additional,
                    notify.tags.tags@.take(
                        granted(ledger.roster, notify.count, notify.additional) as int,
                    ),
                ),
                ..ledger
            },
            Node::RemoveListener { listener, propagate } => Ledger {
                roster: removed(ledger.roster, listener, propagate),
                free: seq![listener] + ledger.free,
                ..ledger
            },
            Node::Waiting(_) => ledger,
        }
    }

    /// The task that is to be woken once the list is unlocked.
    pub open spec fn wakes(self, ledger: Ledger<T>) -> Option<Task> {
        match self {
            Node::AddListener { ticket } => ledger.waiting[ticket].task,
            Node::Waiting(task) => Some(task),
            _ => None,
        }
    }

    /// The tasks that are woken at once, while the list is locked.
    pub open spec fn tells(self, ledger: Ledger<T>) -> Seq<Task> {
        match self {
            Node::Notify(notify) => woken(
                ledger.roster,
                granted(ledger.roster, notify.count, notify.additional),
            ),
            Node::RemoveListener { listener, propagate } => woken_if(
                ledger.roster,
                listener,
                propagate,
            ),
            _ => Seq::empty(),
        }
    }

    /// A request to add a listener, and the ticket of the listener.
    pub fn listener(table: &mut Table<TaskWaiting>) -> (result: (Self, u64))
        requires
            old(table).wf(),
            old(table).next_ticket() < u64::MAX,
        ensures
            final(table).wf(),
            result.0 == (Node::<T>::AddListener { ticket: result.1 }),
            result.1 == old(table).next_ticket(),
            !old(table)@.contains_key(result.1),
            waits(*final(table)) == waits(*old(table)).insert(
                result.1,
                Wait { entry: 0, task: None },
            ),
            final(table).next_ticket() == old(table).next_ticket() + 1,
    {
        let ticket = table.issue(TaskWaiting::new());
        proof {
            assert(waits(*table) =~= waits(*old(table)).insert(ticket, Wait { entry: 0, task: None }));
        }
        (Node::AddListener { ticket }, ticket)
    }

    /// Carries the operation out. Returns a task that is to be woken once the
    /// list is unlocked.
    pub fn apply(self, list: &mut ListenerSlab<T>, table: &mut Table<TaskWaiting>) -> (task: Option<
        Task,
    >)
        requires
            old(list).wf(),
            old(table).wf(),
            self.ready(ledger_of(*old(list), *old(table))),
        ensures
            final(list).wf(),
            final(table).wf(),
            final(table).next_ticket() == old(table).next_ticket(),
            ledger_of(*final(list), *final(table)) == self.applied(
                ledger_of(*old(list), *old(table)),
            ),
            task == self.wakes(ledger_of(*old(list), *old(table))),
            all_woken(self.tells(ledger_of(*old(list), *old(table)))),
    {
        let mut tasks = WakeNow::new();
        let ghost told = self.tells(ledger_of(*list, *table));
        let task = self.apply_into(list, table, &mut tasks);
        tasks.attest();
        proof {
            assert(tasks.gathered() =~= told);
        }
        task
    }

    /// Carries the operation out. Puts the tasks to be woken at once behind those
    /// in `tasks`, and returns a task that is to be woken once the list is
    /// unlocked.
    pub fn apply_into<S: TaskSink>(
        self,
        list: &mut ListenerSlab<T>,
        table: &mut Table<TaskWaiting>,
        tasks: &mut S,
    ) -> (task: Option<Task>)
        requires
            old(list).wf(),
            old(table).wf(),
            self.ready(ledger_of(*old(list), *old(table))),
        ensures
            final(list).wf(),
            final(table).wf(),
            final(table).next_ticket() == old(table).next_ticket(),
            ledger_of(*final(list), *final(table)) == self.applied(
                ledger_of(*old(list), *old(table)),
            ),
            task == self.wakes(ledger_of(*old(list), *old(table))),
            final(tasks).gathered() == old(tasks).gathered() + self.tells(
                ledger_of(*old(list), *old(table)),
            ),
    {
        proof {
            assert(tasks.gathered() + Seq::<Task>::empty() =~= tasks.gathered());
        }
        let ghost before = ledger_of(*list, *table);
        match self {
            Node::AddListener { ticket } => {
                proof {
                    table.lemma_issued(ticket);
                }
                let mut waiting = table.take(ticket);
                if waiting.entry_id == usize::MAX {
                    proof {
                        assert(waits(*table) =~= before.waiting.remove(ticket));
                    }
                    return waiting.take_task();
                }
                let key = list.insert(State::Created);
                let (told, task) = waiting.enter(key);
                if told == usize::MAX {
                    list.remove(key, false);
                }
                table.put(ticket, waiting);
                proof {
                    assert(waits(*table) =~= before.waiting.insert(
                        ticket,
                        Wait { entry: key, task: None },
                    ));
                    assert(ledger_of(*list, *table) =~= self.applied(before));
                }
                return task;
            },
            Node::Notify(notify) => {
                proof {
                    lemma_pending_monotonic(list@, 0, list@.len() as int);
                }
                let ghost r = list@;
                list.notify_into(notify, tasks);
                proof {
                    let tags = choose|tags: Seq<T>|
                        {
                            &&& #[trigger] can_deliver(notify, tags)
                            &&& tags.len() == granted(
                                r,
                                notify.asks(),
                                notify.wants_additional(),
                            )
                            &&& list@ == with_notified(r, notify.wants_additional(), tags)
                        };
                    lemma_vec_delivers(notify, tags);
                }
            },
            Node::RemoveListener { listener, propagate } => {
                list.remove_into(listener, propagate, tasks);
            },
            Node::Waiting(task) => {
                return Some(task);
            },
        }
        None
    }
}

} // verus!
