//! Operations on a list of listeners that were put off because it was locked.

use crate::list::{next_key, Entry, ListenerSlab, MAX_ENTRIES};
use crate::notify::untagged;
use crate::roster::{
    granted, has_key, lemma_notified_none, lemma_pending_monotonic, passed_on, removed, woken,
    woken_if, Roster,
};
use crate::state::State;
use crate::table::Table;
use crate::task::{accept_one, all_woken, listed, Task, TaskSink, WakeNow};
use vstd::prelude::*;

verus! {

/// A place for a task that threads can share: an `AtomicCell` of
/// `crossbeam_utils`.
#[verifier::external_body]
pub struct TaskCell {
    cell: crossbeam_utils::atomic::AtomicCell<Option<Task>>,
}

/// The task in a cell.
pub uninterp spec fn kept(place: TaskCell) -> Option<Task>;

/// Makes a cell, by `AtomicCell::new`.
#[verifier::external_body]
fn new_cell(task: Option<Task>) -> (place: TaskCell)
    ensures
        kept(place) == task,
{
    TaskCell { cell: crossbeam_utils::atomic::AtomicCell::new(task) }
}

/// Puts a task into a cell and returns what was there, by `AtomicCell::swap`.
/// Nobody else can get at the cell meanwhile.
#[verifier::external_body]
fn swap_cell(place: &mut TaskCell, task: Option<Task>) -> (previous: Option<Task>)
    ensures
        previous == kept(*old(place)),
        kept(*final(place)) == task,
{
    place.cell.swap(task)
}

/// Takes the task out of a cell, by `AtomicCell::take`. Nobody else can get at
/// the cell meanwhile.
#[verifier::external_body]
fn take_cell(place: &mut TaskCell) -> (task: Option<Task>)
    ensures
        task == kept(*old(place)),
        kept(*final(place)) is None,
{
    place.cell.take()
}

/// What a listener and the request to add it to the list share.
pub struct TaskWaiting {
    task: TaskCell,
    entry_id: usize,
}

/// What a listener and the request to add it to the list tell each other.
pub struct Wait {
    /// The key of the listener's entry, which is zero as long as the listener is
    /// queued.
    pub entry: usize,
    /// The task that is waiting for the listener to be added.
    pub task: Option<Task>,
}

impl Wait {
    /// With a task that waits for the listener to be added, as long as the
    /// listener is queued.
    pub open spec fn with_task(self, task: Task) -> Wait {
        Wait {
            entry: self.entry,
            task: if self.entry == 0 {
                Some(task)
            } else {
                None
            },
        }
    }

    /// The tasks that are woken when `task` begins to wait: the one that has been
    /// waiting, and `task` itself if the listener is not queued any more.
    pub open spec fn replaced_by(self, task: Task) -> Seq<Task> {
        listed(self.task) + (if self.entry == 0 {
            Seq::empty()
        } else {
            seq![task]
        })
    }
}

impl View for TaskWaiting {
    type V = Wait;

    closed spec fn view(&self) -> Wait {
        Wait { entry: self.entry_id, task: kept(self.task) }
    }
}

impl TaskWaiting {
    /// A listener that is queued, with no task waiting.
    pub fn new() -> (waiting: Self)
        ensures
            waiting@ == (Wait { entry: 0, task: None }),
    {
        TaskWaiting { task: new_cell(None), entry_id: 0 }
    }

    /// The key of the listener's entry, if it is not queued any more.
    pub fn status(&self) -> (entry: Option<usize>)
        ensures
            entry == if self@.entry == 0 {
                None
            } else {
                Some(self@.entry)
            },
    {
        if self.entry_id == 0 {
            None
        } else {
            Some(self.entry_id)
        }
    }

    /// Lets `task` wait for the listener to be added. Puts a task that has been
    /// waiting behind those in `tasks`, and if the listener is not queued any
    /// more, the new one too: they are to be woken.
    pub fn register_into<S: TaskSink>(&mut self, task: Task, tasks: &mut S)
        ensures
            final(self)@ == old(self)@.with_task(task),
            final(tasks).gathered() == old(tasks).gathered() + old(self)@.replaced_by(task),
    {
        let previous = swap_cell(&mut self.task, Some(task));
        accept_one(previous, tasks);
        proof {
            assert(tasks.gathered() + Seq::<Task>::empty() =~= tasks.gathered());
        }
        if self.status().is_some() {
            let settled = take_cell(&mut self.task);
            accept_one(settled, tasks);
        }
        proof {
            assert(tasks.gathered() =~= old(tasks).gathered() + old(self)@.replaced_by(task));
        }
    }

    /// Lets `task` wait for the listener to be added. A task that has been
    /// waiting is woken, and if the listener is not queued any more, so is the
    /// new one.
    pub fn register(&mut self, task: Task)
        ensures
            final(self)@ == old(self)@.with_task(task),
            all_woken(old(self)@.replaced_by(task)),
    {
        let mut tasks = WakeNow::new();
        self.register_into(task, &mut tasks);
        tasks.attest();
        proof {
            assert(tasks.gathered() =~= old(self)@.replaced_by(task));
        }
    }

    /// Tells the listener the key of its entry, and returns the task that is
    /// waiting.
    pub fn enter(&mut self, key: usize) -> (task: Option<Task>)
        ensures
            final(self)@ == (Wait { entry: key, task: None }),
            task == old(self)@.task,
    {
        self.entry_id = key;
        take_cell(&mut self.task)
    }
}

/// All that operations on a list of listeners look at and change.
#[verifier::ext_equal]
pub struct Ledger {
    /// The listeners.
    pub roster: Roster<()>,
    /// The keys that are free to be used again, in the order in which they are
    /// used.
    pub free: Seq<usize>,
    /// The listeners that wait to be added.
    pub waiting: Map<u64, Wait>,
}

/// What the waiting listeners are told.
pub open spec fn waits(table: Table<TaskWaiting>) -> Map<u64, Wait> {
    table@.map_values(|w: TaskWaiting| w@)
}

/// The ledger of a list and of the listeners that wait to be added to it.
pub open spec fn ledger_of(list: ListenerSlab, table: Table<TaskWaiting>) -> Ledger {
    Ledger { roster: list@, free: list.free_keys(), waiting: waits(table) }
}

impl Ledger {
    /// The key of the next listener.
    pub open spec fn next_key(self) -> usize {
        next_key(self.free, self.roster.len() + 1) as usize
    }

    /// The number of entries that there is storage for.
    pub open spec fn size(self) -> nat {
        self.roster.len() + self.free.len() + 1
    }
}

/// An operation that was put off.
pub enum Node {
    /// Add a listener.
    AddListener {
        /// The ticket of the listener.
        ticket: u64,
    },
    /// Notify listeners.
    Notify {
        /// The number of listeners.
        count: usize,
        /// Whether only listeners without a notification count.
        additional: bool,
    },
    /// Remove a listener.
    RemoveListener {
        /// The key of the listener.
        listener: usize,
        /// Whether to pass its notification on.
        propagate: bool,
    },
    /// Wake a task that waits for the list to be unlocked.
    Waiting(Task),
}

impl Node {
    /// Whether the operation can be carried out.
    pub open spec fn ready(self, ledger: Ledger) -> bool {
        match self {
            Node::AddListener { ticket } => ledger.waiting.contains_key(ticket)
                && ledger.waiting[ticket].entry == 0,
            Node::RemoveListener { listener, .. } => has_key(ledger.roster, listener),
            _ => true,
        }
    }

    /// What carrying out the operation leads to.
    pub open spec fn applied(self, ledger: Ledger) -> Ledger {
        match self {
            Node::AddListener { ticket } => Ledger {
                roster: ledger.roster.push((ledger.next_key(), State::Created)),
                free: if ledger.free.len() > 0 {
                    ledger.free.drop_first()
                } else {
                    ledger.free
                },
                waiting: ledger.waiting.insert(
                    ticket,
                    Wait { entry: ledger.next_key(), task: None },
                ),
            },
            Node::Notify { count, additional } => Ledger {
                roster: untagged(ledger.roster, count, additional),
                ..ledger
            },
            Node::RemoveListener { listener, propagate } => Ledger {
                roster: removed(ledger.roster, listener, propagate),
                free: seq![listener] + ledger.free,
                ..ledger
            },
            Node::Waiting(_) => ledger,
        }
    }

    /// The task that is to be woken once the list is unlocked.
    pub open spec fn wakes(self, ledger: Ledger) -> Option<Task> {
        match self {
            Node::AddListener { ticket } => ledger.waiting[ticket].task,
            Node::Waiting(task) => Some(task),
            _ => None,
        }
    }

    /// The tasks that are woken at once, while the list is locked.
    pub open spec fn tells(self, ledger: Ledger) -> Seq<Task> {
        match self {
            Node::Notify { count, additional } => woken(
                ledger.roster,
                granted(ledger.roster, count, additional),
            ),
            Node::RemoveListener { listener, propagate } => woken_if(
                ledger.roster,
                listener,
                propagate,
            ),
            _ => Seq::empty(),
        }
    }

    /// A request to add a listener, and the ticket of the listener.
    pub fn listener(table: &mut Table<TaskWaiting>) -> (result: (Self, u64))
        requires
            old(table).wf(),
            old(table).next_ticket() < u64::MAX,
        ensures
            final(table).wf(),
            result.0 == (Node::AddListener { ticket: result.1 }),
            result.1 == old(table).next_ticket(),
            !old(table)@.contains_key(result.1),
            waits(*final(table)) == waits(*old(table)).insert(
                result.1,
                Wait { entry: 0, task: None },
            ),
            final(table).next_ticket() == old(table).next_ticket() + 1,
    {
        let ticket = table.issue(TaskWaiting::new());
        proof {
            assert(waits(*table) =~= waits(*old(table)).insert(ticket, Wait { entry: 0, task: None }));
        }
        (Node::AddListener { ticket }, ticket)
    }

    /// Carries the operation out. Returns a task that is to be woken once the
    /// list is unlocked.
    pub fn apply(self, list: &mut ListenerSlab, table: &mut Table<TaskWaiting>) -> (task: Option<
        Task,
    >)
        requires
            old(list).wf(),
            old(table).wf(),
            self.ready(ledger_of(*old(list), *old(table))),
            self is AddListener ==> ledger_of(*old(list), *old(table)).size() < MAX_ENTRIES,
        ensures
            final(list).wf(),
            final(table).wf(),
            final(table).next_ticket() == old(table).next_ticket(),
            ledger_of(*final(list), *final(table)) == self.applied(
                ledger_of(*old(list), *old(table)),
            ),
            task == self.wakes(ledger_of(*old(list), *old(table))),
            all_woken(self.tells(ledger_of(*old(list), *old(table)))),
    {
        let mut tasks = WakeNow::new();
        let ghost told = self.tells(ledger_of(*list, *table));
        let task = self.apply_into(list, table, &mut tasks);
        tasks.attest();
        proof {
            assert(tasks.gathered() =~= told);
        }
        task
    }

    /// Carries the operation out. Puts the tasks to be woken at once behind those
    /// in `tasks`, and returns a task that is to be woken once the list is
    /// unlocked.
    pub fn apply_into<S: TaskSink>(
        self,
        list: &mut ListenerSlab,
        table: &mut Table<TaskWaiting>,
        tasks: &mut S,
    ) -> (task: Option<Task>)
        requires
            old(list).wf(),
            old(table).wf(),
            self.ready(ledger_of(*old(list), *old(table))),
            self is AddListener ==> ledger_of(*old(list), *old(table)).size() < MAX_ENTRIES,
        ensures
            final(list).wf(),
            final(table).wf(),
            final(table).next_ticket() == old(table).next_ticket(),
            ledger_of(*final(list), *final(table)) == self.applied(
                ledger_of(*old(list), *old(table)),
            ),
            task == self.wakes(ledger_of(*old(list), *old(table))),
            final(tasks).gathered() == old(tasks).gathered() + self.tells(
                ledger_of(*old(list), *old(table)),
            ),
    {
        proof {
            assert(tasks.gathered() + Seq::<Task>::empty() =~= tasks.gathered());
        }
        let ghost before = ledger_of(*list, *table);
        match self {
            Node::AddListener { ticket } => {
                proof {
                    table.lemma_issued(ticket);
                }
                let key = list.insert(Entry::new());
                let mut waiting = table.take(ticket);
                let task = waiting.enter(key);
                table.put(ticket, waiting);
                proof {
                    assert(waits(*table) =~= before.waiting.insert(
                        ticket,
                        Wait { entry: key, task: None },
                    ));
                    assert(ledger_of(*list, *table) =~= self.applied(before));
                }
                return task;
            },
            Node::Notify { count, additional } => {
                list.notify_into(count, additional, tasks);
            },
            Node::RemoveListener { listener, propagate } => {
                let state = list.remove(listener);
                if propagate {
                    match state {
                        State::Notified { additional, .. } => {
                            proof {
                                lemma_passed_on_untagged(list@, additional);
                            }
                            list.notify_into(1, additional, tasks);
                        },
                        _ => {},
                    }
                }
            },
            Node::Waiting(task) => {
                return Some(task);
            },
        }
        None
    }
}

/// Passing a notification on is to notify one listener.
proof fn lemma_passed_on_untagged(r: Roster<()>, additional: bool)
    ensures
        untagged(r, 1, additional) == passed_on(r, additional, ()),
{
    lemma_pending_monotonic(r, 0, r.len() as int);
    let n = granted(r, 1, additional);
    if n == 1 {
        assert(Seq::new(n, |i: int| ()) =~= seq![()]);
    } else {
        assert(Seq::new(n, |i: int| ()) =~= Seq::empty());
        lemma_notified_none(r, additional);
    }
}

} // verus!
