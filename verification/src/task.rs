//! The tasks and threads that wait for a notification.

use std::task::Waker;
use parking::Unparker;
use vstd::prelude::*;

verus! {

/// The waker of an asynchronous task, from the standard library.
#[verifier::external_type_specification]
#[verifier::external_body]
pub struct ExWaker(std::task::Waker);

/// The handle by which `parking` lets one thread wake another.
#[verifier::external_type_specification]
#[verifier::external_body]
pub struct ExUnparker(parking::Unparker);

/// Copies a waker by `Waker::clone`. Which waker comes back is up to the
/// executor that made the first one; a contract speaks of it by `cloned`.
pub assume_specification [<std::task::Waker as Clone>::clone](w: &std::task::Waker) -> std::task::Waker;

/// Copies an unparker by `Unparker::clone`. A contract speaks of the copy by
/// `cloned`.
pub assume_specification [<parking::Unparker as Clone>::clone](u: &parking::Unparker) -> parking::Unparker;

/// Asks by `Waker::will_wake` whether two wakers wake the same task. The answer
/// goes by addresses, so nothing is promised of it; a contract speaks of it by
/// `answered`.
pub assume_specification [std::task::Waker::will_wake](
    waker: &std::task::Waker,
    other: &std::task::Waker,
) -> bool;

/// Wakes the task behind a waker, by `Waker::wake`.
#[verifier::external_body]
pub(crate) fn wake_waker(waker: Waker) {
    waker.wake()
}

/// Wakes the task behind a waker and keeps the waker, by `Waker::wake_by_ref`.
#[verifier::external_body]
pub(crate) fn wake_waker_by_ref(waker: &Waker) {
    waker.wake_by_ref()
}

/// The task behind the waker was woken, and the waker kept. Nothing but doing so
/// shows it.
pub closed spec fn woken_by_ref(waker: Waker) -> bool {
    call_ensures(wake_waker_by_ref, (&waker,), ())
}

/// Wakes the task behind a waker and keeps the waker.
pub fn wake_by_ref(waker: &Waker)
    ensures
        woken_by_ref(*waker),
{
    wake_waker_by_ref(waker)
}

/// Wakes the thread behind an unparker, by `Unparker::unpark`.
#[verifier::external_body]
pub(crate) fn unpark_thread(unparker: &Unparker) {
    unparker.unpark();
}

/// A task or a thread that is waiting for a notification.
#[derive(Debug)]
pub enum Task {
    /// An asynchronous task.
    Waker(Waker),
    /// A blocked thread.
    Unparker(Unparker),
}

/// A task or a thread that is about to wait, not yet copied.
#[derive(Clone, Copy, Debug)]
pub enum TaskRef<'a> {
    /// An asynchronous task.
    Waker(&'a Waker),
    /// A blocked thread.
    Unparker(&'a Unparker),
}

/// `same` is what `Waker::will_wake` answered of the two wakers.
pub open spec fn answered(waker: Waker, other: Waker, same: bool) -> bool {
    call_ensures(Waker::will_wake, (&waker, &other), same)
}

impl Task {
    /// The task was handed to `Waker::wake`, or the thread to
    /// `Unparker::unpark`. Nothing but doing so shows it.
    pub closed spec fn was_woken(self) -> bool {
        match self {
            Task::Waker(waker) => call_ensures(wake_waker, (waker,), ()),
            Task::Unparker(unparker) => call_ensures(unpark_thread, (&unparker,), ()),
        }
    }
}

/// Every one of the tasks was woken.
pub open spec fn all_woken(tasks: Seq<Task>) -> bool {
    forall|i: int| 0 <= i < tasks.len() ==> (#[trigger] tasks[i]).was_woken()
}

/// To be woken is to be handed to the call that wakes.
pub(crate) proof fn woken_was_handed_over(tasks: Seq<Task>, i: int)
    requires
        all_woken(tasks),
        0 <= i < tasks.len(),
    ensures
        match tasks[i] {
            Task::Waker(waker) => call_ensures(wake_waker, (waker,), ()),
            Task::Unparker(unparker) => call_ensures(unpark_thread, (&unparker,), ()),
        },
{
    assert(tasks[i].was_woken());
}

/// To be woken by reference is to be handed to the call that does it.
pub(crate) proof fn woken_by_ref_was_handed_over(waker: Waker)
    requires
        woken_by_ref(waker),
    ensures
        call_ensures(wake_waker_by_ref, (&waker,), ()),
{
}

/// If all were woken, so were the last.
pub proof fn lemma_last_woken(first: Seq<Task>, last: Seq<Task>)
    requires
        all_woken(first + last),
    ensures
        all_woken(last),
{
    assert forall|i: int| 0 <= i < last.len() implies (#[trigger] last[i]).was_woken() by {
        assert((first + last)[first.len() + i].was_woken());
    }
}

/// If all were woken, so were those of either part.
pub proof fn lemma_both_woken(first: Seq<Task>, last: Seq<Task>, all: Seq<Task>)
    requires
        all_woken(all),
        all =~= first + last,
    ensures
        all_woken(first),
        all_woken(last),
{
    assert forall|i: int| 0 <= i < first.len() implies (#[trigger] first[i]).was_woken() by {
        assert(all[i].was_woken());
    }
    lemma_last_woken(first, last);
}

impl<'a> TaskRef<'a> {
    /// Whether `task` is a copy of what this reference refers to.
    pub open spec fn copies_to(self, task: Task) -> bool {
        match (self, task) {
            (TaskRef::Waker(a), Task::Waker(b)) => cloned::<Waker>(*a, b),
            (TaskRef::Unparker(a), Task::Unparker(b)) => cloned::<Unparker>(*a, b),
            _ => false,
        }
    }

    /// Copies the waker or the unparker.
    pub fn into_task(self) -> (task: Task)
        ensures
            self.copies_to(task),
    {
        match self {
            TaskRef::Waker(w) => Task::Waker(w.clone()),
            TaskRef::Unparker(u) => Task::Unparker(u.clone()),
        }
    }

    /// Whether to wake the one is to wake `other` too. Two wakers are asked; a
    /// thread is never taken to be the same as another task.
    pub fn will_wake(self, other: &Task) -> (same: bool)
        ensures
            match (self, *other) {
                (TaskRef::Waker(a), Task::Waker(b)) => answered(*a, b, same),
                _ => !same,
            },
    {
        match (self, other) {
            (TaskRef::Waker(a), Task::Waker(b)) => a.will_wake(b),
            _ => false,
        }
    }
}

impl PartialEq for Task {
    /// Two tasks are equal if waking the one wakes the other.
    fn eq(&self, other: &Task) -> (same: bool) {
        match (self, other) {
            (Task::Waker(a), Task::Waker(b)) => a.will_wake(b),
            _ => false,
        }
    }
}

impl vstd::std_specs::cmp::PartialEqSpecImpl for Task {
    /// Whether two wakers wake the same task is not known beforehand.
    open spec fn obeys_eq_spec() -> bool {
        false
    }

    open spec fn eq_spec(&self, other: &Task) -> bool {
        self == other
    }
}

/// Where tasks go that are to be woken.
pub trait TaskSink: Sized {
    /// The tasks that have come so far.
    spec fn gathered(&self) -> Seq<Task>;

    /// Takes one more task.
    fn accept(&mut self, task: Task)
        ensures
            final(self).gathered() == old(self).gathered().push(task),
    ;
}

impl TaskSink for Vec<Task> {
    open spec fn gathered(&self) -> Seq<Task> {
        self@
    }

    fn accept(&mut self, task: Task) {
        self.push(task);
    }
}

/// Wakes every task as it comes, and keeps a record of those that it has woken.
pub struct WakeNow {
    woken: Ghost<Seq<Task>>,
}

impl WakeNow {
    /// No task is on the record that was not woken.
    #[verifier::type_invariant]
    spec fn is_true(self) -> bool {
        all_woken(self.woken@)
    }

    /// Every task on the record was woken.
    pub fn attest(&self)
        ensures
            all_woken(self.gathered()),
    {
        proof {
            use_type_invariant(self);
        }
    }

    /// Nobody has been woken yet.
    pub fn new() -> (sink: Self)
        ensures
            sink.gathered() == Seq::<Task>::empty(),
    {
        WakeNow { woken: Ghost(Seq::empty()) }
    }
}

impl TaskSink for WakeNow {
    closed spec fn gathered(&self) -> Seq<Task> {
        self.woken@
    }

    fn accept(&mut self, task: Task) {
        let ghost record = self.woken@.push(task);
        proof {
            use_type_invariant(&*self);
        }
        task.wake();
        self.woken = Ghost(record);
    }
}

/// The task, if there is one.
pub open spec fn listed(task: Option<Task>) -> Seq<Task> {
    match task {
        Some(task) => seq![task],
        None => Seq::empty(),
    }
}

/// Puts a task into a sink, if there is one.
pub fn accept_one<S: TaskSink>(task: Option<Task>, sink: &mut S)
    ensures
        final(sink).gathered() == old(sink).gathered() + listed(task),
{
    match task {
        Some(task) => {
            sink.accept(task);
            proof {
                assert(sink.gathered() =~= old(sink).gathered() + seq![task]);
            }
        },
        None => {
            proof {
                assert(sink.gathered() =~= old(sink).gathered() + Seq::<Task>::empty());
            }
        },
    }
}

/// Puts every task of the list into a sink, first to last.
pub fn accept_all<S: TaskSink>(tasks: Vec<Task>, sink: &mut S)
    ensures
        final(sink).gathered() == old(sink).gathered() + tasks@,
{
    let ghost all = tasks@;
    proof {
        assert(sink.gathered() =~= old(sink).gathered() + all.take(0));
    }
    for task in iter: tasks
        invariant
            iter.seq() == all,
            sink.gathered() == old(sink).gathered() + all.take(iter.index() as int),
    {
        sink.accept(task);
        proof {
            assert(all.take(iter.index() as int).push(task) =~= all.take(iter.index() + 1));
            assert(sink.gathered() =~= old(sink).gathered() + all.take(iter.index() + 1));
        }
    }
    proof {
        assert(all.take(all.len() as int) =~= all);
    }
}

/// Wakes every task of the list, first to last.
pub fn wake_all(tasks: Vec<Task>)
    ensures
        all_woken(tasks@),
{
    let mut sink = WakeNow::new();
    accept_all(tasks, &mut sink);
    sink.attest();
    proof {
        assert(sink.gathered() =~= tasks@);
    }
}

impl Task {
    /// Whether registering `task` in place of `self` may leave `after` waiting.
    ///
    /// A waker stays if `Waker::will_wake` answers that it wakes the same task as
    /// the new one. Anything else gives way to a copy of the new one.
    pub open spec fn may_become(self, task: TaskRef, after: Task) -> bool {
        match (task, self) {
            (TaskRef::Waker(new), Task::Waker(held)) => {
                ||| answered(*new, held, true) && after == self
                ||| answered(*new, held, false) && task.copies_to(after)
            },
            _ => task.copies_to(after),
        }
    }

    /// Stays as it is if it is the same as `task`, and becomes a copy of `task`
    /// otherwise.
    pub fn keep_or_replace(self, task: TaskRef, same: bool) -> (after: Task)
        ensures
            same ==> after == self,
            !same ==> task.copies_to(after),
    {
        if same {
            self
        } else {
            task.into_task()
        }
    }

    /// Wakes the task or the thread.
    pub fn wake(self)
        ensures
            self.was_woken(),
    {
        match self {
            Task::Waker(w) => wake_waker(w),
            Task::Unparker(u) => unpark_thread(&u),
        }
    }
}

} // verus!
