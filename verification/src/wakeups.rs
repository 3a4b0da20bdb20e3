//! Who is counted, who is told and who is woken, said without the functions by
//! which the lists say what they do.

use crate::notify::{carried_out, untagged, Notification};
use crate::roster::{
    granted, has_key, is_at, keys, lemma_notified, lemma_pending_monotonic, lemma_without_keys,
    notified_count, pending_before, pending_count, position, published, registered, removed,
    state_of, tag_of, waiting_before, without, woken, woken_if, Roster,
};
use crate::state::{RegisterResult, State};
use crate::task::{listed, Task, TaskRef};
use parking::Unparker;
use std::task::Waker;
use vstd::prelude::*;

verus! {

/// The listener has a notification, its tag taken out or not.
spec fn told<T>() -> spec_fn((usize, State<T>)) -> bool {
    |e: (usize, State<T>)| e.1 is Notified || e.1 is NotifiedTaken
}

/// The listener has no notification.
spec fn untold<T>() -> spec_fn((usize, State<T>)) -> bool {
    |e: (usize, State<T>)| e.1 is Created || e.1 is Task
}

/// The counts of a roster are what counting gives.
pub proof fn counted_one_by_one<T>(r: Roster<T>)
    ensures
        notified_count(r) == r.filter(
            |e: (usize, State<T>)| e.1 is Notified || e.1 is NotifiedTaken,
        ).len(),
        pending_count(r) == r.filter(|e: (usize, State<T>)| e.1 is Created || e.1 is Task).len(),
        notified_count(r) + pending_count(r) == r.len(),
{
    lemma_counted(r, r.len() as int);
    assert(r.take(r.len() as int) =~= r);
    assert(told::<T>() =~= (|e: (usize, State<T>)| e.1 is Notified || e.1 is NotifiedTaken));
    assert(untold::<T>() =~= (|e: (usize, State<T>)| e.1 is Created || e.1 is Task));
}

/// The number of listeners without a notification that stand before another one
/// is what counting gives.
pub proof fn counted_before<T>(r: Roster<T>, i: int)
    requires
        0 <= i <= r.len(),
    ensures
        pending_before(r, i) == r.take(i).filter(
            |e: (usize, State<T>)| e.1 is Created || e.1 is Task,
        ).len(),
{
    lemma_counted(r, i);
    assert(untold::<T>() =~= (|e: (usize, State<T>)| e.1 is Created || e.1 is Task));
}

proof fn lemma_counted<T>(r: Roster<T>, n: int)
    requires
        0 <= n <= r.len(),
    ensures
        pending_before(r, n) == r.take(n).filter(untold()).len(),
        n - pending_before(r, n) == r.take(n).filter(told()).len(),
    decreases n,
{
    reveal(Seq::filter);
    if n > 0 {
        lemma_counted(r, n - 1);
        assert(r.take(n).drop_last() =~= r.take(n - 1));
        assert(r.take(n).last() == r[n - 1]);
    } else {
        assert(r.take(0) =~= Seq::empty());
    }
}

/// The tasks that waited on listeners that have become notified, in roster order,
/// looking at the first `len` listeners only.
pub open spec fn told_tasks<T>(before: Roster<T>, after: Roster<T>, len: int) -> Seq<Task>
    decreases len,
{
    if len <= 0 {
        Seq::empty()
    } else {
        let earlier = told_tasks(before, after, len - 1);
        match before[len - 1].1 {
            State::Task(task) if after[len - 1].1 is Notified => earlier.push(task),
            _ => earlier,
        }
    }
}

/// Exactly the tasks that waited on a listener that has become notified are
/// woken, each once and in the order of the listeners.
pub proof fn exactly_the_told_are_woken<N: Notification>(
    before: Roster<N::Tag>,
    notify: N,
    after: Roster<N::Tag>,
)
    requires
        carried_out(before, notify, after),
    ensures
        woken(before, granted(before, notify.asks(), notify.wants_additional())) == told_tasks(
            before,
            after,
            before.len() as int,
        ),
{
    let n = granted(before, notify.asks(), notify.wants_additional());
    assert forall|i: int| 0 <= i < before.len() && before[i].1 is Task implies (
    (#[trigger] after[i]).1 is Notified <==> pending_before(before, i) < n) by {}
    lemma_told(before, after, n, before.len() as int);
}

/// The same, of a notification without tags.
pub proof fn exactly_the_told_are_woken_untagged(before: Roster<()>, count: usize, additional: bool)
    ensures
        woken(before, granted(before, count, additional)) == told_tasks(
            before,
            untagged(before, count, additional),
            before.len() as int,
        ),
{
    let n = granted(before, count, additional);
    lemma_told(before, untagged(before, count, additional), n, before.len() as int);
}

/// The same, of a removal: exactly the task of the listener to which the
/// notification is passed on is woken.
pub proof fn exactly_the_told_are_woken_by_removal<T>(r: Roster<T>, key: usize, propagate: bool)
    requires
        has_key(r, key),
    ensures
        woken_if(r, key, propagate) == told_tasks(
            without(r, key),
            removed(r, key, propagate),
            r.len() - 1,
        ),
        !propagate ==> woken_if(r, key, propagate).len() == 0,
        woken_if(r, key, propagate).len() <= 1,
{
    let rest = without(r, key);
    let after = removed(r, key, propagate);
    lemma_pending_monotonic(rest, 0, rest.len() as int);
    match state_of(r, key) {
        State::Notified { additional, tag } if propagate => {
            let n = granted(rest, 1, additional);
            lemma_told(rest, after, n, rest.len() as int);
            lemma_few(rest, n, rest.len() as int);
        },
        _ => {
            lemma_told(rest, after, 0, rest.len() as int);
            lemma_few(rest, 0, rest.len() as int);
            assert(told_tasks(rest, after, rest.len() as int) =~= Seq::empty());
        },
    }
}

/// Where those who are told are the first `n`, they are those who are woken.
pub proof fn lemma_told<T>(before: Roster<T>, after: Roster<T>, n: nat, len: int)
    requires
        0 <= len <= before.len(),
        forall|i: int|
            0 <= i < before.len() && before[i].1 is Task ==> ((#[trigger] after[i]).1 is Notified
                <==> pending_before(before, i) < n),
    ensures
        waiting_before(before, n, len) == told_tasks(before, after, len),
    decreases len,
{
    if len > 0 {
        lemma_told(before, after, n, len - 1);
        let last = after[len - 1];
    }
}

proof fn lemma_few<T>(r: Roster<T>, n: nat, len: int)
    requires
        0 <= len <= r.len(),
    ensures
        waiting_before(r, n, len).len() <= n,
        waiting_before(r, n, len).len() <= pending_before(r, len),
    decreases len,
{
    if len > 0 {
        lemma_few(r, n, len - 1);
    }
}

/// What a notification without tags comes to. A plain one leaves as many notified
/// as it asks for, if there are so many and not more are already. An additional
/// one notifies as many more as it asks for, or all. Whoever is reached learns
/// the kind, whoever stands before them is notified too, and nobody else is
/// touched.
pub proof fn notification_comes_to(before: Roster<()>, count: usize, additional: bool)
    ensures
        ({
            let after = untagged(before, count, additional);
            let told = notified_count(before);
            let all = before.len() as int;
            &&& after.len() == before.len()
            &&& keys(after) == keys(before)
            &&& !additional && count <= told ==> after == before
            &&& !additional && told < count ==> notified_count(after) == if count <= all {
                count as int
            } else {
                all
            }
            &&& additional ==> notified_count(after) == if told + count <= all {
                told + count
            } else {
                all
            }
            &&& granted(before, count, additional) == notified_count(after) - told
            &&& forall|i: int|
                0 <= i < before.len() ==> (#[trigger] after[i] == before[i] || !before[i].1.notified()
                    && after[i].1 == (State::Notified { additional, tag: () }))
            &&& forall|i: int, j: int|
                0 <= i < j < before.len() && !before[j].1.notified()
                    && (#[trigger] after[j]).1.notified() ==> (#[trigger] after[i]).1.notified()
        }),
{
    let n = granted(before, count, additional);
    let tags = Seq::new(n, |i: int| ());
    let after = untagged(before, count, additional);
    lemma_pending_monotonic(before, 0, before.len() as int);
    lemma_notified(before, additional, tags);
    assert(keys(after) =~= keys(before));
    if n == 0 {
        assert(after =~= before);
    }
    assert forall|i: int, j: int|
        0 <= i < j < before.len() && !before[j].1.notified()
            && (#[trigger] after[j]).1.notified() implies (#[trigger] after[i]).1.notified() by {
        lemma_pending_monotonic(before, i, j);
    }
}

/// Who is told by two notifications, one after the other, is told in order.
pub proof fn told_by_two(before: Roster<()>, between: Roster<()>, after: Roster<()>, len: int)
    requires
        0 <= len <= before.len(),
        between.len() == before.len(),
        after.len() == before.len(),
        forall|i: int|
            0 <= i < before.len() ==> (#[trigger] between[i] == before[i] || between[i].1
                is Notified),
        forall|i: int|
            0 <= i < before.len() && between[i].1 is Notified ==> (#[trigger] after[i]).1
                is Notified,
        forall|i: int, j: int|
            0 <= i < j < before.len() && !before[j].1.notified()
                && (#[trigger] between[j]).1.notified() ==> (#[trigger] between[i]).1.notified(),
    ensures
        told_tasks(before, after, len) == told_tasks(before, between, len) + told_tasks(
            between,
            after,
            len,
        ),
    decreases len,
{
    if len > 0 {
        told_by_two(before, between, after, len - 1);
        let i = len - 1;
        assert(between[i] == before[i] || between[i].1 is Notified);
        if before[i].1 is Task && between[i].1 is Notified {
            assert(after[i].1 is Notified);
            assert forall|j: int| 0 <= j < i implies (#[trigger] between[j]).1.notified() by {}
            lemma_nobody_waits(between, after, i);
            assert(told_tasks(before, after, len) =~= told_tasks(before, between, len)
                + told_tasks(between, after, len));
        } else {
            assert(told_tasks(before, after, len) =~= told_tasks(before, between, len)
                + told_tasks(between, after, len));
        }
    } else {
        assert(told_tasks(before, after, len) =~= told_tasks(before, between, len) + told_tasks(
            between,
            after,
            len,
        ));
    }
}

proof fn lemma_nobody_waits(r: Roster<()>, after: Roster<()>, len: int)
    requires
        0 <= len <= r.len(),
        forall|j: int| 0 <= j < len ==> (#[trigger] r[j]).1.notified(),
    ensures
        told_tasks(r, after, len) == Seq::<Task>::empty(),
    decreases len,
{
    if len > 0 {
        lemma_nobody_waits(r, after, len - 1);
        assert(r[len - 1].1.notified());
    }
}

/// Taking a listener out keeps the others, as they are and in their order.
pub proof fn without_keeps_the_order<T>(r: Roster<T>, key: usize)
    requires
        keys(r).no_duplicates(),
        has_key(r, key),
    ensures
        exists|at: int| is_at(r, key, at) && without(r, key) == #[trigger] r.remove(at),
        without(r, key).len() == r.len() - 1,
        !has_key(without(r, key), key),
        removed(r, key, true).len() == r.len() - 1,
        keys(removed(r, key, true)) == keys(without(r, key)),
{
    lemma_without_keys(r, key);
    assert(is_at(r, key, position(r, key)));
    assert(without(r, key) == r.remove(position(r, key)));
    assert(keys(removed(r, key, true)) =~= keys(without(r, key)));
}

/// Whether a notification is worth sending can be told from what the event
/// publishes: exactly if there is somebody left to notify, and fewer than asked
/// for are notified.
pub proof fn published_tells_exactly<T>(r: Roster<T>, limit: usize)
    requires
        r.len() <= usize::MAX,
    ensures
        published(r) < limit <==> pending_count(r) > 0 && notified_count(r) < limit,
{
    lemma_pending_monotonic(r, 0, r.len() as int);
}

/// A listener that has a notification hands its tag out when it is asked, and is
/// gone. The others stay as they are, and in their order.
pub proof fn notified_listener_is_ready<T>(
    before: Roster<T>,
    key: usize,
    task: TaskRef,
    after: Roster<T>,
    result: RegisterResult<T>,
)
    requires
        has_key(before, key),
        keys(before).no_duplicates(),
        registered(before, key, task, after, result),
        !(state_of(before, key) is NotifiedTaken),
    ensures
        result is Notified <==> state_of(before, key) is Notified,
        state_of(before, key) matches State::Notified { tag, .. } ==> {
            &&& result == RegisterResult::Notified(tag)
            &&& !has_key(after, key)
            &&& after == before.remove(position(before, key))
        },
        !(state_of(before, key) is Notified) ==> {
            &&& result is Registered
            &&& after.len() == before.len()
            &&& forall|i: int|
                0 <= i < before.len() && i != position(before, key) ==> #[trigger] after[i]
                    == before[i]
        },
{
    lemma_without_keys(before, key);
}

/// Of several wakers, the last one is kept: what waits after registering a waker
/// is a copy of it, or an earlier one of which `Waker::will_wake` said that it
/// wakes the same task.
pub proof fn last_waker_is_kept<T>(
    before: Roster<T>,
    key: usize,
    new: &Waker,
    after: Roster<T>,
    result: RegisterResult<T>,
)
    requires
        has_key(before, key),
        !state_of(before, key).notified(),
        registered(before, key, TaskRef::Waker(new), after, result),
    ensures
        after[position(before, key)].0 == key,
        after[position(before, key)].1 matches State::Task(Task::Waker(kept)) && (cloned::<Waker>(
            *new,
            kept,
        ) || state_of(before, key) == State::<T>::Task(Task::Waker(kept)) && call_ensures(
            Waker::will_wake,
            (new, &kept),
            true,
        )),
{
}

/// A thread that blocks on a listener is the one that waits on it.
pub proof fn last_thread_is_kept<T>(
    before: Roster<T>,
    key: usize,
    new: &Unparker,
    after: Roster<T>,
    result: RegisterResult<T>,
)
    requires
        has_key(before, key),
        !state_of(before, key).notified(),
        registered(before, key, TaskRef::Unparker(new), after, result),
    ensures
        after[position(before, key)].0 == key,
        after[position(before, key)].1 matches State::Task(Task::Unparker(kept))
            && cloned::<Unparker>(*new, kept),
{
}

/// A notification that came in the last moment still counts: its tag is not lost.
pub proof fn late_tag_is_not_lost<T>(state: State<T>)
    ensures
        state matches State::Notified { tag, .. } ==> tag_of(state) == Some(tag),
        !(state is Notified) ==> tag_of(state) is None,
{
}

/// A waiting task is listed once, and nothing else is.
pub proof fn listed_once(task: Option<Task>)
    ensures
        listed(task).len() == if task is Some {
            1nat
        } else {
            0nat
        },
        task matches Some(t) ==> listed(task)[0] == t,
{
}

} // verus!
