//! What holds of events as a whole.
//!
//! Every list of this crate says what its operations do by the functions of
//! [`crate::roster`]. The laws here are about those functions, and so about all
//! of the lists.

use crate::linked_list::list::{joined, QueueStrategy};
use crate::notify::{can_deliver, carried_out, is_run, Notification, Tag, TagWith};
use crate::roster::{
    first_pending, granted, has_key, is_at, is_fifo, keys, lemma_first_pending_from,
    lemma_is_first_pending, lemma_notified, lemma_notified_none, lemma_pending_monotonic,
    lemma_position, lemma_prepended, lemma_pushed, lemma_removed, lemma_without_keys,
    notified_count, pending_before, pending_count, position, published, registered, removed,
    state_of, waiting_before, with_notified, without, woken, Roster,
};
use crate::state::{RegisterResult, State};
use crate::task::{Task, TaskRef};
use vstd::prelude::*;

verus! {

/// A plain notification makes sure that at least as many listeners as asked for
/// are notified, if there are so many, and notifies no more than that takes.
pub proof fn plain_reaches_enough<N: Notification>(
    before: Roster<N::Tag>,
    notify: N,
    after: Roster<N::Tag>,
)
    requires
        carried_out(before, notify, after),
        !notify.wants_additional(),
    ensures
        after.len() == before.len(),
        notified_count(after) == if notify.asks() <= notified_count(before) {
            notified_count(before)
        } else if notify.asks() <= before.len() {
            notify.asks() as int
        } else {
            before.len() as int
        },
{
    let tags = tags_of(before, notify, after);
    lemma_pending_monotonic(before, 0, before.len() as int);
    lemma_notified(before, false, tags);
}

/// An additional notification notifies as many listeners as asked for that were
/// not notified before, or all of them if there are fewer.
pub proof fn additional_reaches_more<N: Notification>(
    before: Roster<N::Tag>,
    notify: N,
    after: Roster<N::Tag>,
)
    requires
        carried_out(before, notify, after),
        notify.wants_additional(),
    ensures
        after.len() == before.len(),
        notified_count(after) == notified_count(before) + if notify.asks() <= pending_count(before) {
            notify.asks() as int
        } else {
            pending_count(before) as int
        },
{
    let tags = tags_of(before, notify, after);
    lemma_notified(before, true, tags);
}

/// A notification changes the number of notified listeners by as many as it says
/// that it has notified.
pub proof fn notified_as_counted<N: Notification>(
    before: Roster<N::Tag>,
    notify: N,
    after: Roster<N::Tag>,
)
    requires
        carried_out(before, notify, after),
    ensures
        notified_count(after) - notified_count(before) == granted(
            before,
            notify.asks(),
            notify.wants_additional(),
        ),
        pending_count(before) - pending_count(after) == granted(
            before,
            notify.asks(),
            notify.wants_additional(),
        ),
{
    let tags = tags_of(before, notify, after);
    lemma_pending_monotonic(before, 0, before.len() as int);
    lemma_notified(before, notify.wants_additional(), tags);
}

/// If there are no listeners, a notification gets lost.
pub proof fn lost_without_listeners<N: Notification>(
    before: Roster<N::Tag>,
    notify: N,
    after: Roster<N::Tag>,
)
    requires
        carried_out(before, notify, after),
        before.len() == 0,
    ensures
        after == before,
        granted(before, notify.asks(), notify.wants_additional()) == 0,
{
    let tags = tags_of(before, notify, after);
    assert(after =~= before);
}

/// To notify nobody changes nothing.
pub proof fn none_asked_for<N: Notification>(
    before: Roster<N::Tag>,
    notify: N,
    after: Roster<N::Tag>,
)
    requires
        carried_out(before, notify, after),
        notify.asks() == 0,
    ensures
        after == before,
        granted(before, notify.asks(), notify.wants_additional()) == 0,
{
    let tags = tags_of(before, notify, after);
    lemma_pending_monotonic(before, 0, before.len() as int);
    assert(tags =~= Seq::empty());
    lemma_notified_none(before, notify.wants_additional());
}

/// A plain notification that repeats another one, for no more listeners, does
/// nothing.
pub proof fn plain_is_idempotent<N: Notification, M: Notification<Tag = N::Tag>>(
    before: Roster<N::Tag>,
    first: N,
    between: Roster<N::Tag>,
    second: M,
    after: Roster<N::Tag>,
)
    requires
        carried_out(before, first, between),
        carried_out(between, second, after),
        !first.wants_additional(),
        !second.wants_additional(),
        second.asks() <= first.asks(),
    ensures
        after == between,
        granted(between, second.asks(), false) == 0,
{
    plain_reaches_enough(before, first, between);
    lemma_pending_monotonic(between, 0, between.len() as int);
    let tags = tags_of(between, second, after);
    assert(tags =~= Seq::empty());
    lemma_notified_none(between, false);
}

/// Whoever stands earlier is notified earlier: a listener is notified only if
/// all those before it are.
pub proof fn earlier_first<N: Notification>(
    before: Roster<N::Tag>,
    notify: N,
    after: Roster<N::Tag>,
    i: int,
    j: int,
)
    requires
        carried_out(before, notify, after),
        0 <= i < j < before.len(),
        !before[j].1.notified(),
        after[j].1.notified(),
    ensures
        after[i].1.notified(),
{
    let tags = tags_of(before, notify, after);
    lemma_pending_monotonic(before, i, j);
}

/// A notification leaves the listeners where they are. It does not touch those
/// that were notified before, nor those that it does not notify.
pub proof fn others_untouched<N: Notification>(
    before: Roster<N::Tag>,
    notify: N,
    after: Roster<N::Tag>,
    i: int,
)
    requires
        carried_out(before, notify, after),
        0 <= i < before.len(),
    ensures
        keys(after) == keys(before),
        after.len() == before.len(),
        before[i].1.notified() ==> after[i] == before[i],
        !after[i].1.notified() ==> after[i] == before[i],
        is_fifo(before) ==> is_fifo(after),
{
    let tags = tags_of(before, notify, after);
    lemma_pending_monotonic(before, 0, before.len() as int);
    lemma_notified(before, notify.wants_additional(), tags);
}

/// A listener that gets a notification learns whether it is an additional one.
pub proof fn kind_is_told<N: Notification>(
    before: Roster<N::Tag>,
    notify: N,
    after: Roster<N::Tag>,
    i: int,
)
    requires
        carried_out(before, notify, after),
        0 <= i < before.len(),
        !before[i].1.notified(),
        after[i].1.notified(),
    ensures
        after[i].1 matches State::Notified { additional, .. } && additional
            == notify.wants_additional(),
{
    let tags = tags_of(before, notify, after);
}

/// Every listener that is reached by a tagged notification receives a copy of
/// the tag, and gets it back when it asks for it.
pub proof fn tag_arrives<N: Notification, T: Clone>(
    before: Roster<T>,
    notify: Tag<N, T>,
    after: Roster<T>,
    i: int,
    task: TaskRef,
    rest: Roster<T>,
    result: RegisterResult<T>,
)
    requires
        carried_out(before, notify, after),
        keys(before).no_duplicates(),
        0 <= i < before.len(),
        !before[i].1.notified(),
        after[i].1.notified(),
        registered(after, before[i].0, task, rest, result),
    ensures
        result matches RegisterResult::Notified(tag) && cloned(notify.tag, tag),
        rest == without(after, before[i].0),
{
    let tags = tags_of(before, notify, after);
    let p = pending_before(before, i) as int;
    let steps = choose|steps: Seq<Tag<N, T>>| #[trigger] is_run(steps, tags) && steps[0] == notify;
    lemma_same_tag(steps, tags, p);
    assert(steps[p].yields(tags[p], steps[p + 1]));
    lemma_pending_monotonic(before, 0, before.len() as int);
    lemma_notified(before, notify.wants_additional(), tags);
    lemma_position(after, before[i].0, i);
}

proof fn lemma_same_tag<N: Notification, T: Clone>(
    steps: Seq<Tag<N, T>>,
    tags: Seq<T>,
    n: int,
)
    requires
        is_run(steps, tags),
        0 <= n <= tags.len(),
    ensures
        steps[n].tag == steps[0].tag,
    decreases n,
{
    if n > 0 {
        lemma_same_tag(steps, tags, n - 1);
        assert(steps[n - 1].yields(tags[n - 1], steps[n]));
    }
}

/// A notification whose tags a function makes reaches the first listeners that
/// have none, as many as it is granted, and each receives something that the
/// function returned. Nobody else is touched.
pub proof fn made_tag_arrives<N: Notification, T, F: FnMut() -> T>(
    before: Roster<T>,
    notify: TagWith<N, F>,
    after: Roster<T>,
    i: int,
)
    requires
        carried_out(before, notify, after),
        0 <= i < before.len(),
    ensures
        after.len() == before.len(),
        after[i].0 == before[i].0,
        if !before[i].1.notified() && pending_before(before, i) < granted(
            before,
            notify.asks(),
            notify.wants_additional(),
        ) {
            after[i].1 matches State::Notified { additional, tag } && additional
                == notify.wants_additional() && call_ensures(notify.tag, (), tag)
        } else {
            after[i] == before[i]
        },
{
    let tags = tags_of(before, notify, after);
    let p = pending_before(before, i) as int;
    let steps = choose|steps: Seq<TagWith<N, F>>| #[trigger]
        is_run(steps, tags) && steps[0] == notify;
    if p < tags.len() {
        lemma_same_function(steps, tags, p);
        assert(steps[p].yields(tags[p], steps[p + 1]));
    }
}

proof fn lemma_same_function<N: Notification, T, F: FnMut() -> T>(
    steps: Seq<TagWith<N, F>>,
    tags: Seq<T>,
    n: int,
)
    requires
        is_run(steps, tags),
        0 <= n <= tags.len(),
    ensures
        steps[n].tag == steps[0].tag,
    decreases n,
{
    if n > 0 {
        lemma_same_function(steps, tags, n - 1);
        assert(steps[n - 1].yields(tags[n - 1], steps[n]));
    }
}

/// No wakeup is lost: a task that waits on a listener is woken if the listener
/// is among the first `n` without a notification, which are those that get one.
pub proof fn waiting_task_is_woken<T>(r: Roster<T>, n: nat, i: int)
    requires
        0 <= i < r.len(),
        r[i].1 is Task,
        pending_before(r, i) < n,
    ensures
        woken(r, n).contains(r[i].1->Task_0),
{
    lemma_woken(r, n, r.len() as int, i);
}

proof fn lemma_woken<T>(r: Roster<T>, n: nat, len: int, i: int)
    requires
        0 <= i < len <= r.len(),
        r[i].1 is Task,
        pending_before(r, i) < n,
    ensures
        waiting_before(r, n, len).contains(r[i].1->Task_0),
    decreases len,
{
    let task = r[i].1->Task_0;
    let earlier = waiting_before(r, n, len - 1);
    if i < len - 1 {
        lemma_woken(r, n, len - 1, i);
        let at = choose|at: int| 0 <= at < earlier.len() && earlier[at] == task;
        assert(waiting_before(r, n, len)[at] == task);
    } else {
        let all = waiting_before(r, n, len);
        assert(all == earlier.push(task));
        assert(all[earlier.len() as int] == task);
    }
}

/// Nobody is woken for nothing: a task that is woken waits on a listener that
/// gets a notification.
pub proof fn woken_task_was_waiting<T>(r: Roster<T>, n: nat, task: Task) -> (i: int)
    requires
        woken(r, n).contains(task),
    ensures
        0 <= i < r.len(),
        r[i].1 == State::<T>::Task(task),
        pending_before(r, i) < n,
{
    lemma_was_waiting(r, n, r.len() as int, task)
}

proof fn lemma_was_waiting<T>(r: Roster<T>, n: nat, len: int, task: Task) -> (i: int)
    requires
        0 <= len <= r.len(),
        waiting_before(r, n, len).contains(task),
    ensures
        0 <= i < len,
        r[i].1 == State::<T>::Task(task),
        pending_before(r, i) < n,
    decreases len,
{
    let all = waiting_before(r, n, len);
    let at = choose|at: int| 0 <= at < all.len() && all[at] == task;
    if len <= 0 {
        0
    } else {
        let earlier = waiting_before(r, n, len - 1);
        if at < earlier.len() {
            assert(earlier[at] == task);
            lemma_was_waiting(r, n, len - 1, task)
        } else {
            len - 1
        }
    }
}

/// A new listener waits behind all others if listeners are served first-in
/// first-out, and is the next to be notified if they are served last-in
/// first-out.
pub proof fn newcomer_waits_its_turn<T>(r: Roster<T>, strategy: QueueStrategy, key: usize)
    ensures
        ({
            let after = joined(r, strategy, key);
            &&& pending_count(after) == pending_count(r) + 1
            &&& notified_count(after) == notified_count(r)
            &&& strategy is Fifo ==> after.last() == (key, State::<T>::Created)
                && pending_before(after, r.len() as int) == pending_count(r)
            &&& strategy is Lifo ==> after[0] == (key, State::<T>::Created) && first_pending(after)
                == 0
        }),
{
    match strategy {
        QueueStrategy::Fifo => {
            lemma_pushed(r, key, State::<T>::Created);
            crate::roster::lemma_pending_prefix(r, joined(r, strategy, key), r.len() as int);
        },
        QueueStrategy::Lifo => {
            lemma_prepended(r, key, State::<T>::Created);
        },
    }
}

/// A listener that is dropped with a notification hands it on, tag included, to
/// the first listener that has none: always if the notification was an
/// additional one, and otherwise if no other listener is notified.
pub proof fn dropped_notification_is_passed_on<T>(r: Roster<T>, key: usize)
    requires
        has_key(r, key),
        state_of(r, key) is Notified,
    ensures
        ({
            let rest = without(r, key);
            let after = removed(r, key, true);
            let at = first_pending(rest);
            let additional = state_of(r, key)->additional;
            &&& pending_count(rest) > 0 && (additional || notified_count(rest) == 0) ==> {
                &&& 0 <= at < rest.len()
                &&& after == rest.update(
                    at,
                    (
                        rest[at].0,
                        State::Notified { additional, tag: state_of(r, key)->tag },
                    ),
                )
                &&& notified_count(after) == notified_count(r)
            }
            &&& pending_count(rest) == 0 || !additional && notified_count(rest) > 0 ==> after
                == rest
        }),
{
    let rest = without(r, key);
    let after = removed(r, key, true);
    let additional = state_of(r, key)->additional;
    let tag = state_of(r, key)->tag;
    lemma_pending_monotonic(rest, 0, rest.len() as int);
    lemma_first_pending_from(rest, 0);
    lemma_removed(r, position(r, key));
    if granted(rest, 1, additional) == 1 {
        let at = first_pending(rest);
        lemma_is_first_pending(rest, at);
        lemma_notified_none(rest, additional);
        crate::roster::lemma_notified_step(rest, additional, Seq::empty(), tag, at);
        assert(Seq::<T>::empty().push(tag) =~= seq![tag]);
        lemma_notified(rest, additional, seq![tag]);
    }
}

/// Taking a listener out without passing anything on leaves every other listener
/// as it is. A listener without a notification is always taken out like that.
pub proof fn others_are_left_alone<T>(r: Roster<T>, key: usize, other: usize)
    requires
        keys(r).no_duplicates(),
        has_key(r, key),
        has_key(r, other),
        other != key,
    ensures
        !has_key(without(r, key), key),
        has_key(without(r, key), other),
        state_of(without(r, key), other) == state_of(r, other),
        removed(r, key, false) == without(r, key),
        !(state_of(r, key) is Notified) ==> removed(r, key, true) == without(r, key),
{
    let at = position(r, key);
    let rest = r.remove(at);
    let p = position(r, other);
    let q = if p < at { p } else { p - 1 };
    lemma_without_keys(r, key);
    assert(is_at(rest, other, q));
    lemma_position(rest, other, q);
}

/// Dropping a listener never takes a notification away from another one.
pub proof fn drop_keeps_notifications<T>(r: Roster<T>, key: usize, propagate: bool, i: int)
    requires
        has_key(r, key),
        0 <= i < r.len() - 1,
        without(r, key)[i].1.notified(),
    ensures
        removed(r, key, propagate)[i] == without(r, key)[i],
{
}

/// The counter that an event publishes is enough to tell that a notification
/// would reach nobody.
pub proof fn published_tells_when_nobody_is_left<T>(r: Roster<T>, count: usize, additional: bool)
    requires
        r.len() <= usize::MAX,
        ({
            let limit = if additional {
                usize::MAX
            } else {
                count
            };
            published(r) >= limit
        }),
    ensures
        granted(r, count, additional) == 0,
{
    lemma_pending_monotonic(r, 0, r.len() as int);
}

/// A listener that is polled while it has no notification stays, and is woken
/// by the next notification that reaches it. It is the last waker that waits: a
/// copy of it, or an earlier one that is said to wake the same task.
pub proof fn registered_task_waits<T>(
    before: Roster<T>,
    key: usize,
    task: TaskRef,
    after: Roster<T>,
    result: RegisterResult<T>,
)
    requires
        has_key(before, key),
        !state_of(before, key).notified(),
        registered(before, key, task, after, result),
    ensures
        result is Registered,
        has_key(after, key),
        keys(after) == keys(before),
        after[position(before, key)].1 is Task,
        match state_of(before, key) {
            State::Task(other) => other.may_become(task, after[position(before, key)].1->Task_0),
            _ => task.copies_to(after[position(before, key)].1->Task_0),
        },
        forall|n: nat|
            pending_before(after, position(before, key)) < n ==> #[trigger] woken(
                after,
                n,
            ).contains(after[position(before, key)].1->Task_0),
{
    let at = position(before, key);
    assert(keys(after) =~= keys(before));
    assert(is_at(after, key, at));
    assert forall|n: nat| pending_before(after, at) < n implies #[trigger] woken(
        after,
        n,
    ).contains(after[at].1->Task_0) by {
        waiting_task_is_woken(after, n, at);
    }
}

/// The tags that a notification has handed out.
spec fn tags_of<N: Notification>(
    before: Roster<N::Tag>,
    notify: N,
    after: Roster<N::Tag>,
) -> Seq<N::Tag> {
    choose|tags: Seq<N::Tag>|
        {
            &&& #[trigger] can_deliver(notify, tags)
            &&& tags.len() == granted(before, notify.asks(), notify.wants_additional())
            &&& after == with_notified(before, notify.wants_additional(), tags)
        }
}

} // verus!
