//! What an event's list of listeners is, apart from how it is stored.
//!
//! A roster lists the registered listeners in the order in which they are
//! notified, each with the key that its list knows it by and with its state.
//! Every list in this crate has a roster for its view, and says what its
//! operations do by the functions of this module.

use crate::notify::{can_deliver, carried_out, is_run, GenericNotify, Notification, OneTag};
use crate::state::{RegisterResult, State};
use crate::task::{Task, TaskRef};
use vstd::prelude::*;

verus! {

/// The registered listeners, first to be notified first.
pub type Roster<T> = Seq<(usize, State<T>)>;

/// The number of listeners among the first `n` that have no notification yet.
pub open spec fn pending_before<T>(r: Roster<T>, n: int) -> nat
    decreases n,
{
    if n <= 0 {
        0
    } else {
        pending_before(r, n - 1) + if r[n - 1].1.notified() {
            0nat
        } else {
            1nat
        }
    }
}

/// The number of listeners that have no notification yet.
pub open spec fn pending_count<T>(r: Roster<T>) -> nat {
    pending_before(r, r.len() as int)
}

/// The number of listeners that have a notification.
pub open spec fn notified_count<T>(r: Roster<T>) -> int {
    r.len() - pending_count(r)
}

/// The position of the first listener at or after `from` that has no
/// notification yet, or the length of the roster.
pub open spec fn first_pending_from<T>(r: Roster<T>, from: int) -> int
    decreases r.len() - from,
{
    if from < 0 || from >= r.len() {
        r.len() as int
    } else if !r[from].1.notified() {
        from
    } else {
        first_pending_from(r, from + 1)
    }
}

/// The position of the first listener that has no notification yet, or the
/// length of the roster.
pub open spec fn first_pending<T>(r: Roster<T>) -> int {
    first_pending_from(r, 0)
}

/// How many listeners get a notification when `count` are asked for.
///
/// An additional notification is for `count` listeners that have none yet. A
/// plain one sees to it that `count` have one, those that had one included.
pub open spec fn granted<T>(r: Roster<T>, count: usize, additional: bool) -> nat {
    let wanted: int = if additional {
        count as int
    } else if count <= notified_count(r) {
        0
    } else {
        count - notified_count(r)
    };
    if wanted <= pending_count(r) {
        wanted as nat
    } else {
        pending_count(r)
    }
}

/// The roster after one tag each was handed to the first listeners without a
/// notification.
pub open spec fn with_notified<T>(r: Roster<T>, additional: bool, tags: Seq<T>) -> Roster<T> {
    Seq::new(
        r.len(),
        |i: int|
            if !r[i].1.notified() && pending_before(r, i) < tags.len() {
                (r[i].0, State::Notified { additional, tag: tags[pending_before(r, i) as int] })
            } else {
                r[i]
            },
    )
}

/// The tasks waiting on the first `n` listeners without a notification, in
/// roster order, looking at the first `len` listeners only.
pub open spec fn waiting_before<T>(r: Roster<T>, n: nat, len: int) -> Seq<Task>
    decreases len,
{
    if len <= 0 {
        Seq::empty()
    } else {
        let earlier = waiting_before(r, n, len - 1);
        match r[len - 1].1 {
            State::Task(task) if pending_before(r, len - 1) < n => earlier.push(task),
            _ => earlier,
        }
    }
}

/// The tasks that wake up when the first `n` listeners without a notification
/// get one, in the order in which they wake up.
pub open spec fn woken<T>(r: Roster<T>, n: nat) -> Seq<Task> {
    waiting_before(r, n, r.len() as int)
}

/// Every listener with a notification stands before every listener without one.
pub open spec fn is_fifo<T>(r: Roster<T>) -> bool {
    forall|i: int, j: int|
        #![trigger r[i].1.notified(), r[j].1.notified()]
        0 <= i < j < r.len() && r[j].1.notified() ==> r[i].1.notified()
}

/// The keys of a roster, in order.
pub open spec fn keys<T>(r: Roster<T>) -> Seq<usize> {
    Seq::new(r.len(), |i: int| r[i].0)
}

/// `key` is the key of the listener at position `i`.
pub open spec fn is_at<T>(r: Roster<T>, key: usize, i: int) -> bool {
    0 <= i < r.len() && r[i].0 == key
}

/// `key` is the key of some listener.
pub open spec fn has_key<T>(r: Roster<T>, key: usize) -> bool {
    exists|i: int| is_at(r, key, i)
}

/// `key` is the key of some listener, and no thread is blocked on that one.
pub open spec fn is_pollable<T>(r: Roster<T>, key: usize) -> bool {
    has_key(r, key) && !(state_of(r, key) matches State::Task(Task::Unparker(_)))
}

/// Every listener of the one roster is in the other, and no thread has begun to
/// block on it.
pub open spec fn all_stay<T>(before: Roster<T>, after: Roster<T>) -> bool {
    &&& forall|k: usize| has_key(before, k) ==> #[trigger] has_key(after, k)
    &&& forall|k: usize| is_pollable(before, k) ==> #[trigger] is_pollable(after, k)
}

/// Every listener of the one roster, but for the one with the given key, is in
/// the other, and no thread has begun to block on it.
pub open spec fn others_stay<T>(before: Roster<T>, after: Roster<T>, key: usize) -> bool {
    &&& forall|k: usize| k != key && has_key(before, k) ==> #[trigger] has_key(after, k)
    &&& forall|k: usize| k != key && is_pollable(before, k) ==> #[trigger] is_pollable(after, k)
}

/// The position of the listener with the given key.
pub open spec fn position<T>(r: Roster<T>, key: usize) -> int {
    choose|i: int| is_at(r, key, i)
}

/// The state of the listener with the given key.
pub open spec fn state_of<T>(r: Roster<T>, key: usize) -> State<T> {
    r[position(r, key)].1
}

/// The roster without the listener of the given key.
pub open spec fn without<T>(r: Roster<T>, key: usize) -> Roster<T> {
    r.remove(position(r, key))
}

/// The roster with the state of one listener replaced.
pub open spec fn with_state<T>(r: Roster<T>, key: usize, state: State<T>) -> Roster<T> {
    r.update(position(r, key), (key, state))
}

/// What an event publishes of its roster: how many listeners have a
/// notification, or `usize::MAX` if all have one.
pub open spec fn published<T>(r: Roster<T>) -> usize {
    if notified_count(r) < r.len() {
        notified_count(r) as usize
    } else {
        usize::MAX
    }
}

/// The tag that a listener in the given state has received.
pub open spec fn tag_of<T>(state: State<T>) -> Option<T> {
    match state {
        State::Notified { tag, .. } => Some(tag),
        _ => None,
    }
}

/// The roster after one tag was handed to the first listener without a
/// notification, if a notification of one listener would reach any.
pub open spec fn passed_on<T>(r: Roster<T>, additional: bool, tag: T) -> Roster<T> {
    if granted(r, 1, additional) == 1 {
        with_notified(r, additional, seq![tag])
    } else {
        r
    }
}

/// The roster without a listener. If it had a notification and `propagate` is
/// set, that goes to another listener.
pub open spec fn removed<T>(r: Roster<T>, key: usize, propagate: bool) -> Roster<T> {
    match state_of(r, key) {
        State::Notified { additional, tag } if propagate => passed_on(
            without(r, key),
            additional,
            tag,
        ),
        _ => without(r, key),
    }
}

/// The tasks that wake up when a listener is dropped and its notification, if it
/// has one, is passed on.
pub open spec fn woken_by_removal<T>(r: Roster<T>, key: usize) -> Seq<Task> {
    match state_of(r, key) {
        State::Notified { additional, .. } => woken(
            without(r, key),
            granted(without(r, key), 1, additional),
        ),
        _ => Seq::empty(),
    }
}

/// The tasks that wake up when a listener is removed, and its notification is
/// passed on if `propagate` is set.
pub open spec fn woken_if<T>(r: Roster<T>, key: usize, propagate: bool) -> Seq<Task> {
    if propagate {
        woken_by_removal(r, key)
    } else {
        Seq::empty()
    }
}

/// What registering `task` with a listener may do to the roster, and return.
pub open spec fn registered<T>(
    before: Roster<T>,
    key: usize,
    task: TaskRef,
    after: Roster<T>,
    result: RegisterResult<T>,
) -> bool {
    match state_of(before, key) {
        State::Notified { tag, .. } => result == RegisterResult::Notified(tag) && after == without(
            before,
            key,
        ),
        State::Task(other) => result is Registered && exists|t: Task| #[trigger]
            other.may_become(task, t) && after == with_state(before, key, State::Task(t)),
        _ => result is Registered && exists|t: Task| #[trigger]
            task.copies_to(t) && after == with_state(before, key, State::Task(t)),
    }
}

/// Carrying out a notification that holds one tag passes that tag on.
pub proof fn lemma_passed_on<T>(
    before: Roster<T>,
    notify: GenericNotify<OneTag<T>>,
    after: Roster<T>,
)
    requires
        notify.count == 1,
        notify.tags.tag is Some,
        carried_out(before, notify, after),
    ensures
        after == passed_on(before, notify.additional, notify.tags.tag->0),
{
    let tags = choose|tags: Seq<T>|
        {
            &&& #[trigger] can_deliver(notify, tags)
            &&& tags.len() == granted(before, notify.asks(), notify.wants_additional())
            &&& after == with_notified(before, notify.wants_additional(), tags)
        };
    let steps = choose|steps: Seq<GenericNotify<OneTag<T>>>| #[trigger]
        is_run(steps, tags) && steps[0] == notify;
    lemma_pending_monotonic(before, 0, before.len() as int);
    if tags.len() == 1 {
        assert(steps[0].yields(tags[0], steps[1]));
        assert(tags =~= seq![notify.tags.tag->0]);
    } else {
        assert(tags =~= Seq::empty());
        lemma_notified_none(before, notify.additional);
    }
}

/// A key stands at no other position than its own.
pub proof fn lemma_position<T>(r: Roster<T>, key: usize, i: int)
    requires
        keys(r).no_duplicates(),
        is_at(r, key, i),
    ensures
        has_key(r, key),
        position(r, key) == i,
{
    let p = position(r, key);
    assert(keys(r)[p] == keys(r)[i]);
}

/// What moves from one position to another stays in the roster.
proof fn lemma_stay<T>(before: Roster<T>, after: Roster<T>, from: int, to: int)
    requires
        keys(before).no_duplicates(),
        keys(after).no_duplicates(),
        0 <= from < before.len(),
        0 <= to < after.len(),
        after[to].0 == before[from].0,
    ensures
        has_key(after, before[from].0),
        state_of(after, before[from].0) == after[to].1,
        state_of(before, before[from].0) == before[from].1,
{
    lemma_position(before, before[from].0, from);
    assert(is_at(after, before[from].0, to));
    lemma_position(after, before[from].0, to);
}

/// A new listener is known by its key, wherever it is put, and the others still
/// by theirs.
pub proof fn lemma_newcomer<T>(r: Roster<T>, at: int, key: usize, state: State<T>)
    requires
        0 <= at <= r.len(),
        keys(r).no_duplicates(),
        !has_key(r, key),
    ensures
        has_key(r.insert(at, (key, state)), key),
        state_of(r.insert(at, (key, state)), key) == state,
        all_stay(r, r.insert(at, (key, state))),
        r.push((key, state)) == r.insert(r.len() as int, (key, state)),
{
    let grown = r.insert(at, (key, state));
    assert(r.push((key, state)) =~= r.insert(r.len() as int, (key, state)));
    assert forall|i: int| 0 <= i < r.len() implies #[trigger] keys(r)[i] != key by {
        if keys(r)[i] == key {
            assert(is_at(r, key, i));
        }
    }
    assert(keys(grown).no_duplicates()) by {
        assert forall|i: int, j: int| 0 <= i < j < grown.len() implies keys(grown)[i] != keys(
            grown,
        )[j] by {
            let a = if i < at { i } else { i - 1 };
            let b = if j < at { j } else { j - 1 };
            if i != at {
                assert(keys(grown)[i] == keys(r)[a]);
            }
            if j != at {
                assert(keys(grown)[j] == keys(r)[b]);
            }
        }
    }
    assert(is_at(grown, key, at));
    lemma_position(grown, key, at);
    assert forall|k: usize| has_key(r, k) implies #[trigger] has_key(grown, k) && (is_pollable(r, k)
        ==> is_pollable(grown, k)) by {
        let p = position(r, k);
        lemma_stay(r, grown, p, if p < at { p } else { p + 1 });
    }
    assert forall|k: usize| is_pollable(r, k) implies #[trigger] is_pollable(grown, k) by {
        assert(has_key(grown, k));
    }
}

/// Notifying takes no listener away.
pub proof fn lemma_notified_stay<T>(r: Roster<T>, additional: bool, tags: Seq<T>)
    requires
        keys(r).no_duplicates(),
    ensures
        all_stay(r, with_notified(r, additional, tags)),
        keys(with_notified(r, additional, tags)) == keys(r),
{
    let after = with_notified(r, additional, tags);
    assert(keys(after) =~= keys(r));
    assert forall|k: usize| has_key(r, k) implies #[trigger] has_key(after, k) && (is_pollable(r, k)
        ==> is_pollable(after, k)) by {
        lemma_stay(r, after, position(r, k), position(r, k));
    }
    assert forall|k: usize| is_pollable(r, k) implies #[trigger] is_pollable(after, k) by {
        assert(has_key(after, k));
    }
}

/// Carrying out a notification takes no listener away.
pub proof fn lemma_carried_out_stay<N: Notification>(
    before: Roster<N::Tag>,
    notify: N,
    after: Roster<N::Tag>,
)
    requires
        keys(before).no_duplicates(),
        carried_out(before, notify, after),
    ensures
        all_stay(before, after),
{
    let tags = choose|tags: Seq<N::Tag>|
        {
            &&& #[trigger] can_deliver(notify, tags)
            &&& tags.len() == granted(before, notify.asks(), notify.wants_additional())
            &&& after == with_notified(before, notify.wants_additional(), tags)
        };
    lemma_notified_stay(before, notify.wants_additional(), tags);
}

/// The keys that are left when one listener is taken out.
pub proof fn lemma_without_keys<T>(r: Roster<T>, key: usize)
    requires
        keys(r).no_duplicates(),
        has_key(r, key),
    ensures
        keys(without(r, key)).no_duplicates(),
        !has_key(without(r, key), key),
        forall|k: usize| #[trigger] has_key(without(r, key), k) ==> has_key(r, k),
{
    let at = position(r, key);
    let rest = without(r, key);
    assert forall|k: usize| #[trigger] has_key(rest, k) implies has_key(r, k) by {
        let i = position(rest, k);
        assert(is_at(r, k, if i < at { i } else { i + 1 }));
    }
    assert forall|i: int| 0 <= i < rest.len() implies #[trigger] keys(rest)[i] == keys(r)[if i < at {
        i
    } else {
        i + 1
    }] by {}
    assert forall|i: int, j: int| 0 <= i < j < rest.len() implies keys(rest)[i] != keys(rest)[j] by {
        let a = if i < at { i } else { i + 1 };
        let b = if j < at { j } else { j + 1 };
        assert(keys(r)[a] != keys(r)[b]);
    }
    if has_key(rest, key) {
        let i = position(rest, key);
        let a = if i < at { i } else { i + 1 };
        assert(keys(rest)[i] == keys(r)[a]);
        assert(keys(r)[a] != keys(r)[at]);
    }
}

/// Removing one listener takes no other away.
pub proof fn lemma_removed_stay<T>(r: Roster<T>, key: usize, propagate: bool)
    requires
        keys(r).no_duplicates(),
        has_key(r, key),
    ensures
        others_stay(r, without(r, key), key),
        others_stay(r, removed(r, key, propagate), key),
{
    let at = position(r, key);
    let rest = without(r, key);
    let after = removed(r, key, propagate);
    lemma_without_keys(r, key);
    assert forall|k: usize| k != key && has_key(r, k) implies #[trigger] has_key(rest, k) && (
    is_pollable(r, k) ==> is_pollable(rest, k)) by {
        let p = position(r, k);
        lemma_stay(r, rest, p, if p < at { p } else { p - 1 });
    }
    assert forall|k: usize| k != key && is_pollable(r, k) implies #[trigger] is_pollable(
        rest,
        k,
    ) by {
        assert(has_key(rest, k));
    }
    match state_of(r, key) {
        State::Notified { additional, tag } => {
            lemma_notified_stay(rest, additional, seq![tag]);
        },
        _ => {},
    }
    assert forall|k: usize| k != key && has_key(r, k) implies #[trigger] has_key(after, k) by {
        assert(has_key(rest, k));
    }
    assert forall|k: usize| k != key && is_pollable(r, k) implies #[trigger] is_pollable(
        after,
        k,
    ) by {
        assert(is_pollable(rest, k));
    }
}

/// Replacing the state of one listener takes no other away.
pub proof fn lemma_restated_stay<T>(r: Roster<T>, key: usize, state: State<T>)
    requires
        keys(r).no_duplicates(),
        has_key(r, key),
    ensures
        has_key(with_state(r, key, state), key),
        state_of(with_state(r, key, state), key) == state,
        others_stay(r, with_state(r, key, state), key),
{
    let after = with_state(r, key, state);
    assert(keys(after) =~= keys(r));
    lemma_stay(r, after, position(r, key), position(r, key));
    assert forall|k: usize| k != key && has_key(r, k) implies #[trigger] has_key(after, k) && (
    is_pollable(r, k) ==> is_pollable(after, k)) by {
        lemma_stay(r, after, position(r, k), position(r, k));
    }
    assert forall|k: usize| k != key && is_pollable(r, k) implies #[trigger] is_pollable(
        after,
        k,
    ) by {
        assert(has_key(after, k));
    }
}

/// Registering a task takes no listener away but a notified one.
pub proof fn lemma_registered_stay<T>(
    before: Roster<T>,
    key: usize,
    task: TaskRef,
    after: Roster<T>,
    result: RegisterResult<T>,
)
    requires
        keys(before).no_duplicates(),
        has_key(before, key),
        registered(before, key, task, after, result),
    ensures
        others_stay(before, after, key),
        result is Registered ==> has_key(after, key),
        result is Registered && task is Waker ==> all_stay(before, after) && is_pollable(
            after,
            key,
        ),
{
    lemma_removed_stay(before, key, false);
    if result is Registered {
        assert(keys(after) =~= keys(before));
        assert forall|k: usize| has_key(before, k) implies #[trigger] has_key(after, k) && (
        is_pollable(before, k) && (k != key || task is Waker) ==> is_pollable(after, k)) && (k == key
            && task is Waker ==> is_pollable(after, k)) by {
            lemma_stay(before, after, position(before, k), position(before, k));
        }
        assert forall|k: usize|
            is_pollable(before, k) && (k != key || task is Waker) implies #[trigger] is_pollable(
            after,
            k,
        ) by {
            assert(has_key(after, k));
        }
        assert(has_key(after, key));
    }
}

/// The count of listeners without a notification is at most the number of
/// listeners looked at, and never shrinks as more are looked at.
pub proof fn lemma_pending_monotonic<T>(r: Roster<T>, i: int, j: int)
    requires
        0 <= i <= j,
    ensures
        pending_before(r, i) <= pending_before(r, j) <= pending_before(r, i) + (j - i),
        pending_before(r, i) <= i,
    decreases j,
{
    if i < j {
        lemma_pending_monotonic(r, i, j - 1);
    } else if i > 0 {
        lemma_pending_monotonic(r, i - 1, j - 1);
    }
}

/// The count looks at nothing but the first `n` listeners.
pub proof fn lemma_pending_prefix<T>(a: Roster<T>, b: Roster<T>, n: int)
    requires
        forall|i: int| 0 <= i < n ==> a[i].1.notified() == (#[trigger] b[i]).1.notified(),
    ensures
        pending_before(a, n) == pending_before(b, n),
    decreases n,
{
    if n > 0 {
        lemma_pending_prefix(a, b, n - 1);
        assert(a[n - 1].1.notified() == b[n - 1].1.notified());
    }
}

/// The first listener without a notification is what its name says.
pub proof fn lemma_first_pending_from<T>(r: Roster<T>, from: int)
    requires
        0 <= from <= r.len(),
    ensures
        from <= first_pending_from(r, from) <= r.len(),
        forall|i: int| from <= i < first_pending_from(r, from) ==> (#[trigger] r[i]).1.notified(),
        first_pending_from(r, from) < r.len() ==> !r[first_pending_from(r, from)].1.notified(),
    decreases r.len() - from,
{
    if from < r.len() && r[from].1.notified() {
        lemma_first_pending_from(r, from + 1);
    }
}

/// A position with only notified listeners before it, which is itself without
/// a notification or behind the last listener, is the first pending one.
pub proof fn lemma_is_first_pending<T>(r: Roster<T>, at: int)
    requires
        0 <= at <= r.len(),
        forall|i: int| 0 <= i < at ==> (#[trigger] r[i]).1.notified(),
        at < r.len() ==> !r[at].1.notified(),
    ensures
        first_pending(r) == at,
        pending_before(r, at) == 0,
        at == r.len() <==> pending_count(r) == 0,
{
    lemma_first_pending_from(r, 0);
    lemma_none_pending(r, at);
    if at < r.len() {
        lemma_pending_monotonic(r, at + 1, r.len() as int);
    }
}

/// Where all of the first `n` listeners are notified, none is pending.
pub proof fn lemma_none_pending<T>(r: Roster<T>, n: int)
    requires
        forall|i: int| 0 <= i < n ==> (#[trigger] r[i]).1.notified(),
    ensures
        pending_before(r, n) == 0,
    decreases n,
{
    if n > 0 {
        assert(r[n - 1].1.notified());
        lemma_none_pending(r, n - 1);
    }
}

/// In a first-in first-out roster the notified listeners are the first ones.
pub proof fn lemma_fifo_prefix<T>(r: Roster<T>, n: int)
    requires
        is_fifo(r),
        0 <= n <= r.len(),
    ensures
        0 <= notified_count(r) <= r.len(),
        pending_before(r, n) == if n <= notified_count(r) { 0 } else { n - notified_count(r) },
        forall|i: int| 0 <= i < r.len() ==> ((#[trigger] r[i]).1.notified() <==> i < notified_count(r)),
        first_pending(r) == notified_count(r),
{
    lemma_first_pending_from(r, 0);
    let f = first_pending(r);
    lemma_is_first_pending(r, f);
    assert forall|i: int| f <= i < r.len() implies !(#[trigger] r[i]).1.notified() by {
        assert(!r[f].1.notified());
    }
    lemma_all_pending(r, f, r.len() as int);
    if n <= f {
        lemma_none_pending(r, n);
    } else {
        lemma_all_pending(r, f, n);
    }
}

/// Where all listeners from `from` up to `to` are pending, each counts.
pub proof fn lemma_all_pending<T>(r: Roster<T>, from: int, to: int)
    requires
        0 <= from <= to,
        forall|i: int| from <= i < to ==> !(#[trigger] r[i]).1.notified(),
    ensures
        pending_before(r, to) == pending_before(r, from) + (to - from),
    decreases to,
{
    if from < to {
        assert(!r[to - 1].1.notified());
        lemma_all_pending(r, from, to - 1);
    }
}

/// What notifying does to the count.
pub proof fn lemma_notified_pending<T>(r: Roster<T>, additional: bool, tags: Seq<T>, n: int)
    requires
        0 <= n <= r.len(),
    ensures
        pending_before(with_notified(r, additional, tags), n) == if pending_before(r, n)
            <= tags.len() {
            0
        } else {
            pending_before(r, n) - tags.len()
        },
    decreases n,
{
    if n > 0 {
        lemma_notified_pending(r, additional, tags, n - 1);
    }
}

/// Notifying keeps a roster first-in first-out, keeps its keys, and changes the
/// number of notified listeners by the number of tags handed out.
pub proof fn lemma_notified<T>(r: Roster<T>, additional: bool, tags: Seq<T>)
    requires
        tags.len() <= pending_count(r),
    ensures
        keys(with_notified(r, additional, tags)) == keys(r),
        pending_count(with_notified(r, additional, tags)) == pending_count(r) - tags.len(),
        notified_count(with_notified(r, additional, tags)) == notified_count(r) + tags.len(),
        is_fifo(r) ==> is_fifo(with_notified(r, additional, tags)),
{
    let after = with_notified(r, additional, tags);
    assert(keys(after) =~= keys(r));
    lemma_notified_pending(r, additional, tags, r.len() as int);
    if is_fifo(r) {
        assert forall|i: int, j: int|
            0 <= i < j < after.len() && (#[trigger] after[j]).1.notified() implies (
        #[trigger] after[i]).1.notified() by {
            lemma_pending_monotonic(r, i, j);
            assert(r[j].1.notified() ==> r[i].1.notified());
        }
    }
}

/// Handing out no tag changes nothing.
pub proof fn lemma_notified_none<T>(r: Roster<T>, additional: bool)
    ensures
        with_notified(r, additional, Seq::empty()) == r,
        woken(r, 0) == Seq::<Task>::empty(),
{
    assert(with_notified(r, additional, Seq::empty()) =~= r);
    lemma_waiting_none(r, r.len() as int);
}

proof fn lemma_waiting_none<T>(r: Roster<T>, len: int)
    ensures
        waiting_before(r, 0, len) == Seq::<Task>::empty(),
    decreases len,
{
    if len > 0 {
        lemma_waiting_none(r, len - 1);
    }
}

/// Handing out one more tag notifies the next pending listener, at position
/// `at`, and wakes its task.
pub proof fn lemma_notified_step<T>(r: Roster<T>, additional: bool, tags: Seq<T>, tag: T, at: int)
    requires
        0 <= at < r.len(),
        at == first_pending(with_notified(r, additional, tags)),
    ensures
        !r[at].1.notified(),
        pending_before(r, at) == tags.len(),
        tags.len() < pending_count(r),
        with_notified(r, additional, tags)[at] == r[at],
        with_notified(r, additional, tags.push(tag)) == with_notified(r, additional, tags).update(
            at,
            (r[at].0, State::Notified { additional, tag }),
        ),
        woken(r, tags.len() + 1) == match r[at].1 {
            State::Task(task) => woken(r, tags.len()).push(task),
            _ => woken(r, tags.len()),
        },
{
    let before = with_notified(r, additional, tags);
    let more = tags.push(tag);
    lemma_first_pending_from(before, 0);
    assert(before[at] == r[at]);
    lemma_none_pending(before, at);
    lemma_notified_pending(r, additional, tags, at);
    assert(pending_before(r, at) == tags.len());
    lemma_pending_monotonic(r, at + 1, r.len() as int);
    assert forall|i: int| 0 <= i < r.len() implies with_notified(r, additional, more)[i]
        == #[trigger] before.update(at, (r[at].0, State::Notified { additional, tag }))[i] by {
        if i < at {
            lemma_pending_monotonic(r, i + 1, at);
        } else if i > at {
            lemma_pending_monotonic(r, at + 1, i);
        }
    }
    assert(with_notified(r, additional, more) =~= before.update(
        at,
        (r[at].0, State::Notified { additional, tag }),
    ));
    lemma_waiting_step(r, at, r.len() as int);
}

/// Notifying the first pending listener, as a single step.
pub proof fn lemma_first_notified<T>(r: Roster<T>, additional: bool, tag: T)
    requires
        first_pending(r) < r.len(),
    ensures
        ({
            let at = first_pending(r);
            let after = r.update(at, (r[at].0, State::Notified { additional, tag }));
            &&& 0 <= at
            &&& notified_count(after) == notified_count(r) + 1
            &&& notified_count(r) < r.len()
            &&& first_pending(after) == first_pending_from(after, at + 1)
            &&& keys(after) == keys(r)
            &&& is_fifo(r) ==> is_fifo(after)
        }),
{
    let at = first_pending(r);
    let after = r.update(at, (r[at].0, State::Notified { additional, tag }));
    lemma_first_pending_from(r, 0);
    assert(notified_count(after) == notified_count(r) + 1 && notified_count(r) < r.len()) by {
        lemma_updated_pending(r, additional, tag, at, r.len() as int);
        lemma_pending_monotonic(r, at + 1, r.len() as int);
    }
    assert(keys(after) =~= keys(r));
    assert(first_pending(after) == first_pending_from(after, at + 1)) by {
        lemma_first_pending_from(after, at + 1);
        assert forall|i: int| 0 <= i < first_pending_from(after, at + 1) implies (
        #[trigger] after[i]).1.notified() by {
            if i < at {
                assert(r[i].1.notified());
            }
        }
        lemma_is_first_pending(after, first_pending_from(after, at + 1));
    }
    if is_fifo(r) {
        assert forall|i: int, j: int|
            0 <= i < j < after.len() && (#[trigger] after[j]).1.notified() implies (
        #[trigger] after[i]).1.notified() by {
            if i < at {
                assert(r[i].1.notified());
            } else if j != at && i != at {
                assert(r[j].1.notified() ==> r[i].1.notified());
            }
        }
    }
}

/// What notifying one pending listener does to the count.
proof fn lemma_updated_pending<T>(r: Roster<T>, additional: bool, tag: T, at: int, n: int)
    requires
        0 <= at < r.len(),
        0 <= n <= r.len(),
        !r[at].1.notified(),
    ensures
        pending_before(r.update(at, (r[at].0, State::Notified { additional, tag })), n)
            == pending_before(r, n) - if at < n {
            1int
        } else {
            0
        },
    decreases n,
{
    if n > 0 {
        lemma_updated_pending(r, additional, tag, at, n - 1);
    }
}

proof fn lemma_waiting_step<T>(r: Roster<T>, at: int, len: int)
    requires
        0 <= at < len <= r.len(),
        !r[at].1.notified(),
    ensures
        waiting_before(r, pending_before(r, at) + 1, len) == match r[at].1 {
            State::Task(task) => waiting_before(r, pending_before(r, at), len).push(task),
            _ => waiting_before(r, pending_before(r, at), len),
        },
    decreases len,
{
    let n = pending_before(r, at);
    if len - 1 == at {
        lemma_waiting_below(r, n, n + 1, at);
    } else {
        lemma_waiting_step(r, at, len - 1);
        lemma_pending_monotonic(r, at + 1, len - 1);
    }
}

/// Two limits that both exceed what is pending among the first `len` listeners
/// select the same tasks.
proof fn lemma_waiting_below<T>(r: Roster<T>, n: nat, m: nat, len: int)
    requires
        0 <= len <= r.len(),
        pending_before(r, len) <= n,
        pending_before(r, len) <= m,
    ensures
        waiting_before(r, n, len) == waiting_before(r, m, len),
    decreases len,
{
    if len > 0 {
        lemma_pending_monotonic(r, len - 1, len);
        lemma_waiting_below(r, n, m, len - 1);
    }
}

/// A new listener behind the others.
pub proof fn lemma_pushed<T>(r: Roster<T>, key: usize, state: State<T>)
    requires
        !state.notified(),
    ensures
        pending_count(r.push((key, state))) == pending_count(r) + 1,
        notified_count(r.push((key, state))) == notified_count(r),
        keys(r.push((key, state))) == keys(r).push(key),
        is_fifo(r) ==> is_fifo(r.push((key, state))),
{
    let grown = r.push((key, state));
    lemma_pending_prefix(r, grown, r.len() as int);
    assert(keys(grown) =~= keys(r).push(key));
    if is_fifo(r) {
        assert forall|i: int, j: int|
            0 <= i < j < grown.len() && (#[trigger] grown[j]).1.notified() implies (
        #[trigger] grown[i]).1.notified() by {
            assert(r[j].1.notified() ==> r[i].1.notified());
        }
    }
}

/// A new listener before the others.
pub proof fn lemma_prepended<T>(r: Roster<T>, key: usize, state: State<T>)
    requires
        !state.notified(),
    ensures
        pending_count(r.insert(0, (key, state))) == pending_count(r) + 1,
        notified_count(r.insert(0, (key, state))) == notified_count(r),
        keys(r.insert(0, (key, state))) == keys(r).insert(0, key),
        first_pending(r.insert(0, (key, state))) == 0,
{
    let grown = r.insert(0, (key, state));
    assert(keys(grown) =~= keys(r).insert(0, key));
    lemma_shifted(r, key, state, r.len() as int);
}

proof fn lemma_shifted<T>(r: Roster<T>, key: usize, state: State<T>, n: int)
    requires
        !state.notified(),
        0 <= n <= r.len(),
    ensures
        pending_before(r.insert(0, (key, state)), n + 1) == pending_before(r, n) + 1,
    decreases n,
{
    let grown = r.insert(0, (key, state));
    if n > 0 {
        lemma_shifted(r, key, state, n - 1);
        assert(grown[n] == r[n - 1]);
    } else {
        assert(grown[0] == (key, state));
        assert(pending_before(grown, 0) == 0);
        assert(pending_before(r, 0) == 0);
    }
}

/// Taking the listener at position `at` out.
pub proof fn lemma_removed<T>(r: Roster<T>, at: int)
    requires
        0 <= at < r.len(),
    ensures
        pending_count(r.remove(at)) == pending_count(r) - if r[at].1.notified() {
            0int
        } else {
            1
        },
        notified_count(r.remove(at)) == notified_count(r) - if r[at].1.notified() {
            1int
        } else {
            0
        },
        keys(r.remove(at)) == keys(r).remove(at),
        is_fifo(r) ==> is_fifo(r.remove(at)),
{
    let rest = r.remove(at);
    assert(keys(rest) =~= keys(r).remove(at));
    lemma_removed_before(r, at, rest.len() as int);
    if is_fifo(r) {
        assert forall|i: int, j: int|
            0 <= i < j < rest.len() && (#[trigger] rest[j]).1.notified() implies (
        #[trigger] rest[i]).1.notified() by {
            let a = if i < at { i } else { i + 1 };
            let b = if j < at { j } else { j + 1 };
            assert(rest[i] == r[a]);
            assert(rest[j] == r[b]);
            assert(r[b].1.notified() ==> r[a].1.notified());
        }
    }
}

proof fn lemma_removed_before<T>(r: Roster<T>, at: int, n: int)
    requires
        0 <= at <= n < r.len(),
    ensures
        pending_before(r.remove(at), n) == pending_before(r, n + 1) - if r[at].1.notified() {
            0int
        } else {
            1
        },
    decreases n,
{
    let rest = r.remove(at);
    if n > at {
        lemma_removed_before(r, at, n - 1);
        assert(rest[n - 1] == r[n]);
    } else {
        lemma_pending_prefix(r, rest, at);
    }
}

/// Where the first pending listener is after one was taken out.
pub proof fn lemma_removed_first<T>(r: Roster<T>, at: int)
    requires
        0 <= at < r.len(),
    ensures
        at < first_pending(r) ==> first_pending(r.remove(at)) == first_pending(r) - 1,
        at > first_pending(r) ==> first_pending(r.remove(at)) == first_pending(r),
        at == first_pending(r) ==> first_pending(r.remove(at)) == first_pending_from(
            r.remove(at),
            at,
        ),
{
    let rest = r.remove(at);
    let f = first_pending(r);
    lemma_first_pending_from(r, 0);
    lemma_first_pending_from(rest, at);
    let found = if at < f {
        f - 1
    } else if at > f {
        f
    } else {
        first_pending_from(rest, at)
    };
    assert forall|i: int| 0 <= i < found implies (#[trigger] rest[i]).1.notified() by {
        let o = if i < at { i } else { i + 1 };
        assert(rest[i] == r[o]);
    }
    if found < rest.len() && at != f {
        assert(rest[found] == r[f]);
    }
    lemma_is_first_pending(rest, found);
}

/// Replacing a state by one that is notified just as much changes no count.
pub proof fn lemma_restated<T>(r: Roster<T>, at: int, state: State<T>)
    requires
        0 <= at < r.len(),
        state.notified() == r[at].1.notified(),
    ensures
        pending_count(r.update(at, (r[at].0, state))) == pending_count(r),
        notified_count(r.update(at, (r[at].0, state))) == notified_count(r),
        keys(r.update(at, (r[at].0, state))) == keys(r),
        first_pending(r.update(at, (r[at].0, state))) == first_pending(r),
        is_fifo(r) ==> is_fifo(r.update(at, (r[at].0, state))),
{
    let after = r.update(at, (r[at].0, state));
    assert(keys(after) =~= keys(r));
    assert forall|i: int| 0 <= i < r.len() implies r[i].1.notified()
        == (#[trigger] after[i]).1.notified() by {}
    lemma_pending_prefix(r, after, r.len() as int);
    lemma_first_pending_from(r, 0);
    lemma_first_pending_from(after, 0);
    lemma_is_first_pending(after, first_pending(r));
    if is_fifo(r) {
        assert forall|i: int, j: int|
            0 <= i < j < after.len() && (#[trigger] after[j]).1.notified() implies (
        #[trigger] after[i]).1.notified() by {
            assert(r[j].1.notified() ==> r[i].1.notified());
        }
    }
}

} // verus!
