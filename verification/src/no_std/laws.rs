//! What holds of operations that are put off.

use crate::laws::dropped_notification_is_passed_on;
use crate::no_std::entries::{left_of, Listener};
use crate::no_std::inner::{
    collide, entry_of, is_known, lemma_fresh_key, lemma_known_step, lemma_sound_rest, resolved,
    run, run_tells, run_wakes, sound, waiter_of, well_kept,
};
use crate::no_std::node::{entry_in, told, Ledger, Node, VecProducer, Wait};
use crate::notify::GenericNotify;
use crate::roster::{
    first_pending, granted, has_key, is_at, keys, lemma_notified, lemma_pending_monotonic,
    lemma_without_keys, notified_count, pending_before, pending_count, position, removed, state_of,
    without,
};
use crate::state::State;
use crate::task::Task;
use crate::wakeups::{
    exactly_the_told_are_woken_by_removal, lemma_told, told_tasks, without_keeps_the_order,
};
use vstd::prelude::*;

verus! {

/// An operation keeps the keys apart.
proof fn lemma_well_kept<T>(node: Node<T>, ledger: Ledger<T>)
    requires
        node.ready(ledger),
        well_kept(ledger),
        ledger.slots < usize::MAX,
    ensures
        well_kept(node.applied(ledger)),
        node.applied(ledger).slots <= ledger.slots + 1,
{
    match node {
        Node::AddListener { ticket } => {
            if ledger.waiting[ticket].entry != usize::MAX {
                lemma_fresh_key(ledger);
                let after = ledger.with_listener();
                let key = ledger.next_key();
                assert(keys(after.roster) =~= keys(ledger.roster).push(key));
                assert forall|i: int| 0 <= i < keys(ledger.roster).len() implies keys(
                    ledger.roster,
                )[i] != key by {
                    assert(is_at(ledger.roster, keys(ledger.roster)[i], i));
                }
                assert forall|i: int| 0 <= i < after.free.len() implies 0
                    < #[trigger] after.free[i] < after.slots && !has_key(
                    after.roster,
                    after.free[i],
                ) by {
                    assert(after.free[i] == ledger.free[i + 1]);
                    assert(ledger.free[0] != ledger.free[i + 1]);
                    if has_key(after.roster, after.free[i]) {
                        let p = position(after.roster, after.free[i]);
                        if p < ledger.roster.len() {
                            assert(is_at(ledger.roster, after.free[i], p));
                        }
                    }
                }
                assert forall|i: int| 0 <= i < after.roster.len() implies 0
                    < (#[trigger] after.roster[i]).0 < after.slots by {
                    if i < ledger.roster.len() {
                        assert(after.roster[i] == ledger.roster[i]);
                    }
                }
            }
        },
        Node::Notify(notify) => {
            let after = node.applied(ledger);
            assert(keys(after.roster) =~= keys(ledger.roster));
            lemma_same_keys(ledger, after);
        },
        Node::RemoveListener { listener, propagate } => {
            let at = position(ledger.roster, listener);
            let rest = without(ledger.roster, listener);
            let after = node.applied(ledger);
            lemma_without_keys(ledger.roster, listener);
            assert(keys(after.roster) =~= keys(rest));
            assert forall|i: int| 0 <= i < after.roster.len() implies 0
                < (#[trigger] after.roster[i]).0 < after.slots && after.roster[i].0 != listener by {
                let o = if i < at { i } else { i + 1 };
                assert(keys(after.roster)[i] == keys(ledger.roster)[o]);
                assert(keys(ledger.roster)[o] != keys(ledger.roster)[at]);
                assert(ledger.roster[o].0 == after.roster[i].0);
            }
            assert forall|i: int| 0 <= i < after.free.len() implies 0 < #[trigger] after.free[i]
                < after.slots && !has_key(after.roster, after.free[i]) by {
                if i > 0 {
                    assert(after.free[i] == ledger.free[i - 1]);
                } else {
                    assert(ledger.roster[at].0 == listener);
                }
                if has_key(after.roster, after.free[i]) {
                    let p = position(after.roster, after.free[i]);
                    let o = if p < at { p } else { p + 1 };
                    assert(keys(after.roster)[p] == keys(ledger.roster)[o]);
                    assert(is_at(ledger.roster, after.free[i], o));
                }
            }
            assert(has_key(ledger.roster, listener));
            assert forall|i: int, j: int| 0 <= i < j < after.free.len() implies after.free[i]
                != after.free[j] by {
                assert(after.free[j] == ledger.free[j - 1]);
                if i > 0 {
                    assert(after.free[i] == ledger.free[i - 1]);
                }
            }
        },
        Node::Waiting(_) => {},
    }
}

/// A ledger with the same keys is as well kept.
proof fn lemma_same_keys<T>(a: Ledger<T>, b: Ledger<T>)
    requires
        well_kept(a),
        keys(b.roster) == keys(a.roster),
        b.roster.len() == a.roster.len(),
        b.free == a.free,
        b.slots == a.slots,
    ensures
        well_kept(b),
{
    assert forall|i: int| 0 <= i < b.roster.len() implies 0 < (#[trigger] b.roster[i]).0
        < b.slots by {
        assert(keys(b.roster)[i] == b.roster[i].0);
        assert(keys(a.roster)[i] == a.roster[i].0);
        assert(0 < a.roster[i].0 < a.slots);
    }
    assert forall|i: int| 0 <= i < b.free.len() implies 0 < #[trigger] b.free[i] < b.slots
        && !has_key(b.roster, b.free[i]) by {
        if has_key(b.roster, b.free[i]) {
            let p = position(b.roster, b.free[i]);
            assert(keys(b.roster)[p] == b.roster[p].0);
            assert(keys(a.roster)[p] == a.roster[p].0);
            assert(is_at(a.roster, b.free[i], p));
        }
    }
}

/// Whatever was put off, a listener whose removal was not is still there when
/// the list is unlocked.
pub proof fn known_listener_survives<T>(
    nodes: Seq<Node<T>>,
    ledger: Ledger<T>,
    listener: Listener,
)
    requires
        sound(nodes, ledger),
        well_kept(ledger),
        ledger.slots + nodes.len() <= usize::MAX,
        is_known(nodes, ledger, listener),
    ensures
        is_known(Seq::empty(), run(nodes, ledger), listener),
        well_kept(run(nodes, ledger)),
    decreases nodes.len(),
{
    if nodes.len() == 0 {
        assert(nodes =~= Seq::empty());
    } else {
        lemma_known_step(nodes, ledger, listener);
        lemma_sound_rest(nodes, ledger);
        lemma_well_kept(nodes[0], ledger);
        known_listener_survives(nodes.drop_first(), nodes[0].applied(ledger), listener);
    }
}

/// A listener that was put off, and not cancelled meanwhile, has an entry when
/// the list is unlocked.
pub proof fn put_off_listener_is_added<T>(
    nodes: Seq<Node<T>>,
    ledger: Ledger<T>,
    ticket: u64,
    at: int,
)
    requires
        sound(nodes, ledger),
        well_kept(ledger),
        ledger.slots + nodes.len() <= usize::MAX,
        0 <= at < nodes.len(),
        nodes[at] == (Node::<T>::AddListener { ticket }),
        ledger.waiting[ticket].entry == 0,
    ensures
        run(nodes, ledger).waiting.contains_key(ticket),
        0 < run(nodes, ledger).waiting[ticket].entry < usize::MAX,
        has_key(run(nodes, ledger).roster, run(nodes, ledger).waiting[ticket].entry),
    decreases nodes.len(),
{
    let listener = Listener::Queued(ticket);
    assert(nodes[at].ready(ledger));
    lemma_known_step(nodes, ledger, listener);
    lemma_sound_rest(nodes, ledger);
    lemma_well_kept(nodes[0], ledger);
    let rest = nodes.drop_first();
    let after = nodes[0].applied(ledger);
    if at == 0 {
        lemma_fresh_key(ledger);
        lemma_entry_stays(rest, after, ticket);
        known_listener_survives(rest, after, listener);
    } else {
        assert(!collide(nodes[0], nodes[at]));
        assert(rest[at - 1] == nodes[at]);
        put_off_listener_is_added(rest, after, ticket, at - 1);
    }
}

/// What a listener has been told does not change any more.
proof fn lemma_entry_stays<T>(nodes: Seq<Node<T>>, ledger: Ledger<T>, ticket: u64)
    requires
        sound(nodes, ledger),
        ledger.waiting.contains_key(ticket),
        0 < ledger.waiting[ticket].entry < usize::MAX,
    ensures
        run(nodes, ledger).waiting.contains_key(ticket),
        run(nodes, ledger).waiting[ticket] == ledger.waiting[ticket],
    decreases nodes.len(),
{
    if nodes.len() > 0 {
        lemma_sound_rest(nodes, ledger);
        lemma_entry_stays(nodes.drop_first(), nodes[0].applied(ledger), ticket);
    }
}

/// The ledger with nothing kept for a ticket.
pub open spec fn forgotten<T>(ledger: Ledger<T>, ticket: u64) -> Ledger<T> {
    Ledger { waiting: ledger.waiting.remove(ticket), ..ledger }
}

/// A listener that was put off and then cancelled is not added: the operations
/// lead to the same, and wake the same tasks at once, as without its request, but
/// that nothing is kept of it any more. With no task waiting for it, as after its
/// cancellation, the same tasks are woken by unlocking too.
pub proof fn cancelled_listener_is_never_added<T>(
    nodes: Seq<Node<T>>,
    ledger: Ledger<T>,
    ticket: u64,
    at: int,
)
    requires
        sound(nodes, ledger),
        0 <= at < nodes.len(),
        nodes[at] == (Node::<T>::AddListener { ticket }),
        ledger.waiting[ticket].entry == usize::MAX,
    ensures
        run(nodes, ledger) == forgotten(run(nodes.remove(at), ledger), ticket),
        run_tells(nodes, ledger) == run_tells(nodes.remove(at), ledger),
        ledger.waiting[ticket].task is None ==> run_wakes(nodes, ledger) == run_wakes(
            nodes.remove(at),
            ledger,
        ),
    decreases nodes.len(),
{
    lemma_sound_rest(nodes, ledger);
    let rest = nodes.drop_first();
    let after = nodes[0].applied(ledger);
    let others = nodes.remove(at);
    if at == 0 {
        assert(others =~= rest);
        assert(run_tells(nodes, ledger) =~= run_tells(rest, after));
        assert forall|i: int| 0 <= i < rest.len() implies !adds(#[trigger] rest[i], ticket) by {
            assert(!collide(nodes[0], nodes[i + 1]));
        }
        lemma_forgotten(rest, ledger, ticket);
    } else {
        assert(!collide(nodes[0], nodes[at]));
        assert(rest[at - 1] == nodes[at]);
        assert(others.drop_first() =~= rest.remove(at - 1));
        assert(others[0] == nodes[0]);
        assert(nodes[at].ready(ledger));
        assert(after.waiting[ticket] == ledger.waiting[ticket]);
        cancelled_listener_is_never_added(rest, after, ticket, at - 1);
    }
}

/// The operation is the request to add the listener with the given ticket.
spec fn adds<T>(node: Node<T>, ticket: u64) -> bool {
    node matches Node::AddListener { ticket: t } && t == ticket
}

/// What is kept for a ticket makes no difference to operations that are not
/// about it.
proof fn lemma_forgotten<T>(nodes: Seq<Node<T>>, ledger: Ledger<T>, ticket: u64)
    requires
        forall|i: int| 0 <= i < nodes.len() ==> !adds(#[trigger] nodes[i], ticket),
    ensures
        run(nodes, forgotten(ledger, ticket)) == forgotten(run(nodes, ledger), ticket),
        run_wakes(nodes, forgotten(ledger, ticket)) == run_wakes(nodes, ledger),
        run_tells(nodes, forgotten(ledger, ticket)) == run_tells(nodes, ledger),
    decreases nodes.len(),
{
    if nodes.len() > 0 {
        let less = forgotten(ledger, ticket);
        let rest = nodes.drop_first();
        assert(!adds(nodes[0], ticket));
        assert forall|i: int| 0 <= i < rest.len() implies !adds(#[trigger] rest[i], ticket) by {
            assert(!adds(nodes[i + 1], ticket));
        }
        assert(nodes[0].applied(less) =~= forgotten(nodes[0].applied(ledger), ticket)) by {
            match nodes[0] {
                Node::AddListener { ticket: other } => {
                    assert(less.waiting[other] == ledger.waiting[other]);
                    assert(nodes[0].applied(less).waiting =~= forgotten(
                        nodes[0].applied(ledger),
                        ticket,
                    ).waiting);
                },
                _ => {},
            }
        }
        assert(nodes[0].wakes(less) == nodes[0].wakes(ledger));
        assert(nodes[0].tells(less) == nodes[0].tells(ledger));
        lemma_forgotten(rest, nodes[0].applied(ledger), ticket);
    }
}

/// An operation that was put off has the same effect as one that is carried out
/// after all that were put off before it.
pub proof fn put_off_is_carried_out_in_order<T>(
    nodes: Seq<Node<T>>,
    node: Node<T>,
    ledger: Ledger<T>,
)
    ensures
        run(nodes.push(node), ledger) == node.applied(run(nodes, ledger)),
    decreases nodes.len(),
{
    let all = nodes.push(node);
    if nodes.len() == 0 {
        assert(all.drop_first() =~= Seq::empty());
        assert(run(all.drop_first(), node.applied(ledger)) == node.applied(ledger));
    } else {
        assert(all.drop_first() =~= nodes.drop_first().push(node));
        put_off_is_carried_out_in_order(nodes.drop_first(), node, nodes[0].applied(ledger));
    }
}

/// What a notification that was put off comes to when it is carried out. A plain
/// one leaves as many notified as it asks for, if there are so many and not more
/// are already. An additional one notifies as many more as it asks for, or all.
/// Whoever is reached learns the kind and receives the next tag, whoever stands
/// before them is notified too, and nobody else is touched. The tasks of just
/// those who are reached are woken, and nothing else changes.
pub proof fn put_off_notification_comes_to<T>(
    ledger: Ledger<T>,
    notify: GenericNotify<VecProducer<T>>,
)
    requires
        notify.count <= notify.tags.tags@.len(),
    ensures
        ({
            let node = Node::Notify(notify);
            let before = ledger.roster;
            let after = node.applied(ledger).roster;
            let told = notified_count(before);
            let all = before.len() as int;
            &&& after.len() == before.len()
            &&& keys(after) == keys(before)
            &&& !notify.additional && notify.count <= told ==> after == before
            &&& !notify.additional && told < notify.count ==> notified_count(after)
                == if notify.count <= all {
                notify.count as int
            } else {
                all
            }
            &&& notify.additional ==> notified_count(after) == if told + notify.count <= all {
                told + notify.count
            } else {
                all
            }
            &&& forall|i: int|
                0 <= i < before.len() ==> (#[trigger] after[i] == before[i] || !before[i].1.notified()
                    && after[i].1 == (State::Notified {
                    additional: notify.additional,
                    tag: notify.tags.tags@[pending_before(before, i) as int],
                }))
            &&& forall|i: int, j: int|
                0 <= i < j < before.len() && !before[j].1.notified()
                    && (#[trigger] after[j]).1.notified() ==> (#[trigger] after[i]).1.notified()
            &&& node.tells(ledger) == told_tasks(before, after, all)
            &&& node.wakes(ledger) is None
            &&& node.applied(ledger).free == ledger.free
            &&& node.applied(ledger).slots == ledger.slots
            &&& node.applied(ledger).waiting == ledger.waiting
        }),
{
    let before = ledger.roster;
    let n = granted(before, notify.count, notify.additional);
    let tags = notify.tags.tags@.take(n as int);
    let after = Node::Notify(notify).applied(ledger).roster;
    lemma_pending_monotonic(before, 0, before.len() as int);
    lemma_notified(before, notify.additional, tags);
    assert(keys(after) =~= keys(before));
    if n == 0 {
        assert(after =~= before);
    }
    assert forall|i: int, j: int|
        0 <= i < j < before.len() && !before[j].1.notified()
            && (#[trigger] after[j]).1.notified() implies (#[trigger] after[i]).1.notified() by {
        lemma_pending_monotonic(before, i, j);
    }
    lemma_told(before, after, n, before.len() as int);
}

/// A listener that was put off, and not cancelled, stands behind all others when
/// it is added, with no notification. It is told its key, its task is woken once
/// the list is unlocked, and nobody else is touched. A cancelled one is not added.
pub proof fn put_off_listener_comes_last<T>(ledger: Ledger<T>, ticket: u64)
    requires
        ledger.waiting.contains_key(ticket),
    ensures
        ({
            let node = Node::<T>::AddListener { ticket };
            let after = node.applied(ledger);
            &&& node.wakes(ledger) == ledger.waiting[ticket].task
            &&& node.tells(ledger).len() == 0
            &&& forall|other: u64|
                other != ticket && ledger.waiting.contains_key(other)
                    ==> #[trigger] after.waiting.contains_key(other) && after.waiting[other]
                    == ledger.waiting[other]
            &&& ledger.waiting[ticket].entry == usize::MAX ==> after.roster == ledger.roster
                && after.free == ledger.free && !after.waiting.contains_key(ticket)
            &&& ledger.waiting[ticket].entry != usize::MAX ==> {
                &&& after.roster.len() == ledger.roster.len() + 1
                &&& after.roster.drop_last() == ledger.roster
                &&& after.roster.last().1 is Created
                &&& after.waiting.contains_key(ticket)
                &&& after.waiting[ticket].entry == after.roster.last().0
                &&& after.waiting[ticket].task is None
            }
        }),
{
    let after = Node::<T>::AddListener { ticket }.applied(ledger);
    if ledger.waiting[ticket].entry != usize::MAX {
        assert(after.roster.drop_last() =~= ledger.roster);
    }
}

/// A removal that was put off takes the listener away, and the others stay as
/// they are and in their order. If the listener had a notification that is to be
/// passed on, the first one without gets it, tag included: always if it was an
/// additional one, and otherwise if no other listener is notified. Just the task
/// of that one is woken. The slot is the first to be used again.
pub proof fn put_off_removal_comes_to<T>(ledger: Ledger<T>, key: usize, propagate: bool)
    requires
        has_key(ledger.roster, key),
        keys(ledger.roster).no_duplicates(),
    ensures
        ({
            let node = Node::<T>::RemoveListener { listener: key, propagate };
            let rest = ledger.roster.remove(position(ledger.roster, key));
            let after = node.applied(ledger).roster;
            let state = state_of(ledger.roster, key);
            let at = first_pending(rest);
            &&& !has_key(after, key)
            &&& after.len() == ledger.roster.len() - 1
            &&& keys(after) == keys(rest)
            &&& !propagate || !(state is Notified) ==> after == rest
            &&& propagate && state is Notified && pending_count(rest) > 0 && (state->additional
                || notified_count(rest) == 0) ==> 0 <= at < rest.len() && after == rest.update(
                at,
                (rest[at].0, State::Notified { additional: state->additional, tag: state->tag }),
            )
            &&& propagate && state is Notified && (pending_count(rest) == 0 || !state->additional
                && notified_count(rest) > 0) ==> after == rest
            &&& node.tells(ledger) == told_tasks(rest, after, rest.len() as int)
            &&& node.wakes(ledger) is None
            &&& node.applied(ledger).next_key() == key
            &&& node.applied(ledger).slots == ledger.slots
            &&& node.applied(ledger).waiting == ledger.waiting
        }),
{
    let r = ledger.roster;
    let rest = without(r, key);
    without_keeps_the_order(r, key);
    exactly_the_told_are_woken_by_removal(r, key, propagate);
    if state_of(r, key) is Notified {
        dropped_notification_is_passed_on(r, key);
    }
    assert(keys(removed(r, key, propagate)) =~= keys(rest));
    assert forall|i: int| 0 <= i < rest.len() implies #[trigger] removed(r, key, propagate)[i].0
        == rest[i].0 by {}
    if has_key(removed(r, key, propagate), key) {
        let i = position(removed(r, key, propagate), key);
        assert(is_at(rest, key, i));
    }
}

/// A task that waits for the list to be unlocked is woken by that, and changes
/// nothing.
pub proof fn waiting_for_the_list_changes_nothing<T>(ledger: Ledger<T>, task: Task)
    ensures
        Node::<T>::Waiting(task).applied(ledger) == ledger,
        Node::<T>::Waiting(task).wakes(ledger) == Some(task),
        Node::<T>::Waiting(task).tells(ledger).len() == 0,
{
}

/// The tasks that an operation wakes come after those of the operations that were
/// put off before it.
pub proof fn put_off_operations_wake_in_order<T>(
    nodes: Seq<Node<T>>,
    node: Node<T>,
    ledger: Ledger<T>,
)
    ensures
        run_tells(nodes.push(node), ledger) == run_tells(nodes, ledger) + node.tells(
            run(nodes, ledger),
        ),
        run_wakes(nodes.push(node), ledger) == run_wakes(nodes, ledger) + (match node.wakes(
            run(nodes, ledger),
        ) {
            Some(task) => seq![task],
            None => Seq::empty(),
        }),
    decreases nodes.len(),
{
    let all = nodes.push(node);
    if nodes.len() == 0 {
        assert(all.drop_first() =~= Seq::empty());
        assert(run_tells(all.drop_first(), node.applied(ledger)) =~= Seq::empty());
        assert(run_wakes(all.drop_first(), node.applied(ledger)) =~= Seq::empty());
    } else {
        assert(all.drop_first() =~= nodes.drop_first().push(node));
        put_off_operations_wake_in_order(nodes.drop_first(), node, nodes[0].applied(ledger));
    }
    assert(run_tells(all, ledger) =~= run_tells(nodes, ledger) + node.tells(run(nodes, ledger)));
    assert(run_wakes(all, ledger) =~= run_wakes(nodes, ledger) + (match node.wakes(
        run(nodes, ledger),
    ) {
        Some(task) => seq![task],
        None => Seq::empty(),
    }));
}

/// The state of a removed listener comes back, unless its notification was passed
/// on: then it comes back as notified, without the tag.
pub proof fn removed_state_comes_back<T>(state: State<T>, propagate: bool)
    ensures
        !propagate ==> left_of(state, propagate) == state,
        !(state is Notified) ==> left_of(state, propagate) == state,
        left_of(state, propagate).notified() == state.notified(),
        propagate ==> !(left_of(state, propagate) is Notified),
{
}

/// A listener has a key exactly if it was told one: not while it is queued, and
/// not once it is cancelled.
pub proof fn key_is_known_once_told(w: Wait, key: usize)
    requires
        0 < key < usize::MAX,
    ensures
        entry_in(told(w, key).entry) == Some(key),
        entry_in(told(w, 0).entry) is None,
        entry_in(told(w, usize::MAX).entry) is None,
        told(w, key).task == w.task,
{
}

/// Whoever waits for a listener to be added is the one that is woken when the
/// listener is cancelled, and a listener with an entry has nobody waiting for
/// that.
pub proof fn waiter_is_who_waits<T>(ledger: Ledger<T>, ticket: u64, key: usize)
    ensures
        waiter_of(ledger, Listener::HasNode(key)).len() == 0,
        ledger.waiting[ticket].task is None ==> waiter_of(
            ledger,
            Listener::Queued(ticket),
        ).len() == 0,
        ledger.waiting[ticket].task matches Some(task) ==> waiter_of(
            ledger,
            Listener::Queued(ticket),
        ) == seq![task],
{
}

/// A listener that was put off and knows its key by now is not waited for any
/// more. Its key is what it was told, everybody else who waits still does, and the
/// list stays as it is.
pub proof fn key_is_asked_for_once<T>(ledger: Ledger<T>, ticket: u64, key: usize)
    ensures
        ({
            let after = resolved(ledger, Listener::Queued(ticket));
            &&& !after.waiting.contains_key(ticket)
            &&& forall|other: u64|
                other != ticket && ledger.waiting.contains_key(other)
                    ==> #[trigger] after.waiting.contains_key(other) && after.waiting[other]
                    == ledger.waiting[other]
            &&& after.roster == ledger.roster
            &&& after.free == ledger.free
            &&& after.slots == ledger.slots
        }),
        resolved(ledger, Listener::HasNode(key)) == ledger,
        entry_of(ledger, Listener::HasNode(key)) == key,
        entry_of(ledger, Listener::Queued(ticket)) == ledger.waiting[ticket].entry,
{
}

} // verus!
