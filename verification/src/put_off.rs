//! What holds of operations that are put off while the list is locked.

use crate::inner::{run, run_tells, run_wakes};
use crate::laws::dropped_notification_is_passed_on;
use crate::node::{Ledger, Node, Wait};
use crate::roster::{
    first_pending, has_key, is_at, keys, lemma_pending_monotonic, notified_count, pending_count,
    position, removed, state_of, without, Roster,
};
use crate::state::State;
use crate::task::{listed, Task};
use crate::wakeups::{
    exactly_the_told_are_woken_by_removal, exactly_the_told_are_woken_untagged,
    notification_comes_to, told_tasks, without_keeps_the_order,
};
use vstd::prelude::*;

verus! {

/// What a notification that was put off comes to when it is carried out. A plain
/// one leaves as many notified as it asks for, if there are so many and not more
/// are already. An additional one notifies as many more as it asks for, or all.
/// Whoever is reached learns the kind that was asked for, whoever stands before
/// them is notified too, and nobody else is touched. The tasks of just those who
/// are reached are woken, and nothing else changes.
pub proof fn put_off_notification_comes_to(ledger: Ledger, count: usize, additional: bool)
    ensures
        ({
            let node = Node::Notify { count, additional };
            let before = ledger.roster;
            let after = node.applied(ledger).roster;
            let told = notified_count(before);
            let all = before.len() as int;
            &&& after.len() == before.len()
            &&& keys(after) == keys(before)
            &&& !additional && count <= told ==> after == before
            &&& !additional && told < count ==> notified_count(after) == if count <= all {
                count as int
            } else {
                all
            }
            &&& additional ==> notified_count(after) == if told + count <= all {
                told + count
            } else {
                all
            }
            &&& forall|i: int|
                0 <= i < before.len() ==> (#[trigger] after[i] == before[i] || !before[i].1.notified()
                    && after[i].1 == (State::Notified { additional, tag: () }))
            &&& forall|i: int, j: int|
                0 <= i < j < before.len() && !before[j].1.notified()
                    && (#[trigger] after[j]).1.notified() ==> (#[trigger] after[i]).1.notified()
            &&& node.tells(ledger) == told_tasks(before, after, all)
            &&& node.wakes(ledger) is None
            &&& node.applied(ledger).free == ledger.free
            &&& node.applied(ledger).waiting == ledger.waiting
        }),
{
    notification_comes_to(ledger.roster, count, additional);
    exactly_the_told_are_woken_untagged(ledger.roster, count, additional);
}

/// Plain notifications that were put off do not add up: one that asks for no more
/// than an earlier one does nothing after it.
pub proof fn put_off_plain_notifications_do_not_add_up(ledger: Ledger, first: usize, second: usize)
    requires
        second <= first,
    ensures
        ({
            let one = Node::Notify { count: first, additional: false };
            let two = Node::Notify { count: second, additional: false };
            &&& run(seq![one, two], ledger).roster == run(seq![one], ledger).roster
            &&& run_tells(seq![one, two], ledger) == run_tells(seq![one], ledger)
        }),
{
    let one = Node::Notify { count: first, additional: false };
    let two = Node::Notify { count: second, additional: false };
    let between = one.applied(ledger);
    reveal_with_fuel(run, 3);
    reveal_with_fuel(run_tells, 3);
    assert(seq![one, two].drop_first() =~= seq![two]);
    assert(seq![two].drop_first() =~= Seq::empty());
    assert(seq![one].drop_first() =~= Seq::empty());
    put_off_notification_comes_to(ledger, first, false);
    put_off_notification_comes_to(between, second, false);
    lemma_pending_monotonic(between.roster, 0, between.roster.len() as int);
    if notified_count(between.roster) < second {
        assert(notified_count(between.roster) == between.roster.len());
        exactly_the_told_are_woken_untagged(between.roster, second, false);
        assert(two.applied(between).roster =~= between.roster);
    }
    lemma_nobody_told(between.roster, between.roster.len() as int);
    assert(two.tells(between) =~= Seq::empty());
    assert(run_tells(seq![one, two], ledger) =~= run_tells(seq![one], ledger));
}

proof fn lemma_nobody_told(r: Roster<()>, len: int)
    requires
        0 <= len <= r.len(),
    ensures
        told_tasks(r, r, len).len() == 0,
    decreases len,
{
    if len > 0 {
        lemma_nobody_told(r, len - 1);
    }
}

/// A listener that was put off stands behind all others when it is added, with no
/// notification. It is told its key, its task is woken once the list is unlocked,
/// and nobody else is touched.
pub proof fn put_off_listener_comes_last(ledger: Ledger, ticket: u64)
    requires
        ledger.waiting.contains_key(ticket),
    ensures
        ({
            let node = Node::AddListener { ticket };
            let after = node.applied(ledger);
            &&& after.roster.len() == ledger.roster.len() + 1
            &&& after.roster.drop_last() == ledger.roster
            &&& after.roster.last().1 is Created
            &&& after.waiting.contains_key(ticket)
            &&& after.waiting[ticket].entry == after.roster.last().0
            &&& after.waiting[ticket].task is None
            &&& node.wakes(ledger) == ledger.waiting[ticket].task
            &&& node.tells(ledger).len() == 0
            &&& forall|other: u64|
                other != ticket && ledger.waiting.contains_key(other)
                    ==> #[trigger] after.waiting.contains_key(other) && after.waiting[other]
                    == ledger.waiting[other]
        }),
{
    let after = (Node::AddListener { ticket }).applied(ledger);
    assert(after.roster.drop_last() =~= ledger.roster);
}

/// A removal that was put off takes the listener away, and the others stay as
/// they are and in their order. If the listener had a notification that is to be
/// passed on, the first one without gets it: always if it was an additional one,
/// and otherwise if no other listener is notified. Just the task of that one is
/// woken.
pub proof fn put_off_removal_comes_to(ledger: Ledger, key: usize, propagate: bool)
    requires
        has_key(ledger.roster, key),
        keys(ledger.roster).no_duplicates(),
    ensures
        ({
            let node = Node::RemoveListener { listener: key, propagate };
            let rest = ledger.roster.remove(position(ledger.roster, key));
            let after = node.applied(ledger).roster;
            let state = state_of(ledger.roster, key);
            let at = first_pending(rest);
            &&& !has_key(after, key)
            &&& after.len() == ledger.roster.len() - 1
            &&& keys(after) == keys(rest)
            &&& !propagate || !(state is Notified) ==> after == rest
            &&& propagate && state is Notified && pending_count(rest) > 0 && (state->additional
                || notified_count(rest) == 0) ==> 0 <= at < rest.len() && after == rest.update(
                at,
                (rest[at].0, State::Notified { additional: state->additional, tag: () }),
            )
            &&& propagate && state is Notified && (pending_count(rest) == 0 || !state->additional
                && notified_count(rest) > 0) ==> after == rest
            &&& node.tells(ledger) == told_tasks(rest, after, rest.len() as int)
            &&& node.wakes(ledger) is None
            &&& node.applied(ledger).waiting == ledger.waiting
            &&& node.applied(ledger).free.first() == key
            &&& node.applied(ledger).free.drop_first() == ledger.free
        }),
{
    let r = ledger.roster;
    assert((seq![key] + ledger.free).drop_first() =~= ledger.free);
    let rest = without(r, key);
    without_keeps_the_order(r, key);
    exactly_the_told_are_woken_by_removal(r, key, propagate);
    if state_of(r, key) is Notified {
        dropped_notification_is_passed_on(r, key);
    }
    assert(keys(removed(r, key, propagate)) =~= keys(rest));
    assert forall|i: int| 0 <= i < rest.len() implies #[trigger] removed(r, key, propagate)[i].0
        == rest[i].0 by {}
    if has_key(removed(r, key, propagate), key) {
        let i = position(removed(r, key, propagate), key);
        assert(is_at(rest, key, i));
    }
}

/// A task that waits for the list to be unlocked is woken by that, and changes
/// nothing.
pub proof fn waiting_for_the_list_changes_nothing(ledger: Ledger, task: Task)
    ensures
        Node::Waiting(task).applied(ledger) == ledger,
        Node::Waiting(task).wakes(ledger) == Some(task),
        Node::Waiting(task).tells(ledger).len() == 0,
{
}

/// Operations are carried out in the order in which they were put off: the last
/// one comes after what all the others have come to, and so do the tasks that it
/// wakes.
pub proof fn put_off_operations_keep_their_order(nodes: Seq<Node>, node: Node, ledger: Ledger)
    ensures
        run(nodes.push(node), ledger) == node.applied(run(nodes, ledger)),
        run_tells(nodes.push(node), ledger) == run_tells(nodes, ledger) + node.tells(
            run(nodes, ledger),
        ),
        run_wakes(nodes.push(node), ledger) == run_wakes(nodes, ledger) + (match node.wakes(
            run(nodes, ledger),
        ) {
            Some(task) => seq![task],
            None => Seq::empty(),
        }),
    decreases nodes.len(),
{
    let all = nodes.push(node);
    if nodes.len() == 0 {
        assert(all.drop_first() =~= Seq::empty());
        assert(run(all.drop_first(), node.applied(ledger)) == node.applied(ledger));
        assert(run_tells(all.drop_first(), node.applied(ledger)) =~= Seq::empty());
        assert(run_wakes(all.drop_first(), node.applied(ledger)) =~= Seq::empty());
    } else {
        assert(all.drop_first() =~= nodes.drop_first().push(node));
        put_off_operations_keep_their_order(nodes.drop_first(), node, nodes[0].applied(ledger));
    }
    assert(run_tells(all, ledger) =~= run_tells(nodes, ledger) + node.tells(run(nodes, ledger)));
    assert(run_wakes(all, ledger) =~= run_wakes(nodes, ledger) + (match node.wakes(
        run(nodes, ledger),
    ) {
        Some(task) => seq![task],
        None => Seq::empty(),
    }));
}

/// No task gets lost and none is doubled when a task begins to wait for a listener
/// to be added: what waited before and the new one are woken or wait. A task waits
/// on only as long as the listener is queued.
pub proof fn waiting_tasks_are_kept_or_woken(wait: Wait, task: Task)
    ensures
        wait.with_task(task).entry == wait.entry,
        wait.entry == 0 ==> wait.with_task(task).task == Some(task),
        wait.entry != 0 ==> wait.with_task(task).task is None,
        listed(wait.task).push(task) == wait.replaced_by(task) + listed(
            wait.with_task(task).task,
        ),
{
    assert(listed(wait.task).push(task) =~= wait.replaced_by(task) + listed(
        wait.with_task(task).task,
    ));
}

} // verus!
