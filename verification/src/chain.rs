//! Doubly linked lists over numbered slots.
//!
//! Several listener lists in this crate keep their entries in numbered slots and
//! thread a doubly linked list through them. This module says what it means for
//! such links to form a list, and what linking and unlinking do to it.

use vstd::prelude::*;

verus! {

/// The two neighbours of an entry.
#[derive(Clone, Copy, Debug, PartialEq, Eq)]
pub struct Links {
    /// The slot of the entry before.
    pub prev: Option<usize>,
    /// The slot of the entry after.
    pub next: Option<usize>,
}

/// The key at position `i`, if there is one.
pub open spec fn key_at(order: Seq<usize>, i: int) -> Option<usize> {
    if 0 <= i < order.len() {
        Some(order[i])
    } else {
        None
    }
}

/// The entry at position `i` is linked to those before and after it.
pub open spec fn linked_at(order: Seq<usize>, links: Map<usize, Links>, i: int) -> bool {
    links[order[i]] == (Links { prev: key_at(order, i - 1), next: key_at(order, i + 1) })
}

/// `links` threads the keys of `order`, first to last, into one list, which
/// starts at `head` and ends at `tail`.
pub open spec fn is_chain(
    order: Seq<usize>,
    links: Map<usize, Links>,
    head: Option<usize>,
    tail: Option<usize>,
) -> bool {
    &&& order.no_duplicates()
    &&& links.dom() == order.to_set()
    &&& forall|i: int| 0 <= i < order.len() ==> #[trigger] linked_at(order, links, i)
    &&& head == key_at(order, 0)
    &&& tail == key_at(order, order.len() - 1)
}

/// `links` with the successor of `key` replaced, where `key` is an entry.
pub open spec fn with_next(
    links: Map<usize, Links>,
    key: Option<usize>,
    next: Option<usize>,
) -> Map<usize, Links> {
    match key {
        Some(k) => links.insert(k, Links { prev: links[k].prev, next }),
        None => links,
    }
}

/// `links` with the predecessor of `key` replaced, where `key` is an entry.
pub open spec fn with_prev(
    links: Map<usize, Links>,
    key: Option<usize>,
    prev: Option<usize>,
) -> Map<usize, Links> {
    match key {
        Some(k) => links.insert(k, Links { prev, next: links[k].next }),
        None => links,
    }
}

/// `links` with `key` linked in behind `tail`.
pub open spec fn linked_back(
    links: Map<usize, Links>,
    tail: Option<usize>,
    key: usize,
) -> Map<usize, Links> {
    with_next(links, tail, Some(key)).insert(key, Links { prev: tail, next: None })
}

/// `links` with `key` linked in before `head`.
pub open spec fn linked_front(
    links: Map<usize, Links>,
    head: Option<usize>,
    key: usize,
) -> Map<usize, Links> {
    with_prev(links, head, Some(key)).insert(key, Links { prev: None, next: head })
}

/// `links` with `key` taken out and its neighbours joined.
pub open spec fn unlinked(links: Map<usize, Links>, key: usize) -> Map<usize, Links> {
    with_prev(
        with_next(links, links[key].prev, links[key].next),
        links[key].next,
        links[key].prev,
    ).remove(key)
}

/// Linking a new key in behind the last one appends it.
pub proof fn lemma_link_back(
    order: Seq<usize>,
    links: Map<usize, Links>,
    head: Option<usize>,
    tail: Option<usize>,
    key: usize,
)
    requires
        is_chain(order, links, head, tail),
        !links.contains_key(key),
    ensures
        is_chain(
            order.push(key),
            linked_back(links, tail, key),
            if head is None { Some(key) } else { head },
            Some(key),
        ),
{
    let grown = order.push(key);
    let after = linked_back(links, tail, key);
    assert forall|i: int| 0 <= i < order.len() implies order[i] != key by {
        assert(order.to_set().contains(order[i]));
    }
    assert forall|k: usize| after.dom().contains(k) == grown.to_set().contains(k) by {
        if grown.to_set().contains(k) {
            let i = choose|i: int| 0 <= i < grown.len() && grown[i] == k;
            if i < order.len() {
                assert(order.to_set().contains(order[i]));
            }
        }
        if order.to_set().contains(k) {
            let i = choose|i: int| 0 <= i < order.len() && order[i] == k;
            assert(grown[i] == k);
        }
        assert(grown[order.len() as int] == key);
        if order.len() > 0 {
            assert(order.to_set().contains(order[order.len() - 1]));
        }
    }
    assert(after.dom() =~= grown.to_set());
    assert forall|i: int| 0 <= i < grown.len() implies #[trigger] linked_at(grown, after, i) by {
        if i < order.len() {
            assert(linked_at(order, links, i));
        }
    }
}

/// Linking a new key in before the first one prepends it.
pub proof fn lemma_link_front(
    order: Seq<usize>,
    links: Map<usize, Links>,
    head: Option<usize>,
    tail: Option<usize>,
    key: usize,
)
    requires
        is_chain(order, links, head, tail),
        !links.contains_key(key),
    ensures
        is_chain(
            order.insert(0, key),
            linked_front(links, head, key),
            Some(key),
            if tail is None { Some(key) } else { tail },
        ),
{
    let grown = order.insert(0, key);
    let after = linked_front(links, head, key);
    assert forall|i: int| 0 <= i < order.len() implies order[i] != key by {
        assert(order.to_set().contains(order[i]));
    }
    assert forall|k: usize| after.dom().contains(k) == grown.to_set().contains(k) by {
        if grown.to_set().contains(k) {
            let i = choose|i: int| 0 <= i < grown.len() && grown[i] == k;
            if i > 0 {
                assert(order.to_set().contains(order[i - 1]));
            }
        }
        if order.to_set().contains(k) {
            let i = choose|i: int| 0 <= i < order.len() && order[i] == k;
            assert(grown[i + 1] == k);
        }
        assert(grown[0] == key);
        if order.len() > 0 {
            assert(order.to_set().contains(order[0]));
        }
    }
    assert(after.dom() =~= grown.to_set());
    assert forall|i: int| 0 <= i < grown.len() implies #[trigger] linked_at(grown, after, i) by {
        if i > 0 {
            assert(linked_at(order, links, i - 1));
        }
    }
}

/// Joining the neighbours of the key at position `i` takes it out of the list.
pub proof fn lemma_unlink(
    order: Seq<usize>,
    links: Map<usize, Links>,
    head: Option<usize>,
    tail: Option<usize>,
    i: int,
)
    requires
        is_chain(order, links, head, tail),
        0 <= i < order.len(),
    ensures
        is_chain(
            order.remove(i),
            unlinked(links, order[i]),
            if links[order[i]].prev is None { links[order[i]].next } else { head },
            if links[order[i]].next is None { links[order[i]].prev } else { tail },
        ),
{
    let key = order[i];
    let rest = order.remove(i);
    let after = unlinked(links, key);
    assert(after.dom() =~= rest.to_set()) by {
        lemma_unlink_dom(order, links, head, tail, i);
    }
    assert(linked_at(order, links, i));
    assert forall|j: int| 0 <= j < rest.len() implies #[trigger] linked_at(rest, after, j) by {
        let o = if j < i { j } else { j + 1 };
        assert(rest[j] == order[o]);
        assert(linked_at(order, links, o));
    }
}

proof fn lemma_unlink_dom(
    order: Seq<usize>,
    links: Map<usize, Links>,
    head: Option<usize>,
    tail: Option<usize>,
    i: int,
)
    requires
        is_chain(order, links, head, tail),
        0 <= i < order.len(),
    ensures
        unlinked(links, order[i]).dom() == order.remove(i).to_set(),
{
    let key = order[i];
    let rest = order.remove(i);
    let after = unlinked(links, key);
    assert(linked_at(order, links, i));
    if i > 0 {
        assert(order.to_set().contains(order[i - 1]));
    }
    if i + 1 < order.len() {
        assert(order.to_set().contains(order[i + 1]));
    }
    assert(after.dom() =~= links.dom().remove(key));
    assert forall|k: usize| rest.to_set().contains(k) implies links.dom().remove(key).contains(k) by {
        let j = choose|j: int| 0 <= j < rest.len() && rest[j] == k;
        let o = if j < i { j } else { j + 1 };
        assert(order[o] == k);
        assert(order.to_set().contains(k));
    }
    assert forall|k: usize| links.dom().remove(key).contains(k) implies rest.to_set().contains(k) by {
        let j = choose|j: int| 0 <= j < order.len() && order[j] == k;
        let r = if j < i { j } else { j - 1 };
        assert(rest[r] == k);
    }
    assert(after.dom() =~= rest.to_set());
}

} // verus!
