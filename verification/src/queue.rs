//! The queue of operations that were put off, with its two ends kept apart in
//! memory.

use crate::util::replace;
use crossbeam_utils::CachePadded;
use vstd::prelude::*;

verus! {

/// A value that `crossbeam_utils` pads to the length of a cache line.
#[verifier::external_type_specification]
#[verifier::external_body]
#[verifier::reject_recursive_types(T)]
pub struct ExCachePadded<T>(crossbeam_utils::CachePadded<T>);

/// The place that is padded.
pub uninterp spec fn inside(place: crossbeam_utils::CachePadded<Option<usize>>) -> Option<usize>;

/// Pads a place, by `CachePadded::new`.
#[verifier::external_body]
fn pad(place: Option<usize>) -> (padded: CachePadded<Option<usize>>)
    ensures
        inside(padded) == place,
{
    CachePadded::new(place)
}

/// The place that is padded, by `CachePadded`'s `deref`.
#[verifier::external_body]
fn look(place: &CachePadded<Option<usize>>) -> (found: Option<usize>)
    ensures
        found == inside(*place),
{
    **place
}

/// The place that is padded, to be changed, by `CachePadded`'s `deref_mut`.
#[verifier::external_body]
fn open(place: &mut CachePadded<Option<usize>>) -> (found: &mut Option<usize>)
    ensures
        *found == inside(*old(place)),
        inside(*final(place)) == *final(found),
{
    &mut **place
}

/// Writes `new` if the place is `current`. Returns what the place was.
fn compare_exchange(place: &mut Option<usize>, current: Option<usize>, new: Option<usize>) -> (
previous: Option<usize>)
    ensures
        previous == *old(place),
        *final(place) == if previous == current { new } else { previous },
{
    let previous = *place;
    if previous == current {
        *place = new;
    }
    previous
}

/// A node with the place of the node behind it.
struct QueueNode<N> {
    next: Option<usize>,
    node: N,
}

/// A queue of nodes.
pub struct Queue<N> {
    nodes: Vec<Option<QueueNode<N>>>,
    head: CachePadded<Option<usize>>,
    tail: CachePadded<Option<usize>>,
}

impl<N> View for Queue<N> {
    type V = Seq<N>;

    closed spec fn view(&self) -> Seq<N> {
        Seq::new((self.nodes@.len() - self.first()) as nat, |i: int| self.at(self.first() + i).node)
    }
}

impl<N> Queue<N> {
    spec fn first(&self) -> int {
        match inside(self.head) {
            Some(place) => place as int,
            None => self.nodes@.len() as int,
        }
    }

    spec fn at(&self, i: int) -> QueueNode<N> {
        self.nodes@[i]->0
    }

    /// From the first node on, each leads to the one behind it.
    pub closed spec fn wf(&self) -> bool {
        let len = self.nodes@.len() as int;
        &&& inside(self.head) is None <==> len == 0
        &&& inside(self.tail) == if len == 0 { None } else { Some((len - 1) as usize) }
        &&& len > 0 ==> self.first() < len
        &&& forall|i: int|
            self.first() <= i < len ==> (#[trigger] self.nodes@[i]) is Some && self.at(i).next
                == if i + 1 < len { Some((i + 1) as usize) } else { None }
    }

    /// Creates an empty queue.
    pub fn new() -> (queue: Self)
        ensures
            queue.wf(),
            queue@ == Seq::<N>::empty(),
    {
        let queue = Queue { nodes: Vec::new(), head: pad(None), tail: pad(None) };
        proof {
            assert(queue@ =~= Seq::<N>::empty());
        }
        queue
    }

    /// Puts a node behind all others.
    pub fn push(&mut self, node: N)
        requires
            old(self).wf(),
        ensures
            final(self).wf(),
            final(self)@ == old(self)@.push(node),
    {
        let ghost before = *self;
        let place = self.nodes.len();
        self.nodes.push(Some(QueueNode { next: None, node }));
        let tail = look(&self.tail);
        let next = match tail {
            None => compare_exchange(open(&mut self.head), None, Some(place)),
            Some(last) => match &mut self.nodes[last] {
                Some(link) => compare_exchange(&mut link.next, None, Some(place)),
                None => vstd::pervasive::unreached(),
            },
        };
        if next.is_none() {
            compare_exchange(open(&mut self.tail), tail, Some(place));
        }
        proof {
            assert(next is None);
            assert(self.nodes@[place as int] is Some);
            assert(self@ =~= before@.push(node));
        }
    }

    /// Takes the oldest node out.
    pub fn pop(&mut self) -> (node: Option<N>)
        requires
            old(self).wf(),
        ensures
            final(self).wf(),
            old(self)@.len() == 0 ==> node is None && final(self)@ == old(self)@,
            old(self)@.len() > 0 ==> node == Some(old(self)@[0]) && final(self)@ == old(
                self,
            )@.drop_first(),
    {
        let ghost before = *self;
        let place = match look(&self.head) {
            Some(place) => place,
            None => {
                return None;
            },
        };
        match replace(&mut self.nodes[place], None) {
            Some(link) => {
                compare_exchange(open(&mut self.head), Some(place), link.next);
                if link.next.is_none() {
                    compare_exchange(open(&mut self.tail), Some(place), None);
                    self.nodes.clear();
                }
                proof {
                    let h = place as int;
                    assert(before.nodes@[h] is Some && before.at(h) == link);
                    assert(before.nodes.len() == before.nodes@.len());
                    assert(self@.len() == before@.len() - 1);
                    assert forall|i: int| 0 <= i < self@.len() implies self@[i]
                        == before@.drop_first()[i] by {
                        assert(self.nodes@[h + 1 + i] == before.nodes@[h + 1 + i]);
                    }
                    assert(self@ =~= before@.drop_first());
                }
                Some(link.node)
            },
            None => vstd::pervasive::unreached(),
        }
    }
}

} // verus!
