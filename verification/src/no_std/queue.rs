//! A queue of operations to process.

use crate::util::replace;
use vstd::prelude::*;

verus! {

/// A node with the place of the node behind it.
struct Link<N> {
    node: N,
    next: Option<usize>,
}

/// A queue that is threaded through the places of its nodes.
pub struct Queue<N> {
    links: Vec<Option<Link<N>>>,
    head: Option<usize>,
    tail: Option<usize>,
}

/// Writes `new` if the place is `current`, and tells whether it was.
fn compare_exchange(place: &mut Option<usize>, current: Option<usize>, new: Option<usize>) -> (done:
    bool)
    ensures
        done == (*old(place) == current),
        *final(place) == if done { new } else { *old(place) },
{
    if *place == current {
        *place = new;
        true
    } else {
        false
    }
}

impl<N> View for Queue<N> {
    type V = Seq<N>;

    closed spec fn view(&self) -> Seq<N> {
        Seq::new((self.links@.len() - self.first()) as nat, |i: int| self.link(self.first() + i).node)
    }
}

impl<N> Queue<N> {
    spec fn first(&self) -> int {
        match self.head {
            Some(place) => place as int,
            None => self.links@.len() as int,
        }
    }

    spec fn link(&self, i: int) -> Link<N> {
        self.links@[i]->0
    }

    /// From the first node on, each leads to the one behind it.
    pub closed spec fn wf(&self) -> bool {
        let len = self.links@.len() as int;
        &&& self.head is None <==> len == 0
        &&& self.tail == if len == 0 { None } else { Some((len - 1) as usize) }
        &&& len > 0 ==> self.first() < len
        &&& forall|i: int|
            self.first() <= i < len ==> (#[trigger] self.links@[i]) is Some && self.link(i).next
                == if i + 1 < len { Some((i + 1) as usize) } else { None }
    }

    /// Creates an empty queue.
    pub fn new() -> (queue: Self)
        ensures
            queue.wf(),
            queue@ == Seq::<N>::empty(),
    {
        let queue = Queue { links: Vec::new(), head: None, tail: None };
        proof {
            assert(queue@ =~= Seq::<N>::empty());
        }
        queue
    }

    /// Puts a node behind all others.
    pub fn push(&mut self, node: N)
        requires
            old(self).wf(),
        ensures
            final(self).wf(),
            final(self)@ == old(self)@.push(node),
    {
        let ghost before = *self;
        let place = self.links.len();
        self.links.push(Some(Link { node, next: None }));
        let mut tail = self.tail;
        loop
            invariant
                before.wf(),
                before == *old(self),
                place == before.links@.len(),
                self.links@ == before.links@.push(Some(Link { node, next: None })),
                self.head == before.head,
                self.tail == before.tail,
                tail == before.tail,
            decreases 0int,
        {
            // With nobody else pushing, the first attempt succeeds.
            match tail {
                None => {
                    if compare_exchange(&mut self.head, None, Some(place)) {
                        self.tail = Some(place);
                        proof {
                            assert(self@ =~= before@.push(node));
                        }
                        return;
                    }
                    tail = self.tail;
                },
                Some(last) => {
                    let mut linked = false;
                    match &mut self.links[last] {
                        Some(link) => {
                            linked = compare_exchange(&mut link.next, None, Some(place));
                        },
                        None => {},
                    }
                    if linked {
                        self.tail = Some(place);
                        proof {
                            assert(self.links@[place as int] is Some);
                            assert(self@ =~= before@.push(node));
                        }
                        return;
                    }
                    tail = self.tail;
                },
            }
        }
    }

    /// Takes the first node out.
    pub fn pop(&mut self) -> (node: Option<N>)
        requires
            old(self).wf(),
        ensures
            final(self).wf(),
            old(self)@.len() == 0 ==> node is None && final(self)@ == old(self)@,
            old(self)@.len() > 0 ==> node == Some(old(self)@[0]) && final(self)@ == old(
                self,
            )@.drop_first(),
    {
        let ghost before = *self;
        let place = match self.head {
            Some(place) => place,
            None => {
                return None;
            },
        };
        match replace(&mut self.links[place], None) {
            Some(link) => {
                self.head = link.next;
                if link.next.is_none() {
                    self.tail = None;
                    self.links.clear();
                }
                proof {
                    let h = place as int;
                    assert(before.links@[h] is Some && before.link(h) == link);
                    assert(before.links.len() == before.links@.len());
                    assert(self@.len() == before@.len() - 1);
                    assert forall|i: int| 0 <= i < self@.len() implies self@[i]
                        == before@.drop_first()[i] by {
                        assert(self.links@[h + 1 + i] == before.links@[h + 1 + i]);
                    }
                    assert(self@ =~= before@.drop_first());
                }
                Some(link.node)
            },
            None => vstd::pervasive::unreached(),
        }
    }
}

} // verus!
