//! The indexes that are free to be used for listeners.

use vstd::prelude::*;

verus! {

/// An exclusive lock around some information.
pub struct Lock<T> {
    is_locked: bool,
    data: T,
}

impl<T> Lock<T> {
    /// Whether somebody is using the information.
    pub closed spec fn locked(&self) -> bool {
        self.is_locked
    }

    /// The information.
    pub closed spec fn data(&self) -> T {
        self.data
    }

    /// Creates a lock that nobody holds.
    pub fn new(data: T) -> (lock: Self)
        ensures
            !lock.locked(),
            lock.data() == data,
    {
        Lock { is_locked: false, data }
    }

    /// Takes the lock if nobody holds it, and tells whether it was taken.
    pub fn acquire(&mut self) -> (taken: bool)
        ensures
            taken == !old(self).locked(),
            final(self).locked(),
            final(self).data() == old(self).data(),
    {
        let taken = !self.is_locked;
        self.is_locked = true;
        taken
    }

    /// Gives the lock back.
    pub fn release(&mut self)
        ensures
            !final(self).locked(),
            final(self).data() == old(self).data(),
    {
        self.is_locked = false;
    }

    /// Lets `f` use the information, unless somebody else is using it.
    pub fn access<R, F: FnOnce(&mut T) -> R>(&mut self, f: F) -> (result: Option<R>)
        requires
            forall|data: &mut T| *data == old(self).data() ==> call_requires(f, (data,)),
        ensures
            final(self).locked() == old(self).locked(),
            result is None <==> old(self).locked(),
            result is None ==> final(self).data() == old(self).data(),
            result is Some ==> exists|m: &mut T, r: R|
                *m == old(self).data() && *final(m) == final(self).data() && #[trigger]
                    call_ensures(f, (m,), r) && result == Some(r),
    {
        if self.acquire() {
            let result = apply(&mut self.data, f);
            self.release();
            Some(result)
        } else {
            None
        }
    }
}

/// Calls `f` on some information.
fn apply<T, R, F: FnOnce(&mut T) -> R>(data: &mut T, f: F) -> (result: R)
    requires
        forall|m: &mut T| *m == *old(data) ==> call_requires(f, (m,)),
    ensures
        exists|m: &mut T|
            *m == *old(data) && *final(m) == *final(data) && #[trigger] call_ensures(
                f,
                (m,),
                result,
            ),
{
    f(data)
}

/// The sum of two numbers, as an atomic addition computes it: what does not fit
/// into a `usize` wraps around.
pub open spec fn wrapped_sum(a: usize, b: usize) -> usize {
    if a + b > usize::MAX {
        (a + b - usize::MAX - 1) as usize
    } else {
        (a + b) as usize
    }
}

/// From high to low.
pub open spec fn descending(s: Seq<usize>) -> bool {
    forall|i: int, j: int| 0 <= i < j < s.len() ==> s[i] >= s[j]
}

/// `after` is `before` with `x` put in somewhere.
pub open spec fn is_with(before: Seq<usize>, x: usize, after: Seq<usize>) -> bool {
    exists|at: int| 0 <= at <= before.len() && after == #[trigger] before.insert(at, x)
}

/// Puts `x` where it belongs in a list from high to low.
fn insert_descending(list: &mut Vec<usize>, x: usize)
    requires
        descending(old(list)@),
    ensures
        descending(final(list)@),
        is_with(old(list)@, x, final(list)@),
{
    let mut at: usize = list.len();
    while at > 0 && list[at - 1] < x
        invariant
            at <= list@.len(),
            descending(list@),
            list@ == old(list)@,
            forall|i: int| at <= i < list@.len() ==> list@[i] < x,
        decreases at,
    {
        at = at - 1;
    }
    list.insert(at, x);
}

/// Takes the last, and so the lowest, index out of a list from high to low.
fn take_lowest(list: &mut Vec<usize>) -> (x: Option<usize>)
    ensures
        old(list)@.len() == 0 ==> x is None && final(list)@ == old(list)@,
        old(list)@.len() > 0 ==> x == Some(old(list)@.last()) && final(list)@ == old(
            list,
        )@.drop_last(),
{
    list.pop()
}

/// Available indexes into the list of listeners.
pub struct Indexes {
    available: Lock<Vec<usize>>,
    last: usize,
}

impl Indexes {
    /// The indexes that were given back and not handed out again, from high to
    /// low.
    pub closed spec fn given_back(&self) -> Seq<usize> {
        self.available.data()@
    }

    /// The lowest index that has never been handed out.
    pub closed spec fn next_new(&self) -> usize {
        self.last
    }

    /// Whether somebody keeps the given back indexes from others.
    pub closed spec fn busy(&self) -> bool {
        self.available.locked()
    }

    /// The given back indexes are sorted.
    pub closed spec fn wf(&self) -> bool {
        descending(self.given_back())
    }

    /// The index that is handed out next.
    pub open spec fn next_index(&self) -> usize {
        if self.busy() || self.given_back().len() == 0 {
            self.next_new()
        } else {
            self.given_back().last()
        }
    }

    /// The index that is handed out next is the lowest of those that were given
    /// back, unless somebody keeps them.
    pub proof fn lemma_lowest_first(&self)
        requires
            self.wf(),
        ensures
            descending(self.given_back()),
            forall|i: int|
                !self.busy() && 0 <= i < self.given_back().len() ==> self.next_index()
                    <= #[trigger] self.given_back()[i],
    {
    }

    /// The index was handed out and not given back.
    pub open spec fn handed_out(&self, index: usize) -> bool {
        1 <= index < self.next_new() && !self.given_back().contains(index)
    }

    /// Nothing but indexes that were handed out were given back, and each once.
    pub open spec fn is_fair(&self) -> bool {
        &&& self.wf()
        &&& 1 <= self.next_new()
        &&& self.given_back().no_duplicates()
        &&& forall|i: int|
            0 <= i < self.given_back().len() ==> 1 <= #[trigger] self.given_back()[i]
                < self.next_new()
    }

    /// Unless somebody keeps the given back indexes, the index that is handed out
    /// next is the smallest one that is not handed out.
    pub proof fn smallest_is_handed_out(&self)
        requires
            self.is_fair(),
            !self.busy(),
        ensures
            1 <= self.next_index(),
            !self.handed_out(self.next_index()),
            forall|i: usize| 1 <= i < self.next_index() ==> #[trigger] self.handed_out(i),
    {
        self.lemma_lowest_first();
        let back = self.given_back();
        if back.len() > 0 {
            assert(back.contains(back.last()));
        }
        assert forall|i: usize| 1 <= i < self.next_index() implies #[trigger] self.handed_out(
            i,
        ) by {
            if back.contains(i) {
                let at = choose|at: int| 0 <= at < back.len() && back[at] == i;
                assert(self.next_index() <= back[at]);
            }
            if back.len() > 0 {
                assert(back[back.len() - 1] < self.next_new());
            }
        }
    }

    /// Handing an index out adds that one to those that are handed out.
    proof fn lemma_allocated(before: Indexes, after: Indexes)
        requires
            before.is_fair(),
            before.next_index() < usize::MAX,
            after.wf(),
            if before.busy() || before.given_back().len() == 0 {
                after.given_back() == before.given_back() && after.next_new() == before.next_new()
                    + 1
            } else {
                after.given_back() == before.given_back().drop_last() && after.next_new()
                    == before.next_new()
            },
        ensures
            after.is_fair(),
            forall|i: usize| #[trigger]
                after.handed_out(i) <==> before.handed_out(i) || i == before.next_index(),
    {
        let back = before.given_back();
        let rest = after.given_back();
        assert forall|i: int| 0 <= i < rest.len() implies 1 <= #[trigger] rest[i]
            < after.next_new() by {
            assert(rest[i] == back[i]);
        }
        assert forall|i: usize| #[trigger] after.handed_out(i) <==> before.handed_out(i) || i
            == before.next_index() by {
            if rest.contains(i) {
                let at = choose|at: int| 0 <= at < rest.len() && rest[at] == i;
                assert(back[at] == i);
                assert(back.contains(i));
                if rest.len() < back.len() {
                    assert(back[at] != back.last());
                }
            }
            if back.contains(i) {
                let at = choose|at: int| 0 <= at < back.len() && back[at] == i;
                if at < rest.len() {
                    assert(rest[at] == i);
                }
            }
            if back.len() > 0 {
                assert(1 <= back[back.len() - 1] < before.next_new());
            }
        }
    }

    /// Giving an index back takes that one from those that are handed out.
    proof fn lemma_freed(before: Indexes, after: Indexes, index: usize)
        requires
            before.is_fair(),
            before.handed_out(index),
            after.wf(),
            after.next_new() == before.next_new(),
            is_with(before.given_back(), index, after.given_back()),
        ensures
            after.is_fair(),
            forall|i: usize| #[trigger]
                after.handed_out(i) <==> before.handed_out(i) && i != index,
    {
        let back = before.given_back();
        let more = after.given_back();
        let at = choose|at: int| 0 <= at <= back.len() && more == #[trigger] back.insert(at, index);
        assert(more[at] == index);
        assert forall|i: int| 0 <= i < more.len() implies 1 <= #[trigger] more[i]
            < after.next_new() && (i != at ==> back.contains(more[i])) by {
            if i < at {
                assert(more[i] == back[i]);
            } else if i > at {
                assert(more[i] == back[i - 1]);
            }
        }
        assert forall|i: int, j: int| 0 <= i < j < more.len() implies more[i] != more[j] by {
            let a = if i < at { i } else { i - 1 };
            let b = if j < at { j } else { j - 1 };
            if i != at && j != at {
                assert(more[i] == back[a] && more[j] == back[b]);
            }
        }
        assert forall|i: usize| #[trigger] after.handed_out(i) <==> before.handed_out(i) && i
            != index by {
            if back.contains(i) {
                let o = choose|o: int| 0 <= o < back.len() && back[o] == i;
                assert(more[if o < at { o } else { o + 1 }] == i);
            }
            if more.contains(i) {
                let o = choose|o: int| 0 <= o < more.len() && more[o] == i;
                assert(o != at ==> back.contains(more[o]));
            }
        }
    }

    /// All indexes from one upwards are available.
    pub fn new() -> (indexes: Self)
        ensures
            indexes.wf(),
            !indexes.busy(),
            indexes.given_back() == Seq::<usize>::empty(),
            indexes.next_new() == 1,
            indexes.is_fair(),
            forall|i: usize| !#[trigger] indexes.handed_out(i),
    {
        let available: Vec<usize> = Vec::new();
        Indexes { available: Lock::new(available), last: 1 }
    }

    /// Keeps the given back indexes from others, unless somebody else does.
    pub fn hold(&mut self) -> (held: bool)
        requires
            old(self).wf(),
        ensures
            final(self).wf(),
            held == !old(self).busy(),
            final(self).busy(),
            final(self).given_back() == old(self).given_back(),
            final(self).next_new() == old(self).next_new(),
    {
        self.available.acquire()
    }

    /// Lets others at the given back indexes again.
    pub fn let_go(&mut self)
        requires
            old(self).wf(),
        ensures
            final(self).wf(),
            !final(self).busy(),
            final(self).given_back() == old(self).given_back(),
            final(self).next_new() == old(self).next_new(),
    {
        self.available.release()
    }

    /// Hands out an index: the lowest one that was given back, or a new one if
    /// there is none or if somebody keeps them.
    pub fn allocate(&mut self) -> (index: usize)
        requires
            old(self).wf(),
        ensures
            final(self).wf(),
            final(self).busy() == old(self).busy(),
            index == old(self).next_index(),
            if old(self).busy() || old(self).given_back().len() == 0 {
                final(self).given_back() == old(self).given_back() && final(self).next_new()
                    == wrapped_sum(old(self).next_new(), 1)
            } else {
                final(self).given_back() == old(self).given_back().drop_last()
                    && final(self).next_new() == old(self).next_new()
            },
            old(self).is_fair() && index < usize::MAX ==> {
                &&& final(self).is_fair()
                &&& forall|i: usize| #[trigger]
                    final(self).handed_out(i) <==> old(self).handed_out(i) || i == index
            },
    {
        let reused = self.available.access(take_lowest);
        let index = match reused {
            Some(Some(index)) => index,
            _ => {
                let index = self.last;
                self.last = index.wrapping_add(1);
                index
            },
        };
        proof {
            if old(self).is_fair() && index < usize::MAX {
                Self::lemma_allocated(*old(self), *self);
            }
        }
        index
    }

    /// Gives an index back. It is lost if somebody keeps the given back
    /// indexes.
    pub fn free(&mut self, index: usize)
        requires
            old(self).wf(),
        ensures
            final(self).wf(),
            final(self).busy() == old(self).busy(),
            final(self).next_new() == old(self).next_new(),
            if old(self).busy() {
                final(self).given_back() == old(self).given_back()
            } else {
                &&& descending(final(self).given_back())
                &&& is_with(old(self).given_back(), index, final(self).given_back())
            },
            old(self).is_fair() && old(self).handed_out(index) ==> {
                &&& final(self).is_fair()
                &&& forall|i: usize| #[trigger]
                    final(self).handed_out(i) <==> old(self).handed_out(i) && (i != index || old(
                        self,
                    ).busy())
            },
    {
        self.available.access(
            |available: &mut Vec<usize>|
                requires descending(old(available)@)
                ensures descending(final(available)@) && is_with(old(available)@, index, final(available)@)
            {
                insert_descending(available, index)
            },
        );
        proof {
            if old(self).is_fair() && old(self).handed_out(index) {
                if old(self).busy() {
                    assert forall|i: usize| #[trigger] self.handed_out(i) <==> old(
                        self,
                    ).handed_out(i) by {}
                } else {
                    Self::lemma_freed(*old(self), *self, index);
                }
            }
        }
    }
}

} // verus!
