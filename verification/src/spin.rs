//! A mutex that spins, and gives up under contention where it may.

use vstd::prelude::*;

verus! {

/// The number of times that [`Mutex::try_lock_slow`] looks at a lock that stays
/// taken before it gives up.
pub const SPINS: u32 = 100;

/// What to do next on the way to a lock.
#[derive(Clone, Copy, Debug, PartialEq, Eq, Structural)]
pub enum SpinStep {
    /// Look at the lock again.
    Look,
    /// Try to take the lock.
    Take,
    /// Stop trying.
    GiveUp,
}

/// The patience left to somebody who waits for a lock to be released.
#[derive(Clone, Copy, Debug, PartialEq, Eq, Structural)]
pub struct SpinWait {
    /// How many more looks at a taken lock are allowed.
    pub spins: u32,
}

impl SpinWait {
    /// Full patience.
    pub fn new() -> (wait: Self)
        ensures
            wait.spins == SPINS,
            wait.spins == 100,
    {
        SpinWait { spins: SPINS }
    }

    /// Decides what to do after a look at the lock.
    ///
    /// A free lock is worth another attempt. Each look at a taken one costs one
    /// spin, and with no spin left the caller gives up.
    pub fn observe(&mut self, locked: bool) -> (step: SpinStep)
        ensures
            !locked ==> step == SpinStep::Take && final(self).spins == old(self).spins,
            locked && old(self).spins == 0 ==> step == SpinStep::GiveUp && final(self).spins == 0,
            locked && old(self).spins > 0 ==> step == SpinStep::Look && final(self).spins == old(
                self,
            ).spins - 1,
    {
        if !locked {
            return SpinStep::Take;
        }
        match self.spins.checked_sub(1) {
            None => SpinStep::GiveUp,
            Some(spins) => {
                self.spins = spins;
                SpinStep::Look
            },
        }
    }
}

/// What an attempt to take the lock makes of it.
pub open spec fn after_attempt(locked: bool) -> bool {
    true
}

/// Whether an attempt to take the lock succeeds.
pub open spec fn attempt_succeeds(locked: bool) -> bool {
    !locked
}

/// What a thread does to a mutex that it shares with others, in one step.
pub enum Access<T> {
    /// It tries to take the lock, and has a guard if that succeeds.
    Attempt {
        /// The thread.
        thread: nat,
    },
    /// It writes a value through its guard.
    Write {
        /// The thread.
        thread: nat,
        /// The value.
        value: T,
    },
    /// It drops its guard.
    Release {
        /// The thread.
        thread: nat,
    },
}

/// A mutex as all threads see it.
pub struct Shared<T> {
    /// Whether the lock is taken.
    pub locked: bool,
    /// The value behind the lock.
    pub value: T,
    /// The threads that have a guard, one entry for each guard.
    pub guards: Seq<nat>,
}

impl<T> Shared<T> {
    /// A new mutex.
    pub open spec fn fresh(value: T) -> Shared<T> {
        Shared { locked: false, value, guards: Seq::empty() }
    }

    /// Whether the step can be taken: to write and to release takes a guard.
    pub open spec fn allows(self, access: Access<T>) -> bool {
        match access {
            Access::Attempt { .. } => true,
            Access::Write { thread, .. } => self.guards.contains(thread),
            Access::Release { thread } => self.guards.contains(thread),
        }
    }

    /// What a step makes of the mutex.
    pub open spec fn after(self, access: Access<T>) -> Shared<T> {
        match access {
            Access::Attempt { thread } => Shared {
                locked: after_attempt(self.locked),
                guards: if attempt_succeeds(self.locked) {
                    self.guards.push(thread)
                } else {
                    self.guards
                },
                ..self
            },
            Access::Write { value, .. } => Shared { value, ..self },
            Access::Release { thread } => Shared {
                locked: false,
                guards: self.guards.remove(self.guards.index_of(thread)),
                ..self
            },
        }
    }
}

/// What any number of steps, of whatever threads, make of a new mutex.
pub open spec fn after_all<T>(value: T, accesses: Seq<Access<T>>) -> Shared<T>
    decreases accesses.len(),
{
    if accesses.len() == 0 {
        Shared::fresh(value)
    } else {
        after_all(value, accesses.drop_last()).after(accesses.last())
    }
}

/// Every one of the steps can be taken when its turn comes.
pub open spec fn all_allowed<T>(value: T, accesses: Seq<Access<T>>) -> bool {
    forall|i: int|
        0 <= i < accesses.len() ==> after_all(value, accesses.take(i)).allows(#[trigger] accesses[i])
}

/// The value that was written last, or the first one if none was.
pub open spec fn last_written<T>(value: T, accesses: Seq<Access<T>>) -> T
    decreases accesses.len(),
{
    if accesses.len() == 0 {
        value
    } else {
        match accesses.last() {
            Access::Write { value, .. } => value,
            _ => last_written(value, accesses.drop_last()),
        }
    }
}

/// However the steps of threads follow each other, there is one guard at most,
/// and there is one exactly while the lock is taken: an attempt succeeds only
/// while there is none. The value is the one that was written last through a
/// guard, or the first one.
pub proof fn one_guard_at_a_time<T>(value: T, accesses: Seq<Access<T>>)
    requires
        all_allowed(value, accesses),
    ensures
        after_all(value, accesses).guards.len() == if after_all(value, accesses).locked {
            1nat
        } else {
            0nat
        },
        attempt_succeeds(after_all(value, accesses).locked) <==> after_all(
            value,
            accesses,
        ).guards.len() == 0,
        after_all(value, accesses).value == last_written(value, accesses),
    decreases accesses.len(),
{
    if accesses.len() > 0 {
        let earlier = accesses.drop_last();
        let n = earlier.len() as int;
        assert forall|i: int| 0 <= i < earlier.len() implies after_all(
            value,
            earlier.take(i),
        ).allows(#[trigger] earlier[i]) by {
            assert(earlier.take(i) =~= accesses.take(i));
            assert(after_all(value, accesses.take(i)).allows(accesses[i]));
        }
        one_guard_at_a_time(value, earlier);
        assert(accesses.take(n) =~= earlier);
        assert(after_all(value, accesses.take(n)).allows(accesses[n]));
    }
}

/// A simple mutex that assumes that the lock is mostly free.
pub struct Mutex<T> {
    value: T,
    locked: bool,
}

/// Proof that a mutex has been locked. The holder passes it to the mutex to
/// reach the value, and gives it back to unlock.
#[derive(Debug)]
pub struct MutexGuard {
    _private: (),
}

impl<T> Mutex<T> {
    /// The value behind the lock.
    pub closed spec fn value(&self) -> T {
        self.value
    }

    /// Whether somebody holds the lock.
    pub closed spec fn is_locked(&self) -> bool {
        self.locked
    }

    /// Creates an unlocked mutex.
    pub fn new(value: T) -> (mutex: Self)
        ensures
            mutex.value() == value,
            !mutex.is_locked(),
    {
        Mutex { value, locked: false }
    }

    /// Takes the lock if it is free, and tells whether it was.
    fn take(&mut self) -> (taken: bool)
        ensures
            taken == attempt_succeeds(old(self).is_locked()),
            final(self).is_locked() == after_attempt(old(self).is_locked()),
            final(self).value() == old(self).value(),
    {
        if self.locked {
            false
        } else {
            self.locked = true;
            true
        }
    }

    /// Locks the mutex. A lock that nobody will release is never had, so it
    /// has to be free.
    pub fn lock(&mut self) -> (guard: MutexGuard)
        requires
            !old(self).is_locked(),
        ensures
            final(self).is_locked(),
            final(self).value() == old(self).value(),
    {
        if self.take() {
            MutexGuard { _private: () }
        } else {
            self.lock_slow()
        }
    }

    /// Locks the mutex after a first attempt has failed.
    pub fn lock_slow(&mut self) -> (guard: MutexGuard)
        requires
            !old(self).is_locked(),
        ensures
            final(self).is_locked(),
            final(self).value() == old(self).value(),
    {
        loop
            invariant
                !self.is_locked(),
                self.value() == old(self).value(),
            decreases 0int,
        {
            // Nobody else takes the lock meanwhile, so the first attempt succeeds.
            if self.take() {
                return MutexGuard { _private: () };
            }
        }
    }

    /// Locks the mutex if it is free, or becomes free soon.
    pub fn try_lock(&mut self) -> (guard: Option<MutexGuard>)
        ensures
            guard is Some <==> !old(self).is_locked(),
            final(self).is_locked(),
            final(self).value() == old(self).value(),
    {
        if self.take() {
            Some(MutexGuard { _private: () })
        } else {
            self.try_lock_slow()
        }
    }

    /// Keeps trying to lock the mutex for a while after a first attempt has
    /// failed.
    pub fn try_lock_slow(&mut self) -> (guard: Option<MutexGuard>)
        ensures
            guard is Some <==> !old(self).is_locked(),
            final(self).is_locked(),
            final(self).value() == old(self).value(),
    {
        let mut wait = SpinWait::new();
        if self.take() {
            return Some(MutexGuard { _private: () });
        }
        let mut step = wait.observe(self.locked);
        while step == SpinStep::Look
            invariant
                self.is_locked(),
                old(self).is_locked(),
                self.value() == old(self).value(),
                step != SpinStep::Take,
            decreases wait.spins + if step == SpinStep::Look { 1int } else { 0 },
        {
            step = wait.observe(self.locked);
        }
        None
    }

    /// The value, for whoever holds the lock.
    pub fn get(&self, guard: &MutexGuard) -> (value: &T)
        requires
            self.is_locked(),
        ensures
            *value == self.value(),
    {
        &self.value
    }

    /// The value, to be changed by whoever holds the lock.
    pub fn get_mut(&mut self, guard: &MutexGuard) -> (value: &mut T)
        requires
            old(self).is_locked(),
        ensures
            *value == old(self).value(),
            final(self).value() == *final(value),
            final(self).is_locked(),
    {
        &mut self.value
    }

    /// Releases the lock.
    pub fn unlock(&mut self, guard: MutexGuard)
        requires
            old(self).is_locked(),
        ensures
            !final(self).is_locked(),
            final(self).value() == old(self).value(),
    {
        self.locked = false;
    }
}

} // verus!
