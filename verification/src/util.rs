//! Small helpers.

use std::sync::Arc;
use vstd::prelude::*;

verus! {

/// Puts `value` in place of what `dest` held, and returns that.
pub fn replace<T>(dest: &mut T, value: T) -> (previous: T)
    ensures
        *final(dest) == value,
        previous == *old(dest),
{
    let mut value = value;
    core::mem::swap(dest, &mut value);
    value
}

/// Makes another handle to the same value, by `Arc::clone`.
#[verifier::external_body]
pub(crate) fn share<T>(arc: &Arc<T>) -> (copy: Arc<T>)
    ensures
        copy == *arc,
{
    Arc::clone(arc)
}

/// The address of what a handle points to, by `Arc::as_ptr`. It is up to the
/// allocator, so nothing is promised of it; a contract speaks of it by
/// `Identity::wf`. As long as a handle is alive, no other allocation has the same
/// address.
#[verifier::external_body]
fn address_of(arc: &Arc<()>) -> usize {
    Arc::as_ptr(arc) as usize
}

/// The identity of an object that can be told apart from others of its kind.
#[derive(Debug)]
pub struct Identity {
    token: Arc<()>,
    address: usize,
}

impl Identity {
    /// What tells this identity apart.
    pub closed spec fn id(&self) -> usize {
        self.address
    }

    /// What tells this identity apart is the address of its own token.
    pub closed spec fn wf(&self) -> bool {
        call_ensures(address_of, (&self.token,), self.address)
    }

    /// Two identities are told apart by the addresses of their tokens.
    proof fn is_told_by_its_token(&self)
        requires
            self.wf(),
        ensures
            call_ensures(address_of, (&self.token,), self.id()),
    {
    }

    /// A new identity: a token of its own, and the address of that.
    pub fn new() -> (identity: Identity)
        ensures
            identity.wf(),
    {
        let token = Arc::new(());
        let address = address_of(&token);
        Identity { token, address }
    }

    /// The same identity once more.
    pub fn again(&self) -> (same: Identity)
        ensures
            same.id() == self.id(),
            self.wf() ==> same.wf(),
    {
        Identity { token: share(&self.token), address: self.address }
    }

    /// Whether two identities are the same.
    pub fn is(&self, other: &Identity) -> (same: bool)
        ensures
            same == (self.id() == other.id()),
    {
        self.address == other.address
    }
}

/// A shared value that is made when it is first needed.
pub struct RacyArc<T> {
    inner: Option<Arc<T>>,
}

impl<T> RacyArc<T> {
    /// The value, once it is there.
    pub closed spec fn value(&self) -> Option<Arc<T>> {
        self.inner
    }

    /// Creates an empty `RacyArc`.
    pub fn new() -> (racy: Self)
        ensures
            racy.value() is None,
    {
        RacyArc { inner: None }
    }

    /// The value, if it is there.
    pub fn get(&self) -> (value: Option<&T>)
        ensures
            match self.value() {
                Some(arc) => value == Some(&*arc),
                None => value is None,
            },
    {
        match &self.inner {
            Some(arc) => Some(&**arc),
            None => None,
        }
    }

    /// Offers a value. The first value that was ever offered stays, and a later
    /// one is dropped.
    pub fn offer(&mut self, new: Arc<T>) -> (winner: Arc<T>)
        ensures
            winner == (match old(self).value() {
                Some(arc) => arc,
                None => new,
            }),
            final(self).value() == Some(winner),
    {
        match &self.inner {
            Some(arc) => share(arc),
            None => {
                let winner = share(&new);
                self.inner = Some(new);
                winner
            },
        }
    }

    /// Calls `with` on the value, after making one by `init` if there is none.
    pub fn with_or_init<R, I: FnOnce() -> T, W: FnOnce(&Arc<T>) -> R>(
        &mut self,
        init: I,
        with: W,
    ) -> (result: R)
        requires
            old(self).value() is None ==> call_requires(init, ()),
            forall|arc: &Arc<T>| #[trigger] call_requires(with, (arc,)),
        ensures
            final(self).value() is Some,
            match old(self).value() {
                Some(arc) => final(self).value() == Some(arc),
                None => call_ensures(init, (), *final(self).value()->0),
            },
            call_ensures(with, (&final(self).value()->0,), result),
    {
        let arc = match &self.inner {
            Some(arc) => share(arc),
            None => {
                let new = Arc::new(init());
                self.offer(new)
            },
        };
        with(&arc)
    }
}

} // verus!
