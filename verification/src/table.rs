//! What is shared between a request and whoever made it, by ticket.

use std::collections::BTreeMap;
use vstd::prelude::*;

verus! {

/// Values that are known by the tickets that were issued for them.
pub struct Table<W> {
    values: BTreeMap<u64, W>,
    next: u64,
}

impl<W> View for Table<W> {
    type V = Map<u64, W>;

    closed spec fn view(&self) -> Map<u64, W> {
        self.values@
    }
}

impl<W> Table<W> {
    /// The ticket that is issued next.
    pub closed spec fn next_ticket(&self) -> u64 {
        self.next
    }

    /// No ticket is known before it is issued.
    pub closed spec fn wf(&self) -> bool {
        forall|t: u64| #[trigger] self.values@.contains_key(t) ==> t < self.next
    }

    /// Creates an empty table.
    pub fn new() -> (table: Self)
        ensures
            table.wf(),
            table@ == Map::<u64, W>::empty(),
            table.next_ticket() == 0,
    {
        Table { values: BTreeMap::new(), next: 0 }
    }

    /// Issues a ticket for a value. The tickets must not have run out.
    pub fn issue(&mut self, value: W) -> (ticket: u64)
        requires
            old(self).wf(),
            old(self).next_ticket() < u64::MAX,
        ensures
            final(self).wf(),
            ticket == old(self).next_ticket(),
            !old(self)@.contains_key(ticket),
            final(self)@ == old(self)@.insert(ticket, value),
            final(self).next_ticket() == old(self).next_ticket() + 1,
    {
        let ticket = self.next;
        self.next = ticket + 1;
        self.values.insert(ticket, value);
        ticket
    }

    /// The value of a ticket.
    pub fn get(&self, ticket: u64) -> (value: &W)
        requires
            self.wf(),
            self@.contains_key(ticket),
        ensures
            *value == self@[ticket],
    {
        self.values.get(&ticket).unwrap()
    }

    /// Takes the value of a ticket out.
    pub fn take(&mut self, ticket: u64) -> (value: W)
        requires
            old(self).wf(),
            old(self)@.contains_key(ticket),
        ensures
            final(self).wf(),
            value == old(self)@[ticket],
            final(self)@ == old(self)@.remove(ticket),
            final(self).next_ticket() == old(self).next_ticket(),
    {
        self.values.remove(&ticket).unwrap()
    }

    /// Puts a value back that was taken out.
    pub fn put(&mut self, ticket: u64, value: W)
        requires
            old(self).wf(),
            ticket < old(self).next_ticket(),
        ensures
            final(self).wf(),
            final(self)@ == old(self)@.insert(ticket, value),
            final(self).next_ticket() == old(self).next_ticket(),
    {
        self.values.insert(ticket, value);
    }

    /// A ticket that is known has been issued.
    pub proof fn lemma_issued(&self, ticket: u64)
        requires
            self.wf(),
            self@.contains_key(ticket),
        ensures
            ticket < self.next_ticket(),
    {
    }
}

} // verus!
