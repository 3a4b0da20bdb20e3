//! Slots for listeners, in buckets that are made when they are first needed.

use crate::linked_list::lock_free::link::{blank, Link};
use vstd::arithmetic::power2::*;
use vstd::prelude::*;

verus! {

/// The number of buckets. Each has twice as many slots as the one before. The
/// first slot is never used, so that all buckets combined can hold up to
/// `usize::MAX - 1` entries.
pub const BUCKETS: usize = usize::BITS as usize;

/// The number of the bucket that holds index `i`.
pub open spec fn bucket_of(i: nat) -> nat
    decreases i,
{
    if i == 0 {
        0
    } else {
        1 + bucket_of(((i - 1) / 2) as nat)
    }
}

/// The position of index `i` within its bucket.
pub open spec fn slot_of(i: nat) -> int {
    i + 1 - pow2(bucket_of(i))
}

/// Bucket `b` holds the indexes from `pow2(b) - 1` up to, but not including,
/// `pow2(b + 1) - 1`. So no two indexes share a slot.
pub proof fn lemma_bucket(i: nat)
    ensures
        pow2(bucket_of(i)) <= i + 1 < pow2(bucket_of(i) + 1),
        0 <= slot_of(i) < pow2(bucket_of(i)),
        forall|b: nat| pow2(b) <= i + 1 < #[trigger] pow2(b + 1) ==> b == bucket_of(i),
    decreases i,
{
    lemma2_to64();
    if i > 0 {
        let half = ((i - 1) / 2) as nat;
        lemma_bucket(half);
        lemma_pow2_unfold(bucket_of(i));
        lemma_pow2_unfold(bucket_of(i) + 1);
    }
    lemma_pow2_unfold(bucket_of(i) + 1);
    assert forall|b: nat| pow2(b) <= i + 1 < #[trigger] pow2(b + 1) implies b == bucket_of(i) by {
        let c = bucket_of(i);
        if b < c {
            if b + 1 < c {
                lemma_pow2_strictly_increases(b + 1, c);
            }
        } else if c < b {
            if c + 1 < b {
                lemma_pow2_strictly_increases(c + 1, b);
            }
        }
    }
}

/// The index is determined by its bucket and its position there.
pub proof fn lemma_slots_apart(i: nat, j: nat)
    ensures
        bucket_of(i) == bucket_of(j) && slot_of(i) == slot_of(j) ==> i == j,
{
}

/// Which indexes the buckets have room for.
pub proof fn lemma_in_buckets(i: nat)
    ensures
        i < usize::MAX <==> bucket_of(i) < BUCKETS,
{
    lemma_bucket(i);
    vstd::layout::unsigned_int_max_values();
    let b = bucket_of(i);
    let n = usize::BITS as nat;
    assert(pow2(n) == usize::MAX + 1);
    if b < n {
        if b + 1 < n {
            lemma_pow2_strictly_increases(b + 1, n);
        }
    } else if b > n {
        lemma_pow2_strictly_increases(n, b);
    }
}

/// The number of slots in bucket `i`.
pub fn bucket_index_to_size(i: usize) -> (size: usize)
    requires
        i < usize::BITS,
    ensures
        size == pow2(i as nat),
{
    proof {
        vstd::bits::lemma_usize_pow2_no_overflow(i as nat);
        vstd::bits::lemma_usize_shl_is_mul(1, i);
    }
    1 << i
}

/// The leading zeros of a number tell between which powers of two it lies.
proof fn lemma_leading_zeros(i: u64)
    requires
        i > 0,
    ensures
        0 <= vstd::std_specs::bits::u64_leading_zeros(i) <= 63,
        pow2((63 - vstd::std_specs::bits::u64_leading_zeros(i)) as nat) <= i,
        i < pow2((64 - vstd::std_specs::bits::u64_leading_zeros(i)) as nat),
    decreases i,
{
    reveal(vstd::std_specs::bits::u64_leading_zeros);
    vstd::std_specs::bits::axiom_u64_leading_zeros(i);
    if i == 1 {
        assert(vstd::std_specs::bits::u64_leading_zeros(0) == 64);
        assert(vstd::std_specs::bits::u64_leading_zeros(1) == 63);
        lemma2_to64();
    } else {
        lemma_leading_zeros(i / 2);
        let z = vstd::std_specs::bits::u64_leading_zeros(i);
        lemma_pow2_unfold((63 - z) as nat);
        lemma_pow2_unfold((64 - z) as nat);
    }
}

/// The number of the bucket that holds index `i`.
pub fn index_to_bucket(i: usize) -> (b: usize)
    requires
        i < usize::MAX,
    ensures
        b == bucket_of(i as nat),
        b < BUCKETS,
{
    let n = (i + 1) as u64;
    proof {
        lemma_leading_zeros(n);
    }
    let b: usize = 63 - (n.leading_zeros() as usize);
    proof {
        lemma_bucket(i as nat);
        assert(pow2(b as nat) <= i + 1 < pow2((b + 1) as nat));
        vstd::layout::unsigned_int_max_values();
        if b >= usize::BITS {
            if b > usize::BITS {
                lemma_pow2_strictly_increases(usize::BITS as nat, b as nat);
            }
        }
    }
    b
}

/// The position of index `i` within its bucket.
pub fn index_to_slot_index(i: usize) -> (s: usize)
    requires
        i < usize::MAX,
    ensures
        s == slot_of(i as nat),
        s < pow2(bucket_of(i as nat)),
{
    let size = bucket_index_to_size(index_to_bucket(i));
    proof {
        lemma_bucket(i as nat);
    }
    i - (size - 1)
}

/// An expandable list of slots.
pub struct Slots {
    buckets: Vec<Option<Vec<Link>>>,
}

impl Slots {
    /// The slot at index `i`. A slot that nobody has asked for yet is blank.
    pub closed spec fn link(&self, i: nat) -> Link {
        match self.buckets@[bucket_of(i) as int] {
            Some(bucket) => bucket@[slot_of(i)],
            None => blank(),
        }
    }

    /// Every bucket that is there has its full size.
    pub closed spec fn wf(&self) -> bool {
        &&& self.buckets@.len() == BUCKETS
        &&& forall|b: int|
            0 <= b < BUCKETS && (#[trigger] self.buckets@[b]) is Some
                ==> self.buckets@[b]->0@.len() == pow2(b as nat)
    }

    /// Creates a list without buckets.
    pub fn new() -> (slots: Self)
        ensures
            slots.wf(),
            forall|i: nat| i < usize::MAX ==> #[trigger] slots.link(i) == blank(),
    {
        let mut buckets: Vec<Option<Vec<Link>>> = Vec::new();
        let mut i: usize = 0;
        while i < BUCKETS
            invariant
                i <= BUCKETS,
                buckets@.len() == i,
                forall|b: int| 0 <= b < i ==> (#[trigger] buckets@[b]) is None,
            decreases BUCKETS - i,
        {
            buckets.push(None);
            i = i + 1;
        }
        let slots = Slots { buckets };
        proof {
            assert forall|i: nat| i < usize::MAX implies #[trigger] slots.link(i) == blank() by {
                lemma_in_buckets(i);
            }
        }
        slots
    }

    /// Puts a bucket where there is none. The first bucket that was ever put there
    /// stays, and a later one is dropped.
    fn install(&mut self, bucket_index: usize, bucket: Vec<Link>)
        requires
            bucket_index < old(self).buckets@.len(),
        ensures
            final(self).buckets@ == if old(self).buckets@[bucket_index as int] is Some {
                old(self).buckets@
            } else {
                old(self).buckets@.update(bucket_index as int, Some(bucket))
            },
    {
        if self.buckets[bucket_index].is_none() {
            self.buckets[bucket_index] = Some(bucket);
        }
    }

    /// Makes sure that a bucket is there.
    fn bucket(&mut self, bucket_index: usize)
        requires
            old(self).wf(),
            bucket_index < BUCKETS,
        ensures
            final(self).wf(),
            final(self).buckets@[bucket_index as int] is Some,
            forall|i: nat|
                i < usize::MAX ==> #[trigger] final(self).link(i) == old(self).link(i),
    {
        if self.buckets[bucket_index].is_some() {
            return;
        }
        let size = bucket_index_to_size(bucket_index);
        let mut bucket: Vec<Link> = Vec::new();
        let mut n: usize = 0;
        while n < size
            invariant
                n <= size,
                bucket@.len() == n,
                forall|s: int| 0 <= s < n ==> #[trigger] bucket@[s] == blank(),
            decreases size - n,
        {
            bucket.push(Link::new());
            n = n + 1;
        }
        self.install(bucket_index, bucket);
        proof {
            assert forall|i: nat| i < usize::MAX implies #[trigger] self.link(i) == old(
                self,
            ).link(i) by {
                lemma_in_buckets(i);
                lemma_bucket(i);
            }
        }
    }

    /// The slot at the given index.
    pub fn get(&mut self, index: usize) -> (link: &mut Link)
        requires
            old(self).wf(),
            index < usize::MAX,
        ensures
            *link == old(self).link(index as nat),
            final(self).wf(),
            final(self).link(index as nat) == *final(link),
            forall|i: nat|
                i != index && i < usize::MAX ==> #[trigger] final(self).link(i) == old(
                    self,
                ).link(i),
    {
        let bucket_index = index_to_bucket(index);
        let slot_index = index_to_slot_index(index);
        proof {
            lemma_in_buckets(index as nat);
            lemma_bucket(index as nat);
        }
        self.bucket(bucket_index);
        proof {
            assert forall|i: nat| i < usize::MAX implies self.link(i) == #[trigger] old(
                self,
            ).link(i) by {}
            assert(self.link(index as nat) == old(self).link(index as nat));
            assert forall|i: nat| i != index && i < usize::MAX implies bucket_of(i)
                < BUCKETS && 0 <= #[trigger] slot_of(i) < pow2(bucket_of(i)) && (bucket_of(i)
                != bucket_index || slot_of(i) != slot_index) by {
                lemma_in_buckets(i);
                lemma_bucket(i);
                lemma_slots_apart(i, index as nat);
            }
        }
        match &mut self.buckets[bucket_index] {
            Some(bucket) => &mut bucket[slot_index],
            None => vstd::pervasive::unreached(),
        }
    }
}

} // verus!
