//! Pools of buffers for reads and writes.
//!
//! A read buffer is reused only where its capacity is exactly what is asked for: a
//! completion-based read fills a buffer up to its capacity, so a larger one would take in
//! more than the record. A write buffer may be larger.
use vstd::prelude::*;

verus! {

pub const MAX_POOL_BUFS: usize = 32;

pub const MAX_POOLED_BUF_CAPACITY: usize = 65_536;

/// `Vec::capacity`: how many bytes the buffer has room for, at least those that it holds. No more is
/// claimed of the number: it is what the allocator gave.
#[verifier::external_body]
fn capacity(buf: &Vec<u8>) -> (r: usize)
    ensures
        r >= buf@.len(),
{
    buf.capacity()
}

/// Asks for the capacity of a buffer.
fn asked<F: Fn(&Vec<u8>) -> usize>(question: F, buf: &Vec<u8>) -> (r: usize)
    requires
        call_requires(question, (buf,)),
    ensures
        call_ensures(question, (buf,), r),
{
    question(buf)
}

/// The buffer may say that this is its capacity.
pub closed spec fn says_capacity(buf: Vec<u8>, n: usize) -> bool {
    call_ensures(capacity, (&buf,), n)
}

/// What a buffer is asked for.
#[derive(Debug, Clone, Copy, PartialEq, Eq, Structural)]
pub enum Use {
    Read,
    Write,
}

/// A buffer with this capacity serves for `size` bytes.
pub open spec fn serves(purpose: Use, capacity: usize, size: usize) -> bool {
    match purpose {
        Use::Read => capacity == size,
        Use::Write => capacity >= size,
    }
}

/// The place of the first buffer that serves for `size` bytes, given the capacities of all.
pub fn first_serving(purpose: Use, capacities: &Vec<usize>, size: usize) -> (r: Option<usize>)
    ensures
        match r {
            Some(at) => at < capacities@.len() && serves(purpose, capacities@[at as int], size)
                && forall|i: int| 0 <= i < at ==> !serves(purpose, #[trigger] capacities@[i], size),
            None => forall|i: int|
                0 <= i < capacities@.len() ==> !serves(purpose, #[trigger] capacities@[i], size),
        },
{
    let mut i: usize = 0;
    while i < capacities.len()
        invariant
            i <= capacities@.len(),
            forall|j: int| 0 <= j < i ==> !serves(purpose, #[trigger] capacities@[j], size),
        decreases capacities@.len() - i,
    {
        let fits = match purpose {
            Use::Read => capacities[i] == size,
            Use::Write => capacities[i] >= size,
        };
        if fits {
            return Some(i);
        }
        i = i + 1;
    }
    None
}

/// Whether a pool of `pooled` buffers takes in one more with this capacity.
pub fn takes(pooled: usize, capacity: usize) -> (r: bool)
    ensures
        r == (capacity <= MAX_POOLED_BUF_CAPACITY && pooled < MAX_POOL_BUFS),
{
    capacity <= MAX_POOLED_BUF_CAPACITY && pooled < MAX_POOL_BUFS
}

/// How many buffers a pool of `pooled` buffers has once one with this capacity was given back to
/// it: one that is too large, or too much, is dropped.
pub open spec fn pooled_after(pooled: nat, capacity: usize) -> nat {
    if capacity <= MAX_POOLED_BUF_CAPACITY && pooled < MAX_POOL_BUFS {
        pooled + 1
    } else {
        pooled
    }
}

/// Buffers that wait for their next use.
pub struct BufPool {
    purpose: Use,
    bufs: Vec<Vec<u8>>,
}

impl BufPool {
    /// The pool is not overfull, and its buffers hold nothing.
    pub closed spec fn wf(&self) -> bool {
        &&& self.bufs@.len() <= MAX_POOL_BUFS
        &&& forall|i: int| 0 <= i < self.bufs@.len() ==> (#[trigger] self.bufs@[i])@.len() == 0
    }

    /// How many buffers there are.
    pub closed spec fn count(&self) -> nat {
        self.bufs@.len()
    }

    pub closed spec fn purpose(&self) -> Use {
        self.purpose
    }

    /// The buffers may say that these are their capacities.
    pub closed spec fn say_capacities(&self, capacities: Seq<usize>) -> bool {
        capacities.len() == self.bufs@.len() && forall|i: int|
            0 <= i < capacities.len() ==> says_capacity(self.bufs@[i], #[trigger] capacities[i])
    }

    pub fn new(purpose: Use) -> (r: BufPool)
        ensures
            r.wf(),
            r.count() == 0,
            r.purpose() == purpose,
    {
        BufPool { purpose, bufs: Vec::new() }
    }

    /// Hands out a buffer for `size` bytes: for a read, `size` zeros; for a write, an empty buffer
    /// with room for them. One of the pool is used where one serves.
    pub fn acquire(&mut self, size: usize) -> (r: Vec<u8>)
        requires
            old(self).wf(),
        ensures
            final(self).wf(),
            final(self).purpose() == old(self).purpose(),
            final(self).count() == old(self).count() || final(self).count() + 1 == old(self).count(),
            exists|capacities: Seq<usize>| #[trigger]
                old(self).say_capacities(capacities) && (final(self).count() + 1
                    == old(self).count() <==> exists|i: int|
                    0 <= i < capacities.len() && serves(
                        old(self).purpose(),
                        #[trigger] capacities[i],
                        size,
                    )),
            match old(self).purpose() {
                Use::Read => r@ == Seq::new(size as nat, |i: int| 0u8),
                Use::Write => r@.len() == 0,
            },
    {
        let mut capacities: Vec<usize> = Vec::new();
        let mut i: usize = 0;
        while i < self.bufs.len()
            invariant
                i <= self.bufs@.len(),
                capacities@.len() == i,
                forall|j: int|
                    0 <= j < i ==> says_capacity(self.bufs@[j], #[trigger] capacities@[j]),
            decreases self.bufs@.len() - i,
        {
            capacities.push(asked(capacity, &self.bufs[i]));
            i = i + 1;
        }
        assert(self.say_capacities(capacities@));
        let mut buf = match first_serving(self.purpose, &capacities, size) {
            Some(at) => self.bufs.swap_remove(at),
            None => Vec::with_capacity(size),
        };
        if let Use::Read = self.purpose {
            buf.resize(size, 0);
            assert(buf@ =~= Seq::new(size as nat, |i: int| 0u8));
        }
        buf
    }

    /// Takes a buffer with this capacity back, emptied. One that is too large, or too much, is
    /// dropped.
    pub fn release_sized(&mut self, buf: Vec<u8>, capacity: usize)
        requires
            old(self).wf(),
        ensures
            final(self).wf(),
            final(self).purpose() == old(self).purpose(),
            final(self).count() == pooled_after(old(self).count(), capacity),
    {
        if takes(self.bufs.len(), capacity) {
            let mut buf = buf;
            buf.clear();
            self.bufs.push(buf);
        }
    }

    /// Takes a buffer back, emptied. Whether it is kept goes by its capacity, which is at least
    /// its length and else the allocator's choice.
    pub fn release(&mut self, buf: Vec<u8>)
        requires
            old(self).wf(),
        ensures
            final(self).wf(),
            final(self).purpose() == old(self).purpose(),
            exists|capacity: usize|
                capacity >= buf@.len() && says_capacity(buf, capacity) && final(self).count()
                    == #[trigger] pooled_after(old(self).count(), capacity),
            buf@.len() > MAX_POOLED_BUF_CAPACITY || old(self).count() == MAX_POOL_BUFS
                ==> final(self).count() == old(self).count(),
    {
        let room: usize = asked(capacity, &buf);
        assert(says_capacity(buf, room));
        self.release_sized(buf, room);
    }
}

} // verus!
