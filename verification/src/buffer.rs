//! Where a sender gathers its values.
use crate::channel::sender_size;
use vstd::layout::size_of;
use vstd::prelude::*;

verus! {

/// As many values as fit 2048 bytes, but at least one; 2048 of those that take no
/// room.
pub open spec fn batch<T>() -> nat {
    if size_of::<T>() == 0 {
        2048
    } else if size_of::<T>() >= 2048 {
        1
    } else {
        2048nat / size_of::<T>()
    }
}

/// What a batch comes to.
pub proof fn lemma_batch<T>()
    ensures
        1 <= batch::<T>() <= 2048,
        size_of::<T>() >= 1025 ==> batch::<T>() == 1,
{
    let size = size_of::<T>() as int;
    if 0 < size < 2048 {
        vstd::arithmetic::div_mod::lemma_fundamental_div_mod(2048, size);
        let q = 2048int / size;
        let r = 2048int % size;
        assert(1 <= q <= 2048) by (nonlinear_arith)
            requires
                2048 == size * q + r,
                0 <= r < size,
                0 < size < 2048,
        ;
        if size >= 1025 {
            assert(q == 1) by (nonlinear_arith)
                requires
                    2048 == size * q + r,
                    0 <= r < size,
                    1025 <= size < 2048,
            ;
        }
    }
}

/// A batch is as much as 2048 bytes hold: it fits, and one value more does not. One
/// value is a batch if it is too big to fit at all.
pub proof fn law_batch_fills_the_room<T>()
    ensures
        0 < size_of::<T>() <= 2048 ==> {
            &&& batch::<T>() * size_of::<T>() <= 2048
            &&& (batch::<T>() + 1) * size_of::<T>() > 2048
        },
        size_of::<T>() > 2048 ==> batch::<T>() == 1,
        size_of::<T>() == 0 ==> batch::<T>() == 2048,
{
    let size = size_of::<T>() as int;
    if 0 < size < 2048 {
        vstd::arithmetic::div_mod::lemma_fundamental_div_mod(2048, size);
        let q = 2048int / size;
        let r = 2048int % size;
        assert(q * size <= 2048 && (q + 1) * size > 2048) by (nonlinear_arith)
            requires
                2048 == size * q + r,
                0 <= r < size,
        ;
    }
}

/// Whether a buffer gathers `limit` values: a batch of those that take room. Values
/// that take none never run out of it.
pub open spec fn roomy<T>(limit: int) -> bool {
    &&& batch::<T>() <= limit <= usize::MAX
    &&& size_of::<T>() > 0 ==> limit == batch::<T>()
    &&& size_of::<T>() == 0 ==> limit == usize::MAX
}

/// Whether a vector that was made for a batch can have room for `room` values: for a
/// batch, and for more if the allocator gave more.
pub open spec fn allotted<T>(room: int) -> bool {
    &&& batch::<T>() <= room <= usize::MAX
    &&& size_of::<T>() == 0 ==> room == usize::MAX
}

/// The values that a sender has not passed on yet. A buffer is made with room for
/// as many as a sender gathers, and values are only ever added to it.
pub struct Buffer<T> {
    items: Vec<T>,
    // How many values are gathered before they are passed on.
    limit: usize,
}

impl<T> View for Buffer<T> {
    type V = Seq<T>;

    closed spec fn view(&self) -> Seq<T> {
        self.items@
    }
}

impl<T> Buffer<T> {
    /// How many values are gathered before they are passed on.
    pub closed spec fn limit(&self) -> int {
        self.limit as int
    }

    /// An empty buffer.
    pub(crate) fn new() -> (buffer: Buffer<T>)
        ensures
            buffer@ == Seq::<T>::empty(),
            roomy::<T>(buffer.limit()),
            buffer.limit() > 0,
            size_of::<T>() > 0 ==> buffer.limit() == batch::<T>(),
            size_of::<T>() == 0 ==> buffer.limit() == usize::MAX,
    {
        proof {
            lemma_batch::<T>();
        }
        let batch: usize = sender_size::<T>();
        let mut buffer = Buffer { items: Vec::with_capacity(batch), limit: batch };
        let room: usize = buffer.capacity();
        if core::mem::size_of::<T>() == 0 {
            buffer.limit = room;
        }
        buffer
    }

    /// Adds a value.
    pub(crate) fn push(&mut self, value: T)
        ensures
            final(self)@ == old(self)@.push(value),
            final(self).limit() == old(self).limit(),
    {
        self.items.push(value);
    }

    /// The number of values.
    pub(crate) fn len(&self) -> (len: usize)
        ensures
            len == self@.len(),
    {
        self.items.len()
    }

    /// How many values are gathered before they are passed on.
    pub(crate) fn room(&self) -> (room: usize)
        ensures
            room == self.limit(),
    {
        self.limit
    }

    /// The values.
    pub(crate) fn into_items(self) -> (items: Vec<T>)
        ensures
            items@ == self@,
    {
        self.items
    }

    /// `std::vec::Vec::capacity`: how many values fit before the vector has to grow.
    /// Never fewer than it holds, and never fewer than it was made for by
    /// `Vec::with_capacity`, since adding values takes no room away. For values of
    /// size zero it is the greatest number there is. What it is beyond that is up to
    /// the allocator.
    #[verifier::external_body]
    fn capacity(&self) -> (capacity: usize)
        ensures
            capacity >= self@.len(),
            allotted::<T>(capacity as int),
    {
        self.items.capacity()
    }
}

} // verus!
