//! A fixed-size byte queue with one producer and one consumer. The buffer is
//! split once into a [`Writer`] and a [`Reader`]; bytes come out in the order
//! in which they went in. One slot always stays free, so a buffer of `SIZE`
//! slots holds at most `SIZE - 1` bytes.
use vstd::prelude::*;

verus! {

#[derive(Debug)]
pub enum Error {
    AlreadySplit,
    WouldBlock,
}

/// Slot of the `i`-th queued byte when the queue starts at `start`.
pub open spec fn slot(start: int, i: int, size: int) -> int {
    if start + i < size {
        start + i
    } else {
        start + i - size
    }
}

#[derive(Debug)]
pub struct RingBuffer<const SIZE: usize> {
    data: Vec<u8>,
    read_index: usize,
    write_index: usize,
    is_split: bool,
}

impl<const SIZE: usize> View for RingBuffer<SIZE> {
    type V = Seq<u8>;

    /// The queued bytes, oldest first.
    closed spec fn view(&self) -> Seq<u8> {
        Seq::new(
            self.fill() as nat,
            |i: int| self.data@[slot(self.read_index as int, i, SIZE as int)],
        )
    }
}

impl<const SIZE: usize> RingBuffer<SIZE> {
    /// The storage has `SIZE` slots and both indices point into it.
    pub closed spec fn wf(&self) -> bool {
        &&& self.data@.len() == SIZE
        &&& SIZE > 0 ==> self.read_index < SIZE && self.write_index < SIZE
        &&& SIZE == 0 ==> self.read_index == 0 && self.write_index == 0
    }

    spec fn fill(&self) -> int {
        if self.read_index <= self.write_index {
            self.write_index - self.read_index
        } else {
            self.write_index + SIZE - self.read_index
        }
    }

    /// A buffer of `SIZE` slots holds at most `SIZE - 1` bytes.
    pub proof fn lemma_len_bound(&self)
        requires
            SIZE > 0,
            self.wf(),
        ensures
            self@.len() <= SIZE - 1,
    {
    }

    /// The bytes queued, as the indices count them.
    pub closed spec fn spec_fill_level(&self) -> int {
        self.fill()
    }

    /// The bytes that can still be queued, as the indices count them.
    pub closed spec fn spec_free_space(&self) -> int {
        if self.read_index <= self.write_index {
            SIZE - self.write_index + self.read_index - 1
        } else {
            self.read_index - self.write_index - 1
        }
    }

    /// In every state the free space and the fill level add up to
    /// `SIZE - 1`, and the fill level is the number of queued bytes: those
    /// pushed and not yet popped.
    pub proof fn law_space_accounting(&self)
        requires
            SIZE > 0,
            self.wf(),
        ensures
            self.spec_free_space() + self.spec_fill_level() == SIZE - 1,
            self.spec_fill_level() == self@.len(),
            self.spec_free_space() >= 0,
    {
    }

    /// Whether the buffer was split into its writer and reader.
    pub closed spec fn spec_is_split(&self) -> bool {
        self.is_split
    }

    pub fn new() -> (buffer: Self)
        ensures
            buffer.wf(),
            buffer@ == Seq::<u8>::empty(),
            !buffer.spec_is_split(),
    {
        let mut data: Vec<u8> = Vec::new();
        let mut i: usize = 0;
        while i < SIZE
            invariant
                data@.len() == i,
                i <= SIZE,
            decreases SIZE - i,
        {
            data.push(0);
            i = i + 1;
        }
        let buffer = Self { data, read_index: 0, write_index: 0, is_split: false };
        assert(buffer@ =~= Seq::<u8>::empty());
        buffer
    }

    fn free_space(&self) -> (free: usize)
        requires
            SIZE > 0,
            self.wf(),
        ensures
            free == SIZE - 1 - self@.len(),
            free == self.spec_free_space(),
    {
        let read_index = self.read_index;
        let write_index = self.write_index;
        if read_index <= write_index {
            SIZE - write_index + read_index - 1
        } else {
            read_index - write_index - 1
        }
    }

    fn fill_level(&self) -> (fill: usize)
        requires
            self.wf(),
        ensures
            fill == self@.len(),
            fill == self.spec_fill_level(),
    {
        let read_index = self.read_index;
        let write_index = self.write_index;
        if read_index <= write_index {
            write_index - read_index
        } else {
            SIZE - read_index + write_index
        }
    }

    fn increment_index(index: usize) -> (next: usize)
        requires
            index < SIZE,
        ensures
            next == slot(index as int, 1, SIZE as int),
    {
        let mut next = index + 1;
        if next >= SIZE {
            next = 0;
        }
        next
    }

    fn push(&mut self, data: u8) -> (result: Result<(), Error>)
        requires
            SIZE > 0,
            old(self).wf(),
        ensures
            final(self).wf(),
            final(self).spec_is_split() == old(self).spec_is_split(),
            old(self)@.len() == SIZE - 1 ==> (result matches Err(Error::WouldBlock)) && final(self)@ == old(self)@,
            old(self)@.len() < SIZE - 1 ==> result is Ok && final(self)@ == old(self)@.push(data),
            final(self)@.len() <= SIZE - 1,
    {
        if self.free_space() < 1 {
            return Err(Error::WouldBlock);
        }
        let write_index = self.write_index;
        self.data.set(write_index, data);
        self.write_index = Self::increment_index(write_index);
        proof {
            let old_view = old(self)@;
            assert forall|i: int| 0 <= i < old_view.len() implies #[trigger] self@[i]
                == old_view[i] by {
                assert(slot(self.read_index as int, i, SIZE as int) != write_index);
            }
            assert(self@ =~= old_view.push(data));
        }
        Ok(())
    }

    fn pop(&mut self) -> (result: Result<u8, Error>)
        requires
            old(self).wf(),
        ensures
            final(self).wf(),
            final(self).spec_is_split() == old(self).spec_is_split(),
            old(self)@.len() == 0 ==> (result matches Err(Error::WouldBlock)) && final(self)@ == old(self)@,
            old(self)@.len() > 0 ==> result == Ok::<u8, Error>(old(self)@[0]) && final(self)@
                == old(self)@.drop_first(),
    {
        if self.fill_level() < 1 {
            return Err(Error::WouldBlock);
        }
        let read_index = self.read_index;
        let data = self.data[read_index];
        self.read_index = Self::increment_index(read_index);
        proof {
            assert(self@ =~= old(self)@.drop_first());
        }
        Ok(data)
    }

    /// Hands out the writer and the reader; only once.
    pub fn split(&mut self) -> (result: Result<(Writer<SIZE>, Reader<SIZE>), Error>)
        requires
            old(self).wf(),
        ensures
            final(self).wf(),
            final(self)@ == old(self)@,
            final(self).spec_is_split(),
            old(self).spec_is_split() ==> (result matches Err(Error::AlreadySplit)),
            !old(self).spec_is_split() ==> result is Ok,
    {
        if !self.is_split {
            self.is_split = true;
            Ok((Writer {  }, Reader {  }))
        } else {
            Err(Error::AlreadySplit)
        }
    }
}

/// The producing end of a [`RingBuffer`].
#[derive(Debug)]
pub struct Writer<const SIZE: usize> {}

/// The consuming end of a [`RingBuffer`].
#[derive(Debug)]
pub struct Reader<const SIZE: usize> {}

impl<const SIZE: usize> Writer<SIZE> {
    /// Queues `data`, or answers `WouldBlock` when the buffer is full.
    pub fn push(&mut self, buffer: &mut RingBuffer<SIZE>, data: u8) -> (result: Result<(), Error>)
        requires
            SIZE > 0,
            old(buffer).wf(),
        ensures
            final(buffer).wf(),
            final(buffer).spec_is_split() == old(buffer).spec_is_split(),
            old(buffer)@.len() == SIZE - 1 ==> (result matches Err(Error::WouldBlock)) && final(buffer)@ == old(buffer)@,
            old(buffer)@.len() < SIZE - 1 ==> result is Ok && final(buffer)@ == old(buffer)@.push(
                data,
            ),
            final(buffer)@.len() <= SIZE - 1,
    {
        buffer.push(data)
    }
}

impl<const SIZE: usize> Reader<SIZE> {
    /// Takes the oldest byte, or answers `WouldBlock` when the buffer is
    /// empty.
    pub fn pop(&mut self, buffer: &mut RingBuffer<SIZE>) -> (result: Result<u8, Error>)
        requires
            old(buffer).wf(),
        ensures
            final(buffer).wf(),
            final(buffer).spec_is_split() == old(buffer).spec_is_split(),
            old(buffer)@.len() == 0 ==> (result matches Err(Error::WouldBlock)) && final(buffer)@
                == old(buffer)@,
            old(buffer)@.len() > 0 ==> result == Ok::<u8, Error>(old(buffer)@[0]) && final(buffer)@ == old(buffer)@.drop_first(),
    {
        buffer.pop()
    }
}


/// Bytes leave the buffer in the order in which they came in: popping
/// after a push gives the oldest byte, and the pushed byte is queued
/// behind the others.
pub proof fn law_first_in_first_out(queued: Seq<u8>, byte: u8)
    ensures
        queued.len() > 0 ==> queued.push(byte)[0] == queued[0] && queued.push(byte).drop_first()
            == queued.drop_first().push(byte),
        queued.len() == 0 ==> queued.push(byte)[0] == byte && queued.push(byte).drop_first() == queued,
{
    if queued.len() > 0 {
        assert(queued.push(byte).drop_first() =~= queued.drop_first().push(byte));
    } else {
        assert(queued.push(byte).drop_first() =~= queued);
    }
}

} // verus!
