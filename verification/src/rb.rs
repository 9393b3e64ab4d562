//! A fixed-size ring of slots with one write head and one read head.
use vstd::prelude::*;

verus! {

/// A ring of `buffer_size` slots. `push` writes to the slot behind the write
/// head, `pull` reads the slot behind the read head; both heads wrap around
/// and neither waits for the other, so a writer that laps the reader
/// overwrites what was not read yet.
pub struct RingBuffer<T> {
    buffer: Vec<Option<T>>,
    read_head: usize,
    write_head: usize,
    buffer_size: usize,
}

/// What a ring holds: its slots and the slots that the two heads stand on.
pub struct Ring<T> {
    pub slots: Seq<Option<T>>,
    pub read_head: nat,
    pub write_head: nat,
}

/// The slot that follows `pos` in a ring of `size` slots.
pub open spec fn next_pos(pos: nat, size: nat) -> nat {
    (pos + 1) % size
}

impl<T> View for RingBuffer<T> {
    type V = Ring<T>;

    closed spec fn view(&self) -> Ring<T> {
        Ring {
            slots: self.buffer@,
            read_head: self.read_head as nat,
            write_head: self.write_head as nat,
        }
    }
}

impl<T> Ring<T> {
    /// Whether the ring has a slot and both heads stand on one.
    pub open spec fn well_formed(self) -> bool {
        &&& self.slots.len() > 0
        &&& self.read_head < self.slots.len()
        &&& self.write_head < self.slots.len()
    }
}

impl<T> RingBuffer<T> {
    #[verifier::type_invariant]
    spec fn inv(self) -> bool {
        &&& self.buffer_size > 0
        &&& self.buffer@.len() == self.buffer_size
        &&& self.read_head < self.buffer_size
        &&& self.write_head < self.buffer_size
    }
}

impl<T: Clone> RingBuffer<T> {
    /// A ring of `buffer_size` empty slots, both heads on the last slot, so
    /// that the first `push` and the first `pull` meet on the first slot.
    pub fn new(buffer_size: usize) -> (ring: Self)
        requires
            buffer_size > 0,
        ensures
            ring@.well_formed(),
            ring@.slots == Seq::new(buffer_size as nat, |i: int| None::<T>),
            ring@.read_head == buffer_size - 1,
            ring@.write_head == buffer_size - 1,
    {
        let mut buffer: Vec<Option<T>> = Vec::new();
        let mut i: usize = 0;
        while i < buffer_size
            invariant
                i <= buffer_size,
                buffer@ == Seq::new(i as nat, |k: int| None::<T>),
            decreases buffer_size - i,
        {
            buffer.push(None);
            i += 1;
        }
        RingBuffer {
            buffer,
            read_head: buffer_size - 1,
            write_head: buffer_size - 1,
            buffer_size,
        }
    }

    /// Moves the write head to the next slot and stores `element` there,
    /// whatever the slot held.
    pub fn push(&mut self, element: T)
        ensures
            final(self)@.well_formed(),
            final(self)@.write_head == next_pos(old(self)@.write_head, old(self)@.slots.len()),
            final(self)@.read_head == old(self)@.read_head,
            final(self)@.slots == old(self)@.slots.update(
                final(self)@.write_head as int,
                Some(element),
            ),
    {
        proof {
            use_type_invariant(&*self);
        }
        let at: usize = self.next_head_pos(self.write_head);
        self.write_head = at;
        self.buffer[at] = Some(element);
    }

    /// Moves the read head to the next slot and returns a clone of what the
    /// slot holds; the slot keeps its content.
    pub fn pull(&mut self) -> (value: Option<T>)
        ensures
            final(self)@.well_formed(),
            final(self)@.read_head == next_pos(old(self)@.read_head, old(self)@.slots.len()),
            final(self)@.write_head == old(self)@.write_head,
            final(self)@.slots == old(self)@.slots,
            match final(self)@.slots[final(self)@.read_head as int] {
                Some(held) => value.is_some() && cloned(held, value.unwrap()),
                None => value.is_none(),
            },
    {
        proof {
            use_type_invariant(&*self);
        }
        let at: usize = self.next_head_pos(self.read_head);
        self.read_head = at;
        let value = &self.buffer[at];
        value.clone()
    }

    /// The slots of the ring, first to last.
    pub fn buffer(&self) -> (slots: &Vec<Option<T>>)
        ensures
            slots@ == self@.slots,
    {
        &self.buffer
    }

    /// The slot that follows `pos_now`, wrapping around at the end of the
    /// ring.
    pub fn next_head_pos(&self, pos_now: usize) -> (next: usize)
        requires
            pos_now < usize::MAX,
        ensures
            next == next_pos(pos_now as nat, self@.slots.len()),
            next < self@.slots.len(),
    {
        proof {
            use_type_invariant(self);
        }
        (pos_now + 1) % self.buffer_size
    }
}

} // verus!
