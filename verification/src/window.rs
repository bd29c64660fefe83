//! The sliding window over the output, and the ring of the last four
//! distances.
//!
//! The window keeps the most recent bytes in a buffer that it fills in a
//! circle. What the contracts speak of is the whole output so far, of which
//! the buffer holds the tail.

use vstd::prelude::*;

verus! {

/// The last four distances, `d0` being the most recent one.
#[derive(Debug, Clone, Copy, PartialEq, Eq, Structural)]
pub struct DistanceRing {
    pub d0: u32,
    pub d1: u32,
    pub d2: u32,
    pub d3: u32,
}

/// The ring at the start of a stream: the last distance is 4, the one
/// before it 11, then 15, then 16.
pub open spec fn initial_ring() -> DistanceRing {
    DistanceRing { d0: 4, d1: 11, d2: 15, d3: 16 }
}

/// The ring after `distance` was used: it is the most recent one, and the
/// oldest one has left.
pub open spec fn ring_pushed(ring: DistanceRing, distance: u32) -> DistanceRing {
    DistanceRing { d0: distance, d1: ring.d0, d2: ring.d1, d3: ring.d2 }
}

impl DistanceRing {
    /// The ring at the start of a stream.
    pub fn new() -> (ring: DistanceRing)
        ensures
            ring == initial_ring(),
    {
        DistanceRing { d0: 4, d1: 11, d2: 15, d3: 16 }
    }

    /// Makes `distance` the most recent distance.
    pub fn push(&mut self, distance: u32)
        ensures
            *final(self) == ring_pushed(*old(self), distance),
            final(self).d0 == distance,
            final(self).d1 == old(self).d0,
            final(self).d2 == old(self).d1,
            final(self).d3 == old(self).d2,
    {
        self.d3 = self.d2;
        self.d2 = self.d1;
        self.d1 = self.d0;
        self.d0 = distance;
    }
}

/// The output after `length` bytes were copied from `distance` bytes back,
/// one at a time, so that a copy may run into the bytes it has just made.
pub open spec fn copied(output: Seq<u8>, distance: nat, length: nat) -> Seq<u8>
    decreases length,
{
    if length == 0 {
        output
    } else {
        copied(output.push(output[output.len() - distance]), distance, (length - 1) as nat)
    }
}

/// A copy of `length` bytes makes the output `length` bytes longer and
/// leaves what was there.
pub proof fn lemma_copied_len(output: Seq<u8>, distance: nat, length: nat)
    ensures
        copied(output, distance, length).len() == output.len() + length,
        copied(output, distance, length).subrange(0, output.len() as int) == output,
    decreases length,
{
    if length > 0 {
        let next = output.push(output[output.len() - distance]);
        lemma_copied_len(next, distance, (length - 1) as nat);
        assert(copied(output, distance, length).subrange(0, output.len() as int) =~= next.subrange(
            0,
            output.len() as int,
        ));
        assert(next.subrange(0, output.len() as int) =~= output);
    } else {
        assert(output.subrange(0, output.len() as int) =~= output);
    }
}

/// The most recent byte of the output, or 0 where there is none.
pub open spec fn last_byte(output: Seq<u8>) -> u8 {
    if output.len() >= 1 {
        output[output.len() - 1]
    } else {
        0
    }
}

/// The byte before the most recent one, or 0 where there is none.
pub open spec fn second_last_byte(output: Seq<u8>) -> u8 {
    if output.len() >= 2 {
        output[output.len() - 2]
    } else {
        0
    }
}

/// The place in a buffer of `size` bytes, written in a circle with `head`
/// as the next place to write, of byte that was written `back` bytes before
/// the most recent one.
pub open spec fn slot(head: int, size: int, back: int) -> int {
    if back < head {
        head - 1 - back
    } else {
        head + size - 1 - back
    }
}

/// The window: the last bytes of the output, as many as the window size
/// allows.
pub struct WindowBuffer {
    buf: Vec<u8>,
    head: usize,
    filled: usize,
    p1: u8,
    p2: u8,
    output: Ghost<Seq<u8>>,
}

impl WindowBuffer {
    /// All the bytes that were emitted since the start of the stream.
    pub closed spec fn output(&self) -> Seq<u8> {
        self.output@
    }

    /// The number of bytes that were emitted since the start of the
    /// stream.
    pub open spec fn count_output(&self) -> nat {
        self.output().len()
    }

    /// The window size.
    pub closed spec fn size(&self) -> nat {
        self.buf@.len()
    }

    /// The number of bytes that a copy can reach back: the whole output so
    /// far, but no more than the window size.
    pub open spec fn reach(&self) -> nat {
        if self.count_output() < self.size() {
            self.count_output()
        } else {
            self.size()
        }
    }

    /// The buffer holds the tail of the output.
    pub closed spec fn wf(&self) -> bool {
        &&& self.buf@.len() > 0
        &&& self.head < self.buf@.len()
        &&& self.filled == self.reach()
        &&& self.p1 == last_byte(self.output@)
        &&& self.p2 == second_last_byte(self.output@)
        &&& forall|back: int|
            0 <= back < self.filled ==> self.buf@[#[trigger] slot(
                self.head as int,
                self.buf@.len() as int,
                back,
            )] == self.output@[self.output@.len() - 1 - back]
    }

    /// An empty window of `size` bytes.
    pub fn new(size: usize) -> (window: WindowBuffer)
        requires
            size > 0,
        ensures
            window.wf(),
            window.size() == size,
            window.output() == Seq::<u8>::empty(),
    {
        WindowBuffer {
            buf: vec![0u8; size],
            head: 0,
            filled: 0,
            p1: 0,
            p2: 0,
            output: Ghost(Seq::empty()),
        }
    }

    /// The number of bytes that a copy can reach back.
    pub fn max_distance(&self) -> (n: usize)
        requires
            self.wf(),
        ensures
            n == self.reach(),
    {
        self.filled
    }

    /// The most recent byte, or 0 where there is none.
    pub fn p1(&self) -> (b: u8)
        requires
            self.wf(),
        ensures
            b == last_byte(self.output()),
    {
        self.p1
    }

    /// The byte before the most recent one, or 0 where there is none.
    pub fn p2(&self) -> (b: u8)
        requires
            self.wf(),
        ensures
            b == second_last_byte(self.output()),
    {
        self.p2
    }

    /// Appends `b` to the output: into the window, and to `sink`.
    pub fn emit(&mut self, b: u8, sink: &mut Vec<u8>)
        requires
            old(self).wf(),
        ensures
            final(self).wf(),
            final(self).size() == old(self).size(),
            final(self).output() == old(self).output().push(b),
            final(sink)@ == old(sink)@.push(b),
    {
        let size = self.buf.len();
        let ghost before = *self;
        self.buf.set(self.head, b);
        self.head = if self.head + 1 == size {
            0
        } else {
            self.head + 1
        };
        if self.filled < size {
            self.filled = self.filled + 1;
        }
        self.p2 = self.p1;
        self.p1 = b;
        self.output = Ghost(self.output@.push(b));
        sink.push(b);
        proof {
            assert forall|back: int| 0 <= back < self.filled implies self.buf@[#[trigger] slot(
                self.head as int,
                size as int,
                back,
            )] == self.output@[self.output@.len() - 1 - back] by {
                if back > 0 {
                    assert(slot(self.head as int, size as int, back) == slot(
                        before.head as int,
                        size as int,
                        back - 1,
                    ));
                }
            }
        }
    }

    /// Copies `length` bytes from `distance` bytes back to the end of the
    /// output, one at a time.
    pub fn copy(&mut self, length: u32, distance: usize, sink: &mut Vec<u8>)
        requires
            old(self).wf(),
            1 <= distance <= old(self).reach(),
        ensures
            final(self).wf(),
            final(self).size() == old(self).size(),
            final(self).output() == copied(old(self).output(), distance as nat, length as nat),
            final(self).count_output() == old(self).count_output() + length,
            final(sink)@ == old(sink)@ + final(self).output().subrange(
                old(self).count_output() as int,
                final(self).count_output() as int,
            ),
    {
        let size = self.buf.len();
        let mut done: u32 = 0;
        while done < length
            invariant
                self.wf(),
                self.buf@.len() == size,
                self.size() == old(self).size(),
                1 <= distance <= self.reach(),
                done <= length,
                self.count_output() == old(self).count_output() + done,
                copied(old(self).output(), distance as nat, length as nat) == copied(
                    self.output(),
                    distance as nat,
                    (length - done) as nat,
                ),
                sink@ == old(sink)@ + self.output().subrange(
                    old(self).count_output() as int,
                    self.count_output() as int,
                ),
            decreases length - done,
        {
            let from: usize = if distance <= self.head {
                self.head - distance
            } else {
                self.head + (size - distance)
            };
            assert(from == slot(self.head as int, size as int, distance - 1));
            let b = self.buf[from];
            self.emit(b, sink);
            done = done + 1;
            assert(sink@ =~= old(sink)@ + self.output().subrange(
                old(self).count_output() as int,
                self.count_output() as int,
            ));
        }
    }
}

} // verus!
