//! Progress of one read-write call through the buffers of its caller.
//!
//! The caller of a read-write call lends the bytes that it has received, and
//! two regions of memory for the bytes to send. A [`Buffers`] keeps track of
//! how many of the received bytes have been taken in, and of where the next
//! bytes to send go: into the first region until it is full, then into the
//! second.

use vstd::prelude::*;

verus! {

/// A range of bytes in one of the two regions lent for the bytes to send.
#[derive(Debug, Clone, Copy, PartialEq, Eq, Structural)]
pub struct Region {
    /// Whether the range lies in the second of the two regions.
    pub in_second: bool,
    /// Index of the first byte of the range.
    pub start: usize,
    /// Index after the last byte of the range.
    pub end: usize,
}

impl Region {
    /// Number of bytes in the range.
    pub open spec fn spec_len(self) -> nat {
        (self.end - self.start) as nat
    }

    /// The range without its first `count` bytes.
    pub open spec fn skip(self, count: nat) -> Region {
        Region { start: (self.start + count) as usize, ..self }
    }
}

/// Mathematical model of a [`Buffers`].
pub struct BuffersView {
    /// Number of bytes received that the caller lends.
    pub incoming_len: nat,
    /// How many of them have been taken in.
    pub read_bytes: nat,
    /// Length of the first region lent for the bytes to send.
    pub first_len: nat,
    /// Length of the second region lent for the bytes to send.
    pub second_len: nat,
    /// How many bytes to send have been written.
    pub written_bytes: nat,
    /// Where the next bytes to send go.
    pub target: Region,
    /// Where bytes go once `target` is full.
    pub spare: Region,
}

impl BuffersView {
    /// The buffers at the start of a call.
    pub open spec fn new(incoming_len: nat, first_len: nat, second_len: nat) -> BuffersView {
        BuffersView {
            incoming_len,
            read_bytes: 0,
            first_len,
            second_len,
            written_bytes: 0,
            target: Region { in_second: false, start: 0, end: first_len as usize },
            spare: Region { in_second: true, start: 0, end: second_len as usize },
        }
    }

    /// The invariant of the buffers: no more was read than received, no more
    /// written than there is room for, and the two ranges are what is left of
    /// the two regions.
    pub open spec fn wf(self) -> bool {
        &&& self.read_bytes <= self.incoming_len <= usize::MAX
        &&& self.first_len + self.second_len <= usize::MAX
        &&& self.target.start <= self.target.end
        &&& self.spare.start <= self.spare.end
        &&& self.target.in_second != self.spare.in_second
        &&& self.target.end == (if self.target.in_second {
            self.second_len
        } else {
            self.first_len
        })
        &&& self.spare.end == (if self.spare.in_second {
            self.second_len
        } else {
            self.first_len
        })
        &&& self.written_bytes + self.target.spec_len() + self.spare.spec_len() == self.first_len
            + self.second_len
    }

    /// Number of received bytes that have not been taken in.
    pub open spec fn incoming_left(self) -> nat {
        (self.incoming_len - self.read_bytes) as nat
    }

    /// Number of bytes that can still be written.
    pub open spec fn outgoing_left(self) -> nat {
        self.target.spec_len() + self.spare.spec_len()
    }

    /// The buffers after `count` more received bytes have been taken in.
    pub open spec fn read(self, count: nat) -> BuffersView {
        BuffersView { read_bytes: self.read_bytes + count, ..self }
    }

    /// The buffers after `count` more bytes have been written: as many as
    /// fit into the target, the others into the spare. Where this fills the
    /// target and not the spare, the spare becomes the target.
    pub open spec fn written(self, count: nat) -> BuffersView {
        let into_target = if count < self.target.spec_len() {
            count
        } else {
            self.target.spec_len()
        };
        let target = self.target.skip(into_target);
        let spare = self.spare.skip((count - into_target) as nat);
        if target.spec_len() == 0 && spare.spec_len() != 0 {
            BuffersView {
                written_bytes: self.written_bytes + count,
                target: spare,
                spare: target,
                ..self
            }
        } else {
            BuffersView { written_bytes: self.written_bytes + count, target, spare, ..self }
        }
    }
}

/// Keeps track of how far a read-write call has gone through the buffers of
/// its caller.
pub struct Buffers {
    incoming_len: usize,
    read_bytes: usize,
    first_len: usize,
    second_len: usize,
    written_bytes: usize,
    target: Region,
    spare: Region,
}

impl View for Buffers {
    type V = BuffersView;

    closed spec fn view(&self) -> BuffersView {
        BuffersView {
            incoming_len: self.incoming_len as nat,
            read_bytes: self.read_bytes as nat,
            first_len: self.first_len as nat,
            second_len: self.second_len as nat,
            written_bytes: self.written_bytes as nat,
            target: self.target,
            spare: self.spare,
        }
    }
}

impl Buffers {
    #[verifier::type_invariant]
    spec fn well_formed(&self) -> bool {
        self@.wf()
    }

    /// Starts a call on `incoming_len` received bytes and on two regions of
    /// `first_len` and `second_len` bytes for the bytes to send. `None` where
    /// the two regions together exceed what a length can hold.
    pub fn new(incoming_len: usize, first_len: usize, second_len: usize) -> (buffers: Option<
        Buffers,
    >)
        ensures
            match buffers {
                Some(b) => first_len + second_len <= usize::MAX && b@ == BuffersView::new(
                    incoming_len as nat,
                    first_len as nat,
                    second_len as nat,
                ),
                None => first_len + second_len > usize::MAX,
            },
    {
        if first_len > usize::MAX - second_len {
            return None;
        }
        Some(
            Buffers {
                incoming_len,
                read_bytes: 0,
                first_len,
                second_len,
                written_bytes: 0,
                target: Region { in_second: false, start: 0, end: first_len },
                spare: Region { in_second: true, start: 0, end: second_len },
            },
        )
    }

    /// Number of received bytes taken in so far: never more than were lent.
    pub fn read_bytes(&self) -> (count: usize)
        ensures
            count == self@.read_bytes,
            count <= self@.incoming_len,
            self@.wf(),
    {
        proof {
            use_type_invariant(self);
        }
        self.read_bytes
    }

    /// Number of bytes written so far: never more than the two regions hold
    /// together.
    pub fn written_bytes(&self) -> (count: usize)
        ensures
            count == self@.written_bytes,
            count <= self@.first_len + self@.second_len,
            self@.wf(),
    {
        proof {
            use_type_invariant(self);
        }
        self.written_bytes
    }

    /// Number of received bytes that have not been taken in.
    pub fn incoming_left(&self) -> (count: usize)
        ensures
            count == self@.incoming_left(),
    {
        proof {
            use_type_invariant(self);
        }
        self.incoming_len - self.read_bytes
    }

    /// Number of bytes that can still be written.
    pub fn outgoing_left(&self) -> (count: usize)
        ensures
            count == self@.outgoing_left(),
    {
        proof {
            use_type_invariant(self);
        }
        (self.target.end - self.target.start) + (self.spare.end - self.spare.start)
    }

    /// Where the next bytes to send go, and where they go once that is full.
    pub fn regions(&self) -> (regions: (Region, Region))
        ensures
            regions == (self@.target, self@.spare),
    {
        (self.target, self.spare)
    }

    /// Takes note that `count` more of the received bytes have been taken in.
    /// Returns `false`, and changes nothing, where fewer are left.
    pub fn advance_read(&mut self, count: usize) -> (done: bool)
        ensures
            done == (count <= old(self)@.incoming_left()),
            final(self)@ == (if done {
                old(self)@.read(count as nat)
            } else {
                old(self)@
            }),
    {
        proof {
            use_type_invariant(&*self);
        }
        if count > self.incoming_len - self.read_bytes {
            return false;
        }
        self.read_bytes = self.read_bytes + count;
        true
    }

    /// Takes note that `count` more bytes have been written, the target
    /// first. Returns `false`, and changes nothing, where less room is left.
    pub fn advance_written(&mut self, count: usize) -> (done: bool)
        ensures
            done == (count <= old(self)@.outgoing_left()),
            final(self)@ == (if done {
                old(self)@.written(count as nat)
            } else {
                old(self)@
            }),
    {
        proof {
            use_type_invariant(&*self);
        }
        let target_len: usize = self.target.end - self.target.start;
        let spare_len: usize = self.spare.end - self.spare.start;
        if count > target_len + spare_len {
            return false;
        }
        let into_target: usize = if count < target_len {
            count
        } else {
            target_len
        };
        let target = Region {
            in_second: self.target.in_second,
            start: self.target.start + into_target,
            end: self.target.end,
        };
        let spare = Region {
            in_second: self.spare.in_second,
            start: self.spare.start + (count - into_target),
            end: self.spare.end,
        };
        let written_bytes: usize = self.written_bytes + count;
        if target.start == target.end && spare.start != spare.end {
            *self =
            Buffers {
                incoming_len: self.incoming_len,
                read_bytes: self.read_bytes,
                first_len: self.first_len,
                second_len: self.second_len,
                written_bytes,
                target: spare,
                spare: target,
            };
        } else {
            *self =
            Buffers {
                incoming_len: self.incoming_len,
                read_bytes: self.read_bytes,
                first_len: self.first_len,
                second_len: self.second_len,
                written_bytes,
                target,
                spare,
            };
        }
        true
    }
}

/// Whatever is read and written in the course of a call, no more is read
/// than was received, and no more is written than the two regions hold.
pub proof fn lemma_progress_within_bounds(buffers: BuffersView, read: nat, written: nat)
    requires
        buffers.wf(),
        read <= buffers.incoming_left(),
        written <= buffers.outgoing_left(),
    ensures
        buffers.read(read).wf(),
        buffers.written(written).wf(),
        buffers.read(read).read_bytes <= buffers.incoming_len,
        buffers.written(written).written_bytes <= buffers.first_len + buffers.second_len,
        buffers.written(written).outgoing_left() == buffers.outgoing_left() - written,
{
}

} // verus!
