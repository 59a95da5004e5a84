//! Collects consecutive samples into fixed-size analysis frames: every
//! sample goes into the slot at the current position, and the frame is
//! complete, and the position starts over, each time the last slot is filled.
use vstd::prelude::*;

verus! {

/// The number of samples in one spectrum analysis frame.
pub const FFT_SIZE: usize = 2048;

/// A fixed-size frame of samples and the position of the next sample.
pub struct FrameBuffer<T> {
    samples: Vec<T>,
    pos: usize,
}

/// One sample written into a frame at `pos`: the new frame, the new position
/// and whether the frame was completed by it.
pub open spec fn push_step<T>(frame: Seq<T>, pos: nat, sample: T) -> (Seq<T>, nat, bool) {
    let written = frame.update(pos as int, sample);
    if pos + 1 >= frame.len() {
        (written, 0, true)
    } else {
        (written, pos + 1, false)
    }
}

/// The frame, position and number of completed frames after pushing `xs` in
/// order.
pub open spec fn push_all<T>(frame: Seq<T>, pos: nat, xs: Seq<T>) -> (Seq<T>, nat, nat)
    decreases xs.len(),
{
    if xs.len() == 0 {
        (frame, pos, 0)
    } else {
        let (f, p, done) = push_step(frame, pos, xs[0]);
        let (g, q, n) = push_all(f, p, xs.drop_first());
        (g, q, n + if done { 1nat } else { 0nat })
    }
}

impl<T: Copy> FrameBuffer<T> {
    /// The samples of the frame, slot by slot.
    pub closed spec fn frame(self) -> Seq<T> {
        self.samples@
    }

    /// The slot that the next sample goes to.
    pub closed spec fn pos(self) -> nat {
        self.pos as nat
    }

    /// The frame has at least one slot and the position is one of them.
    pub open spec fn wf(self) -> bool {
        &&& 0 < self.frame().len()
        &&& self.pos() < self.frame().len()
    }

    /// A frame of `size` slots, each holding `fill`, at position 0.
    pub fn new(size: usize, fill: T) -> (fb: FrameBuffer<T>)
        requires
            0 < size,
        ensures
            fb.wf(),
            fb.frame() == Seq::new(size as nat, |i: int| fill),
            fb.pos() == 0,
    {
        let mut samples: Vec<T> = Vec::new();
        while samples.len() < size
            invariant
                samples.len() <= size,
                samples@ == Seq::new(samples.len() as nat, |i: int| fill),
            decreases size - samples.len(),
        {
            samples.push(fill);
        }
        FrameBuffer { samples, pos: 0 }
    }

    /// The number of slots.
    pub fn size(&self) -> (n: usize)
        ensures
            n == self.frame().len(),
    {
        self.samples.len()
    }

    /// The slot that the next sample goes to.
    pub fn position(&self) -> (p: usize)
        ensures
            p == self.pos(),
    {
        self.pos
    }

    /// The samples of the frame.
    pub fn samples(&self) -> (s: &Vec<T>)
        ensures
            s@ == self.frame(),
    {
        &self.samples
    }

    /// Writes `sample` at the current position and moves on; returns whether
    /// this filled the last slot, in which case the position is back at 0.
    pub fn push(&mut self, sample: T) -> (complete: bool)
        requires
            old(self).wf(),
        ensures
            final(self).wf(),
            (final(self).frame(), final(self).pos(), complete) == push_step(
                old(self).frame(),
                old(self).pos(),
                sample,
            ),
            final(self).frame() == old(self).frame().update(old(self).pos() as int, sample),
            complete == (old(self).pos() + 1 == old(self).frame().len()),
            final(self).pos() == (if complete {
                0
            } else {
                old(self).pos() + 1
            }),
    {
        assert(self.pos < self.samples.len());
        self.samples.set(self.pos, sample);
        self.pos = self.pos + 1;
        if self.pos >= self.samples.len() {
            self.pos = 0;
            true
        } else {
            false
        }
    }
}

/// Filling a frame: pushing `xs` from position `pos`, without passing the end
/// of the frame, writes `xs` into the slots from `pos` on, leaves the other
/// slots alone, and completes one frame exactly when the last slot is filled,
/// which brings the position back to 0.
pub proof fn lemma_push_all_fills<T>(frame: Seq<T>, pos: nat, xs: Seq<T>)
    requires
        pos < frame.len(),
        pos + xs.len() <= frame.len(),
    ensures
        push_all(frame, pos, xs).0 == frame.take(pos as int) + xs + frame.skip((pos + xs.len()) as int),
        push_all(frame, pos, xs).1 == (if pos + xs.len() == frame.len() {
            0
        } else {
            pos + xs.len()
        }),
        push_all(frame, pos, xs).2 == (if pos + xs.len() == frame.len() {
            1nat
        } else {
            0nat
        }),
    decreases xs.len(),
{
    if xs.len() == 0 {
        assert(frame.take(pos as int) + xs + frame.skip(pos as int) == frame);
    } else {
        let (f, p, done) = push_step(frame, pos, xs[0]);
        let (g, q, n) = push_all(f, p, xs.drop_first());
        assert(push_all(frame, pos, xs) == (g, q, n + if done { 1nat } else { 0nat }));
        if pos + 1 >= frame.len() {
            assert(xs.drop_first().len() == 0);
            assert(f == frame.take(pos as int) + xs + frame.skip((pos + xs.len()) as int));
        } else {
            lemma_push_all_fills(f, p, xs.drop_first());
            assert(f.take(p as int) + xs.drop_first() + f.skip((p + xs.drop_first().len()) as int)
                == frame.take(pos as int) + xs + frame.skip((pos + xs.len()) as int));
        }
    }
}

/// A whole frame's worth of samples pushed from position 0 yields exactly
/// those samples as the frame, one completed frame, and position 0 again.
pub proof fn lemma_one_frame_per_size_samples<T>(frame: Seq<T>, xs: Seq<T>)
    requires
        0 < frame.len(),
        xs.len() == frame.len(),
    ensures
        push_all(frame, 0, xs) == (xs, 0nat, 1nat),
{
    lemma_push_all_fills(frame, 0, xs);
    assert(frame.take(0) + xs + frame.skip(xs.len() as int) == xs);
}

} // verus!
