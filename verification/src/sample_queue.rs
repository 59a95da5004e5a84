//! The bounded FIFO that carries captured samples to the playback side.
//!
//! Samples travel as the bit patterns of their `f32` values: the queue only
//! stores and orders them, it never computes with them.
use vstd::prelude::*;
use vstd::math::min;
use ringbuf::traits::{Consumer, Observer, Producer};
use ringbuf::HeapRb;

verus! {

/// The capacity of the ring between capture and playback, in samples.
pub const RING_CAPACITY: usize = 4096;

/// A heap ring buffer of sample bit patterns, owned whole (never split into a
/// producer and a consumer), so no other party changes it between calls.
/// Its field is hidden from Verus: ringbuf's `SharedRb` cannot be declared as
/// an outside type, because its storage parameter is bound by ringbuf's own
/// `Storage` trait. What it holds is known only through `ring_contents` and
/// `ring_capacity`.
#[verifier::external_body]
pub struct SampleRing {
    rb: HeapRb<u32>,
}

/// What the ring holds, oldest first.
pub uninterp spec fn ring_contents(ring: SampleRing) -> Seq<u32>;

/// The number of samples the ring was made to hold.
pub uninterp spec fn ring_capacity(ring: SampleRing) -> nat;

impl SampleRing {
    /// The samples held, oldest first.
    pub open spec fn contents(self) -> Seq<u32> {
        ring_contents(self)
    }

    /// The fixed capacity.
    pub open spec fn capacity(self) -> nat {
        ring_capacity(self)
    }

    /// The ring never holds more than its capacity, which is positive.
    pub open spec fn wf(self) -> bool {
        &&& 0 < self.capacity()
        &&& self.contents().len() <= self.capacity()
    }

    /// Calls `HeapRb::new`: an empty ring with room for `capacity` items.
    /// `HeapRb::new` panics on a zero capacity and when the storage would pass
    /// `isize::MAX` bytes, so those inputs are left out. A failed allocation
    /// aborts as any allocation does; that is not stated.
    #[verifier::external_body]
    fn create(capacity: usize) -> (ring: SampleRing)
        requires
            0 < capacity,
            capacity * 4 <= isize::MAX,
        ensures
            ring_contents(ring) == Seq::<u32>::empty(),
            ring_capacity(ring) == capacity,
    {
        SampleRing { rb: HeapRb::<u32>::new(capacity) }
    }

    /// An empty ring with room for `capacity` samples; `None` when the
    /// capacity is zero or the storage would pass `isize::MAX` bytes.
    pub fn with_capacity(capacity: usize) -> (r: Option<SampleRing>)
        ensures
            (0 < capacity && capacity * 4 <= isize::MAX) <==> r is Some,
            r matches Some(ring) ==> ring.wf() && ring.contents() == Seq::<u32>::empty()
                && ring.capacity() == capacity,
    {
        if capacity == 0 || capacity > (isize::MAX as usize) / 4 {
            None
        } else {
            Some(SampleRing::create(capacity))
        }
    }

    /// The number of samples held.
    pub fn len(&self) -> (n: usize)
        ensures
            n == self.contents().len(),
    {
        self.occupied_len()
    }

    /// Calls `Producer::try_push` on the ring: the item is appended unless the
    /// ring is full (`vacant_len() == 0`), in which case it is handed back and
    /// the ring is left as it was.
    #[verifier::external_body]
    fn try_push(&mut self, sample: u32) -> (r: Result<(), u32>)
        ensures
            ring_capacity(*final(self)) == ring_capacity(*old(self)),
            ring_contents(*old(self)).len() < ring_capacity(*old(self)) ==> r is Ok
                && ring_contents(*final(self)) == ring_contents(*old(self)).push(sample),
            ring_contents(*old(self)).len() >= ring_capacity(*old(self)) ==> (r matches Err(back)
                && back == sample && ring_contents(*final(self)) == ring_contents(*old(self))),
    {
        self.rb.try_push(sample)
    }

    /// Calls `Consumer::try_pop` on the ring: removes and returns the oldest
    /// item, or `None` when the ring is empty.
    #[verifier::external_body]
    fn try_pop(&mut self) -> (r: Option<u32>)
        ensures
            ring_capacity(*final(self)) == ring_capacity(*old(self)),
            ring_contents(*old(self)).len() == 0 ==> r is None && ring_contents(*final(self))
                == ring_contents(*old(self)),
            ring_contents(*old(self)).len() > 0 ==> r == Some(ring_contents(*old(self))[0])
                && ring_contents(*final(self)) == ring_contents(*old(self)).drop_first(),
    {
        self.rb.try_pop()
    }

    /// Calls `Observer::occupied_len`: the number of items held (exact, since
    /// no producer or consumer acts concurrently on a ring owned whole).
    #[verifier::external_body]
    fn occupied_len(&self) -> (n: usize)
        ensures
            n == ring_contents(*self).len(),
    {
        self.rb.occupied_len()
    }
}

/// The number of frames of `channels` interleaved samples in `len` samples;
/// the last frame may be short.
pub open spec fn frame_count(len: nat, channels: nat) -> nat {
    if len == 0 || channels == 0 {
        0
    } else {
        ((len - 1) as nat / channels) + 1
    }
}

/// The first sample of each frame of `channels` interleaved samples, in order.
pub open spec fn frame_heads(data: Seq<u32>, channels: nat) -> Seq<u32>
    decreases data.len(),
{
    if data.len() == 0 || channels == 0 {
        Seq::empty()
    } else if data.len() <= channels {
        seq![data[0]]
    } else {
        seq![data[0]] + frame_heads(data.skip(channels as int), channels)
    }
}

/// `n` samples of silence.
pub open spec fn silence(n: nat) -> Seq<u32> {
    Seq::new(n, |i: int| 0u32)
}

/// How many frame heads of `data` a ring holding `queue`, with room for
/// `capacity`, accepts: all of them, or as many as there is room for.
pub open spec fn accepted(queue: Seq<u32>, capacity: nat, data: Seq<u32>, channels: nat) -> int {
    min(frame_heads(data, channels).len() as int, capacity - queue.len())
}

/// The ring's contents after capturing `data`: the accepted heads follow what
/// was queued, in order.
pub open spec fn after_capture(queue: Seq<u32>, capacity: nat, data: Seq<u32>, channels: nat) -> Seq<
    u32,
> {
    queue + frame_heads(data, channels).take(accepted(queue, capacity, data, channels))
}

/// How many of `frames` output frames a ring holding `queue` can serve.
pub open spec fn served(queue: Seq<u32>, frames: nat) -> int {
    min(frames as int, queue.len() as int)
}

/// The inputs for `frames` output frames: the oldest queued samples, then
/// silence for the frames the queue cannot serve.
pub open spec fn playback_inputs(queue: Seq<u32>, frames: nat) -> Seq<u32> {
    queue.take(served(queue, frames)) + silence((frames - served(queue, frames)) as nat)
}

/// The ring's contents after serving `frames` output frames.
pub open spec fn after_playback(queue: Seq<u32>, frames: nat) -> Seq<u32> {
    queue.skip(served(queue, frames))
}

/// The number of frames in `len` interleaved samples of `channels` channels.
pub fn frames_in(len: usize, channels: usize) -> (n: usize)
    requires
        0 < channels,
    ensures
        n == frame_count(len as nat, channels as nat),
        n == (len + channels - 1) / (channels as int),
{
    proof {
        if len == 0 {
            assert((channels - 1) / (channels as int) == 0) by (nonlinear_arith)
                requires
                    0 < channels,
            ;
        } else {
            let x: int = len - 1;
            vstd::arithmetic::div_mod::lemma_div_plus_one(x, channels as int);
            assert(len + channels - 1 == channels + x);
        }
    }
    if len == 0 {
        0
    } else {
        (len - 1) / channels + 1
    }
}

/// Captures one input block: the first channel of each frame of `data` is
/// offered to the ring in order, and the number accepted is returned. Once
/// the ring is full the remaining samples of the block are dropped.
pub fn capture_first_channel(ring: &mut SampleRing, data: &[u32], channels: usize) -> (pushed:
    usize)
    requires
        old(ring).wf(),
        0 < channels,
    ensures
        final(ring).wf(),
        final(ring).capacity() == old(ring).capacity(),
        pushed == accepted(old(ring).contents(), old(ring).capacity(), data@, channels as nat),
        final(ring).contents() == after_capture(
            old(ring).contents(),
            old(ring).capacity(),
            data@,
            channels as nat,
        ),
        pushed == min(
            (data@.len() + channels - 1) / (channels as int),
            old(ring).capacity() - old(ring).contents().len(),
        ),
        final(ring).contents().len() == old(ring).contents().len() + pushed,
        forall|i: int|
            0 <= i < old(ring).contents().len() ==> #[trigger] final(ring).contents()[i] == old(
                ring,
            ).contents()[i],
        forall|k: int|
            old(ring).contents().len() <= k < old(ring).contents().len() + pushed
                ==> #[trigger] final(ring).contents()[k] == data@[(k - old(ring).contents().len())
                * channels],
{
    let ghost heads = frame_heads(data@, channels as nat);
    let ghost room: int = old(ring).capacity() - old(ring).contents().len();
    let ghost start_contents = old(ring).contents();
    let mut pushed: usize = 0;
    let mut start: usize = 0;
    let ghost mut offered: nat = 0;
    assert(heads.skip(0) == heads);
    assert(data@.skip(0) == data@);
    while start < data.len()
        invariant
            0 < channels,
            ring.wf(),
            ring.capacity() == old(ring).capacity(),
            room == ring.capacity() - start_contents.len(),
            heads == frame_heads(data@, channels as nat),
            start <= data.len(),
            offered <= heads.len(),
            offered <= start,
            heads.skip(offered as int) == frame_heads(data@.skip(start as int), channels as nat),
            pushed == min(offered as int, room),
            ring.contents() == start_contents + heads.take(pushed as int),
        decreases data.len() - start,
    {
        proof {
            lemma_frame_heads_len(data@.skip(start as int), channels as nat);
            reveal_with_fuel(frame_heads, 2);
        }
        let sample = data[start];
        assert(heads[offered as int] == sample) by {
            assert(heads.skip(offered as int)[0] == sample);
        }
        let r = ring.try_push(sample);
        proof {
            if r is Ok {
                assert(heads.take(pushed + 1) == heads.take(pushed as int).push(sample));
            }
        }
        if r.is_ok() {
            pushed = pushed + 1;
        }
        proof {
            offered = offered + 1;
        }
        if channels >= data.len() - start {
            proof {
                assert(heads.skip(offered - 1 as int).len() == 1);
            }
            start = data.len();
        } else {
            proof {
                assert(data@.skip(start as int).skip(channels as int) == data@.skip(start + channels));
                assert(heads.skip(offered as int) == heads.skip(offered - 1 as int).skip(1));
            }
            start = start + channels;
        }
    }
    proof {
        assert(heads.skip(offered as int).len() == 0);
        lemma_capture_keeps_queue_then_first_channel(
            start_contents,
            old(ring).capacity(),
            data@,
            channels as nat,
        );
    }
    pushed
}

/// Takes the input for `frames` output frames: the oldest samples of the
/// ring, one per frame, and silence (all-zero bits, the pattern of `0.0`) for
/// each frame the ring cannot serve.
pub fn take_for_playback(ring: &mut SampleRing, frames: usize) -> (inputs: Vec<u32>)
    requires
        old(ring).wf(),
    ensures
        final(ring).wf(),
        final(ring).capacity() == old(ring).capacity(),
        inputs@ == playback_inputs(old(ring).contents(), frames as nat),
        final(ring).contents() == after_playback(old(ring).contents(), frames as nat),
        inputs.len() == frames,
        forall|i: int|
            0 <= i < frames && i < old(ring).contents().len() ==> #[trigger] inputs@[i] == old(
                ring,
            ).contents()[i],
        forall|i: int|
            0 <= i < frames && old(ring).contents().len() <= i ==> #[trigger] inputs@[i] == 0u32,
        frames <= old(ring).contents().len() ==> inputs@ == old(ring).contents().take(frames as int)
            && final(ring).contents() == old(ring).contents().skip(frames as int),
        frames > old(ring).contents().len() ==> final(ring).contents() == Seq::<u32>::empty(),
{
    let ghost start_contents = old(ring).contents();
    let ghost served: int = min(frames as int, start_contents.len() as int);
    let mut inputs: Vec<u32> = Vec::new();
    let mut k: usize = 0;
    assert(start_contents.skip(0) == start_contents);
    while k < frames
        invariant
            ring.wf(),
            ring.capacity() == old(ring).capacity(),
            k <= frames,
            served == min(frames as int, start_contents.len() as int),
            inputs@ == start_contents.take(min(k as int, served)) + silence(
                (k - min(k as int, served)) as nat,
            ),
            ring.contents() == start_contents.skip(min(k as int, served)),
        decreases frames - k,
    {
        let r = ring.try_pop();
        let sample: u32 = match r {
            Some(x) => x,
            None => 0,
        };
        inputs.push(sample);
        proof {
            let m = min(k as int, served);
            if k < served {
                assert(start_contents.take(m + 1) == start_contents.take(m).push(sample));
                assert(start_contents.skip(m + 1) == start_contents.skip(m).drop_first());
                assert(silence(0) == Seq::<u32>::empty());
            } else {
                assert(silence((k + 1 - m) as nat) == silence((k - m) as nat).push(0u32));
            }
        }
        k = k + 1;
    }
    proof {
        lemma_playback_oldest_first_then_silence(start_contents, frames as nat);
    }
    inputs
}

/// Writes each frame's output sample to every channel of that frame: sample
/// `i` of the interleaved block of `len` samples is `outputs[i / channels]`.
pub fn spread_to_channels(outputs: &Vec<u32>, channels: usize, len: usize) -> (block: Vec<u32>)
    requires
        0 < channels,
        outputs.len() == frame_count(len as nat, channels as nat),
    ensures
        block.len() == len,
        forall|i: int| 0 <= i < len ==> #[trigger] block[i] == outputs[i / (channels as int)],
{
    let mut block: Vec<u32> = Vec::new();
    let mut frame: usize = 0;
    let mut lane: usize = 0;
    while block.len() < len
        invariant
            0 < channels,
            outputs.len() == frame_count(len as nat, channels as nat),
            block.len() <= len,
            lane < channels,
            block.len() == frame * channels + lane,
            forall|i: int| 0 <= i < block.len() ==> #[trigger] block[i] == outputs[i / (channels as int)],
        decreases len - block.len(),
    {
        let i: usize = block.len();
        proof {
            vstd::arithmetic::div_mod::lemma_fundamental_div_mod_converse(
                i as int,
                channels as int,
                frame as int,
                lane as int,
            );
            assert(frame < outputs.len()) by (nonlinear_arith)
                requires
                    i == frame * channels + lane,
                    i < len,
                    0 < channels,
                    outputs.len() == frame_count(len as nat, channels as nat),
                    lane < channels,
                    len > 0,
            {
                assert(frame * channels <= (len - 1) as int);
            }
        }
        block.push(outputs[frame]);
        if lane + 1 == channels {
            assert((frame + 1) * channels == frame * channels + channels) by (nonlinear_arith);
            lane = 0;
            frame = frame + 1;
        } else {
            lane = lane + 1;
        }
    }
    block
}

/// The number of frames among `len` interleaved samples equals the number of
/// frame heads.
pub proof fn lemma_frame_heads_len(data: Seq<u32>, channels: nat)
    ensures
        frame_heads(data, channels).len() == frame_count(data.len(), channels),
    decreases data.len(),
{
    if data.len() == 0 || channels == 0 {
    } else if data.len() <= channels {
        assert((data.len() - 1) as nat / channels == 0) by (nonlinear_arith)
            requires
                0 < data.len() <= channels,
        ;
    } else {
        lemma_frame_heads_len(data.skip(channels as int), channels);
        let x: int = data.len() - 1 - channels;
        assert((channels + x) / (channels as int) == 1 + x / (channels as int)) by {
            vstd::arithmetic::div_mod::lemma_div_plus_one(x, channels as int);
        }
    }
}

/// Only the first channel is captured: the `k`-th captured sample of a block
/// is sample `k * channels` of the interleaved block.
pub proof fn lemma_heads_are_first_channel(data: Seq<u32>, channels: nat, k: int)
    requires
        0 < channels,
        0 <= k < frame_heads(data, channels).len(),
    ensures
        k * channels < data.len(),
        frame_heads(data, channels)[k] == data[k * channels],
    decreases data.len(),
{
    if data.len() <= channels {
        assert(k == 0);
    } else if k == 0 {
    } else {
        let rest = data.skip(channels as int);
        assert(frame_heads(data, channels)[k] == frame_heads(rest, channels)[k - 1]);
        lemma_heads_are_first_channel(rest, channels, k - 1);
        assert(k * channels == (k - 1) * channels + channels) by (nonlinear_arith);
    }
}

/// The ring never holds more than its capacity: a capture into a ring within
/// its capacity leaves it within its capacity.
pub proof fn lemma_capture_within_capacity(
    queue: Seq<u32>,
    capacity: nat,
    data: Seq<u32>,
    channels: nat,
)
    requires
        queue.len() <= capacity,
    ensures
        0 <= accepted(queue, capacity, data, channels),
        after_capture(queue, capacity, data, channels).len() <= capacity,
{
}

/// A full ring drops the whole block and keeps what it held.
pub proof fn lemma_full_ring_drops_block(
    queue: Seq<u32>,
    capacity: nat,
    data: Seq<u32>,
    channels: nat,
)
    requires
        queue.len() == capacity,
    ensures
        accepted(queue, capacity, data, channels) == 0,
        after_capture(queue, capacity, data, channels) == queue,
{
    assert(frame_heads(data, channels).take(0) == Seq::<u32>::empty());
}

/// First in, first out: after a capture, playing back as many frames as the
/// ring holds yields what was queued before, then the newly accepted samples
/// in the order captured, and leaves the ring empty.
pub proof fn lemma_capture_then_playback_in_order(
    queue: Seq<u32>,
    capacity: nat,
    data: Seq<u32>,
    channels: nat,
)
    requires
        queue.len() <= capacity,
    ensures
        ({
            let q = after_capture(queue, capacity, data, channels);
            &&& playback_inputs(q, q.len()) == queue + frame_heads(data, channels).take(
                accepted(queue, capacity, data, channels),
            )
            &&& after_playback(q, q.len()) == Seq::<u32>::empty()
        }),
{
    let q = after_capture(queue, capacity, data, channels);
    assert(q.take(q.len() as int) == q);
    assert(silence(0) == Seq::<u32>::empty());
    assert(q + silence(0) == q);
}

/// Playback always yields one input per frame; an empty ring yields silence.
pub proof fn lemma_playback_one_input_per_frame(queue: Seq<u32>, frames: nat)
    ensures
        playback_inputs(queue, frames).len() == frames,
        queue.len() == 0 ==> playback_inputs(queue, frames) == silence(frames),
        queue == playback_inputs(queue, frames).take(served(queue, frames)) + after_playback(
            queue,
            frames,
        ),
{
    if queue.len() == 0 {
        assert(queue.take(0) + silence(frames) == silence(frames));
    }
    let n = served(queue, frames);
    assert(playback_inputs(queue, frames).take(n) == queue.take(n));
    assert(queue.take(n) + queue.skip(n) == queue);
}

/// What a capture does, whatever the ring held before: it accepts one sample
/// per frame of the block (the block's length divided by the channel count,
/// rounded up) or as many as there is room for, whichever is fewer; what was
/// queued stays in place, and behind it come `data[0]`, `data[channels]`,
/// `data[2 * channels]`, ... for that many frames.
pub proof fn lemma_capture_keeps_queue_then_first_channel(
    queue: Seq<u32>,
    capacity: nat,
    data: Seq<u32>,
    channels: nat,
)
    requires
        0 < channels,
        queue.len() <= capacity,
    ensures
        accepted(queue, capacity, data, channels) == min(
            (data.len() + channels - 1) / (channels as int),
            capacity - queue.len(),
        ),
        after_capture(queue, capacity, data, channels).len() == queue.len() + min(
            (data.len() + channels - 1) / (channels as int),
            capacity - queue.len(),
        ),
        forall|i: int|
            0 <= i < queue.len() ==> #[trigger] after_capture(queue, capacity, data, channels)[i]
                == queue[i],
        forall|j: int|
            queue.len() <= j < queue.len() + min(
                (data.len() + channels - 1) / (channels as int),
                capacity - queue.len(),
            ) ==> #[trigger] after_capture(queue, capacity, data, channels)[j] == data[(j
                - queue.len()) * channels],
        forall|k: int|
            0 <= k < min((data.len() + channels - 1) / (channels as int), capacity - queue.len())
                ==> #[trigger] frame_heads(data, channels)[k] == data[k * channels] && k * channels
                < data.len(),
{
    let heads = frame_heads(data, channels);
    lemma_frame_heads_len(data, channels);
    if data.len() == 0 {
        assert((channels - 1) / (channels as int) == 0) by (nonlinear_arith)
            requires
                0 < channels,
        ;
    } else {
        let x: int = data.len() - 1;
        vstd::arithmetic::div_mod::lemma_div_plus_one(x, channels as int);
        assert(data.len() + channels - 1 == channels + x);
    }
    let n = min((data.len() + channels - 1) / (channels as int), capacity - queue.len());
    assert(heads.len() == (data.len() + channels - 1) / (channels as int));
    let q = after_capture(queue, capacity, data, channels);
    assert forall|k: int| 0 <= k < n implies #[trigger] heads[k] == data[k * channels] && k
        * channels < data.len() by {
        lemma_heads_are_first_channel(data, channels, k);
    }
    assert forall|j: int| queue.len() <= j < queue.len() + n implies #[trigger] q[j] == data[(j
        - queue.len()) * channels] by {
        let k = j - queue.len();
        lemma_heads_are_first_channel(data, channels, k);
        assert(q[j] == heads.take(n)[k]);
    }
    assert forall|i: int| 0 <= i < queue.len() implies #[trigger] q[i] == queue[i] by {
    }
    assert(accepted(queue, capacity, data, channels) == n);
    assert(q.len() == queue.len() + n);
}

/// What playback does, whatever the ring holds: one input per frame; frame
/// `i` gets the `i`-th oldest queued sample while there is one, and the
/// all-zero pattern (silence) otherwise; the ring keeps exactly the samples
/// not taken, so with at least `frames` samples queued it plays no silence.
pub proof fn lemma_playback_oldest_first_then_silence(queue: Seq<u32>, frames: nat)
    ensures
        ({
            let n: int = if frames <= queue.len() {
                frames as int
            } else {
                queue.len() as int
            };
            let out = playback_inputs(queue, frames);
            &&& out.len() == frames
            &&& forall|i: int| 0 <= i < n ==> #[trigger] out[i] == queue[i]
            &&& forall|i: int| n <= i < frames ==> #[trigger] out[i] == 0u32
            &&& after_playback(queue, frames) == queue.skip(n)
            &&& frames <= queue.len() ==> out == queue.take(frames as int)
        }),
{
    let n: int = if frames <= queue.len() {
        frames as int
    } else {
        queue.len() as int
    };
    let out = playback_inputs(queue, frames);
    assert(served(queue, frames) == n);
    if frames <= queue.len() {
        assert(silence(0) =~= Seq::<u32>::empty());
        assert(out =~= queue.take(frames as int));
    }
}

} // verus!
