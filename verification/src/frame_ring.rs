use vstd::prelude::*;

verus! {

/// A frame handed to a buffer had the wrong number of samples.
#[derive(Debug, Clone, Copy, PartialEq, Eq, Structural)]
pub struct FrameSizeError {
    /// The number of samples a frame must have.
    pub expected: usize,
    /// The number of samples the frame had.
    pub actual: usize,
}

/// `s` with the samples from `start` on replaced by `src`.
pub open spec fn splice<T>(s: Seq<T>, start: int, src: Seq<T>) -> Seq<T> {
    s.subrange(0, start) + src + s.subrange(start + src.len(), s.len() as int)
}

/// `k * len + len <= len * count` whenever `k < count`: frame `k` lies inside the buffer.
pub proof fn lemma_frame_in_bounds(k: nat, count: nat, len: nat)
    requires
        k < count,
    ensures
        k * len + len <= len * count,
        0 <= k * len,
{
    assert(k * len + len <= len * count) by (nonlinear_arith)
        requires
            k < count,
    ;
    assert(0 <= k * len) by (nonlinear_arith);
}

/// Frames `j < k` do not overlap: frame `j` ends where frame `k` may start at the earliest.
pub proof fn lemma_frames_ordered(j: nat, k: nat, len: nat)
    requires
        j < k,
    ensures
        j * len + len <= k * len,
{
    assert(j * len + len <= k * len) by (nonlinear_arith)
        requires
            j < k,
    ;
}

/// The abstract state of a [`FrameRing`].
pub struct FrameRingView<T> {
    /// All samples, frame after frame.
    pub samples: Seq<T>,
    /// Samples per frame.
    pub frame_len: nat,
    /// Number of frames held.
    pub frame_count: nat,
    /// The frame the next read comes from.
    pub read_index: nat,
    /// The frame the next write goes to.
    pub write_index: nat,
}

impl<T> FrameRingView<T> {
    /// The buffer holds exactly `frame_count` frames and both indices name one of them.
    pub open spec fn valid(self) -> bool {
        &&& self.samples.len() == self.frame_len * self.frame_count
        &&& self.frame_count > 0 ==> self.read_index < self.frame_count
        &&& self.frame_count > 0 ==> self.write_index < self.frame_count
    }

    /// The index of the frame after frame `i`, wrapping round.
    pub open spec fn next_index(self, i: nat) -> nat {
        (i + 1) % self.frame_count
    }

    /// The samples of frame `k`.
    pub open spec fn frame(self, k: nat) -> Seq<T> {
        self.samples.subrange((k * self.frame_len) as int, (k * self.frame_len + self.frame_len) as int)
    }

    /// The state after `input` is written to the write frame.
    pub open spec fn after_write(self, input: Seq<T>) -> FrameRingView<T> {
        FrameRingView {
            samples: splice(self.samples, (self.write_index * self.frame_len) as int, input),
            frame_len: self.frame_len,
            frame_count: self.frame_count,
            read_index: self.read_index,
            write_index: self.next_index(self.write_index),
        }
    }

    /// The state after the read frame has been read.
    pub open spec fn after_read(self) -> FrameRingView<T> {
        FrameRingView {
            samples: self.samples,
            frame_len: self.frame_len,
            frame_count: self.frame_count,
            read_index: self.next_index(self.read_index),
            write_index: self.write_index,
        }
    }
}

/// A buffer of `frame_count` frames of `frame_len` samples each, written and
/// read one frame at a time, each side going round the frames in order.
pub struct FrameRing<T> {
    samples: Vec<T>,
    frame_len: usize,
    frame_count: usize,
    read_index: usize,
    write_index: usize,
}

impl<T> View for FrameRing<T> {
    type V = FrameRingView<T>;

    closed spec fn view(&self) -> FrameRingView<T> {
        FrameRingView {
            samples: self.samples@,
            frame_len: self.frame_len as nat,
            frame_count: self.frame_count as nat,
            read_index: self.read_index as nat,
            write_index: self.write_index as nat,
        }
    }
}

impl<T: Copy> FrameRing<T> {
    /// Well-formedness: the abstract state is valid.
    pub open spec fn wf(&self) -> bool {
        self@.valid()
    }

    /// A ring of `frame_count` frames of `frame_len` samples, every sample
    /// `fill`, with reading and writing both starting at frame `start_index`.
    pub fn new(frame_len: usize, frame_count: usize, start_index: usize, fill: T) -> (ring: Self)
        requires
            frame_len * frame_count <= usize::MAX,
            frame_count > 0 ==> start_index < frame_count,
        ensures
            ring.wf(),
            ring@.samples == Seq::new((frame_len * frame_count) as nat, |i: int| fill),
            ring@.frame_len == frame_len,
            ring@.frame_count == frame_count,
            ring@.read_index == start_index,
            ring@.write_index == start_index,
    {
        let total = frame_len * frame_count;
        let mut samples: Vec<T> = Vec::new();
        let mut i: usize = 0;
        while i < total
            invariant
                i <= total,
                samples@ == Seq::new(i as nat, |j: int| fill),
            decreases total - i,
        {
            samples.push(fill);
            i = i + 1;
            proof {
                assert(samples@ =~= Seq::new(i as nat, |j: int| fill));
            }
        }
        FrameRing { samples, frame_len, frame_count, read_index: start_index, write_index: start_index }
    }

    /// Copies `input` into the write frame and moves the write index on to
    /// the next frame. A frame of the wrong length is refused and nothing changes.
    pub fn write_frame(&mut self, input: &[T]) -> (res: Result<(), FrameSizeError>)
        requires
            old(self).wf(),
            old(self)@.frame_count > 0,
        ensures
            final(self).wf(),
            match res {
                Ok(()) => {
                    &&& input@.len() == old(self)@.frame_len
                    &&& final(self)@ == old(self)@.after_write(input@)
                    &&& final(self)@.samples.len() == old(self)@.samples.len()
                    &&& forall|j: int|
                        0 <= j < old(self)@.samples.len() ==> #[trigger] final(self)@.samples[j] == (if old(self)@.write_index
                            * old(self)@.frame_len <= j < old(self)@.write_index * old(self)@.frame_len
                            + old(self)@.frame_len {
                            input@[j - old(self)@.write_index * old(self)@.frame_len]
                        } else {
                            old(self)@.samples[j]
                        })
                },
                Err(e) => {
                    &&& input@.len() != old(self)@.frame_len
                    &&& e == FrameSizeError { expected: old(self)@.frame_len as usize, actual: input@.len() as usize }
                    &&& final(self)@ == old(self)@
                },
            },
    {
        if input.len() != self.frame_len {
            return Err(FrameSizeError { expected: self.frame_len, actual: input.len() });
        }
        proof {
            lemma_frame_in_bounds(self.write_index as nat, self.frame_count as nat, self.frame_len as nat);
        }
        let total = self.samples.len();
        let start = self.write_index * self.frame_len;
        let ghost old_samples = self.samples@;
        let mut i: usize = 0;
        while i < input.len()
            invariant
                self.frame_len == input@.len(),
                self.frame_len == old(self).frame_len,
                self.frame_count == old(self).frame_count,
                self.read_index == old(self).read_index,
                self.write_index == old(self).write_index,
                self.write_index < self.frame_count,
                total == old_samples.len(),
                start + self.frame_len <= self.samples@.len(),
                self.samples@.len() == old_samples.len(),
                i <= input@.len(),
                forall|j: int| 0 <= j < start ==> self.samples@[j] == old_samples[j],
                forall|j: int| start + input@.len() <= j < old_samples.len() ==> self.samples@[j] == old_samples[j],
                forall|j: int| 0 <= j < i ==> self.samples@[start + j] == input@[j],
                forall|j: int| start + i <= j < old_samples.len() ==> self.samples@[j] == old_samples[j],
            decreases input@.len() - i,
        {
            self.samples.set(start + i, input[i]);
            i = i + 1;
        }
        proof {
            assert(self.samples@ =~= splice(old_samples, start as int, input@));
        }
        self.write_index = (self.write_index + 1) % self.frame_count;
        Ok(())
    }

    /// Copies the read frame into `output` and moves the read index on to the
    /// next frame. An output of the wrong length is refused and nothing changes.
    pub fn read_frame(&mut self, output: &mut [T]) -> (res: Result<(), FrameSizeError>)
        requires
            old(self).wf(),
            old(self)@.frame_count > 0,
        ensures
            final(self).wf(),
            match res {
                Ok(()) => {
                    &&& old(output)@.len() == old(self)@.frame_len
                    &&& final(output)@ == old(self)@.frame(old(self)@.read_index)
                    &&& forall|j: int|
                        0 <= j < old(self)@.frame_len ==> #[trigger] final(output)@[j] == old(self)@.samples[old(self)@.read_index
                            * old(self)@.frame_len + j]
                    &&& final(self)@ == old(self)@.after_read()
                },
                Err(e) => {
                    &&& old(output)@.len() != old(self)@.frame_len
                    &&& e == FrameSizeError { expected: old(self)@.frame_len as usize, actual: old(output)@.len() as usize }
                    &&& final(output)@ == old(output)@
                    &&& final(self)@ == old(self)@
                },
            },
    {
        if output.len() != self.frame_len {
            return Err(FrameSizeError { expected: self.frame_len, actual: output.len() });
        }
        proof {
            lemma_frame_in_bounds(self.read_index as nat, self.frame_count as nat, self.frame_len as nat);
        }
        let total = self.samples.len();
        let start = self.read_index * self.frame_len;
        let mut i: usize = 0;
        while i < output.len()
            invariant
                output@.len() == self.frame_len,
                total == self.samples@.len(),
                start + self.frame_len <= self.samples@.len(),
                i <= output@.len(),
                forall|j: int| 0 <= j < i ==> output@[j] == self.samples@[start + j],
            decreases output@.len() - i,
        {
            output[i] = self.samples[start + i];
            i = i + 1;
        }
        proof {
            assert(output@ =~= self@.frame(self@.read_index));
        }
        self.read_index = (self.read_index + 1) % self.frame_count;
        Ok(())
    }

    /// All samples of the ring, frame after frame.
    pub fn samples(&self) -> (s: &[T])
        ensures
            s@ == self@.samples,
    {
        self.samples.as_slice()
    }

    /// Samples per frame.
    pub fn frame_len(&self) -> (n: usize)
        ensures
            n == self@.frame_len,
    {
        self.frame_len
    }

    /// Number of frames held.
    pub fn frame_count(&self) -> (n: usize)
        ensures
            n == self@.frame_count,
    {
        self.frame_count
    }

    /// Replaces sample `index` (counted over all frames) by `value`; nothing else changes.
    pub fn set_sample(&mut self, index: usize, value: T)
        requires
            old(self).wf(),
            index < old(self)@.samples.len(),
        ensures
            final(self).wf(),
            final(self)@ == (FrameRingView {
                samples: old(self)@.samples.update(index as int, value),
                ..old(self)@
            }),
    {
        self.samples.set(index, value);
    }
}

/// The position `back` samples before `index` in a circular buffer of `len`
/// samples: `(index + len - back) % len`, as a filter looks back at earlier samples.
pub fn circular_offset(index: usize, back: usize, len: usize) -> (r: usize)
    requires
        index < len,
        back <= len,
    ensures
        r == (index + len - back) % (len as int),
        r < len,
        index >= back ==> r == index - back,
        index < back ==> r == index + len - back,
{
    let d = len - back;
    if index >= back {
        proof {
            assert((index + len - back) % (len as int) == index - back) by (nonlinear_arith)
                requires index >= back, index < len, back <= len;
        }
        index - back
    } else {
        proof {
            assert((index + len - back) % (len as int) == index + len - back) by (nonlinear_arith)
                requires index < back, index < len, back <= len;
        }
        index + d
    }
}

/// Frame index `i` moved on `steps` times, one frame at a time, wrapping after `count` frames.
pub open spec fn advance_index(i: nat, count: nat, steps: nat) -> nat
    decreases steps,
{
    if steps == 0 {
        i
    } else {
        (advance_index(i, count, (steps - 1) as nat) + 1) % count
    }
}

/// Moving on `steps` frames one at a time lands on `(i + steps) % count`.
pub proof fn lemma_advance_index(i: nat, count: nat, steps: nat)
    requires
        i < count,
    ensures
        advance_index(i, count, steps) == (i + steps) % count,
    decreases steps,
{
    if steps > 0 {
        lemma_advance_index(i, count, (steps - 1) as nat);
        assert(((i + steps - 1) % (count as int) + 1) % (count as int) == (i + steps) % count) by {
            vstd::arithmetic::div_mod::lemma_add_mod_noop_right(1, i + steps - 1, count as int);
        }
    } else {
        vstd::arithmetic::div_mod::lemma_small_mod(i, count);
    }
}

/// Writing a frame and then reading from the same frame gives back exactly what was written.
pub proof fn lemma_read_returns_write<T>(ring: FrameRingView<T>, input: Seq<T>)
    requires
        ring.valid(),
        ring.frame_count > 0,
        ring.read_index == ring.write_index,
        input.len() == ring.frame_len,
    ensures
        ring.after_write(input).frame(ring.read_index) == input,
        ring.after_write(input).after_read().read_index == ring.after_write(input).write_index,
{
    lemma_frame_in_bounds(ring.write_index, ring.frame_count, ring.frame_len);
    let w = ring.after_write(input);
    assert(w.frame(ring.read_index) =~= input);
}

/// Writing a frame leaves every other frame as it was.
pub proof fn lemma_write_keeps_other_frames<T>(ring: FrameRingView<T>, input: Seq<T>, k: nat)
    requires
        ring.valid(),
        ring.frame_count > 0,
        input.len() == ring.frame_len,
        k < ring.frame_count,
        k != ring.write_index,
    ensures
        ring.after_write(input).frame(k) == ring.frame(k),
{
    let len = ring.frame_len;
    let w = ring.write_index;
    lemma_frame_in_bounds(w, ring.frame_count, len);
    lemma_frame_in_bounds(k, ring.frame_count, len);
    if k < w {
        lemma_frames_ordered(k, w, len);
    } else {
        lemma_frames_ordered(w, k, len);
    }
    assert(ring.after_write(input).frame(k) =~= ring.frame(k));
}

/// Writes and reads keep the ring valid: the sample count never changes and
/// both indices keep naming a frame.
pub proof fn lemma_steps_keep_valid<T>(ring: FrameRingView<T>, input: Seq<T>)
    requires
        ring.valid(),
        ring.frame_count > 0,
        input.len() == ring.frame_len,
    ensures
        ring.after_write(input).valid(),
        ring.after_read().valid(),
        ring.after_write(input).samples.len() == ring.samples.len(),
{
    lemma_frame_in_bounds(ring.write_index, ring.frame_count, ring.frame_len);
}

/// After `frame_count` writes the write index is back where it started, and
/// after `frame_count` reads so is the read index.
pub proof fn lemma_indices_cycle<T>(ring: FrameRingView<T>)
    requires
        ring.valid(),
        ring.frame_count > 0,
    ensures
        advance_index(ring.write_index, ring.frame_count, ring.frame_count) == ring.write_index,
        advance_index(ring.read_index, ring.frame_count, ring.frame_count) == ring.read_index,
{
    lemma_advance_index(ring.write_index, ring.frame_count, ring.frame_count);
    lemma_advance_index(ring.read_index, ring.frame_count, ring.frame_count);
    vstd::arithmetic::div_mod::lemma_mod_add_multiples_vanish(ring.write_index as int, ring.frame_count as int);
    vstd::arithmetic::div_mod::lemma_mod_add_multiples_vanish(ring.read_index as int, ring.frame_count as int);
    vstd::arithmetic::div_mod::lemma_small_mod(ring.write_index, ring.frame_count);
    vstd::arithmetic::div_mod::lemma_small_mod(ring.read_index, ring.frame_count);
}

/// Frame `k` is the `k`-th block of `frame_len` samples: samples
/// `k * frame_len` up to `k * frame_len + frame_len`, in order.
pub proof fn lemma_frame_is_block<T>(ring: FrameRingView<T>, k: nat)
    requires
        ring.valid(),
        k < ring.frame_count,
    ensures
        ring.frame(k).len() == ring.frame_len,
        forall|j: int|
            0 <= j < ring.frame_len ==> #[trigger] ring.frame(k)[j] == ring.samples[k * ring.frame_len + j],
{
    lemma_frame_in_bounds(k, ring.frame_count, ring.frame_len);
}

/// A write puts the input, sample for sample, at samples `write_index *
/// frame_len` onwards, leaves every other sample, and moves the write index
/// on by one frame, back to 0 after the last frame.
pub proof fn lemma_write_places_samples<T>(ring: FrameRingView<T>, input: Seq<T>)
    requires
        ring.valid(),
        ring.frame_count > 0,
        input.len() == ring.frame_len,
    ensures
        ring.after_write(input).samples.len() == ring.samples.len(),
        forall|j: int|
            0 <= j < ring.samples.len() ==> #[trigger] ring.after_write(input).samples[j] == (if ring.write_index
                * ring.frame_len <= j < ring.write_index * ring.frame_len + ring.frame_len {
                input[j - ring.write_index * ring.frame_len]
            } else {
                ring.samples[j]
            }),
        ring.after_write(input).write_index == (if ring.write_index + 1 == ring.frame_count { 0 } else {
            ring.write_index + 1
        }),
        ring.after_write(input).read_index == ring.read_index,
        ring.after_read().samples == ring.samples,
        ring.after_read().read_index == (if ring.read_index + 1 == ring.frame_count { 0 } else {
            ring.read_index + 1
        }),
        ring.after_read().write_index == ring.write_index,
{
    lemma_frame_in_bounds(ring.write_index, ring.frame_count, ring.frame_len);
    lemma_wrap_once(ring.write_index + 1, ring.frame_count);
    lemma_wrap_once(ring.read_index + 1, ring.frame_count);
}

/// Writing a frame puts exactly that frame at the write index.
pub proof fn lemma_write_sets_frame<T>(ring: FrameRingView<T>, input: Seq<T>)
    requires
        ring.valid(),
        ring.frame_count > 0,
        input.len() == ring.frame_len,
    ensures
        ring.after_write(input).frame(ring.write_index) == input,
{
    lemma_frame_in_bounds(ring.write_index, ring.frame_count, ring.frame_len);
    assert(ring.after_write(input).frame(ring.write_index) =~= input);
}

/// `x % count` for `0 <= x < 2 * count`: `x` itself below `count`, else `x - count`.
pub proof fn lemma_wrap_once(x: nat, count: nat)
    requires
        count > 0,
        x < 2 * count,
    ensures
        x % count == (if x < count { x } else { (x - count) as nat }),
{
    if x < count {
        vstd::arithmetic::div_mod::lemma_small_mod(x, count);
    } else {
        vstd::arithmetic::div_mod::lemma_mod_add_multiples_vanish(x - count, count as int);
        vstd::arithmetic::div_mod::lemma_small_mod((x - count) as nat, count);
    }
}

/// The state after the frames `frames` are written one after another.
pub open spec fn write_all<T>(ring: FrameRingView<T>, frames: Seq<Seq<T>>) -> FrameRingView<T>
    decreases frames.len(),
{
    if frames.len() == 0 {
        ring
    } else {
        write_all(ring, frames.drop_last()).after_write(frames.last())
    }
}

/// The state after `k` reads.
pub open spec fn after_reads<T>(ring: FrameRingView<T>, k: nat) -> FrameRingView<T>
    decreases k,
{
    if k == 0 {
        ring
    } else {
        after_reads(ring, (k - 1) as nat).after_read()
    }
}

/// The frames that `k` successive reads hand out, in order.
pub open spec fn read_all<T>(ring: FrameRingView<T>, k: nat) -> Seq<Seq<T>>
    decreases k,
{
    if k == 0 {
        Seq::empty()
    } else {
        let before = after_reads(ring, (k - 1) as nat);
        read_all(ring, (k - 1) as nat).push(before.frame(before.read_index))
    }
}

/// Reads change only the read index, which moves on one frame per read.
proof fn lemma_after_reads<T>(ring: FrameRingView<T>, k: nat)
    requires
        ring.valid(),
        ring.frame_count > 0,
    ensures
        after_reads(ring, k).samples == ring.samples,
        after_reads(ring, k).frame_len == ring.frame_len,
        after_reads(ring, k).frame_count == ring.frame_count,
        after_reads(ring, k).read_index == advance_index(ring.read_index, ring.frame_count, k),
    decreases k,
{
    if k > 0 {
        lemma_after_reads(ring, (k - 1) as nat);
    }
}

/// Read number `j` of `k` hands out frame `(read_index + j) % frame_count`.
proof fn lemma_read_all<T>(ring: FrameRingView<T>, k: nat)
    requires
        ring.valid(),
        ring.frame_count > 0,
    ensures
        read_all(ring, k).len() == k,
        forall|j: int|
            0 <= j < k ==> #[trigger] read_all(ring, k)[j] == ring.frame(
                ((ring.read_index + j) % (ring.frame_count as int)) as nat,
            ),
    decreases k,
{
    if k > 0 {
        lemma_read_all(ring, (k - 1) as nat);
        lemma_after_reads(ring, (k - 1) as nat);
        lemma_advance_index(ring.read_index, ring.frame_count, (k - 1) as nat);
        assert forall|j: int| 0 <= j < k implies #[trigger] read_all(ring, k)[j] == ring.frame(
            ((ring.read_index + j) % (ring.frame_count as int)) as nat,
        ) by {
            if j < k - 1 {
                assert(read_all(ring, k)[j] == read_all(ring, (k - 1) as nat)[j]);
            }
        }
    }
}

/// After `k <= frame_count` writes, write number `j` sits in frame
/// `(write_index + j) % frame_count`.
proof fn lemma_write_all<T>(ring: FrameRingView<T>, frames: Seq<Seq<T>>)
    requires
        ring.valid(),
        ring.frame_count > 0,
        frames.len() <= ring.frame_count,
        forall|j: int| 0 <= j < frames.len() ==> #[trigger] frames[j].len() == ring.frame_len,
    ensures
        write_all(ring, frames).valid(),
        write_all(ring, frames).frame_len == ring.frame_len,
        write_all(ring, frames).frame_count == ring.frame_count,
        write_all(ring, frames).read_index == ring.read_index,
        write_all(ring, frames).write_index == (ring.write_index + frames.len()) % ring.frame_count,
        forall|j: int|
            0 <= j < frames.len() ==> #[trigger] write_all(ring, frames).frame(
                ((ring.write_index + j) % (ring.frame_count as int)) as nat,
            ) == frames[j],
    decreases frames.len(),
{
    let count = ring.frame_count;
    let w = ring.write_index;
    if frames.len() == 0 {
        vstd::arithmetic::div_mod::lemma_small_mod(w, count);
    } else {
        let k = frames.len();
        let prev = frames.drop_last();
        assert forall|j: int| 0 <= j < prev.len() implies #[trigger] prev[j].len() == ring.frame_len by {
            assert(prev[j] == frames[j]);
        }
        lemma_write_all(ring, prev);
        let p = write_all(ring, prev);
        let last = frames.last();
        assert(last.len() == ring.frame_len) by {
            assert(frames[k - 1].len() == ring.frame_len);
        }
        lemma_steps_keep_valid(p, last);
        lemma_write_sets_frame(p, last);
        lemma_wrap_once((w + k - 1) as nat, count);
        lemma_wrap_once((w + k) as nat, count);
        lemma_wrap_once(p.write_index + 1, count);
        assert forall|j: int| 0 <= j < k implies #[trigger] write_all(ring, frames).frame(
            ((w + j) % (count as int)) as nat,
        ) == frames[j] by {
            lemma_wrap_once((w + j) as nat, count);
            if j < k - 1 {
                assert(prev[j] == frames[j]);
                assert(p.frame(((w + j) % (count as int)) as nat) == prev[j]);
                lemma_write_keeps_other_frames(p, last, ((w + j) % (count as int)) as nat);
            }
        }
    }
}

/// Up to `frame_count` frames written one after another, starting where the
/// reads start, come back out of as many reads in the order they went in.
pub proof fn lemma_reads_follow_writes<T>(ring: FrameRingView<T>, frames: Seq<Seq<T>>)
    requires
        ring.valid(),
        ring.frame_count > 0,
        ring.read_index == ring.write_index,
        frames.len() <= ring.frame_count,
        forall|j: int| 0 <= j < frames.len() ==> #[trigger] frames[j].len() == ring.frame_len,
    ensures
        read_all(write_all(ring, frames), frames.len()) == frames,
{
    lemma_write_all(ring, frames);
    let written = write_all(ring, frames);
    lemma_read_all(written, frames.len());
    assert forall|j: int| 0 <= j < frames.len() implies #[trigger] read_all(written, frames.len())[j]
        == frames[j] by {
        assert(written.frame(((ring.write_index + j) % (ring.frame_count as int)) as nat) == frames[j]);
    }
    assert(read_all(written, frames.len()) =~= frames);
}

} // verus!
