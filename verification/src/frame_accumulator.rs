use vstd::prelude::*;
use crate::decimal::{decimal, push_decimal};
use crate::frame_ring::{FrameSizeError, splice, lemma_frame_in_bounds, lemma_frames_ordered};

verus! {

/// The abstract state of a [`FrameAccumulator`].
pub struct FrameAccumulatorView<T> {
    /// Samples per incoming frame.
    pub original_frame_size: nat,
    /// Samples per accumulated frame.
    pub target_frame_size: nat,
    /// How many incoming frames make up one accumulated frame.
    pub frame_ratio: nat,
    /// The accumulated frame being filled.
    pub input_buffer: Seq<T>,
    /// The processed frame being handed out, a slot at a time.
    pub output_buffer: Seq<T>,
    /// The slot the next incoming frame goes to.
    pub index: nat,
}

impl<T> FrameAccumulatorView<T> {
    /// Both buffers hold one accumulated frame, the ratio is that of the two
    /// frame sizes rounded down, and the slot index names a slot.
    pub open spec fn valid(self) -> bool {
        &&& self.original_frame_size > 0
        &&& self.frame_ratio == self.target_frame_size / self.original_frame_size
        &&& self.input_buffer.len() == self.target_frame_size
        &&& self.output_buffer.len() == self.target_frame_size
        &&& self.frame_ratio > 0 ==> self.index < self.frame_ratio
        &&& self.frame_ratio == 0 ==> self.index == 0
    }

    /// Whether storing one more incoming frame completes the accumulated frame.
    pub open spec fn completes_frame(self) -> bool {
        self.index + 1 == self.frame_ratio
    }

    /// The state after `input` is stored in the current slot: the slot index
    /// moves on, back to 0 once the accumulated frame is complete.
    pub open spec fn after_accept(self, input: Seq<T>) -> FrameAccumulatorView<T> {
        FrameAccumulatorView {
            input_buffer: splice(self.input_buffer, (self.index * self.original_frame_size) as int, input),
            index: if self.completes_frame() { 0 } else { self.index + 1 },
            ..self
        }
    }

    /// The slot of the output buffer that is handed out next.
    pub open spec fn output_slot(self) -> Seq<T> {
        self.output_buffer.subrange(
            (self.index * self.original_frame_size) as int,
            (self.index * self.original_frame_size + self.original_frame_size) as int,
        )
    }

    /// The state after the whole output buffer is replaced by `frame`.
    pub open spec fn with_output(self, frame: Seq<T>) -> FrameAccumulatorView<T> {
        FrameAccumulatorView { output_buffer: frame, ..self }
    }
}

/// The state after the incoming frames `frames` are stored one after another.
pub open spec fn accept_all<T>(acc: FrameAccumulatorView<T>, frames: Seq<Seq<T>>) -> FrameAccumulatorView<T>
    decreases frames.len(),
{
    if frames.len() == 0 {
        acc
    } else {
        accept_all(acc, frames.drop_last()).after_accept(frames.last())
    }
}

/// The frames `frames` laid end to end.
pub open spec fn concat_frames<T>(frames: Seq<Seq<T>>) -> Seq<T>
    decreases frames.len(),
{
    if frames.len() == 0 {
        Seq::empty()
    } else {
        concat_frames(frames.drop_last()) + frames.last()
    }
}

/// Collects incoming frames of `original_frame_size` samples into one larger
/// frame of `target_frame_size` samples, so that the larger frame can be
/// processed at once, and hands the processed samples back out one incoming
/// frame's worth at a time.
pub struct FrameAccumulator<T> {
    original_frame_size: usize,
    target_frame_size: usize,
    frame_ratio: usize,
    input_buffer: Vec<T>,
    output_buffer: Vec<T>,
    index: usize,
}

impl<T> View for FrameAccumulator<T> {
    type V = FrameAccumulatorView<T>;

    closed spec fn view(&self) -> FrameAccumulatorView<T> {
        FrameAccumulatorView {
            original_frame_size: self.original_frame_size as nat,
            target_frame_size: self.target_frame_size as nat,
            frame_ratio: self.frame_ratio as nat,
            input_buffer: self.input_buffer@,
            output_buffer: self.output_buffer@,
            index: self.index as nat,
        }
    }
}

/// `k * o + o <= t` when `k < t / o`: slot `k` lies inside a buffer of `t` samples.
proof fn lemma_slot_in_bounds(k: nat, o: nat, t: nat)
    requires
        o > 0,
        k < t / o,
    ensures
        k * o + o <= t,
        0 <= k * o,
{
    lemma_frame_in_bounds(k, t / o, o);
    assert(o * (t / o) <= t) by (nonlinear_arith)
        requires o > 0;
}

impl<T: Copy> FrameAccumulator<T> {
    /// Well-formedness: the abstract state is valid.
    pub open spec fn wf(&self) -> bool {
        self@.valid()
    }

    /// An accumulator of frames of `original_frame_size` samples into frames
    /// of `target_frame_size` samples, both buffers filled with `fill`.
    /// The ratio is `target_frame_size / original_frame_size`, rounded down.
    pub fn new(original_frame_size: usize, target_frame_size: usize, fill: T) -> (acc: Self)
        requires
            original_frame_size > 0,
        ensures
            acc.wf(),
            acc@.original_frame_size == original_frame_size,
            acc@.target_frame_size == target_frame_size,
            acc@.frame_ratio == target_frame_size / original_frame_size,
            acc@.input_buffer == Seq::new(target_frame_size as nat, |i: int| fill),
            acc@.output_buffer == Seq::new(target_frame_size as nat, |i: int| fill),
            acc@.index == 0,
    {
        let mut input_buffer: Vec<T> = Vec::new();
        let mut output_buffer: Vec<T> = Vec::new();
        let mut i: usize = 0;
        while i < target_frame_size
            invariant
                i <= target_frame_size,
                input_buffer@ == Seq::new(i as nat, |j: int| fill),
                output_buffer@ == Seq::new(i as nat, |j: int| fill),
            decreases target_frame_size - i,
        {
            input_buffer.push(fill);
            output_buffer.push(fill);
            i = i + 1;
            proof {
                assert(input_buffer@ =~= Seq::new(i as nat, |j: int| fill));
                assert(output_buffer@ =~= Seq::new(i as nat, |j: int| fill));
            }
        }
        FrameAccumulator {
            original_frame_size,
            target_frame_size,
            frame_ratio: target_frame_size / original_frame_size,
            input_buffer,
            output_buffer,
            index: 0,
        }
    }

    /// Whether the accumulated frame is a whole number of incoming frames.
    /// When it is not, the samples past the last whole slot are never used.
    pub fn sizes_divide_evenly(&self) -> (r: bool)
        requires
            self.wf(),
        ensures
            r == (self@.target_frame_size % self@.original_frame_size == 0),
    {
        self.target_frame_size % self.original_frame_size == 0
    }

    /// Samples per incoming frame.
    pub fn original_frame_size(&self) -> (n: usize)
        ensures
            n == self@.original_frame_size,
    {
        self.original_frame_size
    }

    /// Samples per accumulated frame.
    pub fn target_frame_size(&self) -> (n: usize)
        ensures
            n == self@.target_frame_size,
    {
        self.target_frame_size
    }

    /// How many incoming frames make up one accumulated frame.
    pub fn frame_ratio(&self) -> (n: usize)
        ensures
            n == self@.frame_ratio,
    {
        self.frame_ratio
    }

    /// The accumulated frame being filled.
    pub fn input_frame(&self) -> (s: &[T])
        ensures
            s@ == self@.input_buffer,
    {
        self.input_buffer.as_slice()
    }

    /// The processed frame being handed out.
    pub fn output_frame(&self) -> (s: &[T])
        ensures
            s@ == self@.output_buffer,
    {
        self.output_buffer.as_slice()
    }

    /// Stores `input` in the current slot of the accumulated frame and moves
    /// to the next slot. Returns whether this completed the accumulated frame,
    /// in which case the slot index is back at 0 and the frame is ready to be
    /// processed. An input of the wrong length is refused and nothing changes.
    pub fn accept_input(&mut self, input: &[T]) -> (res: Result<bool, FrameSizeError>)
        requires
            old(self).wf(),
            old(self)@.frame_ratio > 0,
        ensures
            final(self).wf(),
            match res {
                Ok(ready) => {
                    &&& input@.len() == old(self)@.original_frame_size
                    &&& ready == old(self)@.completes_frame()
                    &&& final(self)@ == old(self)@.after_accept(input@)
                    &&& ready == (old(self)@.index + 1 == old(self)@.frame_ratio)
                    &&& final(self)@.index == (if ready { 0 } else { old(self)@.index + 1 })
                    &&& final(self)@.output_buffer == old(self)@.output_buffer
                    &&& final(self)@.input_buffer.len() == old(self)@.input_buffer.len()
                    &&& forall|j: int|
                        0 <= j < old(self)@.input_buffer.len() ==> #[trigger] final(self)@.input_buffer[j] == (if old(
                            self,
                        )@.index * old(self)@.original_frame_size <= j < old(self)@.index * old(self)@.original_frame_size
                            + old(self)@.original_frame_size {
                            input@[j - old(self)@.index * old(self)@.original_frame_size]
                        } else {
                            old(self)@.input_buffer[j]
                        })
                },
                Err(e) => {
                    &&& input@.len() != old(self)@.original_frame_size
                    &&& e == FrameSizeError {
                        expected: old(self)@.original_frame_size as usize,
                        actual: input@.len() as usize,
                    }
                    &&& final(self)@ == old(self)@
                },
            },
    {
        if input.len() != self.original_frame_size {
            return Err(FrameSizeError { expected: self.original_frame_size, actual: input.len() });
        }
        proof {
            lemma_slot_in_bounds(self.index as nat, self.original_frame_size as nat, self.target_frame_size as nat);
        }
        let total = self.input_buffer.len();
        let start = self.index * self.original_frame_size;
        let ghost old_buffer = self.input_buffer@;
        let mut i: usize = 0;
        while i < input.len()
            invariant
                self.original_frame_size == input@.len(),
                self.original_frame_size == old(self).original_frame_size,
                self.target_frame_size == old(self).target_frame_size,
                self.frame_ratio == old(self).frame_ratio,
                self.index == old(self).index,
                self.output_buffer == old(self).output_buffer,
                self.index < self.frame_ratio,
                start == self.index * self.original_frame_size,
                start + self.original_frame_size <= total,
                total == old_buffer.len(),
                self.input_buffer@.len() == old_buffer.len(),
                i <= input@.len(),
                forall|j: int| 0 <= j < start ==> self.input_buffer@[j] == old_buffer[j],
                forall|j: int| 0 <= j < i ==> self.input_buffer@[start + j] == input@[j],
                forall|j: int| start + i <= j < old_buffer.len() ==> self.input_buffer@[j] == old_buffer[j],
            decreases input@.len() - i,
        {
            self.input_buffer.set(start + i, input[i]);
            i = i + 1;
        }
        proof {
            assert(self.input_buffer@ =~= splice(old_buffer, start as int, input@));
        }
        self.index = self.index + 1;
        if self.index == self.frame_ratio {
            self.index = 0;
            Ok(true)
        } else {
            Ok(false)
        }
    }

    /// Copies the current slot of the processed frame into `output`. An
    /// output of the wrong length is refused and left as it was.
    pub fn emit_output(&self, output: &mut [T]) -> (res: Result<(), FrameSizeError>)
        requires
            self.wf(),
            self@.frame_ratio > 0,
        ensures
            match res {
                Ok(()) => {
                    &&& old(output)@.len() == self@.original_frame_size
                    &&& final(output)@ == self@.output_slot()
                    &&& forall|j: int|
                        0 <= j < self@.original_frame_size ==> #[trigger] final(output)@[j] == self@.output_buffer[self@.index
                            * self@.original_frame_size + j]
                },
                Err(e) => {
                    &&& old(output)@.len() != self@.original_frame_size
                    &&& e == FrameSizeError {
                        expected: self@.original_frame_size as usize,
                        actual: old(output)@.len() as usize,
                    }
                    &&& final(output)@ == old(output)@
                },
            },
    {
        if output.len() != self.original_frame_size {
            return Err(FrameSizeError { expected: self.original_frame_size, actual: output.len() });
        }
        proof {
            lemma_slot_in_bounds(self.index as nat, self.original_frame_size as nat, self.target_frame_size as nat);
        }
        let total = self.output_buffer.len();
        let start = self.index * self.original_frame_size;
        let mut i: usize = 0;
        while i < output.len()
            invariant
                output@.len() == self.original_frame_size,
                start + self.original_frame_size <= total,
                total == self.output_buffer@.len(),
                i <= output@.len(),
                forall|j: int| 0 <= j < i ==> output@[j] == self.output_buffer@[start + j],
            decreases output@.len() - i,
        {
            output[i] = self.output_buffer[start + i];
            i = i + 1;
        }
        proof {
            assert(output@ =~= self@.output_slot());
        }
        Ok(())
    }

    /// Replaces the processed frame by `frame`. A frame of the wrong length is
    /// refused and nothing changes.
    pub fn replace_output_frame(&mut self, frame: Vec<T>) -> (res: Result<(), FrameSizeError>)
        requires
            old(self).wf(),
        ensures
            final(self).wf(),
            match res {
                Ok(()) => {
                    &&& frame@.len() == old(self)@.target_frame_size
                    &&& final(self)@ == old(self)@.with_output(frame@)
                    &&& final(self)@.output_buffer == frame@
                    &&& final(self)@.input_buffer == old(self)@.input_buffer
                    &&& final(self)@.index == old(self)@.index
                    &&& final(self)@.original_frame_size == old(self)@.original_frame_size
                    &&& final(self)@.target_frame_size == old(self)@.target_frame_size
                    &&& final(self)@.frame_ratio == old(self)@.frame_ratio
                },
                Err(e) => {
                    &&& frame@.len() != old(self)@.target_frame_size
                    &&& e == FrameSizeError {
                        expected: old(self)@.target_frame_size as usize,
                        actual: frame@.len() as usize,
                    }
                    &&& final(self)@ == old(self)@
                },
            },
    {
        if frame.len() != self.target_frame_size {
            return Err(FrameSizeError { expected: self.target_frame_size, actual: frame.len() });
        }
        self.output_buffer = frame;
        Ok(())
    }

    /// A one-line description: `FrameAccumulator: <original> -> <target>`.
    pub fn get_info(&self) -> (info: String)
        ensures
            info@ == "FrameAccumulator: "@ + decimal(self@.original_frame_size) + " -> "@
                + decimal(self@.target_frame_size),
    {
        let mut info = String::from_str("FrameAccumulator: ");
        push_decimal(&mut info, self.original_frame_size);
        info.append(" -> ");
        push_decimal(&mut info, self.target_frame_size);
        info
    }
}

/// Storing a frame of the right length keeps the state valid and leaves the
/// buffer lengths as they were.
pub proof fn lemma_accept_keeps_valid<T>(acc: FrameAccumulatorView<T>, input: Seq<T>)
    requires
        acc.valid(),
        acc.frame_ratio > 0,
        input.len() == acc.original_frame_size,
    ensures
        acc.after_accept(input).valid(),
{
    lemma_slot_in_bounds(acc.index, acc.original_frame_size, acc.target_frame_size);
}

/// After `k <= frame_ratio` frames stored from slot 0, the first `k` slots
/// hold those frames in order, the rest of the buffer is as it was, and the
/// slot index is `k` (or 0 once all slots are filled).
proof fn lemma_accept_prefix<T>(acc: FrameAccumulatorView<T>, frames: Seq<Seq<T>>)
    requires
        acc.valid(),
        acc.frame_ratio > 0,
        acc.index == 0,
        frames.len() <= acc.frame_ratio,
        forall|i: int| 0 <= i < frames.len() ==> #[trigger] frames[i].len() == acc.original_frame_size,
    ensures
        accept_all(acc, frames).valid(),
        accept_all(acc, frames).index == (if frames.len() == acc.frame_ratio { 0 } else { frames.len() }),
        concat_frames(frames).len() == frames.len() * acc.original_frame_size,
        accept_all(acc, frames).input_buffer == concat_frames(frames) + acc.input_buffer.subrange(
            (frames.len() * acc.original_frame_size) as int,
            acc.target_frame_size as int,
        ),
        accept_all(acc, frames).output_buffer == acc.output_buffer,
        accept_all(acc, frames).original_frame_size == acc.original_frame_size,
        accept_all(acc, frames).target_frame_size == acc.target_frame_size,
        accept_all(acc, frames).frame_ratio == acc.frame_ratio,
    decreases frames.len(),
{
    let o = acc.original_frame_size;
    let t = acc.target_frame_size;
    if frames.len() == 0 {
        assert(0 * o == 0);
        assert(acc.input_buffer.subrange(0, t as int) =~= acc.input_buffer);
        assert(concat_frames(frames) + acc.input_buffer =~= acc.input_buffer);
    } else {
        let k = frames.len();
        let prev = frames.drop_last();
        assert forall|i: int| 0 <= i < prev.len() implies #[trigger] prev[i].len() == o by {
            assert(prev[i] == frames[i]);
        }
        lemma_accept_prefix(acc, prev);
        let p = accept_all(acc, prev);
        let last = frames.last();
        assert(last.len() == o) by {
            assert(frames[k - 1].len() == o);
        }
        lemma_slot_in_bounds((k - 1) as nat, o, t);
        lemma_accept_keeps_valid(p, last);
        assert(((k - 1) as nat) * o + o == k * o) by (nonlinear_arith)
            requires k >= 1;
        let start = ((k - 1) as nat) * o;
        assert(p.input_buffer.subrange(0, start as int) =~= concat_frames(prev));
        assert(p.input_buffer.subrange((start + o) as int, t as int) =~= acc.input_buffer.subrange(
            (k * o) as int,
            t as int,
        ));
        assert(accept_all(acc, frames).input_buffer =~= concat_frames(frames) + acc.input_buffer.subrange(
            (k * o) as int,
            t as int,
        ));
    }
}

/// Starting at slot 0, `frame_ratio` incoming frames fill the first
/// `frame_ratio` slots of the accumulated frame in the order they came; only
/// the last of them completes the frame; afterwards the slot index is back at
/// 0, the samples past the last whole slot are untouched, and the next slot
/// handed out is the first slot of the processed frame.
pub proof fn lemma_accumulates_whole_frame<T>(acc: FrameAccumulatorView<T>, frames: Seq<Seq<T>>)
    requires
        acc.valid(),
        acc.frame_ratio > 0,
        acc.index == 0,
        frames.len() == acc.frame_ratio,
        forall|i: int| 0 <= i < frames.len() ==> #[trigger] frames[i].len() == acc.original_frame_size,
    ensures
        forall|k: int|
            0 <= k < acc.frame_ratio ==> (#[trigger] accept_all(acc, frames.take(k))).completes_frame() == (k
                == acc.frame_ratio - 1),
        accept_all(acc, frames).index == 0,
        accept_all(acc, frames).input_buffer.subrange(0, (acc.frame_ratio * acc.original_frame_size) as int)
            == concat_frames(frames),
        accept_all(acc, frames).input_buffer.subrange(
            (acc.frame_ratio * acc.original_frame_size) as int,
            acc.target_frame_size as int,
        ) == acc.input_buffer.subrange((acc.frame_ratio * acc.original_frame_size) as int, acc.target_frame_size as int),
        accept_all(acc, frames).output_buffer == acc.output_buffer,
        accept_all(acc, frames).output_slot() == acc.output_buffer.subrange(0, acc.original_frame_size as int),
{
    let o = acc.original_frame_size;
    let t = acc.target_frame_size;
    let r = acc.frame_ratio;
    assert forall|k: int|
        0 <= k < r implies (#[trigger] accept_all(acc, frames.take(k))).completes_frame() == (k == r - 1) by {
        let pre = frames.take(k);
        assert forall|i: int| 0 <= i < pre.len() implies #[trigger] pre[i].len() == o by {
            assert(pre[i] == frames[i]);
        }
        lemma_accept_prefix(acc, pre);
    }
    lemma_accept_prefix(acc, frames);
    lemma_slot_in_bounds((r - 1) as nat, o, t);
    assert(((r - 1) as nat) * o + o == r * o) by (nonlinear_arith)
        requires r >= 1;
    let done = accept_all(acc, frames);
    assert(done.input_buffer.subrange(0, (r * o) as int) =~= concat_frames(frames));
    assert(done.input_buffer.subrange((r * o) as int, t as int) =~= acc.input_buffer.subrange((r * o) as int, t as int));
    assert(0 * o == 0);
}

/// Slot `k` (of `o` samples) of the buffer `buf`.
pub open spec fn slot<T>(buf: Seq<T>, k: nat, o: nat) -> Seq<T> {
    buf.subrange((k * o) as int, (k * o + o) as int)
}

/// One whole pass of the host's `operate`: `input` is stored; when that
/// completes the accumulated frame, the output buffer is replaced by what
/// `process` makes of the input and output buffers (the callback); the slot
/// handed out afterwards is then `output_slot` of the result.
pub open spec fn operate_step<T>(
    acc: FrameAccumulatorView<T>,
    input: Seq<T>,
    process: spec_fn(Seq<T>, Seq<T>) -> Seq<T>,
) -> FrameAccumulatorView<T> {
    let stored = acc.after_accept(input);
    if acc.completes_frame() {
        stored.with_output(process(stored.input_buffer, stored.output_buffer))
    } else {
        stored
    }
}

/// The state after `inputs` went through `operate_step` one after another.
pub open spec fn operate_all<T>(
    acc: FrameAccumulatorView<T>,
    inputs: Seq<Seq<T>>,
    process: spec_fn(Seq<T>, Seq<T>) -> Seq<T>,
) -> FrameAccumulatorView<T>
    decreases inputs.len(),
{
    if inputs.len() == 0 {
        acc
    } else {
        operate_step(operate_all(acc, inputs.drop_last(), process), inputs.last(), process)
    }
}

/// The callback that hands the accumulated frame straight back out.
pub open spec fn pass_through<T>() -> spec_fn(Seq<T>, Seq<T>) -> Seq<T> {
    |input: Seq<T>, output: Seq<T>| input
}

/// Storing a frame in slot `i` replaces that slot and leaves every other slot.
proof fn lemma_slot_splice<T>(buf: Seq<T>, i: nat, x: Seq<T>, k: nat, o: nat, r: nat)
    requires
        i < r,
        k < r,
        x.len() == o,
        buf.len() >= r * o,
    ensures
        slot(splice(buf, (i * o) as int, x), k, o) == (if k == i { x } else { slot(buf, k, o) }),
{
    lemma_frame_in_bounds(i, r, o);
    lemma_frame_in_bounds(k, r, o);
    assert(o * r == r * o) by (nonlinear_arith);
    if k < i {
        lemma_frames_ordered(k, i, o);
    } else if i < k {
        lemma_frames_ordered(i, k, o);
    }
    assert(slot(splice(buf, (i * o) as int, x), k, o) =~= (if k == i { x } else { slot(buf, k, o) }));
}

/// `(c + 1) % r` is one more than `c % r`, or 0 when that reaches `r`.
proof fn lemma_mod_succ(c: nat, r: nat)
    requires
        r > 0,
    ensures
        (c + 1) % r == (if c % r + 1 == r { 0 } else { c % r + 1 }),
{
    vstd::arithmetic::div_mod::lemma_add_mod_noop_right(1, c as int, r as int);
    let i = c % r;
    if i + 1 == r {
        vstd::arithmetic::div_mod::lemma_mod_self_0(r as int);
    } else {
        vstd::arithmetic::div_mod::lemma_small_mod((i + 1) as nat, r);
    }
}

/// After `c` passes from slot 0, with the frame a whole number `r` of slots:
/// the slot index is `c % r`; the slots below it hold the current group's
/// inputs, the others the previous group's; and, when the callback hands its
/// input straight back, the output buffer holds the last completed group.
proof fn lemma_operate_invariant<T>(
    acc: FrameAccumulatorView<T>,
    inputs: Seq<Seq<T>>,
    process: spec_fn(Seq<T>, Seq<T>) -> Seq<T>,
)
    requires
        acc.valid(),
        acc.frame_ratio > 0,
        acc.index == 0,
        acc.target_frame_size == acc.frame_ratio * acc.original_frame_size,
        forall|j: int| 0 <= j < inputs.len() ==> #[trigger] inputs[j].len() == acc.original_frame_size,
        forall|a: Seq<T>, b: Seq<T>|
            a.len() == acc.target_frame_size && b.len() == acc.target_frame_size ==> #[trigger] process(a, b).len()
                == acc.target_frame_size,
    ensures
        ({
            let s = operate_all(acc, inputs, process);
            let c = inputs.len();
            let r = acc.frame_ratio;
            let o = acc.original_frame_size;
            let i = s.index;
            &&& s.valid()
            &&& s.original_frame_size == o
            &&& s.target_frame_size == acc.target_frame_size
            &&& s.frame_ratio == r
            &&& i == c % r
            &&& i <= c
            &&& c < r ==> i == c
            &&& (c - i >= r <==> c >= r)
            &&& forall|k: nat| k < i ==> #[trigger] slot(s.input_buffer, k, o) == inputs[c - i + k]
            &&& forall|k: nat| i <= k < r && c >= r ==> #[trigger] slot(s.input_buffer, k, o) == inputs[c - i - r + k]
            &&& process == pass_through::<T>() && c >= r ==> forall|k: nat| k < r ==> #[trigger] slot(s.output_buffer, k, o) == inputs[c - i - r + k]
            &&& process == pass_through::<T>() && c < r ==> s.output_buffer == acc.output_buffer
        }),
    decreases inputs.len(),
{
    let r = acc.frame_ratio;
    let o = acc.original_frame_size;
    let c = inputs.len();
    if c == 0 {
        vstd::arithmetic::div_mod::lemma_small_mod(0, r);
    } else {
        let prev = inputs.drop_last();
        assert forall|j: int| 0 <= j < prev.len() implies #[trigger] prev[j].len() == o by {
            assert(prev[j] == inputs[j]);
        }
        lemma_operate_invariant(acc, prev, process);
        let p = operate_all(acc, prev, process);
        let x = inputs.last();
        assert(x.len() == o) by {
            assert(inputs[c - 1].len() == o);
        }
        let i = p.index;
        lemma_mod_succ((c - 1) as nat, r);
        lemma_accept_keeps_valid(p, x);
        let stored = p.after_accept(x);
        let s = operate_all(acc, inputs, process);
        assert(forall|j: int| 0 <= j < c - 1 ==> prev[j] == inputs[j]);
        assert forall|k: nat| k < r implies #[trigger] slot(stored.input_buffer, k, o) == (if k == i { x } else {
            slot(p.input_buffer, k, o)
        }) by {
            lemma_slot_splice(p.input_buffer, i, x, k, o, r);
        }
        assert(s.input_buffer == stored.input_buffer);
        assert(s.index == stored.index);
        if p.completes_frame() {
            assert(process(stored.input_buffer, stored.output_buffer).len() == stored.output_buffer.len());
            assert forall|k: nat| i <= k < r && c >= r implies #[trigger] slot(s.input_buffer, k, o) == inputs[c - s.index - r + k] by {
                if k < i {
                } else {
                    assert(k == i);
                }
            }
            if process == pass_through::<T>() {
                assert(s.output_buffer == stored.input_buffer);
            }
        } else {
            assert(s == stored);
            assert forall|k: nat| k < s.index implies #[trigger] slot(s.input_buffer, k, o) == inputs[c - s.index + k] by {
                if k < i {
                    assert(slot(p.input_buffer, k, o) == prev[(c - 1) - i + k]);
                }
            }
            assert forall|k: nat| s.index <= k < r && c >= r implies #[trigger] slot(s.input_buffer, k, o) == inputs[c - s.index - r + k] by {
                assert(slot(p.input_buffer, k, o) == prev[(c - 1) - i - r + k]);
            }
        }
    }
}

/// A buffer of `n` slots holding `frames`, slot after slot, is the frames laid end to end.
proof fn lemma_slots_concat<T>(buf: Seq<T>, frames: Seq<Seq<T>>, o: nat)
    requires
        buf.len() == frames.len() * o,
        forall|k: nat| k < frames.len() ==> #[trigger] slot(buf, k, o) == frames[k as int],
    ensures
        buf == concat_frames(frames),
    decreases frames.len(),
{
    let n = frames.len();
    if n == 0 {
        assert(buf.len() == 0) by (nonlinear_arith)
            requires buf.len() == n * o, n == 0;
        assert(buf =~= concat_frames(frames));
    } else {
        let m = (n - 1) as nat;
        assert(m * o + o == n * o) by (nonlinear_arith)
            requires m + 1 == n;
        let front = buf.subrange(0, (m * o) as int);
        let prev = frames.drop_last();
        assert forall|k: nat| k < prev.len() implies #[trigger] slot(front, k, o) == prev[k as int] by {
            lemma_frames_ordered(k, m, o);
            assert(0 <= k * o) by (nonlinear_arith);
            assert(slot(front, k, o) =~= slot(buf, k, o));
        }
        lemma_slots_concat(front, prev, o);
        assert(0 <= m * o) by (nonlinear_arith);
        assert(slot(buf, m, o) == frames.last());
        assert(buf =~= front + slot(buf, m, o));
    }
}

/// The callback is called during pass `c` (counting from 0, starting at slot
/// 0, the accumulated frame a whole number `r` of slots) exactly when `c + 1`
/// is a multiple of `r`, and then it receives the `r` inputs of passes
/// `c + 1 - r` to `c` laid end to end, together with the output buffer.
pub proof fn lemma_operate_schedule<T>(
    acc: FrameAccumulatorView<T>,
    inputs: Seq<Seq<T>>,
    process: spec_fn(Seq<T>, Seq<T>) -> Seq<T>,
    c: nat,
)
    requires
        acc.valid(),
        acc.frame_ratio > 0,
        acc.index == 0,
        acc.target_frame_size == acc.frame_ratio * acc.original_frame_size,
        forall|j: int| 0 <= j < inputs.len() ==> #[trigger] inputs[j].len() == acc.original_frame_size,
        forall|a: Seq<T>, b: Seq<T>|
            a.len() == acc.target_frame_size && b.len() == acc.target_frame_size ==> #[trigger] process(a, b).len()
                == acc.target_frame_size,
        c < inputs.len(),
    ensures
        operate_all(acc, inputs.take(c as int), process).completes_frame() == ((c + 1) % acc.frame_ratio == 0),
        (c + 1) % acc.frame_ratio == 0 ==> operate_all(acc, inputs.take(c as int), process).after_accept(
            inputs[c as int],
        ).input_buffer == concat_frames(inputs.subrange(c + 1 - acc.frame_ratio, (c + 1) as int)),
{
    let r = acc.frame_ratio;
    let o = acc.original_frame_size;
    let before = inputs.take(c as int);
    let upto = inputs.take((c + 1) as int);
    assert forall|j: int| 0 <= j < before.len() implies #[trigger] before[j].len() == o by {
        assert(before[j] == inputs[j]);
    }
    assert forall|j: int| 0 <= j < upto.len() implies #[trigger] upto[j].len() == o by {
        assert(upto[j] == inputs[j]);
    }
    lemma_operate_invariant(acc, before, process);
    lemma_mod_succ(c, r);
    let p = operate_all(acc, before, process);
    if (c + 1) % r == 0 {
        lemma_operate_invariant(acc, upto, process);
        assert(upto.drop_last() =~= before);
        let stored = p.after_accept(inputs[c as int]);
        assert(operate_all(acc, upto, process).input_buffer == stored.input_buffer);
        let group = inputs.subrange(c + 1 - r, (c + 1) as int);
        assert forall|k: nat| k < group.len() implies #[trigger] slot(stored.input_buffer, k, o) == group[k as int] by {
            assert(slot(operate_all(acc, upto, process).input_buffer, k, o) == upto[c + 1 - r + k]);
        }
        lemma_slots_concat(stored.input_buffer, group, o);
    }
}

/// When the callback hands the accumulated frame straight back (starting at
/// slot 0, the accumulated frame a whole number `r` of slots), the output of
/// pass `c` (counting from 0) is the input of pass `c + 1 - r`: the stream is
/// delayed by `r - 1` frames, and the first `r - 1` outputs are the slots of
/// the initial output buffer.
pub proof fn lemma_operate_delay<T>(acc: FrameAccumulatorView<T>, inputs: Seq<Seq<T>>, c: nat)
    requires
        acc.valid(),
        acc.frame_ratio > 0,
        acc.index == 0,
        acc.target_frame_size == acc.frame_ratio * acc.original_frame_size,
        forall|j: int| 0 <= j < inputs.len() ==> #[trigger] inputs[j].len() == acc.original_frame_size,
        c < inputs.len(),
    ensures
        operate_all(acc, inputs.take((c + 1) as int), pass_through::<T>()).output_slot() == (if c + 1 >= acc.frame_ratio {
            inputs[c + 1 - acc.frame_ratio]
        } else {
            slot(acc.output_buffer, c + 1, acc.original_frame_size)
        }),
{
    let r = acc.frame_ratio;
    let o = acc.original_frame_size;
    let upto = inputs.take((c + 1) as int);
    assert forall|j: int| 0 <= j < upto.len() implies #[trigger] upto[j].len() == o by {
        assert(upto[j] == inputs[j]);
    }
    let process = pass_through::<T>();
    assert forall|a: Seq<T>, b: Seq<T>|
        a.len() == acc.target_frame_size && b.len() == acc.target_frame_size implies #[trigger] process(a, b).len()
            == acc.target_frame_size by {
    }
    lemma_operate_invariant(acc, upto, process);
    let s = operate_all(acc, upto, process);
    if c + 1 >= r {
        assert(slot(s.output_buffer, s.index, o) == upto[c + 1 - s.index - r + s.index]);
    }
}

/// Installing a processed frame makes it the whole output buffer, exactly as
/// given, and changes nothing else.
pub proof fn lemma_with_output_installs_frame<T>(acc: FrameAccumulatorView<T>, frame: Seq<T>)
    ensures
        acc.with_output(frame).output_buffer == frame,
        acc.with_output(frame).input_buffer == acc.input_buffer,
        acc.with_output(frame).index == acc.index,
        acc.with_output(frame).original_frame_size == acc.original_frame_size,
        acc.with_output(frame).target_frame_size == acc.target_frame_size,
        acc.with_output(frame).frame_ratio == acc.frame_ratio,
{
}

/// Storing an input writes it sample for sample into the current slot
/// (samples `index * o` up to `index * o + o`), leaves every other sample of
/// the input buffer and the whole output buffer as they were, and moves the
/// slot index on by one, back to 0 after the last slot.
pub proof fn lemma_accept_stores_in_slot<T>(acc: FrameAccumulatorView<T>, input: Seq<T>)
    requires
        acc.valid(),
        acc.frame_ratio > 0,
        input.len() == acc.original_frame_size,
    ensures
        acc.after_accept(input).input_buffer.len() == acc.input_buffer.len(),
        forall|j: int|
            0 <= j < acc.input_buffer.len() ==> #[trigger] acc.after_accept(input).input_buffer[j] == (if acc.index
                * acc.original_frame_size <= j < acc.index * acc.original_frame_size + acc.original_frame_size {
                input[j - acc.index * acc.original_frame_size]
            } else {
                acc.input_buffer[j]
            }),
        acc.after_accept(input).output_buffer == acc.output_buffer,
        acc.after_accept(input).index == (if acc.index + 1 == acc.frame_ratio { 0 } else { acc.index + 1 }),
        acc.after_accept(input).original_frame_size == acc.original_frame_size,
        acc.after_accept(input).target_frame_size == acc.target_frame_size,
        acc.after_accept(input).frame_ratio == acc.frame_ratio,
{
    lemma_slot_in_bounds(acc.index, acc.original_frame_size, acc.target_frame_size);
}

/// The slot handed out is the `o` samples of the output buffer starting at
/// `index * o`.
pub proof fn lemma_output_slot_is_block<T>(acc: FrameAccumulatorView<T>)
    requires
        acc.valid(),
        acc.frame_ratio > 0,
    ensures
        acc.output_slot().len() == acc.original_frame_size,
        forall|j: int|
            0 <= j < acc.original_frame_size ==> #[trigger] acc.output_slot()[j] == acc.output_buffer[acc.index
                * acc.original_frame_size + j],
{
    lemma_slot_in_bounds(acc.index, acc.original_frame_size, acc.target_frame_size);
}

/// In a pass that completes the accumulated frame, the output buffer becomes
/// exactly what the callback makes of the full input buffer and the old output
/// buffer, and the next slot handed out is its first slot; in any other pass
/// the output buffer stays as it was. So every slot handed out is the slot of
/// the same index of the latest callback result.
pub proof fn lemma_callback_result_is_handed_out<T>(
    acc: FrameAccumulatorView<T>,
    input: Seq<T>,
    process: spec_fn(Seq<T>, Seq<T>) -> Seq<T>,
)
    requires
        acc.valid(),
        acc.frame_ratio > 0,
        input.len() == acc.original_frame_size,
    ensures
        acc.completes_frame() ==> operate_step(acc, input, process).output_buffer == process(
            acc.after_accept(input).input_buffer,
            acc.output_buffer,
        ),
        acc.completes_frame() ==> operate_step(acc, input, process).index == 0,
        acc.completes_frame() && process(acc.after_accept(input).input_buffer, acc.output_buffer).len()
            >= acc.original_frame_size ==> operate_step(acc, input, process).output_slot() == process(
            acc.after_accept(input).input_buffer,
            acc.output_buffer,
        ).subrange(0, acc.original_frame_size as int),
        !acc.completes_frame() ==> operate_step(acc, input, process).output_buffer == acc.output_buffer,
        operate_step(acc, input, process).input_buffer == acc.after_accept(input).input_buffer,
{
    lemma_with_output_installs_frame(
        acc.after_accept(input),
        process(acc.after_accept(input).input_buffer, acc.after_accept(input).output_buffer),
    );
    lemma_accept_stores_in_slot(acc, input);
    assert(0 * acc.original_frame_size == 0);
}

} // verus!
