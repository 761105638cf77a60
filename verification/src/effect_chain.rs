use vstd::prelude::*;

verus! {

/// A processing stage that turns a frame of input samples into a frame of
/// output samples, possibly changing its own state. Stages are written by
/// users of the library.
///
/// A stage whose implementation is verified can describe what it does: it
/// sets `obeys_model` to `true` and defines `output_for` and `after`, and
/// Verus then holds its `operate` to them. A stage that keeps the defaults
/// (as every stage outside Verus does) promises nothing beyond the length of
/// its output, which Rust guarantees of any `&mut [T]`.
pub trait Effect<T>: Sized {
    /// Whether `operate` follows `output_for` and `after`.
    open spec fn obeys_model(&self) -> bool {
        false
    }

    /// The samples the stage writes for `input`, in its current state.
    open spec fn output_for(&self, input: Seq<T>) -> Seq<T> {
        input
    }

    /// The stage's state after it has processed `input`.
    open spec fn after(&self, input: Seq<T>) -> Self {
        *self
    }

    /// Processes `input` into `output`.
    fn operate(&mut self, input: &[T], output: &mut [T])
        requires
            input@.len() == old(output)@.len(),
        ensures
            final(output)@.len() == old(output)@.len(),
            old(self).obeys_model() ==> final(output)@ == old(self).output_for(input@),
            old(self).obeys_model() ==> *final(self) == old(self).after(input@),
    ;
}

/// Every stage of `effects` follows its model.
pub open spec fn all_obey<T, E: Effect<T>>(effects: Seq<E>) -> bool {
    forall|j: int| 0 <= j < effects.len() ==> #[trigger] effects[j].obeys_model()
}

/// What the chain `effects` makes of `input`: each stage is handed what the
/// stage before it wrote (the first one `input`), and the last stage's output
/// is the result.
pub open spec fn chain_output<T, E: Effect<T>>(effects: Seq<E>, input: Seq<T>) -> Seq<T>
    decreases effects.len(),
{
    if effects.len() == 0 {
        input
    } else {
        effects.last().output_for(chain_output(effects.drop_last(), input))
    }
}

/// The states of the stages of `effects` after the chain has processed `input`.
pub open spec fn chain_states<T, E: Effect<T>>(effects: Seq<E>, input: Seq<T>) -> Seq<E>
    decreases effects.len(),
{
    if effects.len() == 0 {
        Seq::empty()
    } else {
        chain_states(effects.drop_last(), input).push(
            effects.last().after(chain_output(effects.drop_last(), input)),
        )
    }
}

/// The chain obeys its model exactly when each of its stages does.
pub proof fn lemma_all_obey_is_every_stage<T, E: Effect<T>>(effects: Seq<E>)
    ensures
        all_obey(effects) <==> (forall|j: int| 0 <= j < effects.len() ==> #[trigger] effects[j].obeys_model()),
{
}

/// A chain of at least one stage hands its last stage what the rest of the
/// chain produced, and returns what that stage writes.
pub proof fn lemma_chain_output_last_stage<T, E: Effect<T>>(effects: Seq<E>, input: Seq<T>)
    requires
        effects.len() > 0,
    ensures
        chain_output(effects, input) == effects.last().output_for(chain_output(effects.drop_last(), input)),
        chain_output(seq![effects[0]], input) == effects[0].output_for(input),
{
    let one = seq![effects[0]];
    assert(one.drop_last() =~= Seq::<E>::empty());
    assert(one.last() == effects[0]);
    assert(chain_output(one.drop_last(), input) == input);
}

/// Running the chain `a + b` is running `a` and then running `b` on its
/// result; the stages of `a` end as after `a` alone, those of `b` as after `b`
/// run on what `a` produced.
pub proof fn lemma_chain_split<T, E: Effect<T>>(a: Seq<E>, b: Seq<E>, input: Seq<T>)
    ensures
        chain_output(a + b, input) == chain_output(b, chain_output(a, input)),
        chain_states(a + b, input) == chain_states(a, input) + chain_states(b, chain_output(a, input)),
    decreases b.len(),
{
    if b.len() == 0 {
        assert(a + b =~= a);
        assert(chain_states(a, input) + chain_states(b, chain_output(a, input)) =~= chain_states(a, input));
    } else {
        lemma_chain_split(a, b.drop_last(), input);
        assert((a + b).drop_last() =~= a + b.drop_last());
        assert((a + b).last() == b.last());
        assert(chain_states(a + b, input) =~= chain_states(a, input) + chain_states(b, chain_output(a, input)));
    }
}

/// Stage `j` of a chain runs once, on what stages `0..j` produced (the input
/// for stage 0), in order: the chain's first `j + 1` stages produce what stage
/// `j` writes for the first `j` stages' result, and stage `j` ends in the state
/// that input leaves it in.
pub proof fn lemma_chain_stage_by_stage<T, E: Effect<T>>(effects: Seq<E>, input: Seq<T>)
    ensures
        chain_states(effects, input).len() == effects.len(),
        forall|j: int|
            0 <= j < effects.len() ==> #[trigger] chain_states(effects, input)[j] == effects[j].after(
                chain_output(effects.take(j), input),
            ),
        forall|j: int|
            0 <= j < effects.len() ==> #[trigger] chain_output(effects.take(j + 1), input) == effects[j].output_for(
                chain_output(effects.take(j), input),
            ),
    decreases effects.len(),
{
    if effects.len() > 0 {
        let prev = effects.drop_last();
        lemma_chain_stage_by_stage(prev, input);
        assert forall|j: int| 0 <= j < effects.len() implies #[trigger] chain_states(effects, input)[j]
            == effects[j].after(chain_output(effects.take(j), input)) by {
            if j < effects.len() - 1 {
                assert(prev.take(j) =~= effects.take(j));
                assert(prev[j] == effects[j]);
            } else {
                assert(effects.take(j) =~= prev);
            }
        }
        assert forall|j: int| 0 <= j < effects.len() implies #[trigger] chain_output(effects.take(j + 1), input)
            == effects[j].output_for(chain_output(effects.take(j), input)) by {
            let t = effects.take(j + 1);
            assert(t.drop_last() =~= effects.take(j));
            assert(t.last() == effects[j]);
        }
    }
}

/// Runs `input` through every stage of `effects` in order, each stage once,
/// and leaves the last stage's result in `output`.
///
/// With no stages, `input` is copied into `output` and nothing else is
/// touched. Otherwise the stages work in turns between `scratch` and
/// `output`: `scratch` first receives a copy of `input`; stage 0 reads
/// `scratch` and writes `output`, stage 1 reads `output` and writes
/// `scratch`, and so on (stage `k` writes `output` when `k` is even). When
/// the last stage wrote `scratch` (an even number of stages) its result is
/// copied into `output`. So `output` always holds the full chain's result;
/// `scratch` holds it too after an even number of stages, and after an odd
/// number it holds what the last stage was handed.
///
/// The host this comes from decided the final copy by comparing the
/// scratch buffer's address with one taken before it might have grown, so
/// there the outcome depended on the allocator; this function fixes the rule
/// above instead.
pub fn run_chain<T: Copy, E: Effect<T>>(
    effects: &mut Vec<E>,
    input: &[T],
    scratch: &mut Vec<T>,
    output: &mut [T],
)
    requires
        old(output)@.len() == input@.len(),
        old(effects)@.len() > 0 ==> old(scratch)@.len() <= input@.len(),
    ensures
        final(effects)@.len() == old(effects)@.len(),
        final(output)@.len() == input@.len(),
        old(effects)@.len() == 0 ==> {
            &&& final(output)@ == input@
            &&& final(scratch)@ == old(scratch)@
            &&& final(effects)@ == old(effects)@
        },
        old(effects)@.len() > 0 ==> final(scratch)@.len() == input@.len(),
        old(effects)@.len() > 0 && old(effects)@.len() % 2 == 0 ==> final(output)@ == final(scratch)@,
        all_obey(old(effects)@) ==> {
            &&& final(output)@ == chain_output(old(effects)@, input@)
            &&& final(effects)@ == chain_states(old(effects)@, input@)
        },
        all_obey(old(effects)@) && old(effects)@.len() % 2 == 1 ==> final(scratch)@ == chain_output(
            old(effects)@.drop_last(),
            input@,
        ),
{
    let n = input.len();
    let count = effects.len();
    if count == 0 {
        let mut j: usize = 0;
        while j < n
            invariant
                n == input@.len(),
                output@.len() == n,
                j <= n,
                forall|m: int| 0 <= m < j ==> output@[m] == input@[m],
            decreases n - j,
        {
            output[j] = input[j];
            j = j + 1;
        }
        proof {
            assert(output@ =~= input@);
        }
        return;
    }
    scratch.clear();
    let mut i: usize = 0;
    while i < n
        invariant
            n == input@.len(),
            i <= n,
            scratch@ == input@.subrange(0, i as int),
        decreases n - i,
    {
        scratch.push(input[i]);
        i = i + 1;
        proof {
            assert(scratch@ =~= input@.subrange(0, i as int));
        }
    }
    proof {
        assert(scratch@ =~= input@);
        assert(effects@.take(0) =~= Seq::<E>::empty());
    }
    let ghost original = effects@;
    let mut k: usize = 0;
    while k < count
        invariant
            count == original.len(),
            count > 0,
            effects@.len() == count,
            k <= count,
            scratch@.len() == n,
            output@.len() == n,
            n == input@.len(),
            forall|j: int| k <= j < count ==> effects@[j] == original[j],
            all_obey(original) ==> effects@.subrange(0, k as int) == chain_states(original.take(k as int), input@),
            all_obey(original) && k % 2 == 0 ==> scratch@ == chain_output(original.take(k as int), input@),
            all_obey(original) && k % 2 == 1 ==> output@ == chain_output(original.take(k as int), input@),
            all_obey(original) && k % 2 == 1 ==> scratch@ == chain_output(original.take(k - 1), input@),
            all_obey(original) && k % 2 == 0 && k > 0 ==> output@ == chain_output(original.take(k - 1), input@),
        decreases count - k,
    {
        proof {
            if all_obey(original) {
                assert(original[k as int].obeys_model());
            }
        }
        if k % 2 == 0 {
            effects[k].operate(scratch.as_slice(), output);
        } else {
            effects[k].operate(output, scratch.as_mut_slice());
        }
        k = k + 1;
        proof {
            let pre = original.take(k as int);
            assert(pre.drop_last() =~= original.take((k - 1) as int));
            assert(pre.last() == original[k - 1]);
            if all_obey(original) {
                assert(effects@.subrange(0, k as int) =~= chain_states(pre, input@));
            }
        }
    }
    proof {
        assert(original.take(count as int) =~= original);
        assert(original.drop_last() =~= original.take(count - 1));
        assert(effects@ =~= effects@.subrange(0, count as int));
    }
    if count % 2 == 0 {
        let mut j: usize = 0;
        while j < n
            invariant
                n == input@.len(),
                j <= n,
                scratch@.len() == n,
                output@.len() == n,
                forall|m: int| 0 <= m < j ==> output@[m] == scratch@[m],
            decreases n - j,
        {
            output[j] = scratch[j];
            j = j + 1;
        }
        proof {
            assert(output@ =~= scratch@);
        }
    }
}

} // verus!
