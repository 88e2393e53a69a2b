//! The generation loop: prefill, decode and stop, over any step that feeds a
//! window of tokens and samples the next one.

use crate::error::InferError;
use crate::tensor::copy_of;
use vstd::prelude::*;

verus! {

/// One step of a generation: a forward pass over a window of token ids, and
/// one token sampled from the logits of its last position.
///
/// The state that a step takes and hands back carries whatever is kept from
/// step to step, such as the key/value cache. Nothing is assumed of what a
/// step returns.
pub trait Step<S> {
    /// Feeds `fed` to the model in `state`; gives the state after it and the
    /// token sampled, or the reason why there is none.
    fn step(&self, state: S, fed: Vec<u32>) -> (S, Result<u32, InferError>);
}

/// `(after, r)` is an outcome that `p.step(before, fed)` can have.
pub open spec fn step_gives<S, P: Step<S>>(
    p: &P,
    before: S,
    fed: Vec<u32>,
    after: S,
    r: Result<u32, InferError>,
) -> bool {
    call_ensures(P::step, (p, before, fed), (after, r))
}

/// Where a generation stands.
#[derive(Debug, Clone, Copy, PartialEq, Eq, Structural)]
pub enum Phase {
    /// Nothing is emitted yet: the next step is fed the whole prompt.
    Prefill,
    /// The next step is fed the token emitted last.
    Decode,
    /// The end-of-sequence token was emitted, or as many tokens as were
    /// asked for. No further step is made.
    Stop,
}

/// The phase after `emitted`, where at most `max_new_tokens` tokens are asked
/// for and `eos` ends a sequence.
pub open spec fn phase_of(emitted: Seq<u32>, max_new_tokens: nat, eos: u32) -> Phase {
    if emitted.len() >= max_new_tokens || (emitted.len() > 0 && emitted.last() == eos) {
        Phase::Stop
    } else if emitted.len() == 0 {
        Phase::Prefill
    } else {
        Phase::Decode
    }
}

/// Computes the phase after `emitted`.
pub fn phase(emitted: &[u32], max_new_tokens: usize, eos: u32) -> (r: Phase)
    ensures
        r == phase_of(emitted@, max_new_tokens as nat, eos),
{
    let n = emitted.len();
    if n >= max_new_tokens || (n > 0 && emitted[n - 1] == eos) {
        Phase::Stop
    } else if n == 0 {
        Phase::Prefill
    } else {
        Phase::Decode
    }
}

/// The tokens that the step after `emitted` is fed: the prompt at first,
/// later the one token emitted last.
pub open spec fn window_of(prompt: Seq<u32>, emitted: Seq<u32>) -> Seq<u32> {
    if emitted.len() == 0 {
        prompt
    } else {
        seq![emitted.last()]
    }
}

/// Builds the window for the step after `emitted`.
pub fn window(prompt: &[u32], emitted: &[u32]) -> (r: Vec<u32>)
    ensures
        r@ == window_of(prompt@, emitted@),
{
    let n = emitted.len();
    if n == 0 {
        copy_of(prompt)
    } else {
        let mut w: Vec<u32> = Vec::with_capacity(1);
        w.push(emitted[n - 1]);
        assert(w@ =~= seq![emitted@.last()]);
        w
    }
}

/// The generation was never in phase `Stop` before it had emitted all of
/// `emitted`.
pub open spec fn never_stopped_before(emitted: Seq<u32>, max_new_tokens: nat, eos: u32) -> bool {
    forall|n: int|
        0 <= n < emitted.len() ==> phase_of(#[trigger] emitted.take(n), max_new_tokens, eos)
            != Phase::Stop
}

/// Steps that each gave a token can have led from `start` to `state` while
/// emitting `emitted`: each step was handed the state that the one before it
/// left and the window that follows what was emitted until then.
pub open spec fn reaches<S, P: Step<S>>(
    p: &P,
    start: S,
    prompt: Seq<u32>,
    emitted: Seq<u32>,
    state: S,
) -> bool
    decreases emitted.len(),
{
    if emitted.len() == 0 {
        state == start
    } else {
        exists|before: S, fed: Vec<u32>|
            {
                &&& reaches(p, start, prompt, emitted.drop_last(), before)
                &&& fed@ == window_of(prompt, emitted.drop_last())
                &&& #[trigger] step_gives(
                    p,
                    before,
                    fed,
                    state,
                    Ok::<u32, InferError>(emitted.last()),
                )
            }
    }
}

/// `(state, result)` is an outcome that a generation can have.
///
/// Where it emitted tokens, steps led to `state` while emitting them, and
/// the generation was in phase `Stop` after the last of them and never
/// before. Where it failed, steps led so far without a stop, and the next
/// step left `state` and gave the error.
pub open spec fn is_generation<S, P: Step<S>>(
    p: &P,
    start: S,
    prompt: Seq<u32>,
    max_new_tokens: nat,
    eos: u32,
    state: S,
    result: Result<Vec<u32>, InferError>,
) -> bool {
    match result {
        Ok(emitted) => {
            &&& reaches(p, start, prompt, emitted@, state)
            &&& phase_of(emitted@, max_new_tokens, eos) == Phase::Stop
            &&& never_stopped_before(emitted@, max_new_tokens, eos)
        },
        Err(e) => exists|emitted: Seq<u32>, before: S, fed: Vec<u32>|
            {
                &&& #[trigger] reaches(p, start, prompt, emitted, before)
                &&& phase_of(emitted, max_new_tokens, eos) != Phase::Stop
                &&& never_stopped_before(emitted, max_new_tokens, eos)
                &&& fed@ == window_of(prompt, emitted)
                &&& #[trigger] step_gives(p, before, fed, state, Err::<u32, InferError>(e))
            },
    }
}

/// Runs a generation to its end.
///
/// The first step is fed `prompt`, each later one the token emitted before
/// it. The generation stops once `eos` was emitted or `max_new_tokens`
/// tokens were, and at once where a step fails: the error is handed on with
/// the state that the failing step left.
pub fn generate<S, P: Step<S>>(
    p: &P,
    start: S,
    prompt: &[u32],
    max_new_tokens: usize,
    eos: u32,
) -> (r: (S, Result<Vec<u32>, InferError>))
    ensures
        is_generation(p, start, prompt@, max_new_tokens as nat, eos, r.0, r.1),
{
    let mut state = start;
    let mut emitted: Vec<u32> = Vec::new();
    loop
        invariant
            reaches(p, start, prompt@, emitted@, state),
            never_stopped_before(emitted@, max_new_tokens as nat, eos),
        decreases max_new_tokens - emitted@.len(),
    {
        match phase(emitted.as_slice(), max_new_tokens, eos) {
            Phase::Stop => {
                return (state, Ok(emitted));
            },
            _ => {},
        }
        let fed = window(prompt, emitted.as_slice());
        let ghost before = state;
        let ghost so_far = emitted@;
        let (next, sampled) = p.step(state, fed);
        match sampled {
            Ok(token) => {
                emitted.push(token);
                state = next;
                proof {
                    assert(emitted@.drop_last() =~= so_far);
                    assert(reaches(p, start, prompt@, emitted@.drop_last(), before) && step_gives(
                        p,
                        before,
                        fed,
                        state,
                        Ok::<u32, InferError>(emitted@.last()),
                    ));
                    assert forall|n: int| 0 <= n < emitted@.len() implies phase_of(
                        #[trigger] emitted@.take(n),
                        max_new_tokens as nat,
                        eos,
                    ) != Phase::Stop by {
                        if n < so_far.len() {
                            assert(emitted@.take(n) =~= so_far.take(n));
                        } else {
                            assert(emitted@.take(n) =~= so_far);
                        }
                    }
                }
            },
            Err(e) => {
                assert(reaches(p, start, prompt@, emitted@, before) && step_gives(
                    p,
                    before,
                    fed,
                    next,
                    Err::<u32, InferError>(e),
                ));
                return (next, Err(e));
            },
        }
    }
}

/// A generation that ran to its end emitted no more tokens than were asked
/// for, holds the end-of-sequence token nowhere but in its last place, and
/// fell short of the number asked for only by ending on that token.
pub proof fn lemma_stops_at_limit_or_eos(emitted: Seq<u32>, max_new_tokens: nat, eos: u32)
    requires
        phase_of(emitted, max_new_tokens, eos) == Phase::Stop,
        never_stopped_before(emitted, max_new_tokens, eos),
    ensures
        emitted.len() <= max_new_tokens,
        forall|i: int| 0 <= i < emitted.len() - 1 ==> emitted[i] != eos,
        emitted.len() < max_new_tokens ==> emitted.len() > 0 && emitted.last() == eos,
{
    if emitted.len() > max_new_tokens {
        assert(phase_of(emitted.take(max_new_tokens as int), max_new_tokens, eos) == Phase::Stop);
    }
    assert forall|i: int| 0 <= i < emitted.len() - 1 implies emitted[i] != eos by {
        let head = emitted.take(i + 1);
        assert(phase_of(head, max_new_tokens, eos) != Phase::Stop);
        assert(head.last() == emitted[i]);
    }
}

/// A step is deterministic up to `same`: handed states that are the same and
/// the same window, it leaves states that are the same and gives the same
/// token or error.
pub open spec fn is_deterministic_up_to<S, P: Step<S>>(p: &P, same: spec_fn(S, S) -> bool) -> bool {
    forall|
        s1: S,
        s2: S,
        fed1: Vec<u32>,
        fed2: Vec<u32>,
        a1: S,
        a2: S,
        r1: Result<u32, InferError>,
        r2: Result<u32, InferError>,
    |
        #![trigger step_gives(p, s1, fed1, a1, r1), step_gives(p, s2, fed2, a2, r2)]
        same(s1, s2) && fed1@ == fed2@ && step_gives(p, s1, fed1, a1, r1) && step_gives(
            p,
            s2,
            fed2,
            a2,
            r2,
        ) ==> same(a1, a2) && r1 == r2
}

/// A step is deterministic: handed the same state and the same window, it
/// leaves the same state and gives the same token or error.
pub open spec fn is_deterministic<S, P: Step<S>>(p: &P) -> bool {
    is_deterministic_up_to(p, |a: S, b: S| a == b)
}

/// With a deterministic step, what was emitted decides the state reached.
pub proof fn lemma_reaches_one_state<S, P: Step<S>>(
    p: &P,
    same: spec_fn(S, S) -> bool,
    prompt: Seq<u32>,
    emitted: Seq<u32>,
    start1: S,
    s1: S,
    start2: S,
    s2: S,
)
    requires
        is_deterministic_up_to(p, same),
        same(start1, start2),
        reaches(p, start1, prompt, emitted, s1),
        reaches(p, start2, prompt, emitted, s2),
    ensures
        same(s1, s2),
    decreases emitted.len(),
{
    if emitted.len() > 0 {
        let token = Ok::<u32, InferError>(emitted.last());
        let (b1, f1) = choose|before: S, fed: Vec<u32>|
            {
                &&& reaches(p, start1, prompt, emitted.drop_last(), before)
                &&& fed@ == window_of(prompt, emitted.drop_last())
                &&& #[trigger] step_gives(p, before, fed, s1, token)
            };
        let (b2, f2) = choose|before: S, fed: Vec<u32>|
            {
                &&& reaches(p, start2, prompt, emitted.drop_last(), before)
                &&& fed@ == window_of(prompt, emitted.drop_last())
                &&& #[trigger] step_gives(p, before, fed, s2, token)
            };
        lemma_reaches_one_state(p, same, prompt, emitted.drop_last(), start1, b1, start2, b2);
        assert(step_gives(p, b1, f1, s1, token) && step_gives(p, b2, f2, s2, token));
    }
}

/// The step that emitted token `n` of a run: the state it was handed, which
/// the run reached with the first `n` tokens, the state it left, and the
/// window it was fed.
pub proof fn lemma_step_of_run<S, P: Step<S>>(
    p: &P,
    start: S,
    prompt: Seq<u32>,
    emitted: Seq<u32>,
    state: S,
    n: int,
) -> (r: (S, S, Vec<u32>))
    requires
        reaches(p, start, prompt, emitted, state),
        0 <= n < emitted.len(),
    ensures
        reaches(p, start, prompt, emitted.take(n), r.0),
        r.2@ == window_of(prompt, emitted.take(n)),
        step_gives(p, r.0, r.2, r.1, Ok::<u32, InferError>(emitted[n])),
    decreases emitted.len(),
{
    let (before, fed) = choose|before: S, fed: Vec<u32>|
        {
            &&& reaches(p, start, prompt, emitted.drop_last(), before)
            &&& fed@ == window_of(prompt, emitted.drop_last())
            &&& #[trigger] step_gives(
                p,
                before,
                fed,
                state,
                Ok::<u32, InferError>(emitted.last()),
            )
        };
    if n == emitted.len() - 1 {
        assert(emitted.take(n) =~= emitted.drop_last());
        (before, state, fed)
    } else {
        let r = lemma_step_of_run(p, start, prompt, emitted.drop_last(), before, n);
        assert(emitted.drop_last().take(n) =~= emitted.take(n));
        r
    }
}

/// With a deterministic step, two runs with one prompt from starts that are
/// the same agree on every token that both emitted.
pub proof fn lemma_runs_agree<S, P: Step<S>>(
    p: &P,
    same: spec_fn(S, S) -> bool,
    prompt: Seq<u32>,
    start1: S,
    e1: Seq<u32>,
    s1: S,
    start2: S,
    e2: Seq<u32>,
    s2: S,
    n: int,
)
    requires
        is_deterministic_up_to(p, same),
        same(start1, start2),
        reaches(p, start1, prompt, e1, s1),
        reaches(p, start2, prompt, e2, s2),
        0 <= n <= e1.len(),
        n <= e2.len(),
    ensures
        e1.take(n) == e2.take(n),
    decreases n,
{
    if n == 0 {
        assert(e1.take(0) =~= e2.take(0));
    } else {
        lemma_runs_agree(p, same, prompt, start1, e1, s1, start2, e2, s2, n - 1);
        let a = lemma_step_of_run(p, start1, prompt, e1, s1, n - 1);
        let b = lemma_step_of_run(p, start2, prompt, e2, s2, n - 1);
        lemma_reaches_one_state(p, same, prompt, e1.take(n - 1), start1, a.0, start2, b.0);
        let r1 = Ok::<u32, InferError>(e1[n - 1]);
        let r2 = Ok::<u32, InferError>(e2[n - 1]);
        assert(step_gives(p, a.0, a.2, a.1, r1) && step_gives(p, b.0, b.2, b.1, r2));
        assert(r1 == r2);
        assert(e1.take(n) =~= e1.take(n - 1).push(e1[n - 1]));
        assert(e2.take(n) =~= e2.take(n - 1).push(e2[n - 1]));
    }
}

/// With a deterministic step, a generation has one outcome: two runs to the
/// end from starts that are the same, with the same prompt, limit and
/// end-of-sequence token, emit the same tokens and leave states that are the
/// same.
pub proof fn lemma_generation_is_deterministic<S, P: Step<S>>(
    p: &P,
    same: spec_fn(S, S) -> bool,
    prompt: Seq<u32>,
    max_new_tokens: nat,
    eos: u32,
    start1: S,
    e1: Seq<u32>,
    s1: S,
    start2: S,
    e2: Seq<u32>,
    s2: S,
)
    requires
        is_deterministic_up_to(p, same),
        same(start1, start2),
        reaches(p, start1, prompt, e1, s1),
        phase_of(e1, max_new_tokens, eos) == Phase::Stop,
        never_stopped_before(e1, max_new_tokens, eos),
        reaches(p, start2, prompt, e2, s2),
        phase_of(e2, max_new_tokens, eos) == Phase::Stop,
        never_stopped_before(e2, max_new_tokens, eos),
    ensures
        e1 == e2,
        same(s1, s2),
{
    let n = if e1.len() <= e2.len() {
        e1.len() as int
    } else {
        e2.len() as int
    };
    lemma_runs_agree(p, same, prompt, start1, e1, s1, start2, e2, s2, n);
    assert(e1.take(e1.len() as int) =~= e1);
    assert(e2.take(e2.len() as int) =~= e2);
    if e1.len() < e2.len() {
        assert(phase_of(e2.take(n), max_new_tokens, eos) != Phase::Stop);
    } else if e2.len() < e1.len() {
        assert(phase_of(e1.take(n), max_new_tokens, eos) != Phase::Stop);
    }
    lemma_reaches_one_state(p, same, prompt, e1, start1, s1, start2, s2);
}

} // verus!
