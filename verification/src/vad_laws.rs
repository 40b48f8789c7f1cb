//! Properties of the segmenter that span several chunks.
use crate::vad::{
    feed, initial_state, max_int, opt_seq, preroll_after, state_wf, step_spec, VadParams, VadState,
};
use vstd::prelude::*;

verus! {

/// Every step keeps the segmenter in a reachable state.
pub proof fn lemma_step_keeps_wf<S>(p: VadParams, s: VadState<S>, chunk: Seq<S>, loud: bool)
    requires
        state_wf(p, s),
    ensures
        state_wf(p, step_spec(p, s, chunk, loud).0),
{
}

/// The initial state is a reachable state.
pub proof fn lemma_initial_wf<S>(p: VadParams)
    ensures
        state_wf(p, initial_state::<S>()),
{
}

/// Feeding any stream keeps the segmenter in a reachable state.
pub proof fn lemma_feed_keeps_wf<S>(p: VadParams, s: VadState<S>, input: Seq<(Seq<S>, bool)>)
    requires
        state_wf(p, s),
    ensures
        state_wf(p, feed(p, s, input).0),
    decreases input.len(),
{
    if input.len() > 0 {
        lemma_feed_keeps_wf(p, s, input.drop_last());
        let s1 = feed(p, s, input.drop_last()).0;
        lemma_step_keeps_wf(p, s1, input.last().0, input.last().1);
    }
}

/// An utterance that is handed on ends with the chunk that closed it, holds
/// at least `min_chunks` chunks, and at most the pre-roll plus the phrase
/// limit (a phrase always runs past its trigger chunk, so the limit is
/// never below two).
pub proof fn lemma_utterance_bounds<S>(p: VadParams, s: VadState<S>, chunk: Seq<S>, loud: bool)
    requires
        state_wf(p, s),
        step_spec(p, s, chunk, loud).1 is Some,
    ensures
        ({
            let pieces = step_spec(p, s, chunk, loud).1->0;
            &&& pieces.len() >= p.min_chunks
            &&& pieces.len() <= p.preroll_chunks + max_int(p.max_chunks as int, 2)
            &&& pieces.last() == chunk
            &&& pieces == s.phrase.push(chunk)
        }),
{
}

/// When the thresholds count trailing silence, a phrase that closes on a
/// chunk, whether on `end_chunks` quiet chunks in a row or on reaching
/// `max_chunks`, counts every one of its chunks from the trigger on: it is
/// handed on whole exactly when it spans at least `min_chunks` of them,
/// and the segmenter goes back to its initial state either way.
pub proof fn lemma_closing_phrase_counts_all<S>(
    p: VadParams,
    s: VadState<S>,
    chunk: Seq<S>,
    loud: bool,
)
    requires
        p.count_trailing_silence,
        state_wf(p, s),
        s.speaking,
        s.chunks_in_phrase + 1 >= p.max_chunks || (!loud && s.below_streak + 1 >= p.end_chunks),
    ensures
        step_spec(p, s, chunk, loud).0 == initial_state::<S>(),
        step_spec(p, s, chunk, loud).1 == if s.chunks_in_phrase + 1 >= p.min_chunks {
            Some(s.phrase.push(chunk))
        } else {
            None::<Seq<Seq<S>>>
        },
{
}

/// When the thresholds count trailing silence and a phrase may reach
/// `min_chunks` before it is cut, a phrase cut at `max_chunks`, loud or
/// quiet at its last chunk, is always handed on, whole.
pub proof fn lemma_cut_phrase_handed_on<S>(p: VadParams, s: VadState<S>, chunk: Seq<S>, loud: bool)
    requires
        p.count_trailing_silence,
        p.min_chunks <= p.max_chunks,
        state_wf(p, s),
        s.speaking,
        s.chunks_in_phrase + 1 >= p.max_chunks,
    ensures
        step_spec(p, s, chunk, loud).1 == Some(s.phrase.push(chunk)),
{
    lemma_closing_phrase_counts_all(p, s, chunk, loud);
}

/// Every utterance that a stream produces, from any reachable state,
/// obeys the bounds of [`lemma_utterance_bounds`].
pub proof fn lemma_feed_utterances_bounded<S>(
    p: VadParams,
    s: VadState<S>,
    input: Seq<(Seq<S>, bool)>,
    i: int,
)
    requires
        state_wf(p, s),
        0 <= i < feed(p, s, input).1.len(),
    ensures
        feed(p, s, input).1[i].len() >= p.min_chunks,
        feed(p, s, input).1[i].len() <= p.preroll_chunks + max_int(p.max_chunks as int, 2),
    decreases input.len(),
{
    let (s1, outs) = feed(p, s, input.drop_last());
    lemma_feed_keeps_wf(p, s, input.drop_last());
    if i < outs.len() {
        lemma_feed_utterances_bounded(p, s, input.drop_last(), i);
    } else {
        lemma_utterance_bounds(p, s1, input.last().0, input.last().1);
    }
}

/// A quiet chunk never opens a phrase and never hands on an utterance
/// while the segmenter is idle.
pub proof fn lemma_quiet_idle_stays_idle<S>(p: VadParams, s: VadState<S>, chunk: Seq<S>)
    requires
        !s.speaking,
    ensures
        !step_spec(p, s, chunk, false).0.speaking,
        step_spec(p, s, chunk, false).1 is None,
        step_spec(p, s, chunk, false).0.above_streak == 0,
{
}

/// All chunks of a run are loud.
pub open spec fn all_loud<S>(run: Seq<(Seq<S>, bool)>) -> bool {
    forall|j: int| 0 <= j < run.len() ==> #[trigger] run[j].1
}

/// The chunks of a run, without their loudness.
pub open spec fn run_chunks<S>(run: Seq<(Seq<S>, bool)>) -> Seq<Seq<S>> {
    run.map_values(|x: (Seq<S>, bool)| x.0)
}

proof fn lemma_loud_prefix<S>(p: VadParams, s: VadState<S>, run: Seq<(Seq<S>, bool)>)
    requires
        state_wf(p, s),
        !s.speaking,
        s.above_streak == 0,
        p.keeps_trigger_run(),
        run.len() < p.start_chunks,
        all_loud(run),
    ensures
        !feed(p, s, run).0.speaking,
        feed(p, s, run).1.len() == 0,
        feed(p, s, run).0.above_streak == run.len(),
        feed(p, s, run).0.preroll.len() >= run.len(),
        feed(p, s, run).0.preroll.subrange(
            feed(p, s, run).0.preroll.len() - run.len(),
            feed(p, s, run).0.preroll.len() as int,
        ) == run_chunks(run),
        state_wf(p, feed(p, s, run).0),
    decreases run.len(),
{
    if run.len() > 0 {
        let prefix = run.drop_last();
        assert(all_loud(prefix)) by {
            assert forall|j: int| 0 <= j < prefix.len() implies #[trigger] prefix[j].1 by {
                assert(prefix[j] == run[j]);
            }
        }
        lemma_loud_prefix(p, s, prefix);
        let s1 = feed(p, s, prefix).0;
        let c = run.last().0;
        assert(run.last().1) by {
            assert(run.last() == run[run.len() - 1]);
        }
        lemma_step_keeps_wf(p, s1, c, true);
        let s2 = feed(p, s, run).0;
        let k = prefix.len();
        let q1 = s1.preroll;
        let q2 = s2.preroll;
        assert(run_chunks(run) =~= run_chunks(prefix).push(c));
        if q1.len() == p.preroll_chunks {
            assert(q2 =~= q1.drop_first().push(c));
            assert(q2.subrange(q2.len() - run.len(), q2.len() as int) =~= q1.subrange(
                q1.len() - k,
                q1.len() as int,
            ).push(c));
        } else {
            assert(q2 =~= q1.push(c));
            assert(q2.subrange(q2.len() - run.len(), q2.len() as int) =~= q1.subrange(
                q1.len() - k,
                q1.len() as int,
            ).push(c));
        }
    }
}

/// When the pre-roll can hold the loud chunks that precede the trigger,
/// a run of `start_chunks` loud chunks fed to an idle segmenter that has
/// no loud streak opens a phrase that ends with exactly that run: none of
/// the loud chunks before the trigger is lost.
pub proof fn lemma_trigger_run_kept<S>(p: VadParams, s: VadState<S>, run: Seq<(Seq<S>, bool)>)
    requires
        state_wf(p, s),
        !s.speaking,
        s.above_streak == 0,
        p.keeps_trigger_run(),
        p.start_chunks >= 1,
        run.len() == p.start_chunks,
        all_loud(run),
    ensures
        feed(p, s, run).0.speaking,
        feed(p, s, run).1.len() == 0,
        feed(p, s, run).0.chunks_in_phrase == 1,
        feed(p, s, run).0.phrase.len() >= run.len(),
        feed(p, s, run).0.phrase.subrange(
            feed(p, s, run).0.phrase.len() - run.len(),
            feed(p, s, run).0.phrase.len() as int,
        ) == run_chunks(run),
{
    let prefix = run.drop_last();
    assert(all_loud(prefix)) by {
        assert forall|j: int| 0 <= j < prefix.len() implies #[trigger] prefix[j].1 by {
            assert(prefix[j] == run[j]);
        }
    }
    lemma_loud_prefix(p, s, prefix);
    let s1 = feed(p, s, prefix).0;
    let c = run.last().0;
    assert(run.last().1) by {
        assert(run.last() == run[run.len() - 1]);
    }
    let s2 = feed(p, s, run).0;
    assert(s2.phrase == s1.preroll.push(c));
    assert(run_chunks(run) =~= run_chunks(prefix).push(c));
    let k = prefix.len();
    assert(s2.phrase.subrange(s2.phrase.len() - run.len(), s2.phrase.len() as int)
        =~= s1.preroll.subrange(s1.preroll.len() - k, s1.preroll.len() as int).push(c));
}

/// The most recent `preroll_chunks` chunks of `q`, or all of `q` when it
/// is shorter.
pub open spec fn last_window<S>(p: VadParams, q: Seq<Seq<S>>) -> Seq<Seq<S>> {
    if q.len() <= p.preroll_chunks {
        q
    } else {
        q.skip(q.len() - p.preroll_chunks)
    }
}

/// No chunk of the stream is loud.
pub open spec fn all_quiet<S>(run: Seq<(Seq<S>, bool)>) -> bool {
    forall|j: int| 0 <= j < run.len() ==> !#[trigger] run[j].1
}

/// While no phrase is open and the audio stays quiet, the pre-roll holds
/// exactly the most recent `preroll_chunks` chunks, oldest first, and
/// nothing is handed on.
pub proof fn lemma_quiet_preroll_window<S>(p: VadParams, s: VadState<S>, input: Seq<(Seq<S>, bool)>)
    requires
        state_wf(p, s),
        !s.speaking,
        all_quiet(input),
    ensures
        !feed(p, s, input).0.speaking,
        feed(p, s, input).1.len() == 0,
        feed(p, s, input).0.preroll == last_window(p, s.preroll + run_chunks(input)),
    decreases input.len(),
{
    if input.len() == 0 {
        assert(s.preroll + run_chunks(input) =~= s.preroll);
    } else {
        let prefix = input.drop_last();
        assert(all_quiet(prefix)) by {
            assert forall|j: int| 0 <= j < prefix.len() implies !#[trigger] prefix[j].1 by {
                assert(prefix[j] == input[j]);
            }
        }
        lemma_quiet_preroll_window(p, s, prefix);
        lemma_feed_keeps_wf(p, s, prefix);
        let s1 = feed(p, s, prefix).0;
        let c = input.last().0;
        assert(!input.last().1) by {
            assert(input.last() == input[input.len() - 1]);
        }
        let q1 = s.preroll + run_chunks(prefix);
        assert(s.preroll + run_chunks(input) =~= q1.push(c));
        lemma_window_push(p, q1, c);
    }
}

/// Appending a chunk to the pre-roll keeps it the most recent window.
pub proof fn lemma_window_push<S>(p: VadParams, q: Seq<Seq<S>>, c: Seq<S>)
    ensures
        preroll_after(p, last_window(p, q), c) == last_window(p, q.push(c)),
{
    assert(preroll_after(p, last_window(p, q), c) =~= last_window(p, q.push(c)));
}

/// `x` is the tail end of `y`.
pub open spec fn ends_with<T>(y: Seq<T>, x: Seq<T>) -> bool {
    x.len() <= y.len() && x == y.subrange(y.len() - x.len(), y.len() as int)
}

/// `x` is a run of consecutive elements of `y`.
pub open spec fn is_run_of<T>(y: Seq<T>, x: Seq<T>) -> bool {
    exists|a: int, b: int| 0 <= a <= b <= y.len() && x == #[trigger] y.subrange(a, b)
}

proof fn lemma_ends_with_push<T>(y: Seq<T>, x: Seq<T>, c: T)
    requires
        ends_with(y, x),
    ensures
        ends_with(y.push(c), x.push(c)),
        ends_with(y.push(c), Seq::<T>::empty()),
        x.len() > 0 ==> ends_with(y.push(c), x.drop_first().push(c)),
{
    let n = y.len() as int + 1;
    assert(y.push(c).subrange(n - (x.len() + 1), n) =~= x.push(c));
    assert(y.push(c).subrange(n, n) =~= Seq::<T>::empty());
    if x.len() > 0 {
        assert(y.push(c).subrange(n - x.len(), n) =~= x.drop_first().push(c));
    }
}

proof fn lemma_run_of_push<T>(y: Seq<T>, x: Seq<T>, c: T)
    requires
        is_run_of(y, x),
    ensures
        is_run_of(y.push(c), x),
{
    let (a, b) = choose|a: int, b: int| 0 <= a <= b <= y.len() && x == #[trigger] y.subrange(a, b);
    assert(y.push(c).subrange(a, b) =~= y.subrange(a, b));
}

/// Starting from no audio, the pre-roll and the open phrase are always the
/// most recent chunks of the stream, and every utterance that is handed on
/// is a run of consecutive chunks of the stream, in their original order:
/// nothing is reordered, duplicated or skipped inside an utterance.
pub proof fn lemma_utterances_are_runs<S>(p: VadParams, input: Seq<(Seq<S>, bool)>)
    ensures
        ends_with(run_chunks(input), feed(p, initial_state(), input).0.preroll),
        ends_with(run_chunks(input), feed(p, initial_state(), input).0.phrase),
        forall|i: int|
            0 <= i < feed(p, initial_state(), input).1.len() ==> is_run_of(
                run_chunks(input),
                #[trigger] feed(p, initial_state(), input).1[i],
            ),
    decreases input.len(),
{
    let init = initial_state::<S>();
    let y = run_chunks(input);
    if input.len() == 0 {
        assert(y.subrange(0, 0) =~= Seq::<Seq<S>>::empty());
    } else {
        let prefix = input.drop_last();
        lemma_utterances_are_runs(p, prefix);
        let y0 = run_chunks(prefix);
        let c = input.last().0;
        assert(y =~= y0.push(c));
        let (s1, outs) = feed(p, init, prefix);
        let r = step_spec(p, s1, c, input.last().1);
        lemma_feed_keeps_wf(p, init, prefix);
        lemma_ends_with_push(y0, s1.preroll, c);
        lemma_ends_with_push(y0, s1.phrase, c);
        if !s1.speaking {
            assert(s1.phrase =~= Seq::<Seq<S>>::empty());
            if p.preroll_chunks == 0 {
                assert(s1.preroll =~= Seq::<Seq<S>>::empty());
            }
        } else {
            assert(s1.preroll =~= Seq::<Seq<S>>::empty());
        }
        assert forall|i: int| 0 <= i < outs.len() implies is_run_of(y, #[trigger] outs[i]) by {
            lemma_run_of_push(y0, outs[i], c);
        }
        if r.1 is Some {
            let pieces = s1.phrase.push(c);
            assert(y.subrange(y.len() - pieces.len(), y.len() as int) == pieces);
            assert(is_run_of(y, pieces));
        }
        let all = outs + opt_seq(r.1);
        assert forall|i: int| 0 <= i < all.len() implies is_run_of(y, #[trigger] all[i]) by {
            if i < outs.len() {
                assert(all[i] == outs[i]);
            }
        }
    }
}

} // verus!
