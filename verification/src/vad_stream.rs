//! The segmenter over a whole stream, stated by chunk index: where a phrase
//! opens, where it ends, which chunks its utterance holds, and when the
//! utterance is handed on.
//!
//! Chunk `i` of a stream is `input[i].0`, and it is loud when `input[i].1`
//! holds. A segment of the stream starts at index `e` when the segmenter is
//! in its initial state there: at the start of the stream, and again after
//! every phrase ends.
use crate::vad::{
    feed, initial_state, speech_count, step_spec, VadParams, VadState,
};
use crate::vad_laws::{last_window, lemma_window_push, run_chunks};
use vstd::prelude::*;

verus! {

/// The state and the utterances handed on after the first `k` chunks,
/// starting from no audio.
pub open spec fn after<S>(p: VadParams, input: Seq<(Seq<S>, bool)>, k: int) -> (
    VadState<S>,
    Seq<Seq<Seq<S>>>,
) {
    feed(p, initial_state(), input.take(k))
}

/// The chunks with indices `a..b`, in order.
pub open spec fn chunks_between<S>(input: Seq<(Seq<S>, bool)>, a: int, b: int) -> Seq<Seq<S>> {
    run_chunks(input.subrange(a, b))
}

/// How many chunks in a row, ending just before index `k` and not before
/// index `lo`, have loudness `b`.
pub open spec fn run_len<S>(input: Seq<(Seq<S>, bool)>, lo: int, k: int, b: bool) -> nat
    decreases k - lo,
{
    if k <= lo || input[k - 1].1 != b {
        0
    } else {
        1 + run_len(input, lo, k - 1, b)
    }
}

/// The number of loud chunks in a row that opens a phrase: `start_chunks`,
/// where zero behaves as one (a phrase then opens on any loud chunk).
pub open spec fn start_run(p: VadParams) -> nat {
    if p.start_chunks == 0 {
        1
    } else {
        p.start_chunks as nat
    }
}

/// A phrase of the segment that starts at `e` may open at chunk `t`: the
/// `start_run(p)` chunks that end at `t` are all loud and all belong to
/// the segment.
pub open spec fn opens_at<S>(p: VadParams, input: Seq<(Seq<S>, bool)>, e: int, t: int) -> bool {
    &&& e <= t - start_run(p) + 1
    &&& t < input.len()
    &&& forall|j: int| t - start_run(p) + 1 <= j <= t ==> #[trigger] input[j].1
}

/// `t` is the first chunk at or after `e` at which a phrase may open.
pub open spec fn first_open<S>(p: VadParams, input: Seq<(Seq<S>, bool)>, e: int, t: int) -> bool {
    &&& opens_at(p, input, e, t)
    &&& forall|t2: int| e <= t2 < t ==> !#[trigger] opens_at(p, input, e, t2)
}

/// A phrase opened at chunk `t` may end at chunk `u`: it then spans
/// `max_chunks` chunks or more, or the last `end_chunks` chunks up to `u`
/// are all quiet.
pub open spec fn closes_at<S>(p: VadParams, input: Seq<(Seq<S>, bool)>, t: int, u: int) -> bool {
    &&& t < u < input.len()
    &&& (u - t + 1 >= p.max_chunks || forall|j: int|
        u - p.end_chunks + 1 <= j <= u ==> !#[trigger] input[j].1)
}

/// `u` is the first chunk after `t` at which the phrase may end.
pub open spec fn first_close<S>(p: VadParams, input: Seq<(Seq<S>, bool)>, t: int, u: int) -> bool {
    &&& closes_at(p, input, t, u)
    &&& forall|u2: int| t < u2 < u ==> !#[trigger] closes_at(p, input, t, u2)
}

/// The quiet chunks that end a phrase opened at `t` and ended at `u`.
pub open spec fn trailing_quiet<S>(input: Seq<(Seq<S>, bool)>, t: int, u: int) -> nat {
    run_len(input, t + 1, u + 1, false)
}

/// Whether the phrase opened at `t` and ended at `u` holds enough speech
/// to be handed on. Unless the thresholds count trailing silence, the
/// quiet chunks at its end do not count.
pub open spec fn phrase_kept<S>(p: VadParams, input: Seq<(Seq<S>, bool)>, t: int, u: int) -> bool {
    speech_count(p, (u - t + 1) as nat, trailing_quiet(input, t, u)) >= p.min_chunks
}

/// The chunks of the utterance of a phrase of the segment that starts at
/// `e`, opened at `t` and ended at `u`: up to `preroll_chunks` chunks of
/// the segment right before `t`, then chunks `t..=u`.
pub open spec fn utterance_chunks<S>(
    p: VadParams,
    input: Seq<(Seq<S>, bool)>,
    e: int,
    t: int,
    u: int,
) -> Seq<Seq<S>> {
    let a = if t - p.preroll_chunks >= e {
        t - p.preroll_chunks
    } else {
        e
    };
    chunks_between(input, a, u + 1)
}

proof fn lemma_after_next<S>(p: VadParams, input: Seq<(Seq<S>, bool)>, k: int)
    requires
        0 <= k < input.len(),
    ensures
        after(p, input, k + 1).0 == step_spec(
            p,
            after(p, input, k).0,
            input[k].0,
            input[k].1,
        ).0,
        after(p, input, k + 1).1 == after(p, input, k).1 + crate::vad::opt_seq(
            step_spec(p, after(p, input, k).0, input[k].0, input[k].1).1,
        ),
{
    assert(input.take(k + 1).drop_last() =~= input.take(k));
    assert(input.take(k + 1).last() == input[k]);
}

/// A run of `m` chunks of loudness `b` ends just before `k`, inside the
/// range that starts at `lo`, exactly when the run length counted back
/// from `k` reaches `m`.
pub proof fn lemma_run_len<S>(input: Seq<(Seq<S>, bool)>, lo: int, k: int, b: bool, m: nat)
    requires
        lo <= k <= input.len(),
    ensures
        run_len(input, lo, k, b) >= m <==> (k - m >= lo && forall|j: int|
            k - m <= j < k ==> #[trigger] input[j].1 == b),
    decreases k - lo,
{
    if m > 0 && k > lo && input[k - 1].1 == b {
        lemma_run_len(input, lo, k - 1, b, (m - 1) as nat);
        if k - m >= lo && forall|j: int| k - m <= j < k ==> #[trigger] input[j].1 == b {
            assert forall|j: int| k - 1 - (m - 1) <= j < k - 1 implies #[trigger] input[j].1
                == b by {
                assert(k - m <= j < k);
            }
        }
        if run_len(input, lo, k, b) >= m {
            assert forall|j: int| k - m <= j < k implies #[trigger] input[j].1 == b by {
                if j < k - 1 {
                    assert(k - 1 - (m - 1) <= j < k - 1);
                }
            }
        }
    } else if m > 0 && k > lo {
        assert(!(forall|j: int| k - m <= j < k ==> #[trigger] input[j].1 == b)) by {
            assert(input[k - 1].1 != b);
        }
    }
}

/// Before a phrase opens in the segment that starts at `e`: nothing is
/// handed on, the segmenter stays idle, its loud streak is the run of loud
/// chunks just before `k`, and its pre-roll is the most recent window of
/// the segment.
pub proof fn lemma_idle_until<S>(p: VadParams, input: Seq<(Seq<S>, bool)>, e: int, k: int)
    requires
        0 <= e <= k <= input.len(),
        after(p, input, e).0 == initial_state::<S>(),
        forall|t: int| e <= t < k ==> !#[trigger] opens_at(p, input, e, t),
    ensures
        !after(p, input, k).0.speaking,
        after(p, input, k).1 == after(p, input, e).1,
        after(p, input, k).0.above_streak == run_len(input, e, k, true),
        after(p, input, k).0.preroll == last_window(p, chunks_between(input, e, k)),
        after(p, input, k).0.phrase.len() == 0,
    decreases k - e,
{
    if k == e {
        assert(chunks_between(input, e, k) =~= Seq::<Seq<S>>::empty());
        assert(last_window(p, chunks_between(input, e, k)) =~= Seq::<Seq<S>>::empty());
    } else {
        let k0 = k - 1;
        lemma_idle_until(p, input, e, k0);
        lemma_after_next(p, input, k0);
        let s0 = after(p, input, k0).0;
        assert(!opens_at(p, input, e, k0));
        lemma_run_len(input, e, k, true, start_run(p));
        assert(run_len(input, e, k, true) < start_run(p)) by {
            if run_len(input, e, k, true) >= start_run(p) {
                assert forall|j: int| k0 - start_run(p) + 1 <= j <= k0 implies #[trigger] input[j].1 by {
                    assert(k - start_run(p) <= j < k);
                }
            }
        }
        assert(chunks_between(input, e, k) =~= chunks_between(input, e, k0).push(input[k0].0));
        lemma_window_push(p, chunks_between(input, e, k0), input[k0].0);
    }
}

/// A phrase opens at the first chunk `t` of the segment that starts at `e`
/// at which `start_run(p)` loud chunks of the segment end. Nothing is
/// handed on before it, and the open phrase then holds the chunks of the
/// segment from `max(e, t - preroll_chunks)` through `t`.
pub proof fn lemma_phrase_opens<S>(p: VadParams, input: Seq<(Seq<S>, bool)>, e: int, t: int)
    requires
        0 <= e,
        after(p, input, e).0 == initial_state::<S>(),
        first_open(p, input, e, t),
    ensures
        after(p, input, t + 1).1 == after(p, input, e).1,
        after(p, input, t + 1).0 == (VadState {
            speaking: true,
            above_streak: 0,
            below_streak: 0,
            chunks_in_phrase: 1,
            preroll: Seq::empty(),
            phrase: utterance_chunks(p, input, e, t, t),
            lead: (utterance_chunks(p, input, e, t, t).len() - 1) as nat,
        }),
{
    lemma_idle_until(p, input, e, t);
    lemma_after_next(p, input, t);
    lemma_run_len(input, e, t + 1, true, start_run(p));
    assert(run_len(input, e, t + 1, true) >= start_run(p)) by {
        assert forall|j: int| t + 1 - start_run(p) <= j < t + 1 implies #[trigger] input[j].1
            == true by {
            assert(t - start_run(p) + 1 <= j <= t);
        }
    }
    assert(input[t].1) by {
        assert(t - start_run(p) + 1 <= t <= t);
    }
    let q = chunks_between(input, e, t);
    assert(last_window(p, q).push(input[t].0) =~= utterance_chunks(p, input, e, t, t));
}

/// No phrase opens in the segment that starts at `e` before chunk `k`
/// unless `start_run(p)` loud chunks of the segment end before `k`: a
/// stream without such a run hands nothing on.
pub proof fn lemma_no_phrase_opens<S>(p: VadParams, input: Seq<(Seq<S>, bool)>, e: int, k: int)
    requires
        0 <= e <= k <= input.len(),
        after(p, input, e).0 == initial_state::<S>(),
        forall|t: int| e <= t < k ==> !#[trigger] opens_at(p, input, e, t),
    ensures
        !after(p, input, k).0.speaking,
        after(p, input, k).1 == after(p, input, e).1,
{
    lemma_idle_until(p, input, e, k);
}

/// The state of a phrase opened at `t`, with chunks `x` at its front, once
/// chunks `t + 1..k` have been added and none of them has ended it.
pub open spec fn open_phrase_state<S>(
    input: Seq<(Seq<S>, bool)>,
    x: Seq<Seq<S>>,
    t: int,
    k: int,
) -> VadState<S> {
    VadState {
        speaking: true,
        above_streak: 0,
        below_streak: run_len(input, t + 1, k, false),
        chunks_in_phrase: (k - t) as nat,
        preroll: Seq::empty(),
        phrase: x + chunks_between(input, t + 1, k),
        lead: (x.len() - 1) as nat,
    }
}

proof fn lemma_open_until<S>(
    p: VadParams,
    input: Seq<(Seq<S>, bool)>,
    x: Seq<Seq<S>>,
    t: int,
    k: int,
)
    requires
        0 <= t < k <= input.len(),
        x.len() >= 1,
        input[t].1,
        after(p, input, t + 1).0 == open_phrase_state(input, x, t, t + 1),
        forall|u: int| t < u < k ==> !#[trigger] closes_at(p, input, t, u),
    ensures
        after(p, input, k).0 == open_phrase_state(input, x, t, k),
        after(p, input, k).1 == after(p, input, t + 1).1,
    decreases k - t,
{
    if k > t + 1 {
        let k0 = k - 1;
        lemma_open_until(p, input, x, t, k0);
        lemma_after_next(p, input, k0);
        assert(!closes_at(p, input, t, k0));
        lemma_close_condition(p, input, t, k0);
        assert(chunks_between(input, t + 1, k) =~= chunks_between(input, t + 1, k0).push(
            input[k0].0,
        ));
        assert(x + chunks_between(input, t + 1, k) =~= (x + chunks_between(input, t + 1, k0)).push(
            input[k0].0,
        ));
    } else {
        assert(chunks_between(input, t + 1, k) =~= Seq::<Seq<S>>::empty());
    }
}

/// At chunk `u`, the end test of the segmenter (the trailing quiet run
/// reaches `end_chunks`, or the phrase reaches `max_chunks`) is
/// [`closes_at`].
proof fn lemma_close_condition<S>(p: VadParams, input: Seq<(Seq<S>, bool)>, t: int, u: int)
    requires
        0 <= t < u < input.len(),
        input[t].1,
    ensures
        closes_at(p, input, t, u) <==> (run_len(input, t + 1, u + 1, false) >= p.end_chunks || u
            - t + 1 >= p.max_chunks),
{
    lemma_run_len(input, t + 1, u + 1, false, p.end_chunks as nat);
    if forall|j: int| u - p.end_chunks + 1 <= j <= u ==> !#[trigger] input[j].1 {
        if u - p.end_chunks + 1 <= t {
            assert(!input[t].1);
        }
        assert forall|j: int| u + 1 - p.end_chunks <= j < u + 1 implies #[trigger] input[j].1
            == false by {
            assert(u - p.end_chunks + 1 <= j <= u);
        }
    }
    if run_len(input, t + 1, u + 1, false) >= p.end_chunks {
        assert forall|j: int| u - p.end_chunks + 1 <= j <= u implies !#[trigger] input[j].1 by {
            assert(u + 1 - p.end_chunks <= j < u + 1);
        }
    }
}

/// A phrase that opened at `t` stays open through chunk `k - 1` while no
/// chunk after `t` ends it, and hands nothing on meanwhile: a phrase still
/// open when the stream ends is never handed on.
pub proof fn lemma_phrase_stays_open<S>(
    p: VadParams,
    input: Seq<(Seq<S>, bool)>,
    e: int,
    t: int,
    k: int,
)
    requires
        0 <= e,
        t < k <= input.len(),
        after(p, input, e).0 == initial_state::<S>(),
        first_open(p, input, e, t),
        forall|u: int| t < u < k ==> !#[trigger] closes_at(p, input, t, u),
    ensures
        after(p, input, k).0.speaking,
        after(p, input, k).1 == after(p, input, e).1,
        after(p, input, k).0.phrase == utterance_chunks(p, input, e, t, k - 1),
{
    lemma_phrase_opens(p, input, e, t);
    let x = utterance_chunks(p, input, e, t, t);
    assert(input[t].1) by {
        assert(t - start_run(p) + 1 <= t <= t);
    }
    assert(after(p, input, t + 1).0 == open_phrase_state(input, x, t, t + 1)) by {
        assert(chunks_between(input, t + 1, t + 1) =~= Seq::<Seq<S>>::empty());
        assert(x + chunks_between(input, t + 1, t + 1) =~= x);
    }
    lemma_open_until(p, input, x, t, k);
    assert(x + chunks_between(input, t + 1, k) =~= utterance_chunks(p, input, e, t, k - 1));
}

/// A phrase that opened at `t` (the first opening of the segment that
/// starts at `e`) ends at the first chunk `u` after `t` that ends it. The
/// segmenter is then back in its initial state, so the next segment starts
/// at `u + 1`. The utterance `utterance_chunks(e, t, u)` is handed on when
/// the phrase holds enough speech, and nothing is handed on otherwise.
pub proof fn lemma_phrase_closes<S>(
    p: VadParams,
    input: Seq<(Seq<S>, bool)>,
    e: int,
    t: int,
    u: int,
)
    requires
        0 <= e,
        after(p, input, e).0 == initial_state::<S>(),
        first_open(p, input, e, t),
        first_close(p, input, t, u),
    ensures
        after(p, input, u + 1).0 == initial_state::<S>(),
        after(p, input, u + 1).1 == after(p, input, e).1 + if phrase_kept(p, input, t, u) {
            seq![utterance_chunks(p, input, e, t, u)]
        } else {
            Seq::empty()
        },
{
    lemma_phrase_opens(p, input, e, t);
    let x = utterance_chunks(p, input, e, t, t);
    assert(input[t].1) by {
        assert(t - start_run(p) + 1 <= t <= t);
    }
    assert(after(p, input, t + 1).0 == open_phrase_state(input, x, t, t + 1)) by {
        assert(chunks_between(input, t + 1, t + 1) =~= Seq::<Seq<S>>::empty());
        assert(x + chunks_between(input, t + 1, t + 1) =~= x);
    }
    lemma_open_until(p, input, x, t, u);
    lemma_after_next(p, input, u);
    lemma_close_condition(p, input, t, u);
    assert(x + chunks_between(input, t + 1, u + 1) =~= utterance_chunks(p, input, e, t, u));
    assert(chunks_between(input, t + 1, u + 1) =~= chunks_between(input, t + 1, u).push(
        input[u].0,
    ));
    assert((x + chunks_between(input, t + 1, u)).push(input[u].0) =~= x + chunks_between(
        input,
        t + 1,
        u + 1,
    ));
    if phrase_kept(p, input, t, u) {
        assert(after(p, input, u + 1).1 =~= after(p, input, e).1 + seq![
            utterance_chunks(p, input, e, t, u),
        ]);
    } else {
        assert(after(p, input, u + 1).1 =~= after(p, input, e).1);
    }
}

} // verus!
