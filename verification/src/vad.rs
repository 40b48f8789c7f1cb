//! Energy-gated voice-activity segmentation.
//!
//! The segmenter sees one fixed-length audio chunk at a time together with
//! a flag saying whether the chunk was loud, and decides when an utterance
//! opens, when it ends, and whether it is long enough to be handed on.
//! It is generic over the sample type: it never looks inside a chunk.
use std::collections::VecDeque;
use vstd::prelude::*;

verus! {

/// Duration of one audio chunk in milliseconds.
pub const CHUNK_MS: u32 = 160;

/// Number of chunks that cover `ms` milliseconds, rounding up.
pub open spec fn chunks_for_ms(ms: int) -> int {
    (ms + CHUNK_MS - 1) / (CHUNK_MS as int)
}

/// Converts a duration in milliseconds to a chunk count, rounding up.
pub fn ms_to_chunks(ms: u32) -> (n: u32)
    ensures
        n == chunks_for_ms(ms as int),
{
    let q = ms / CHUNK_MS;
    if ms % CHUNK_MS == 0 {
        q
    } else {
        q + 1
    }
}

/// The larger of two integers.
pub open spec fn max_int(a: int, b: int) -> int {
    if a >= b {
        a
    } else {
        b
    }
}

/// Segmentation thresholds, all counted in chunks.
#[derive(Clone, Copy, Debug)]
pub struct VadParams {
    /// Consecutive loud chunks needed before a phrase opens.
    pub start_chunks: u32,
    /// Consecutive quiet chunks that end a phrase.
    pub end_chunks: u32,
    /// Phrases with fewer speech chunks than this are discarded.
    pub min_chunks: u32,
    /// Phrases are cut once they reach this many chunks.
    pub max_chunks: u32,
    /// Chunks kept from before the trigger and prepended to the phrase.
    pub preroll_chunks: u32,
    /// When set, the quiet chunks that end a phrase count towards
    /// `min_chunks`; otherwise only the chunks up to the last loud one do.
    pub count_trailing_silence: bool,
}

impl VadParams {
    /// The pre-roll is long enough to hold the loud chunks that precede
    /// the chunk that opens a phrase.
    pub open spec fn keeps_trigger_run(self) -> bool {
        self.preroll_chunks + 1 >= self.start_chunks
    }

    /// Builds the thresholds from durations in milliseconds. Every count is
    /// at least one chunk, and the pre-roll is stretched, where needed, to
    /// hold the loud chunks that come before the trigger.
    pub fn from_ms(start_ms: u32, end_ms: u32, min_ms: u32, max_ms: u32, preroll_ms: u32) -> (p:
        VadParams)
        ensures
            p.start_chunks == max_int(chunks_for_ms(start_ms as int), 1),
            p.end_chunks == max_int(chunks_for_ms(end_ms as int), 1),
            p.min_chunks == max_int(chunks_for_ms(min_ms as int), 1),
            p.max_chunks == max_int(chunks_for_ms(max_ms as int), 1),
            p.preroll_chunks == max_int(chunks_for_ms(preroll_ms as int), p.start_chunks - 1),
            p.start_chunks >= 1 && p.end_chunks >= 1 && p.min_chunks >= 1 && p.max_chunks >= 1,
            p.keeps_trigger_run(),
            !p.count_trailing_silence,
    {
        let start_chunks = at_least(ms_to_chunks(start_ms), 1);
        VadParams {
            start_chunks,
            end_chunks: at_least(ms_to_chunks(end_ms), 1),
            min_chunks: at_least(ms_to_chunks(min_ms), 1),
            max_chunks: at_least(ms_to_chunks(max_ms), 1),
            preroll_chunks: at_least(ms_to_chunks(preroll_ms), start_chunks - 1),
            count_trailing_silence: false,
        }
    }

    /// The fixed thresholds of the single-engine recognizer: a phrase opens
    /// on the first loud chunk, ends after five quiet chunks (about 800 ms)
    /// or at 63 chunks (about 10 s), must span two chunks counting its
    /// trailing silence, and keeps no pre-roll.
    pub fn fixed() -> (p: VadParams)
        ensures
            p.start_chunks == 1,
            p.end_chunks == 5,
            p.min_chunks == 2,
            p.max_chunks == 63,
            p.preroll_chunks == 0,
            p.count_trailing_silence,
    {
        VadParams {
            start_chunks: 1,
            end_chunks: 5,
            min_chunks: 2,
            max_chunks: 63,
            preroll_chunks: 0,
            count_trailing_silence: true,
        }
    }
}

/// The chunks of a closing phrase of `n` chunks, `below` of them trailing
/// quiet ones, that count towards `min_chunks`.
pub open spec fn speech_count(p: VadParams, n: nat, below: nat) -> int {
    if p.count_trailing_silence {
        n as int
    } else {
        n - below
    }
}

fn at_least(x: u32, lo: u32) -> (r: u32)
    ensures
        r == max_int(x as int, lo as int),
{
    if x >= lo {
        x
    } else {
        lo
    }
}

/// Abstract state of the segmenter.
pub struct VadState<S> {
    /// A phrase is open.
    pub speaking: bool,
    /// Loud chunks seen in a row while no phrase is open.
    pub above_streak: nat,
    /// Quiet chunks seen in a row at the end of the open phrase.
    pub below_streak: nat,
    /// Chunks of the open phrase counted from the trigger chunk.
    pub chunks_in_phrase: nat,
    /// Chunks kept while idle, oldest first.
    pub preroll: Seq<Seq<S>>,
    /// Chunks of the open phrase, pre-roll first.
    pub phrase: Seq<Seq<S>>,
    /// How many chunks at the front of the open phrase came from the pre-roll.
    pub lead: nat,
}

/// The state before any chunk has been seen.
pub open spec fn initial_state<S>() -> VadState<S> {
    VadState {
        speaking: false,
        above_streak: 0,
        below_streak: 0,
        chunks_in_phrase: 0,
        preroll: Seq::empty(),
        phrase: Seq::empty(),
        lead: 0,
    }
}

/// The idle state that follows the end of a phrase.
pub open spec fn closed_state<S>() -> VadState<S> {
    initial_state()
}

/// The pre-roll after an idle chunk that does not open a phrase: the chunk
/// is appended, and the oldest one dropped once the pre-roll is full.
pub open spec fn preroll_after<S>(p: VadParams, pre: Seq<Seq<S>>, chunk: Seq<S>) -> Seq<Seq<S>> {
    if p.preroll_chunks == 0 {
        pre
    } else if pre.len() == p.preroll_chunks {
        pre.drop_first().push(chunk)
    } else {
        pre.push(chunk)
    }
}

/// What one chunk does to the segmenter: the next state, and the chunks
/// of the utterance that is handed on, if one is.
pub open spec fn step_spec<S>(p: VadParams, s: VadState<S>, chunk: Seq<S>, loud: bool) -> (
    VadState<S>,
    Option<Seq<Seq<S>>>,
) {
    if !s.speaking {
        if loud && s.above_streak + 1 >= p.start_chunks {
            (
                VadState {
                    speaking: true,
                    above_streak: 0,
                    below_streak: 0,
                    chunks_in_phrase: 1,
                    preroll: Seq::empty(),
                    phrase: s.preroll.push(chunk),
                    lead: s.preroll.len(),
                },
                None,
            )
        } else {
            let above: nat = if loud {
                s.above_streak + 1
            } else {
                0
            };
            (VadState { above_streak: above, preroll: preroll_after(p, s.preroll, chunk), ..s }, None)
        }
    } else {
        let n: nat = s.chunks_in_phrase + 1;
        let below: nat = if loud {
            0
        } else {
            s.below_streak + 1
        };
        let phrase = s.phrase.push(chunk);
        if below >= p.end_chunks || n >= p.max_chunks {
            if speech_count(p, n, below) < p.min_chunks {
                (closed_state(), None)
            } else {
                (closed_state(), Some(phrase))
            }
        } else {
            (
                VadState {
                    speaking: true,
                    above_streak: 0,
                    below_streak: below,
                    chunks_in_phrase: n,
                    preroll: Seq::empty(),
                    phrase,
                    lead: s.lead,
                },
                None,
            )
        }
    }
}

/// The states that the segmenter can reach.
pub open spec fn state_wf<S>(p: VadParams, s: VadState<S>) -> bool {
    &&& s.preroll.len() <= p.preroll_chunks
    &&& if s.speaking {
        &&& s.above_streak == 0
        &&& 1 <= s.chunks_in_phrase
        &&& (s.chunks_in_phrase == 1 || s.chunks_in_phrase < p.max_chunks)
        &&& s.below_streak < s.chunks_in_phrase
        &&& s.preroll.len() == 0
        &&& s.lead <= p.preroll_chunks
        &&& s.phrase.len() == s.lead + s.chunks_in_phrase
    } else {
        &&& (s.above_streak == 0 || s.above_streak < p.start_chunks)
        &&& s.below_streak == 0
        &&& s.chunks_in_phrase == 0
        &&& s.phrase.len() == 0
        &&& s.lead == 0
    }
}

/// The sample sequences of a list of chunks.
pub open spec fn chunk_views<S>(q: Seq<Vec<S>>) -> Seq<Seq<S>> {
    q.map_values(|c: Vec<S>| c@)
}

/// Streaming segmenter: feed it chunks with [`Vad::step`].
pub struct Vad<S> {
    params: VadParams,
    speaking: bool,
    above_streak: u32,
    below_streak: u32,
    chunks_in_phrase: u32,
    preroll: VecDeque<Vec<S>>,
    buf: Vec<S>,
    phrase: Ghost<Seq<Seq<S>>>,
    lead: Ghost<nat>,
}

impl<S> View for Vad<S> {
    type V = VadState<S>;

    closed spec fn view(&self) -> VadState<S> {
        VadState {
            speaking: self.speaking,
            above_streak: self.above_streak as nat,
            below_streak: self.below_streak as nat,
            chunks_in_phrase: self.chunks_in_phrase as nat,
            preroll: chunk_views(self.preroll@),
            phrase: self.phrase@,
            lead: self.lead@,
        }
    }
}

impl<S> Vad<S> {
    /// The thresholds this segmenter runs with.
    pub closed spec fn spec_params(&self) -> VadParams {
        self.params
    }

    /// The segmenter's internal invariant.
    pub closed spec fn inv(&self) -> bool {
        &&& state_wf(self.params, self@)
        &&& self.buf@ == self.phrase@.flatten()
    }

    /// A segmenter that has seen no audio yet.
    pub fn new(params: VadParams) -> (v: Self)
        ensures
            v.inv(),
            v.spec_params() == params,
            v@ == initial_state::<S>(),
    {
        let v = Vad {
            params,
            speaking: false,
            above_streak: 0,
            below_streak: 0,
            chunks_in_phrase: 0,
            preroll: VecDeque::new(),
            buf: Vec::new(),
            phrase: Ghost(Seq::empty()),
            lead: Ghost(0),
        };
        assert(chunk_views(v.preroll@) =~= Seq::<Seq<S>>::empty());
        v
    }

    /// The thresholds this segmenter runs with.
    pub fn params(&self) -> (p: VadParams)
        ensures
            p == self.spec_params(),
    {
        self.params
    }

    /// Whether a phrase is open.
    pub fn is_speaking(&self) -> (b: bool)
        ensures
            b == self@.speaking,
    {
        self.speaking
    }

    /// Feeds one chunk. Returns the samples of an utterance when this chunk
    /// closes a phrase that holds enough speech.
    pub fn step(&mut self, chunk: Vec<S>, loud: bool) -> (out: Option<Vec<S>>)
        requires
            old(self).inv(),
        ensures
            final(self).inv(),
            final(self).spec_params() == old(self).spec_params(),
            final(self)@ == step_spec(old(self).spec_params(), old(self)@, chunk@, loud).0,
            match step_spec(old(self).spec_params(), old(self)@, chunk@, loud).1 {
                Some(pieces) => out matches Some(u) && u@ == pieces.flatten(),
                None => out is None,
            },
            old(self).spec_params().count_trailing_silence && old(self)@.speaking && (old(
            self,
            )@.chunks_in_phrase + 1 >= old(self).spec_params().max_chunks || (!loud && old(
            self,
            )@.below_streak + 1 >= old(self).spec_params().end_chunks)) ==> (out is Some <==> old(
            self,
            )@.chunks_in_phrase + 1 >= old(self).spec_params().min_chunks),
    {
        proof {
            let p = self.params;
            let s = self@;
            if p.count_trailing_silence && s.speaking && (s.chunks_in_phrase + 1 >= p.max_chunks
                || (!loud && s.below_streak + 1 >= p.end_chunks)) {
                crate::vad_laws::lemma_closing_phrase_counts_all(p, s, chunk@, loud);
            }
        }
        let ghost pre = self@;
        let ghost chunk_v = chunk@;
        if !self.speaking {
            if loud && self.above_streak + 1 >= self.params.start_chunks {
                self.open_phrase(chunk);
                return None;
            }
            if loud {
                self.above_streak = self.above_streak + 1;
            } else {
                self.above_streak = 0;
            }
            if self.params.preroll_chunks > 0 {
                if self.preroll.len() == self.params.preroll_chunks as usize {
                    self.preroll.pop_front();
                }
                self.preroll.push_back(chunk);
                proof {
                    let q = self.preroll@;
                    assert(chunk_views(q) =~= if pre.preroll.len() == self.params.preroll_chunks {
                        pre.preroll.drop_first().push(chunk_v)
                    } else {
                        pre.preroll.push(chunk_v)
                    });
                }
            }
            return None;
        }
        let mut chunk = chunk;
        self.buf.append(&mut chunk);
        proof {
            self.phrase@.lemma_flatten_push(chunk_v);
            self.phrase = Ghost(self.phrase@.push(chunk_v));
        }
        self.chunks_in_phrase = self.chunks_in_phrase + 1;
        if loud {
            self.below_streak = 0;
        } else {
            self.below_streak = self.below_streak + 1;
        }
        let ended = self.below_streak >= self.params.end_chunks || self.chunks_in_phrase
            >= self.params.max_chunks;
        assert(chunk_views(self.preroll@) =~= Seq::<Seq<S>>::empty());
        if !ended {
            return None;
        }
        let speech_chunks = if self.params.count_trailing_silence {
            self.chunks_in_phrase
        } else {
            self.chunks_in_phrase - self.below_streak
        };
        self.speaking = false;
        self.chunks_in_phrase = 0;
        self.above_streak = 0;
        self.below_streak = 0;
        let ghost pieces = self.phrase@;
        self.phrase = Ghost(Seq::empty());
        self.lead = Ghost(0);
        let mut audio: Vec<S> = Vec::new();
        std::mem::swap(&mut audio, &mut self.buf);
        assert(self.buf@ =~= self.phrase@.flatten());
        if speech_chunks < self.params.min_chunks {
            None
        } else {
            assert(audio@ == pieces.flatten());
            Some(audio)
        }
    }

    /// Opens a phrase: the pre-roll is moved into the phrase buffer, then
    /// the trigger chunk follows it.
    fn open_phrase(&mut self, chunk: Vec<S>)
        requires
            old(self).inv(),
            !old(self).speaking,
        ensures
            final(self).inv(),
            final(self).params == old(self).params,
            final(self)@ == (VadState {
                speaking: true,
                above_streak: 0,
                below_streak: 0,
                chunks_in_phrase: 1,
                preroll: Seq::empty(),
                phrase: old(self)@.preroll.push(chunk@),
                lead: old(self)@.preroll.len(),
            }),
    {
        let ghost pre = self@;
        let ghost chunk_v = chunk@;
        self.buf.clear();
        let ghost mut drained: Seq<Seq<S>> = Seq::empty();
        assert(drained + chunk_views(self.preroll@) =~= pre.preroll);
        while self.preroll.len() > 0
            invariant
                self.params == old(self).params,
                self.speaking == old(self).speaking,
                self.phrase == old(self).phrase,
                drained + chunk_views(self.preroll@) == pre.preroll,
                self.buf@ == drained.flatten(),
            decreases self.preroll@.len(),
        {
            let ghost q = self.preroll@;
            let mut past = self.preroll.pop_front().unwrap();
            proof {
                assert(chunk_views(q) =~= seq![past@] + chunk_views(self.preroll@));
                assert(drained.push(past@) + chunk_views(self.preroll@) =~= drained + chunk_views(
                    q,
                ));
                drained.lemma_flatten_push(past@);
                drained = drained.push(past@);
            }
            self.buf.append(&mut past);
        }
        assert(drained =~= pre.preroll);
        let mut chunk = chunk;
        self.buf.append(&mut chunk);
        proof {
            drained.lemma_flatten_push(chunk_v);
        }
        self.phrase = Ghost(pre.preroll.push(chunk_v));
        self.lead = Ghost(pre.preroll.len());
        self.speaking = true;
        self.chunks_in_phrase = 1;
        self.above_streak = 0;
        self.below_streak = 0;
        assert(chunk_views(self.preroll@) =~= Seq::<Seq<S>>::empty());
    }
}

/// The one-element sequence of an optional value.
pub open spec fn opt_seq<T>(o: Option<T>) -> Seq<T> {
    match o {
        Some(x) => seq![x],
        None => Seq::empty(),
    }
}

/// Feeds a whole list of (chunk, loud) pairs, oldest first: the final state
/// and the utterances handed on, each as its list of chunks.
pub open spec fn feed<S>(p: VadParams, s: VadState<S>, input: Seq<(Seq<S>, bool)>) -> (
    VadState<S>,
    Seq<Seq<Seq<S>>>,
)
    decreases input.len(),
{
    if input.len() == 0 {
        (s, Seq::empty())
    } else {
        let (s1, outs) = feed(p, s, input.drop_last());
        let r = step_spec(p, s1, input.last().0, input.last().1);
        (r.0, outs + opt_seq(r.1))
    }
}

/// The sample sequences of a list of (chunk, loud) pairs.
pub open spec fn input_views<S>(v: Seq<(Vec<S>, bool)>) -> Seq<(Seq<S>, bool)> {
    v.map_values(|x: (Vec<S>, bool)| (x.0@, x.1))
}

/// Runs a fresh segmenter over a finite stream of chunks, each with its
/// loudness, and returns the utterances it hands on, in order.
pub fn segment<S>(params: VadParams, chunks: Vec<(Vec<S>, bool)>) -> (utterances: Vec<Vec<S>>)
    ensures
        utterances@.len() == feed(params, initial_state(), input_views(chunks@)).1.len(),
        forall|i: int|
            0 <= i < utterances@.len() ==> #[trigger] utterances@[i]@ == feed(
                params,
                initial_state(),
                input_views(chunks@),
            ).1[i].flatten(),
{
    let ghost input = input_views(chunks@);
    let mut vad: Vad<S> = Vad::new(params);
    let mut utterances: Vec<Vec<S>> = Vec::new();
    for item in it: chunks
        invariant
            vad.inv(),
            vad.spec_params() == params,
            input == input_views(it.seq()),
            vad@ == feed(params, initial_state(), input.take(it.index() as int)).0,
            utterances@.len() == feed(params, initial_state(), input.take(it.index() as int)).1.len(),
            forall|k: int|
                0 <= k < utterances@.len() ==> #[trigger] utterances@[k]@ == feed(
                    params,
                    initial_state(),
                    input.take(it.index() as int),
                ).1[k].flatten(),
    {
        let ghost i = it.index() as int;
        let (chunk, loud) = item;
        let ghost before = feed(params, initial_state(), input.take(i));
        assert(input.take(i + 1).drop_last() =~= input.take(i));
        assert(input[i] == (chunk@, loud));
        let out = vad.step(chunk, loud);
        match out {
            Some(u) => {
                utterances.push(u);
            },
            None => {},
        }
        assert(feed(params, initial_state(), input.take(i + 1)).1 =~= before.1 + opt_seq(
            step_spec(params, before.0, input[i].0, input[i].1).1,
        ));
    }
    assert(input.take(input.len() as int) =~= input);
    utterances
}

} // verus!
