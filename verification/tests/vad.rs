use sidecar_core::audio::CHUNK_LEN;
use sidecar_core::vad::{ms_to_chunks, segment, Vad, VadParams};

fn params() -> VadParams {
    VadParams {
        start_chunks: 1,
        end_chunks: 5,
        min_chunks: 2,
        max_chunks: 62,
        preroll_chunks: 2,
        count_trailing_silence: false,
    }
}

fn silence() -> (Vec<f32>, bool) {
    (vec![0.0; CHUNK_LEN], false)
}

fn loud() -> (Vec<f32>, bool) {
    (vec![0.1; CHUNK_LEN], true)
}

fn run_vad(vad: VadParams, chunks: Vec<(Vec<f32>, bool)>) -> Vec<usize> {
    segment(vad, chunks).iter().map(|u| u.len()).collect()
}

#[test]
fn preroll_is_prepended_to_phrase() {
    let mut chunks = vec![silence(); 4];
    chunks.extend(vec![loud(); 3]);
    chunks.extend(vec![silence(); 5]);
    let lens = run_vad(params(), chunks);
    // 2 pre-roll + 3 speech + 5 trailing silence
    assert_eq!(lens, vec![10 * CHUNK_LEN]);
}

#[test]
fn single_chunk_blip_is_discarded() {
    let mut chunks = vec![silence(); 4];
    chunks.push(loud());
    chunks.extend(vec![silence(); 6]);
    let lens = run_vad(params(), chunks);
    // 1 speech chunk < min_chunks=2, dropped despite trailing silence
    assert!(lens.is_empty());
}

#[test]
fn loud_chunks_before_trigger_are_kept() {
    // start_chunks=3: the two loud chunks before the trigger chunk must
    // come back out of the pre-roll instead of being dropped.
    let vad = VadParams {
        start_chunks: 3,
        ..params()
    };
    let mut chunks = vec![silence(); 4];
    chunks.extend(vec![loud(); 4]);
    chunks.extend(vec![silence(); 5]);
    let lens = run_vad(vad, chunks);
    // 2 pre-roll + 2 speech after trigger + 5 trailing silence
    assert_eq!(lens, vec![9 * CHUNK_LEN]);
}

#[test]
fn loud_run_comes_back_in_order() {
    // The samples of the run that opened the phrase come out in order,
    // right after the older quiet pre-roll chunk.
    let vad = VadParams {
        start_chunks: 3,
        preroll_chunks: 3,
        min_chunks: 1,
        ..params()
    };
    let chunks: Vec<(Vec<u32>, bool)> = vec![
        (vec![1], false),
        (vec![2], false),
        (vec![3], true),
        (vec![4], true),
        (vec![5], true),
        (vec![6], false),
        (vec![7], false),
        (vec![8], false),
        (vec![9], false),
        (vec![10], false),
        (vec![11], false),
    ];
    let out = segment(vad, chunks);
    assert_eq!(out, vec![vec![2, 3, 4, 5, 6, 7, 8, 9, 10]]);
}

#[test]
fn ms_conversion_rounds_up() {
    assert_eq!(ms_to_chunks(0), 0);
    assert_eq!(ms_to_chunks(1), 1);
    assert_eq!(ms_to_chunks(160), 1);
    assert_eq!(ms_to_chunks(161), 2);
    assert_eq!(ms_to_chunks(800), 5);
    assert_eq!(ms_to_chunks(10_000), 63);
    assert_eq!(ms_to_chunks(u32::MAX), 26_843_546);
}

#[test]
fn default_durations_give_documented_chunk_counts() {
    let p = VadParams::from_ms(160, 800, 320, 10_000, 320);
    assert_eq!(p.start_chunks, 1);
    assert_eq!(p.end_chunks, 5);
    assert_eq!(p.min_chunks, 2);
    assert_eq!(p.max_chunks, 63);
    assert_eq!(p.preroll_chunks, 2);
    assert!(!p.count_trailing_silence);
}

#[test]
fn zero_durations_are_raised_to_one_chunk() {
    let p = VadParams::from_ms(0, 0, 0, 0, 0);
    assert_eq!(p.start_chunks, 1);
    assert_eq!(p.end_chunks, 1);
    assert_eq!(p.min_chunks, 1);
    assert_eq!(p.max_chunks, 1);
    assert_eq!(p.preroll_chunks, 0);
}

#[test]
fn preroll_is_stretched_to_hold_the_trigger_run() {
    // start of 800 ms is 5 chunks: the pre-roll must hold the 4 before it.
    let p = VadParams::from_ms(800, 800, 320, 10_000, 0);
    assert_eq!(p.start_chunks, 5);
    assert_eq!(p.preroll_chunks, 4);
}

#[test]
fn fixed_thresholds() {
    let p = VadParams::fixed();
    assert_eq!(
        (p.start_chunks, p.end_chunks, p.min_chunks, p.max_chunks, p.preroll_chunks),
        (1, 5, 2, 63, 0)
    );
    assert!(p.count_trailing_silence);
}

#[test]
fn long_utterance_is_force_committed() {
    let p = VadParams {
        max_chunks: 4,
        ..params()
    };
    let chunks = vec![loud(); 9];
    let lens = run_vad(p, chunks);
    // each phrase is cut at 4 chunks; the ninth chunk opens a third phrase
    assert_eq!(lens, vec![4 * CHUNK_LEN, 4 * CHUNK_LEN]);
}

#[test]
fn trailing_silence_counts_with_fixed_thresholds() {
    // One loud chunk then silence: with the fixed thresholds the silence
    // counts towards the two-chunk minimum, so the blip is kept.
    let mut chunks = vec![silence(); 2];
    chunks.push(loud());
    chunks.extend(vec![silence(); 5]);
    let lens = run_vad(VadParams::fixed(), chunks.clone());
    assert_eq!(lens, vec![6 * CHUNK_LEN]);
    // Without that rule it is dropped.
    let p = VadParams {
        count_trailing_silence: false,
        ..VadParams::fixed()
    };
    assert!(run_vad(p, chunks).is_empty());
}

#[test]
fn streaming_step_reports_the_utterance_on_its_last_chunk() {
    let mut vad: Vad<u8> = Vad::new(params());
    assert!(!vad.is_speaking());
    assert_eq!(vad.step(vec![1], false), None);
    assert_eq!(vad.step(vec![2], true), None);
    assert!(vad.is_speaking());
    assert_eq!(vad.step(vec![3], true), None);
    for i in 0..4u8 {
        assert_eq!(vad.step(vec![10 + i], false), None);
    }
    assert_eq!(vad.step(vec![20], false), Some(vec![1, 2, 3, 10, 11, 12, 13, 20]));
    assert!(!vad.is_speaking());
    assert_eq!(vad.params().end_chunks, 5);
}

#[test]
fn quiet_audio_never_opens_a_phrase() {
    let chunks = vec![silence(); 50];
    assert!(run_vad(params(), chunks).is_empty());
    let mut vad: Vad<u8> = Vad::new(params());
    for i in 0..20u8 {
        assert_eq!(vad.step(vec![i], false), None);
        assert!(!vad.is_speaking());
    }
}

#[test]
fn unfinished_phrase_is_not_reported() {
    let mut chunks = vec![loud(); 3];
    chunks.extend(vec![silence(); 4]);
    assert!(run_vad(params(), chunks).is_empty());
}

#[test]
fn interrupted_loud_run_does_not_open_a_phrase() {
    let p = VadParams {
        start_chunks: 3,
        ..params()
    };
    let mut chunks = Vec::new();
    for _ in 0..5 {
        chunks.push(loud());
        chunks.push(loud());
        chunks.push(silence());
    }
    assert!(run_vad(p, chunks).is_empty());
}

#[test]
fn next_phrase_starts_fresh_after_one_ends() {
    // After a phrase ends the pre-roll starts empty again: the second
    // utterance holds only the one quiet chunk seen since, not two.
    let mut chunks = vec![silence(); 3];
    chunks.extend(vec![loud(); 2]);
    chunks.extend(vec![silence(); 5]);
    chunks.push(silence());
    chunks.extend(vec![loud(); 2]);
    chunks.extend(vec![silence(); 5]);
    let lens = run_vad(params(), chunks);
    assert_eq!(lens, vec![9 * CHUNK_LEN, 8 * CHUNK_LEN]);
}

#[test]
fn zero_start_opens_on_any_loud_chunk() {
    let p = VadParams {
        start_chunks: 0,
        ..params()
    };
    let mut chunks = vec![silence(); 3];
    chunks.extend(vec![loud(); 2]);
    chunks.extend(vec![silence(); 5]);
    assert_eq!(run_vad(p, chunks.clone()), run_vad(params(), chunks));
}
