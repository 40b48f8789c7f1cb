# sidecar-core

The decision logic of a local speech-recognition sidecar, with its contracts and proofs.

- `src/vad.rs` — the voice-activity segmenter: thresholds in chunks, the
  streaming state machine (`Vad::step`) and the batch runner (`segment`),
  each with a contract over an abstract transition function.
- `src/vad_laws.rs` — properties across many chunks: reachable states,
  utterance length bounds, the pre-roll window, the loud run that opens a
  phrase, and utterances as runs of consecutive chunks.
- `src/vad_stream.rs` — the segmenter over a whole stream by chunk index:
  where each phrase opens and ends, the exact chunks of its utterance, when
  it is handed on, and that a phrase still open at the end is not.
- `src/protocol.rs` — the events reported to the host.
- `src/text.rs` — trimming, `u32` parsing, numeric settings, the forced
  decoder language.
- `src/runtime.rs` — the sidecar root, model directories, the env file
  location, thread count,
  download progress and model URLs.
- `src/audio.rs` — framing of captured audio, substring search and input
  device choice.
- `app/` — capture, resampling, loudness, the engines, JSON I/O and the
  process loops, which call into the library for every decision.
