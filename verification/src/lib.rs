//! Decision logic of a speech-recognition sidecar: voice-activity
//! segmentation, settings arithmetic, text clean-up and path layout.

pub mod vad;
pub mod vad_laws;
pub mod vad_stream;
pub mod text;
pub mod protocol;
pub mod runtime;
pub mod audio;
