//! Post-processing of chunked speech-recognition output into caption
//! segments, with the small decision procedures around it.
//!
//! Times are integer microseconds throughout.

pub mod convert;
pub mod download;
pub mod embed;
pub mod embedding;
pub mod ffmpeg;
pub mod parakeet_grouping;
pub mod parse;
pub mod pipeline;
pub mod pipeline_laws;
pub mod schema;
pub mod recognizer;
pub mod text;
pub mod whisper_recognizer;
