//! Voxtype: push-to-talk dictation and meeting transcription.
//!
//! This crate holds what is decided and computed; recording, transcription engines, the
//! embedding model, the store of meetings and the desktop are outside of it.
//!
//! - `float32`: single precision arithmetic, as IEEE 754 defines it, on bit patterns; on top
//!   of `rounding`.
//! - `text`: white space, words, sentences.
//! - `meeting`: from chunks of audio to an attributed transcript.
//! - `tray`: what the system tray icon shows.
pub mod float32;
pub mod float32_laws;
pub mod meeting;
pub mod rounding;
pub mod text;
pub mod text_laws;
pub mod tray;
