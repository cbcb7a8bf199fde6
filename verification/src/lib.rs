//! Core of a batch audio-to-subtitle pipeline.
//!
//! An input recording is resampled to 16 kHz mono, partitioned into 100 ms
//! windows that a voice-activity classifier labels as speech or silence,
//! grouped into speech segments by a hysteresis state machine with a silence
//! hangover and duration-based split/pad policies, transcribed per segment by
//! a speech-to-text engine, and assembled into a time-ordered subtitle track.
//!
//! This crate holds the verified core: the segmentation engine
//! ([`segment::SegmentationEngine`]), the subtitle assembler
//! ([`assemble::assemble`]), the pipeline stage/progress tracker
//! ([`progress::ProgressChannel`]), and the bridge to the SRT serialization
//! crate ([`srt`]). The unverifiable collaborators - the audio decoder, the
//! neural classifiers, file output and the user interface - live outside; they
//! exchange plain values (16-bit PCM samples, per-window classifier outcomes,
//! tick-stamped transcript fragments) with the functions here.

pub mod assemble;
pub mod cli;
pub mod progress;
pub mod segment;
pub mod srt;
