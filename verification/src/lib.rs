//! The verified frame of a streaming spectral remapper.
//!
//! A phase vocoder takes samples one at a time, and every quarter window it
//! analyses the last window, moves each frequency component where a mapping
//! sends it, and lays the resynthesised window onto its output by overlap-add.
//! This crate holds what decides where each sample and each bin goes:
//!
//! - [`ring_buffer`]: the circular store behind the input window and the output line;
//! - [`framing`]: window sizes, hops, taper phase, and the layout of the bins;
//! - [`mapper`]: the slot that holds the validated mapping script;
//! - [`phase_vocoder`]: the engine that ties them together, sample by sample.
//!
//! The engine is generic in the sample type. The arithmetic on samples and
//! spectra is the caller's and comes in as functions.

pub mod framing;
pub mod mapper;
pub mod phase_vocoder;
pub mod ring_buffer;
