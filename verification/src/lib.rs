//! Verified core of a real-time pitch and chord detector: note naming and
//! chord identification over MIDI note numbers, the grouping of incoming
//! samples into analysis windows, and the selection of spectral peaks.

pub mod midi;
pub mod dsp;
