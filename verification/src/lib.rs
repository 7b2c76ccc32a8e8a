//! Data model for mapping physical MIDI controller inputs to per-application
//! audio control: named fader groups collected into controller profiles, each
//! group carrying an ordered list of assigned applications.

pub mod midi_controller;
pub mod profile_model;
