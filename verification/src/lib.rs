//! Verified core of a score-processing library: the score model, transposition,
//! repeat unrolling, Standard MIDI File encoding, chord analysis, option
//! parsing and the decisions of the choir synchronisation protocol.
use vstd::prelude::*;

pub mod text;
pub mod decimal;
pub mod xml;
pub mod musicxml;
pub mod mxl;
pub mod model;
pub mod transpose;
pub mod unroller;
pub mod midi;
pub mod melody;
pub mod timing;
pub mod top_layer;
pub mod note_timeline;
pub mod options;
pub mod chords;
pub mod accompaniment;
pub mod choir;
pub mod wav;
pub mod overlay;
pub mod notation;
pub mod jianpu;

verus! {

} // verus!
