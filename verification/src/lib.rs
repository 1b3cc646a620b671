//! Frames of an IC3 model checker, the rendering of its lemmas over an
//! and-inverter graph, the textual form of its options, and the
//! decisions of its portfolio runner.

pub mod text;
pub mod lit;
pub mod frame;
pub mod subsumption;
pub mod ghash;
pub mod aig;
pub mod display;
pub mod options;
pub mod portfolio;
pub mod run;
