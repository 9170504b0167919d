//! A library for running ranked-choice group decisions: a verified
//! ranked-pairs (Tideman) tally engine together with the room coordination
//! logic that keeps connected voters synchronized with durable room state.

pub mod condorcet;
pub mod room;
pub mod util;
