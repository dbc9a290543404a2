//! A falling-sand cellular automaton: a compiler that turns per-element
//! movement rules into a lookup table over 2x2 blocks, and a grid engine that
//! applies that table with an alternating block partition while tracking the
//! region it changed.

pub mod util;
pub mod falling_sand;
