//! The falling-sand engine: elements and their movement rules, the rule
//! table compiled from them, and the chunk of cells the table drives.

pub mod element;
pub mod rules;
pub mod chunk;
