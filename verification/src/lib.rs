//! An Earley parser over context-free grammars in Backus–Naur form.
//!
//! Given a grammar and an input sentence, the library decides membership in
//! the language and, when the sentence is accepted, reconstructs every
//! distinct parse tree from the completed chart.

pub mod chart;
pub mod earley;
pub mod error;
pub mod grammar;
pub mod istate;
pub mod itree;
pub mod laws;
pub mod model;
pub mod outcome;
pub mod prod;
pub mod sets;
pub mod term;
pub mod token;
pub mod tree;
