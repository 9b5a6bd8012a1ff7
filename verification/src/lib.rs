//! Morphological decomposition and completion for Klingon words.
//!
//! The crate splits a (possibly partial) surface word into dictionary
//! morphemes along a fixed catalogue of grammar tracks, and proposes
//! dictionary entries that would validly continue an incomplete word.

pub mod klingon;
pub mod morpho;
pub mod zrajm;
