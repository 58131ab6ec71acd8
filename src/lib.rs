//! Line, word, byte, character and display-width counting over text streams.
//!
//! The counting engine, the manifest parser and the totals bookkeeping are
//! verified; reading files and printing rows is left to the caller.
pub mod count;
pub mod manifest;
pub mod report;
