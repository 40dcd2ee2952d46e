//! A codec for the PrusaSlicer INI dialect.
//!
//! The library parses configuration text into an ordered [`ConfigFile`],
//! projects it onto a keyed [`ConfigMap`] for lookup and mutation, and
//! formats either representation back into text.

pub mod document;
pub mod parse;
pub mod roundtrip;
pub mod printers;
pub mod settings;
pub mod text;
pub mod write;
