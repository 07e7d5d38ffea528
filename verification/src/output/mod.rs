//! Matching the output of commands against patterns.
pub mod ansi;
pub mod blocks;
pub mod bounds;
pub mod count_laws;
pub mod ends;
pub mod engine;
pub mod fuel;
pub mod grok;
pub mod grok_laws;
pub mod laws;
pub mod line_laws;
pub mod matching;
pub mod measure;
pub mod most;
pub mod pattern;
pub mod prepare;
pub mod show;
pub mod show_laws;
pub mod traces;
