//! A verified library for CLI test scripts: splitting and parsing scripts,
//! matching command output against patterns, and framing process streams.
pub mod command;
pub mod command_laws;
pub mod expansion;
pub mod failure;
pub mod output;
pub mod parser;
pub mod procstream;
pub mod run;
pub mod script;
pub mod term;
pub mod term_laws;
pub mod testing;
pub mod testing_laws;
pub mod util;
