//! The first version of the script language.
pub mod command_line;
pub mod duration;
pub mod duration_laws;
pub mod ending;
pub mod lex_laws;
pub mod meta;
pub mod meta_laws;
pub mod normal_laws;
pub mod normalize;
pub mod parse;
pub mod pattern_laws;
pub mod patterns;
pub mod script_laws;
pub mod segment;
pub mod segment_laws;
pub mod show;
pub mod show_laws;
