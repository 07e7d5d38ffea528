//! Text helpers shared by the parser and the matcher.
pub mod assoc;
pub mod join;
pub mod join_laws;
pub mod number;
pub mod path;
pub mod path_laws;
pub mod shell;
pub mod text;
pub mod text_laws;
