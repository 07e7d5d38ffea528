//! Process streams: transforming what processes write, and deciding how to
//! drive them.
pub mod ansi;
pub mod capture;
pub mod collapse;
pub mod driver;
pub mod framer;
pub mod job;
pub mod stream_laws;
pub mod transform;
pub mod utf8;
