//! Sampling interface to Linux' pseudo-filesystems (procfs)
pub mod text;
pub mod parser;
pub mod time;
pub mod splitter;
pub mod parsers;
pub mod procfs;
pub mod uptime;
