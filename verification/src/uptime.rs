//! Storage of /proc/uptime samples
pub use crate::parsers::uptime::UptimeData;
