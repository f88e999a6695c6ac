//! A logger for chat lines in the IRCv3 style: a codec that takes lines apart and writes
//! them back, a normalizer that drops what a log does not need, a projection to structured
//! records, the decisions of a live session, and the chunking of bulk output for an index
//! backend.

pub mod batch;
pub mod chunk;
pub mod ids;
pub mod irc;
pub mod normalize;
pub mod number;
pub mod params;
pub mod record;
pub mod round_trip;
pub mod session;
pub mod sink;
pub mod text;
