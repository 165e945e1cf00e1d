//! Demultiplexer for DSS (Digital Speech Standard) SP recordings.
//!
//! A recording is a file header followed by blocks of fixed size. The payloads
//! of the blocks, laid end to end, form one byte stream, and each block says
//! where in it its own speech frames begin. [`demux::dss`] extracts the frames,
//! from a whole file at once or from a file that arrives in pieces.
pub mod demux;
pub mod error;
