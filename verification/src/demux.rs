//! Extraction of speech frames from container files.
pub mod dss;
pub mod file_laws;
pub mod frames;
pub mod laws;
pub mod layout;
pub mod state;
