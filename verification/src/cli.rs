//! The computations behind the command-line commands.
pub mod capacity;
pub mod decoder;
pub mod encoder;
pub mod progress;
