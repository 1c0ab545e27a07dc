//! Building blocks shared by the steganography methods.
pub mod config;
pub mod method;
pub mod observer;
