//! Text steganography with the Extended Line method: cover lines built around a pivot
//! length and bits hidden in line extensions, repeated spaces and trailing characters.
pub mod extended_line_method;
pub mod line_separator;
