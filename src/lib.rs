//! Decoding of recorded pulse-width-coded sample trains into bit messages.
//!
//! The pipeline is: text lines → samples → levels (a fixed bias cut) → runs
//! of equal levels → framed messages → display text.
pub mod decode;
pub mod render;
pub mod signal;
