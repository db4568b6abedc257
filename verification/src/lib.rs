//! Detection core for a wild-encounter counter: lexical classification of
//! OCR text lines, a per-cycle debounce state machine over accumulated
//! statistics, durable-state encoding and decoding, and screen-region
//! arithmetic. Capture, OCR and the user interface are outside
//! collaborators: they hand the core plain text lines and window sizes, and
//! take plain values back.

pub mod classify;
pub mod codec;
pub mod region;
pub mod state;
