//! Transport of payloads as QR codes.
pub mod multiframe;
