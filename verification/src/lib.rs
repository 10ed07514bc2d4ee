//! Transaction format, signing decisions and release checks of an air-gapped
//! Kaspa signing device.
pub mod bytes;
pub mod crypto;
pub mod decimal;
pub mod qr;
pub mod release;
pub mod text;
pub mod version;
pub mod wallet;
