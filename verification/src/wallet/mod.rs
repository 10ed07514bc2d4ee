//! Transactions, their wire format and the signing flow.
pub mod active_seed;
pub mod cosigning;
pub mod covenant;
pub mod cursor;
pub mod extent;
pub mod forms;
pub mod keys;
pub mod layout;
pub mod multisig;
pub mod ownership;
pub mod pskt;
pub mod reading;
pub mod response;
pub mod roundtrip;
pub mod script;
pub mod selftest;
pub mod signing;
pub mod status;
pub mod transaction;
pub mod wellformed;
pub mod wire;
