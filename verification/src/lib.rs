//! Encrypted wish lists: block padding, AES-128 encryption of byte strings,
//! wish-list elements that are stored encrypted, and the decisions of the
//! interactive client that stores them.

pub mod padding;
pub mod crypto;
pub mod wish;
pub mod session;
