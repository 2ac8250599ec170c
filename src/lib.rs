//! Legacy Secure-Scuttlebutt messages: the message model, its canonical
//! signing and final encodings, decoding of a message off the front of a
//! byte buffer, and verification of signatures and chain linkage.
pub mod decode;
pub mod encode;
pub mod message;
pub mod outside;
pub mod verify;

pub use message::{Content, Message};
