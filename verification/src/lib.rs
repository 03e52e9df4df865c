//! Delta synchronisation: describe a file by the signatures of its chunks, express a new
//! version as copies and literals against them, and rebuild the new version from the old one.

pub mod assembly;
pub mod batch;
pub mod bytes;
pub mod chunker;
pub mod client;
pub mod compression;
pub mod fixed;
pub mod hexadecimal;
pub mod instruction;
pub mod crypto;
pub mod delta;
pub mod diff;
pub mod digest;
pub mod encryption;
pub mod manifest;
pub mod optimize;
pub mod patch;
pub mod pipeline;
pub mod protocol;
pub mod server;
pub mod signature;
pub mod text;
pub mod verify;
