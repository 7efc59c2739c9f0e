//! The decision logic of a distributed, encrypted file drive.
//!
//! Files are cut into chunks; chunks are encrypted and cut into fragments, which relay
//! nodes keep. What is decided and computed on the way stands here: share links and
//! their expiry, tokens, the map of a file, the names of fragments, encryption, and the
//! course of an upload and of a download.

pub mod base64url;
pub mod cipher;
pub mod clock;
pub mod drive_map;
pub mod link_laws;
pub mod links;
pub mod network;
pub mod share;
pub mod storage;
pub mod text;
pub mod transfer;
