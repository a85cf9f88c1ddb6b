//! Verified logic of a command-line client for wormhole.app.

pub mod api;
pub mod base64_text;
pub mod bencode;
pub mod bencoding;
pub mod chunks;
pub mod crypto;
pub mod decoding;
pub mod decrypt;
pub mod encrypt;
pub mod error;
pub mod hex;
pub mod models;
pub mod multifile;
pub mod parts;
pub mod paths;
pub mod pieces;
pub mod report;
pub mod roundtrip;
pub mod routing;
pub mod sizes;
pub mod stream;
pub mod stream_laws;
pub mod text;
pub mod torrent;
pub mod torrent_laws;
pub mod upload;
pub mod upload_plan;
