//! Creation of BitTorrent metainfo documents from a description of local
//! content.
//!
//! The library holds every decision between a root path with its options
//! and the bytes of a `.torrent` file: which entries of a directory tree go
//! into the torrent and in which order (`walker`, `file_order`), how their
//! contents are cut into pieces and hashed (`hasher`), which piece length
//! is picked (`piece_length_picker`), which configurations are refused
//! (`lint`), how the document is laid out (`metainfo`, `wire`) and written
//! as bencode (`bencode`), and how it is read back (`decode`, `reading`).
//! It touches neither the file system nor the clock: its caller lists
//! directories, reads files and tells the time.
//!
//! What other crates compute stands behind the contracts in `digest`,
//! `glob` and `urls`, and `string_from_utf8` in `text`; nothing is proved
//! of those.

pub mod bencode;
pub mod bytes;
pub mod create;
pub mod create_step;
pub mod decode;
pub mod digest;
pub mod error;
pub mod file_order;
pub mod file_path;
pub mod files;
pub mod glob;
pub mod hasher;
pub mod host_port;
pub mod lex;
pub mod lint;
pub mod magnet;
pub mod metainfo;
pub mod piece_length_picker;
pub mod reading;
pub mod text;
pub mod urls;
pub mod walker;
pub mod wire;
