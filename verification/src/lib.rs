//! Decoding of torrent metainfo files: a verified bencode codec, the
//! extraction of the metainfo record from a decoded value tree, and the
//! derivation of the info-hash and the per-piece digests.

pub mod decimal;
pub mod decode;
pub mod digest;
pub mod encode;
pub mod grammar;
pub mod hexstr;
pub mod laws;
pub mod lexical;
pub mod metainfo;
pub mod model;
pub mod pieces;
pub mod roundtrip;
pub mod schema;
pub mod text;
pub mod value;
