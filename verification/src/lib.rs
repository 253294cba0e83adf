//! Bencode values, their wire format, and the typed description of a torrent
//! that a decoded metainfo dictionary projects to.

pub mod decode;
pub mod digits;
pub mod encode;
pub mod grammar;
pub mod laws;
pub mod metainfo;
pub mod value;
