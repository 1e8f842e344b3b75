//! Torrent metadata and UDP tracker core: a bencode codec with a canonical
//! encoder, the fixed-layout wire types of the UDP tracker handshake
//! (connect and announce), the decisions of the tracker client, and the
//! extraction of announce URLs and the info dictionary from torrent
//! metadata.

pub mod bencode;
pub mod metainfo;
pub mod str_utils;
pub mod tracker;
