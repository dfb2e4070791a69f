//! Reading Warframe and Soulframe cache pairs: table-of-contents parsing,
//! block decompression and audio header decoding, with the parsing and
//! decompression logic specified and proved.

pub mod le_bytes;
pub mod pre_ensmallening;
pub mod text;
pub mod audio_format;
pub mod raw_audio_header;
pub mod node;
pub mod toc;
pub mod toc_statistics;
pub mod package_collection;
pub mod cache_pair;
pub mod audio;
pub mod opus;
