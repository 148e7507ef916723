//! Verified core of the HSR Owner frontend: packet wire decoding, the sniff
//! file format, configuration normalisation and the text helpers behind the
//! views.

pub mod text;
pub mod protobuf;
pub mod hex;
pub mod sniff_file;
pub mod sniffer;
pub mod cheat;
pub mod lua;
pub mod gacha;
pub mod assets;
pub mod config;
pub mod uid;
pub mod resources;
pub mod logs;
pub mod design;
