//! Reading, writing and removing APEv2 tags.
//!
//! An APE tag is a small self-describing metadata block (artist, album, and
//! so on) embedded in a host file, typically an audio file.  This crate
//! models the host file as a byte vector: the probe, locator and rewrite
//! logic all operate on plain bytes and carry contracts that pin down, byte
//! for byte, what each operation does to the file image.

pub use self::error::Error;
pub use self::item::{Item, ItemType};
pub use self::meta::{Meta, MetaPosition};
pub use self::tag::{read_from, remove_from, write_to, Tag};
pub use self::util::{probe_ape, probe_id3v1, probe_lyrics3v2};

pub mod error;
pub mod item;
pub mod laws;
pub mod meta;
pub mod tag;
pub mod text;
pub mod util;
