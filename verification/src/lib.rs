//! Byte-safe encoding, decoding, hashing, and restoration of Nix archives.

pub mod agreement;
pub mod case_hack;
pub mod dec;
pub mod decimal;
pub mod disk_laws;
pub mod encoder;
pub mod entries;
pub mod event_laws;
pub mod fault_laws;
pub mod file_laws;
pub mod format_laws;
pub mod grammar;
pub mod hack_laws;
pub mod hash;
pub mod io;
pub mod laws;
pub mod listing;
pub mod message;
pub mod message_laws;
pub mod model;
pub mod name_laws;
pub mod names;
pub mod nar;
pub mod path_laws;
pub mod paths;
pub mod refscan;
pub mod refusal_laws;
pub mod restore;
pub mod restore_laws;
pub mod restored_names;
pub mod roundtrip;
pub mod runs;
pub mod scan_laws;
pub mod search_laws;
pub mod tree;
pub mod tree_laws;
pub mod truncation;
pub mod walk;
pub mod walk_laws;
pub mod wire;
