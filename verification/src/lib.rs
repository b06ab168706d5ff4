//! Core of a local audio-playback controller.
//!
//! The crate verifies the two pieces with real design content: the music
//! library index (a catalog of track files discovered under a root directory,
//! with a persisted cache and a byte codec that round-trips exactly), and the
//! playback actor's command state machine (a closed set of commands applied
//! strictly in submission order to one mutable playback state).
//!
//! Filesystem walking, the HTTP control surface, and the audio engine itself
//! are external collaborators: they hand this library plain values (byte
//! strings, directory snapshots, engine outcomes) and take plain values back.

pub mod bytestr;
pub mod cache;
pub mod catalog;
pub mod player;
pub mod scan;
