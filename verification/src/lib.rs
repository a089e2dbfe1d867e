//! Playlist engine of an IPTV player: an extended-M3U parser, the decisions
//! of an Xtream Codes sign-in, and the pure parts of the channel store.

pub mod commands;
pub mod json;
pub mod laws;
pub mod playlist;
pub mod scan;
pub mod store;
pub mod text;
pub mod xtream;

