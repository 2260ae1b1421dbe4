//! Core logic of the musiq music player: library indexing, ranked search,
//! playback transport, queue navigation and persisted listening state.

pub mod text;
pub mod library;
pub mod search;
pub mod persist;
pub mod playback;
pub mod player;
pub mod display;
pub mod art;
