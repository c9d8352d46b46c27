//! Chooses a desktop wallpaper from the artist of the song that is playing.
//!
//! The library holds the decisions: reading the now-playing record that the
//! player emits, matching file names against the artist, resolving the
//! configuration, and choosing what to apply. Walking the directory and running
//! the player and setter processes are left to the caller.
pub mod config;
pub mod matcher;
pub mod song;
pub mod text;
