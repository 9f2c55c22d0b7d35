//! A prayer-time reminder: the daily schedule engine, the mute-flag dispatcher
//! and the section-based settings store, with their contracts.
pub mod display;
pub mod location;
pub mod notify;
pub mod schedule;
pub mod settings;
pub mod text;
