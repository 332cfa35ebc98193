//! Core engine of a retro-styled file browser: navigation history,
//! directory listing order, display preferences, marquee text layout,
//! and human-readable metadata formatting.

pub mod config;
pub mod listing;
pub mod marquee;
pub mod nav;
pub mod present;
pub mod text;
