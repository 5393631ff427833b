//! Work-session analysis of activity heartbeats: calendar ranges, the
//! clustering of heartbeats into sessions, and the filters and settings
//! around them.

pub mod calendar;
pub mod error;
pub mod active_time;
pub mod heartbeats;
pub mod sessions;
pub mod text;
pub mod filter;
pub mod config;
pub mod cli;
pub mod format;
