//! Clipboard history: classification of captured text, the item store and
//! the capture monitor.

pub mod content_analyzer;
pub mod db;
pub mod laws;
pub mod menu;
pub mod models;
pub mod monitor;
pub mod pattern;
pub mod popup;
pub mod text;
