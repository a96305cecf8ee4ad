//! A stealthy terminal novel reader: text loading, wrapping, chapter
//! detection, search, bookmarks, the key-driven reading state machine and
//! what each disguise draws.

pub mod config;
pub mod text;
pub mod width;
pub mod reader;
pub mod pattern;
pub mod markup;
pub mod decode;
pub mod bookmark;
pub mod settings;
pub mod app;
pub mod display;
pub mod paths;
