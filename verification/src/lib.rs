//! The logic of a terminal client for Matrix.

pub mod config;
pub mod devices;
pub mod event;
pub mod id;
pub mod id_table;
pub mod key;
pub mod keymap;
pub mod log;
pub mod logout;
pub mod pattern;
pub mod search;
pub mod session;
pub mod text;
pub mod timeline;
pub mod tui_app;
pub mod verification_common;
