//! Key-dispatch engine for a runtime input-remapping add-on: canonical key
//! chords, a declarative action table, user bindings, and the dispatcher that
//! joins them and tracks per-key press state.

pub mod config;
pub mod config_value;
pub mod handler;
pub mod key_map;
pub mod keys;
pub mod menu;
pub mod mmd_map;
pub mod old_key_map;
pub mod text;
pub mod vk;
