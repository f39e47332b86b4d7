//! The editor core of a markdown notepad.
//!
//! The document is UTF-8 text addressed by byte offsets. Everything here is headless and
//! deterministic: no window, no disk, no plugin host. Those live in the application around
//! this library, which hands it plain values and takes plain values back.

pub mod ascii;
pub mod block;
pub mod bundle;
pub mod bytes;
pub mod checkbox;
pub mod commands;
pub mod conversion;
pub mod decimal;
pub mod drawing;
pub mod edit;
pub mod erasing;
pub mod file;
pub mod grammar;
pub mod host;
pub mod host_args;
pub mod inline;
pub mod input;
pub mod keys;
pub mod laws;
pub mod lines;
pub mod module_info;
pub mod motion;
pub mod numbering;
pub mod plugin;
pub mod press;
pub mod pressing;
pub mod reading;
pub mod render;
pub mod renumber;
pub mod resolve;
pub mod session;
pub mod showing;
pub mod state;
pub mod stream;
pub mod text;
pub mod typing;
pub mod view;
