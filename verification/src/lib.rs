//! Editor core of Project Needle: text buffers addressed by UTF-8 byte offsets,
//! directional selections, transaction-based undo/redo and the built-in
//! command set, together with the pure helpers used by the desktop front end
//! and the project search.

pub mod ids;
pub mod selection;
pub mod text;
pub mod trusted;
pub mod buffer;
pub mod history;
pub mod settings;
pub mod view;
pub mod state;
pub mod laws;
pub mod commands;
pub mod line_commands;
pub mod line_moves;
pub mod command;
pub mod app;
pub mod text_edit;
pub mod keys;
pub mod search;
pub mod editor;
pub mod encoding;
pub mod frontend;
pub mod shortcuts;
