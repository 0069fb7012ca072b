//! Core editing logic of a live-rendering Markdown editor: a UTF-8 text
//! buffer with a line table, a line-level Markdown structure scanner, and
//! an editing state machine (cursor movement, smart Enter/Tab, atomic
//! marker deletion and task-list checkbox propagation), with the editor
//! around it (action dispatch, blocked input, appended messages), find,
//! input-method composition, mention autocomplete, key bindings, themes
//! and the file explorer's listing.

pub mod text;
pub mod marker;
pub mod outline;
pub mod doc;
pub mod edit;
pub mod cycle;
pub mod context;
pub mod state;
pub mod find;
pub mod column_memory;
pub mod key_mode;
pub mod file_ops;
pub mod user_config;
pub mod autocomplete;
pub mod keymap;
pub mod ime;
pub mod editor;
pub mod explorer;
pub mod title_bar;
pub mod menu;
pub mod box_flip;
