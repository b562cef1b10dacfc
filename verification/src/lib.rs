//! A split-pane terminal text editor: key-sequence command tries, the panel
//! layout state, text buffers with cursors, and the computations that decide
//! how panels are laid out. Terminal I/O lives outside this library.

pub mod keys;
pub mod commands;
pub mod text_util;
pub mod splits;
pub mod app;
pub mod autocomplete;
pub mod text;
pub mod panels;
pub mod render;
pub mod input;
pub mod manager;
pub mod command_list;
pub mod paths;
