//! Verified core of a terminal client that attaches to tmux sessions over SSH.
//!
//! The modules hold the decisions of the client: parsing, framing, state
//! machines, limits and the text of every remote command. Sockets, threads,
//! windows and files belong to the program around this library.

pub mod budget_laws;
pub mod cli;
pub mod cli_laws;
pub mod client_laws;
pub mod command;
pub mod config_laws;
pub mod connection;
pub mod control;
pub mod delivery_laws;
pub mod demo;
pub mod desktop;
pub mod dialog;
pub mod drop_laws;
pub mod form;
pub mod format_laws;
pub mod glob;
pub mod guard_laws;
pub mod identity;
pub mod input;
pub mod inspect;
pub mod inspect_laws;
pub mod keys;
pub mod layout;
pub mod layout_laws;
pub mod lexer_laws;
pub mod order;
pub mod paint;
pub mod paint_laws;
pub mod quick_form;
pub mod replay;
pub mod resolve_laws;
pub mod restore_laws;
pub mod session;
pub mod session_laws;
pub mod sftp;
pub mod snapshot;
pub mod ssh;
pub mod ssh_config;
pub mod store;
pub mod stream_laws;
pub mod terminal;
pub mod text;
pub mod tmux;
pub mod trust;
pub mod ui;
pub mod values;
pub mod view_laws;
pub mod wayland_drop;
pub mod workspace;
