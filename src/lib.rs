//! Status-bar core: a client for a window compositor's control socket.
//!
//! The library turns the compositor's textual query responses into a
//! workspace/window snapshot, reconciles the focused workspace, classifies
//! event-channel lines, builds dispatch commands, and derives the battery
//! indicator's texts. Sockets, files and the GUI live outside it.
pub mod text;
pub mod tokens;
pub mod workspaces;
pub mod clients;
pub mod commands;
pub mod layout;
pub mod status;
pub mod clock;
