//! The logic of the DeepSeek Harness desktop client.
//!
//! The client embeds a browser control and loads the DeepSeek Harness Web GUI at
//! <http://127.0.0.1:3080/>. It manages the life cycle of the service behind that GUI:
//!   - on startup: if something already listens on port 3080, kill it first; then start
//!     `npx @deepseek-ai/dsh web` (hidden) and wait for it to come up;
//!   - on exit: kill the process(es) listening on port 3080.
//!
//! This crate decides; the program around it runs commands, reads the clock and drives the window.
pub mod bootstrap;
pub mod desktop;
pub mod dsh_service;
pub mod icon;
pub mod status;
pub mod text;
pub mod wide;
