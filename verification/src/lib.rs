//! The logic behind a cockpit of terminal panes.
//!
//! The cockpit drives tmux through a private socket: [`tmux`] and [`manager`] decide which
//! commands are run and what their output means, [`engine`] and [`forward`] what happens to
//! the events of its control client, [`replay`], [`layout`] and [`status`] what is shown of a
//! pane. Around the panes stand panels that read the agent's files: [`inventory`] and
//! [`audit`], [`templates`] and [`spinup`], [`teamruns`], [`sessions`] and [`usage`].
//!
//! No function here reads a file, runs a program or asks the clock. What was read or printed
//! is passed in, and what is to be done is handed back; an operation that takes several
//! commands is a function of the outcomes so far.

pub mod audit;
pub mod awake;
pub mod b64;
pub mod bridge;
pub mod cli;
pub mod engine;
pub mod environment;
pub mod filetree;
pub mod forward;
pub mod frontmatter;
pub mod gitstatus;
pub mod inventory;
pub mod json;
pub mod layout;
pub mod manager;
pub mod onboarding;
pub mod paths;
pub mod persist;
pub mod replay;
pub mod seqs;
pub mod sessions;
pub mod settings;
pub mod smoke;
pub mod sort;
pub mod spinup;
pub mod status;
pub mod teamruns;
pub mod templates;
pub mod text;
pub mod time;
pub mod tmux;
pub mod toggle;
pub mod usage;
pub mod yaml;
