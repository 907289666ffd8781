pub mod layout;
pub mod text;
pub mod chrome;
pub mod workspaces;
pub mod state;
pub mod presentation;
pub mod options;
pub mod shell_supervisor;
pub mod protocol_state;
pub mod overview;
pub mod shell;
pub mod entries;
pub mod drop;
pub mod bar;
