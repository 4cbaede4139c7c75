//! Verified core of a tabbed tiling window manager.

pub mod config;
pub mod drag;
pub mod icon;
pub mod ipc;
pub mod laws;
pub mod layout;
pub mod monitor;
pub mod orientation;
pub mod placement;
pub mod render;
pub mod rules;
pub mod screen_laws;
pub mod slots;
pub mod startup;
pub mod tabs;
pub mod state;
pub mod tracing;
pub mod types;
pub mod urgent;
pub mod validate;
pub mod workspaces;
