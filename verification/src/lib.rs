//! Automatic monitor configuration for Hyprland: picks a mode, a scale and a
//! position for every connected display, merges user overrides, and decides
//! how to refresh bar / wallpaper clients after a reconfigure.
pub mod algo;
pub mod cli;
pub mod config;
pub mod daemon;
pub mod gui;
pub mod model;
pub mod names;
pub mod parse;
pub mod refresh;
pub mod text;
