//! Verified core of a Nix build output monitor.
pub mod text;
pub mod cli;
pub mod lowercase;
pub mod types;
pub mod nix;

pub mod calendar;
pub mod cache;
pub mod paths;
pub mod summary;
pub mod ordered;
pub mod state;
pub mod update;
pub mod monitor;
pub mod term;
pub mod icons;
pub mod activity_model;
pub mod display;
pub mod render;
pub mod tree;
pub mod view;
