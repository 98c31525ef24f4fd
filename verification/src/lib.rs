//! The core of a two-panel file manager.

pub mod apps;
pub mod archive;
pub mod compare;
pub mod config;
pub mod diff;
pub mod dupes;
pub mod elevate;
pub mod encoding;
pub mod entry;
pub mod filekind;
pub mod find;
pub mod fsops;
pub mod hex;
pub mod imageops;
pub mod journal;
pub mod local_time;
pub mod moment;
pub mod mount;
pub mod netloc;
pub mod open;
pub mod order;
pub mod panel;
pub mod pathname;
pub mod paths;
pub mod perms;
pub mod pinned;
pub mod places;
pub mod shell;
pub mod text;
pub mod trouble;
pub mod walking;
