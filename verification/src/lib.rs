//! Core library of a small content-addressed version control system.
pub mod text;
pub mod merge;
pub mod pack;
pub mod index;
pub mod config;
pub mod diff;
pub mod object;
pub mod tag;
pub mod crypto;
pub mod ignore;
pub mod paths;
pub mod hooks;
pub mod refs;
pub mod sorting;
pub mod stash;
pub mod repository;
pub mod network;
pub mod commands;
