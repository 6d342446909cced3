//! Core library of a desktop agent that discovers StarCraft II replay files,
//! filters them to the uploadable competitive subset, deduplicates them against
//! a local manifest and a remote service, and prepares them for upload.
//!
//! Everything here is pure logic on plain values: classification of parsed
//! replays, the persistent tracker with its JSON codec, player-identity
//! inference, grouping, and the decision rules of the scanner, the executor
//! and the file watcher. All I/O (filesystem, network, OS notifications)
//! lives outside the library and hands values in and out.

pub mod api;
pub mod codec;
pub mod config;
pub mod detector;
pub mod device_auth;
pub mod executor;
pub mod game;
pub mod inference;
pub mod manager;
pub mod query;
pub mod replay_path;
pub mod scanner;
pub mod state;
pub mod text;
pub mod tracker;
pub mod types;
pub mod watcher;
