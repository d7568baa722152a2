//! Keeps a pool of bounded chat sessions joined to the most-viewed live
//! channels and batches the chat messages they receive for storage.
//!
//! Everything here is pure decision logic over plain values; connections,
//! HTTP and the database are driven by the program built around it.

pub mod actions;
pub mod channels;
pub mod controller;
pub mod db;
pub mod discovery;
pub mod error;
pub mod fleet;
pub mod irc_types;
pub mod models;
pub mod reconcile_laws;
pub mod session;
pub mod settings;
pub mod text;
pub mod types;
