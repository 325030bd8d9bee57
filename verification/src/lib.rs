//! mailprune: email triage. Mail is stacked by sender, so that a decision made
//! once applies to everything one sender sent.
//!
//! This library holds what the program decides and computes: how messages
//! become stacks, how a mailbox is swept, what every key does, what the screen
//! says. Sockets, files, the keychain and the terminal belong to the program
//! around it.
pub mod action_log;
pub mod cli;
pub mod clock;
pub mod config;
pub mod debuglog;
pub mod imap_client;
pub mod session;
pub mod sort;
pub mod stacks;
pub mod text;
pub mod ui;
pub mod unsubscribe;
