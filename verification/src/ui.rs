//! The terminal application.
pub mod account;
pub mod app;
pub mod job_laws;
pub mod jobs;
pub mod key_laws;
pub mod keys;
pub mod laws;
pub mod list_laws;
pub mod screen_laws;
pub mod view;
pub mod widgets;
