pub mod blocklist;
pub mod domain;
pub mod fetcher;
pub mod handler;
pub mod settings;
pub mod text;
