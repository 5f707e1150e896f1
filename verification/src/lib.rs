pub mod codec;
pub mod commands;
pub mod config;
pub mod registry;

pub use config::MyPlugin;
