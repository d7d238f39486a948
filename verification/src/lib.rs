mod text;
mod paths;
pub mod config;
pub mod i18n;
pub mod image;
pub mod logic;
pub mod processor;
pub mod queue;
