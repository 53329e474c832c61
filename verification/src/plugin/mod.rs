pub mod dependency;
pub mod error;
pub mod hooks;
pub mod loader;
pub mod manager;
pub mod manifest;
pub mod name_map;
pub mod registry;
pub mod sandbox;
pub mod text;
pub mod version;
