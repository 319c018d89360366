//! hoppr: manage a list of Minecraft mods from Modrinth in a CSV manifest.
//!
//! The library holds the manifest format, the rules by which projects are
//! selected, resolved and described, and the requests sent to Modrinth.
pub mod bindings;
pub mod cli;
pub mod commands;
pub mod manifest;
pub mod modrinth;
pub mod text;
pub mod utils;
