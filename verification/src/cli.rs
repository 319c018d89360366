//! The commands of the tool and their arguments.
use vstd::prelude::*;

verus! {

/// The command line: the manifest to work on and what to do with it.
pub struct Cli {
    /// Path to the manifest file.
    pub file: String,
    pub command: Commands,
}

/// What the tool is asked to do.
pub enum Commands {
    /// Initialize a new manifest file.
    Init(InitArgs),
    /// Add one or more projects to the manifest.
    Add(AddArgs),
    /// Remove a project from the manifest.
    Remove(RemoveArgs),
    /// Download the project files that the manifest names.
    Download(DownloadArgs),
    /// Export the list of projects to a simple JSON file.
    ExportJson(ExportJsonArgs),
    /// Display the current list of projects.
    List(ListArgs),
}

pub struct InitArgs {
    /// Target Minecraft version.
    pub mc: String,
    /// Target platform (e.g., fabric, neoforge, paper).
    pub loader: String,
}

pub struct RemoveArgs {
    /// ID of the project to remove.
    pub id: String,
}

pub struct AddArgs {
    /// Project IDs or slugs to add.
    pub ids: Vec<String>,
    /// A specific version to pin.
    pub version: Option<String>,
    /// The side the projects are restricted to.
    pub env: Option<EnvType>,
}

pub struct DownloadArgs {
    /// Directory where downloaded files are saved.
    pub output: String,
    /// Which side's projects to download.
    pub env: EnvType,
}

pub struct ExportJsonArgs {
    /// Which side's projects to export.
    pub env: EnvType,
    /// Path of the JSON file.
    pub output: String,
}

pub struct ListArgs {
    /// Which side's projects to list.
    pub env: EnvType,
}

/// A side of the game: the server, the client, or both.
#[derive(Clone, Copy, Debug, PartialEq, Eq, Structural)]
pub enum EnvType {
    Server,
    Client,
    Both,
}

} // verus!
