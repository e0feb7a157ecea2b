//! The command-line vocabulary that the library shares with its front end.
use vstd::prelude::*;

verus! {

/// The catalogue to prefer when a file is known to both.
#[derive(Clone, Copy, Debug, PartialEq, Eq, Structural)]
pub enum Platform {
    Modrinth,
    Curseforge,
}

impl Default for Platform {
    fn default() -> (r: Platform)
        ensures
            r == Platform::Modrinth,
    {
        Platform::Modrinth
    }
}

impl Platform {
    /// The platform's name in lower case.
    pub fn as_str(&self) -> (r: &'static str)
        ensures
            r@ == match self {
                Platform::Modrinth => "modrinth"@,
                Platform::Curseforge => "curseforge"@,
            },
    {
        match self {
            Platform::Modrinth => "modrinth",
            Platform::Curseforge => "curseforge",
        }
    }
}

/// The modpack commands.
pub enum ModpackSubCommands {
    /// Add a modpack by its identifier.
    Add { identifier: String, output_dir: Option<String>, install_overrides: Option<bool> },
    /// Configure the active modpack.
    Configure { output_dir: Option<String>, install_overrides: Option<bool> },
    /// Delete a modpack, optionally switching to another.
    Delete { modpack_name: Option<String>, switch_to: Option<String> },
    /// Show the active modpack.
    Info,
    /// List the modpacks.
    List,
    /// Switch to another modpack.
    Switch { modpack_name: Option<String> },
    /// Download and install the active modpack.
    Upgrade,
}

} // verus!
