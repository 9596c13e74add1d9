//! Where the program keeps its files: the configuration below the home
//! directory, and the saved graph where the configuration says.

use vstd::prelude::*;
use vstd::string::StringExecFns;

verus! {

/// The program's name, as it stands in the paths of its files.
pub const APP_NAME: &'static str = "tdc";

/// What the program is configured with.
#[derive(Clone, PartialEq, Eq, Debug)]
pub struct Config {
    /// The file that holds the saved graph.
    pub graph_path: String,
}

/// Why the configuration could not be had.
#[derive(Clone, PartialEq, Eq, Debug)]
pub enum ConfigError {
    /// The home directory is not known.
    HomeDirError,
    /// Reading or writing a file failed; the text says how.
    IOError(String),
    /// The configuration file does not hold a configuration.
    ConfigParseError,
}

/// The path of the configuration file below the home directory `home`.
pub open spec fn spec_config_path(home: Seq<char>) -> Seq<char> {
    home + "/.config/tdc/config.ron"@
}

/// The path of the saved graph below the home directory `home`, where the
/// configuration names no other.
pub open spec fn spec_graph_path(home: Seq<char>) -> Seq<char> {
    home + "/.local/share/tdc/graph.ron"@
}

/// The path of the configuration file below the home directory `home`.
pub fn config_path(home: &str) -> (path: String)
    ensures
        path@ == spec_config_path(home@),
{
    String::from_str(home).concat("/.config/tdc/config.ron")
}

/// The path of the saved graph below the home directory `home`, where the
/// configuration names no other.
pub fn graph_path(home: &str) -> (path: String)
    ensures
        path@ == spec_graph_path(home@),
{
    String::from_str(home).concat("/.local/share/tdc/graph.ron")
}

impl Config {
    /// The configuration that a user with the home directory `home` starts
    /// with.
    pub fn initial(home: &str) -> (config: Config)
        ensures
            config.graph_path@ == spec_graph_path(home@),
    {
        Config { graph_path: graph_path(home) }
    }
}

impl ConfigError {
    /// The text that describes each error.
    pub open spec fn spec_message(self) -> Seq<char> {
        match self {
            ConfigError::HomeDirError => "Failed to get home directory"@,
            ConfigError::IOError(detail) => detail@,
            ConfigError::ConfigParseError => "Failed to parse config file"@,
        }
    }

    /// A human-readable description of the error.
    pub fn message(&self) -> (text: String)
        ensures
            text@ == self.spec_message(),
    {
        match self {
            ConfigError::HomeDirError => String::from_str("Failed to get home directory"),
            ConfigError::IOError(detail) => detail.clone(),
            ConfigError::ConfigParseError => String::from_str("Failed to parse config file"),
        }
    }
}

} // verus!
