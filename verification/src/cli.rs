//! What the command line asks for.
use vstd::prelude::*;

verus! {

/// The options that every command takes, and the command.
#[derive(Debug)]
pub struct NalaParser {
    /// Print license information.
    pub license: bool,
    /// Disable scrolling text and print extra information.
    pub verbose: bool,
    /// Print debug statements for solving issues.
    pub debug: bool,
    /// A different configuration file.
    pub config: Option<String>,
    /// Turn on the tui if it is disabled in the configuration.
    pub tui: bool,
    /// Turn the tui off. Takes precedence over other options.
    pub no_tui: bool,
    pub command: Option<Commands>,
}

/// The commands.
#[derive(Debug)]
pub enum Commands {
    List(List),
    Search(Search),
    Show(Show),
    Clean(Clean),
    Download(Download),
    History(History),
    Fetch(Fetch),
    Update(Update),
    Upgrade(Upgrade),
    Install(Install),
}

/// List packages.
#[derive(Debug)]
pub struct List {
    /// Package names to search.
    pub pkg_names: Vec<String>,
    /// Print the full description of each package.
    pub description: bool,
    /// Print the summary of each package.
    pub summary: bool,
    /// Show all versions of a package.
    pub all_versions: bool,
    /// Only packages that are installed.
    pub installed: bool,
    /// Only packages explicitly installed with Nala.
    pub nala_installed: bool,
    /// Only packages that are upgradable.
    pub upgradable: bool,
    /// Only virtual packages.
    pub only_virtual: bool,
}

/// Search packages: a list with one more restriction.
#[derive(Debug)]
pub struct Search {
    /// Search package names only.
    pub names: bool,
    pub list_args: List,
}

/// Show packages.
#[derive(Debug)]
pub struct Show {
    /// Package names to show.
    pub pkg_names: Vec<String>,
    pub all_versions: bool,
}

/// Remove the local archive of downloaded package files.
#[derive(Debug)]
pub struct Clean {
    /// Remove the package lists downloaded from `update`.
    pub lists: bool,
    /// Remove the sources file generated by the fetch command.
    pub fetch: bool,
}

/// Download packages.
#[derive(Debug)]
pub struct Download {
    /// Package names to download.
    pub pkg_names: Vec<String>,
    pub fetch: bool,
}

/// Show the history.
#[derive(Debug)]
pub struct History {
    pub history_id: Option<u32>,
}

/// Choose mirrors.
#[derive(Debug)]
pub struct Fetch {
    pub non_free: bool,
    pub https_only: bool,
    pub sources: bool,
    pub auto: Option<u8>,
    pub country: Vec<String>,
    pub debian: Option<String>,
    pub ubuntu: Option<String>,
    pub devuan: Option<String>,
}

/// Update the package lists.
#[derive(Debug)]
pub struct Update {
    pub dpkg_option: Vec<String>,
}

/// Upgrade packages.
#[derive(Debug)]
pub struct Upgrade {
    pub dpkg_option: Vec<String>,
    /// Print the URIs in json and do not perform an upgrade.
    pub print_uris: bool,
    /// Perform a full upgrade.
    pub full: bool,
    /// Do not perform a full upgrade.
    pub no_full: bool,
    /// Perform a safe upgrade. Takes precedence over other upgrade options.
    pub safe: bool,
}

/// Install packages.
#[derive(Debug)]
pub struct Install {
    pub dpkg_option: Vec<String>,
}

} // verus!
