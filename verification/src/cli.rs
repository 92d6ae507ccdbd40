use vstd::prelude::*;

verus! {

/// The command line: where the project is, what to do, and which editor opens a chosen module.
#[derive(Debug)]
pub struct Cli {
    /// Path to the Elixir project; the current directory when absent.
    pub project_path: Option<String>,
    /// Whether to update the index first.
    pub update_index: bool,
    /// Whether to open fzf over the module listing.
    pub open_fzf: bool,
    /// The editor that opens the chosen source file.
    pub editor: Editor,
    /// A subcommand, if one was given.
    pub command: Option<Commands>,
}

/// Subcommands.
#[derive(Debug)]
pub enum Commands {
    /// Show the shell init script.
    Init { shell: Shell },
}

/// Editors that can open a source file at a line.
#[derive(Copy, Clone, Debug, PartialEq, Eq, PartialOrd, Ord)]
pub enum Editor {
    Neovim,
    Vim,
    Vscode,
    Zed,
}

/// Shells with an init script.
#[derive(Copy, Clone, Debug, PartialEq, Eq, PartialOrd, Ord)]
pub enum Shell {
    Bash,
    Zsh,
}

} // verus!
