use vstd::prelude::*;

use crate::cli::Shell;

verus! {

/// The Bash init script: binds Ctrl-S to run the program.
pub const BASH_INIT: &'static str = "# Add this to your ~/.bashrc\n# eval \"$(exmodhop init bash)\"\n\n_exmodhop_run() {\n    exmodhop\n}\nbind -x '\"\\C-s\": _exmodhop_run'\n";

/// The Zsh init script: a widget bound to Ctrl-S that runs the program and redraws the prompt.
pub const ZSH_INIT: &'static str = "# Add this to your ~/.zshrc\n# eval \"$(exmodhop init zsh)\"\n\n_exmodhop_run() {\n    exmodhop\n    if [[ $? -ne 0 ]]; then echo \"\\n\"; fi\n    zle reset-prompt\n}\nzle -N _exmodhop_run\nbindkey '^S' _exmodhop_run\n";

/// The init script for a shell.
pub open spec fn init_text(shell: Shell) -> Seq<char> {
    match shell {
        Shell::Bash => BASH_INIT@,
        Shell::Zsh => ZSH_INIT@,
    }
}

/// The Bash init script.
pub fn init_bash() -> (script: String)
    ensures
        script@ == BASH_INIT@,
{
    BASH_INIT.to_owned()
}

/// The Zsh init script.
pub fn init_zsh() -> (script: String)
    ensures
        script@ == ZSH_INIT@,
{
    ZSH_INIT.to_owned()
}

/// The init script to print for `shell`.
pub fn init_script(shell: &Shell) -> (script: String)
    ensures
        script@ == init_text(*shell),
{
    match shell {
        Shell::Bash => init_bash(),
        Shell::Zsh => init_zsh(),
    }
}

} // verus!
