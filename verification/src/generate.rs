//! From a description to the script for its shell.

use crate::bash::{bash_script, generate_bash};
use crate::config::{Config, ConfigView};
use crate::text::{contains_text, occurs_in, same_text};
use crate::zsh::{generate_zsh, zsh_script};
use vstd::prelude::*;
use vstd::string::*;

verus! {

/// The script that a description asks for: the bash script where its shell is `bash`, the
/// zsh script where it is `zsh`, and none for any other shell.
pub open spec fn script_for(cfg: ConfigView) -> Option<Seq<char>> {
    if cfg.shell == "bash"@ {
        Some(bash_script(cfg))
    } else if cfg.shell == "zsh"@ {
        Some(zsh_script(cfg))
    } else {
        None
    }
}

/// Whether `script` is what [`generate_script`] returns for a description that holds
/// `cfg`.
pub open spec fn is_script_for(script: Option<String>, cfg: ConfigView) -> bool {
    match script {
        Some(text) => script_for(cfg) == Some(text@),
        None => script_for(cfg) is None,
    }
}

/// The completion script for the shell that `cfg` names; `None` where no script can be
/// written for that shell.
pub fn generate_script(cfg: &Config) -> (script: Option<String>)
    ensures
        is_script_for(script, cfg@),
{
    if same_text(cfg.shell.as_str(), "bash") {
        Some(generate_bash(cfg))
    } else if same_text(cfg.shell.as_str(), "zsh") {
        Some(generate_zsh(cfg))
    } else {
        None
    }
}

/// The name of the file a script goes to: `filename` where the shell's name already stands
/// in it, else `filename` with a dot and the shell's name after it.
pub open spec fn script_file_name(filename: Seq<char>, shell: Seq<char>) -> Seq<char> {
    if occurs_in(shell, filename) {
        filename
    } else {
        filename + "."@ + shell
    }
}

/// The name of the file that the script for `shell` goes to, given the name that was asked
/// for.
pub fn output_file_name(filename: &str, shell: &str) -> (name: String)
    ensures
        name@ == script_file_name(filename@, shell@),
{
    let mut name = String::from_str(filename);
    if !contains_text(filename, shell) {
        name.append(".");
        name.append(shell);
    }
    name
}

/// Writing is repeatable. Whatever two calls of [`generate_bash`] return for descriptions
/// that hold the same values is the same text, character for character; so it is for
/// [`generate_zsh`]; and two calls of [`generate_script`] either both return no script or
/// both return the same text.
pub proof fn lemma_generation_is_repeatable(
    cfg: Config,
    again: Config,
    bash: String,
    bash_again: String,
    zsh: String,
    zsh_again: String,
    script: Option<String>,
    script_again: Option<String>,
)
    requires
        cfg@ == again@,
        bash@ == bash_script(cfg@),
        bash_again@ == bash_script(again@),
        zsh@ == zsh_script(cfg@),
        zsh_again@ == zsh_script(again@),
        is_script_for(script, cfg@),
        is_script_for(script_again, again@),
    ensures
        bash@ == bash_again@,
        zsh@ == zsh_again@,
        script is Some <==> script_again is Some,
        script is Some ==> script->0@ == script_again->0@,
{
}

} // verus!
