//! The option model: what a description says of a program and of each of its options.

use crate::text::{same_text, texts};
use vstd::prelude::*;

verus! {

/// One option of the described program. An option is meant to have at least one of its two
/// spellings; nothing here depends on it.
#[derive(Debug, Clone, PartialEq, Eq)]
pub struct ProgramOption {
    /// The short spelling, dash included; empty where the option has none.
    pub short: String,
    /// The long spelling, dashes included; empty where the option has none.
    pub long: String,
    /// What the shell shows beside the option; single quotes in it are escaped.
    pub description: String,
    /// The only values the option's argument can take; single quotes in them are escaped.
    pub fixed_values: Vec<String>,
    /// Whether the option's argument is a path.
    pub accepts_files: bool,
    /// Whether the option may be given more than once.
    pub accepts_multiple: bool,
    /// Whether the option takes an argument at all.
    pub accepts_value: bool,
}

/// What a [`ProgramOption`] holds, as mathematical values.
pub struct ProgramOptionView {
    pub short: Seq<char>,
    pub long: Seq<char>,
    pub description: Seq<char>,
    pub fixed_values: Seq<Seq<char>>,
    pub accepts_files: bool,
    pub accepts_multiple: bool,
    pub accepts_value: bool,
}

impl View for ProgramOption {
    type V = ProgramOptionView;

    open spec fn view(&self) -> ProgramOptionView {
        ProgramOptionView {
            short: self.short@,
            long: self.long@,
            description: self.description@,
            fixed_values: texts(self.fixed_values@),
            accepts_files: self.accepts_files,
            accepts_multiple: self.accepts_multiple,
            accepts_value: self.accepts_value,
        }
    }
}

impl ProgramOptionView {
    /// The option a description opens with `option:`: no spelling, no description, no fixed
    /// values, an argument that is no path, given at most once.
    pub open spec fn new() -> ProgramOptionView {
        ProgramOptionView {
            short: Seq::empty(),
            long: Seq::empty(),
            description: Seq::empty(),
            fixed_values: Seq::empty(),
            accepts_files: false,
            accepts_multiple: false,
            accepts_value: true,
        }
    }

    /// Whether the option has exactly one of its two spellings.
    pub open spec fn has_one_representation(self) -> bool {
        (self.short.len() == 0) != (self.long.len() == 0)
    }

    /// Whether this is the option that asks for help: `-h` or `--help`.
    pub open spec fn is_help(self) -> bool {
        self.short == "-h"@ || self.long == "--help"@
    }

    /// The spelling by which the option is named where one name is wanted: the short one,
    /// or the long one where there is no short one.
    pub open spec fn first_spelling(self) -> Seq<char> {
        if self.short.len() == 0 {
            self.long
        } else {
            self.short
        }
    }
}

impl Default for ProgramOption {
    fn default() -> (r: ProgramOption)
        ensures
            r@ == ProgramOptionView::new(),
    {
        let r = ProgramOption {
            short: String::new(),
            long: String::new(),
            description: String::new(),
            fixed_values: Vec::new(),
            accepts_files: false,
            accepts_multiple: false,
            accepts_value: true,
        };
        assert(r@.fixed_values =~= Seq::empty());
        r
    }
}

impl ProgramOption {
    /// Whether the option has exactly one of its two spellings.
    pub fn has_one_representation(&self) -> (b: bool)
        ensures
            b == self@.has_one_representation(),
    {
        self.short.as_str().is_empty() != self.long.as_str().is_empty()
    }

    /// Whether this is the option that asks for help: `-h` or `--help`.
    pub fn is_help(&self) -> (b: bool)
        ensures
            b == self@.is_help(),
    {
        same_text(self.short.as_str(), "-h") || same_text(self.long.as_str(), "--help")
    }
}

/// A whole description: the program, the shell to write for, and the options.
#[derive(Debug, Clone, PartialEq, Eq)]
pub struct Config {
    /// The shell to write the script for; empty where the description names none.
    pub shell: String,
    /// The name of the described program.
    pub program_name: String,
    /// The options, in the order in which the description lists them.
    pub program_options: Vec<ProgramOption>,
    /// Whether a zsh script puts `=` after an option that is not the help option.
    pub use_equals_sign: bool,
}

/// What a [`Config`] holds, as mathematical values.
pub struct ConfigView {
    pub shell: Seq<char>,
    pub program_name: Seq<char>,
    pub program_options: Seq<ProgramOptionView>,
    pub use_equals_sign: bool,
}

/// The views of the options in `v`.
pub open spec fn option_views(v: Seq<ProgramOption>) -> Seq<ProgramOptionView> {
    Seq::new(v.len(), |i: int| v[i]@)
}

impl View for Config {
    type V = ConfigView;

    open spec fn view(&self) -> ConfigView {
        ConfigView {
            shell: self.shell@,
            program_name: self.program_name@,
            program_options: option_views(self.program_options@),
            use_equals_sign: self.use_equals_sign,
        }
    }
}

impl ConfigView {
    /// The description that says nothing yet: no shell, no name, no options, and `=` after
    /// options in zsh.
    pub open spec fn new() -> ConfigView {
        ConfigView {
            shell: Seq::empty(),
            program_name: Seq::empty(),
            program_options: Seq::empty(),
            use_equals_sign: true,
        }
    }

    /// Whether the description is complete: it names the program and lists an option.
    pub open spec fn is_complete(self) -> bool {
        self.program_name.len() > 0 && self.program_options.len() > 0
    }
}

impl Default for Config {
    fn default() -> (r: Config)
        ensures
            r@ == ConfigView::new(),
    {
        let r = Config {
            shell: String::new(),
            program_name: String::new(),
            program_options: Vec::new(),
            use_equals_sign: true,
        };
        assert(r@.program_options =~= Seq::empty());
        r
    }
}

impl Config {
    /// Settles the shell to write for. A description that names a shell keeps it. One that
    /// names none takes `fallback`, where there is one. The result says whether the shell is
    /// settled: it is not where the description names none and there is no fallback.
    pub fn resolve_shell(&mut self, fallback: Option<String>) -> (settled: bool)
        ensures
            old(self)@.shell.len() > 0 ==> settled && *final(self) == *old(self),
            old(self)@.shell.len() == 0 ==> match fallback {
                Some(shell) => settled && final(self)@ == (ConfigView {
                    shell: shell@,
                    ..old(self)@
                }),
                None => !settled && *final(self) == *old(self),
            },
    {
        if !self.shell.as_str().is_empty() {
            true
        } else {
            match fallback {
                Some(shell) => {
                    self.shell = shell;
                    true
                },
                None => false,
            }
        }
    }
}

} // verus!
