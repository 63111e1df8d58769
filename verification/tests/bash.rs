use autocshell::bash::{format_option, generate_bash, get_fixed_values_var_name_for_option};
use autocshell::config::{Config, ProgramOption};

fn option(short: &str, long: &str) -> ProgramOption {
    ProgramOption {
        short: short.to_string(),
        long: long.to_string(),
        ..ProgramOption::default()
    }
}

fn values(items: &[&str]) -> Vec<String> {
    items.iter().map(|item| item.to_string()).collect()
}

fn config(shell: &str, name: &str, options: Vec<ProgramOption>) -> Config {
    Config {
        shell: shell.to_string(),
        program_name: name.to_string(),
        program_options: options,
        ..Config::default()
    }
}

#[test]
fn variable_is_named_after_the_short_spelling_without_its_dash() {
    let name = get_fixed_values_var_name_for_option(&option("-o", "--output"));
    assert_eq!(name, "o_fixed_values");
}

#[test]
fn variable_is_named_after_the_long_spelling_where_there_is_no_short_one() {
    let name = get_fixed_values_var_name_for_option(&option("", "--output"));
    assert_eq!(name, "output_fixed_values");
}

#[test]
fn variable_name_keeps_dashes_that_do_not_lead() {
    let name = get_fixed_values_var_name_for_option(&option("", "---dry-run"));
    assert_eq!(name, "dry-run_fixed_values");
}

#[test]
fn variable_name_of_an_option_without_spelling_is_the_suffix() {
    let name = get_fixed_values_var_name_for_option(&option("", ""));
    assert_eq!(name, "_fixed_values");
}

#[test]
fn option_without_description_gives_its_spellings_in_one_line() {
    assert_eq!(format_option(12, &option("-o", "--output")), "-o --output");
    assert_eq!(format_option(0, &option("", "--output")), "--output");
    assert_eq!(format_option(0, &option("-o", "")), "-o");
    assert_eq!(format_option(0, &option("", "")), "");
}

#[test]
fn option_with_description_gives_a_padded_line_for_each_spelling() {
    let described = ProgramOption {
        description: "Where to write".to_string(),
        ..option("-o", "--output")
    };
    assert_eq!(
        format_option(8, &described),
        "-o       -- Where to write\n--output -- Where to write"
    );
    assert_eq!(
        format_option(10, &described),
        "-o         -- Where to write\n--output   -- Where to write"
    );
}

#[test]
fn spelling_longer_than_the_width_is_not_cut() {
    let described = ProgramOption {
        description: "d".to_string(),
        ..option("-o", "--output")
    };
    assert_eq!(format_option(0, &described), "-o -- d\n--output -- d");
    assert_eq!(format_option(2, &described), "-o -- d\n--output -- d");
    assert_eq!(format_option(3, &described), "-o  -- d\n--output -- d");
}

#[test]
fn described_option_with_one_spelling_gives_one_line() {
    let only_long = ProgramOption {
        description: "Input file".to_string(),
        ..option("", "--input")
    };
    assert_eq!(format_option(9, &only_long), "--input   -- Input file");
    let only_short = ProgramOption {
        description: "Input file".to_string(),
        ..option("-i", "")
    };
    assert_eq!(format_option(4, &only_short), "-i   -- Input file");
}

#[test]
fn width_counts_characters() {
    let described = ProgramOption {
        description: "d".to_string(),
        ..option("-\u{e9}", "")
    };
    assert_eq!(format_option(4, &described), "-\u{e9}   -- d");
}

#[test]
fn bash_script_for_the_help_option_alone() {
    let cfg = config(
        "",
        "foo",
        vec![
            option("-h", "--help"),
        ],
    );
    let script = generate_bash(&cfg);
    assert_eq!(
        script,
        "#!/usr/bin/bash\n_foo_completions() {\n    COMPREPLY=()\n    local current=${COMP_WORDS[COMP_CWORD]}\n    local previous=${COMP_WORDS[COMP_CWORD-1]}\n    local opts=\"-h --help\"\n    \n\n    if [[ ${current} == -* || ${COMP_CWORD} -eq 1 ]]; then\n        \n        COMPREPLY=( $(compgen -W \"${opts}\" -- \"${current}\") )\n        \n        \n        return 0\n    fi\n\n    case \"${previous}\" in\n    \n\n        *)\n            COMPREPLY=()\n            ;;\n    esac\n\n    \n    COMPREPLY=( $(compgen -W \"${opts}\" -- \"${current}\") )\n    \n    \n    return 0\n}\n\ncomplete -F _foo_completions -o bashdefault -o default foo"
    );
    assert!(script.contains("local opts=\"-h --help\""));
    assert!(!script.contains("-h)"));
    assert!(!script.contains("--help)"));
}

#[test]
fn bash_script_for_an_option_with_fixed_values() {
    let cfg = config(
        "bash",
        "foo",
        vec![
            ProgramOption {
                fixed_values: values(&["a", "b"]),
                ..option("-o", "--output")
            },
        ],
    );
    let script = generate_bash(&cfg);
    assert_eq!(
        script,
        "#!/usr/bin/bash\n_foo_completions() {\n    COMPREPLY=()\n    local current=${COMP_WORDS[COMP_CWORD]}\n    local previous=${COMP_WORDS[COMP_CWORD-1]}\n    local opts=\"-o --output\"\n    local o_fixed_values=\"a b\"\n\n    if [[ ${current} == -* || ${COMP_CWORD} -eq 1 ]]; then\n        \n        COMPREPLY=( $(compgen -W \"${opts}\" -- \"${current}\") )\n        \n        \n        return 0\n    fi\n\n    case \"${previous}\" in\n    \t-o)\n\n            COMPREPLY=( $(compgen -W \"${o_fixed_values}\" -- \"${current}\") )\n            return 0\n            ;;\n        \n\t\t--output)\n\n            COMPREPLY=( $(compgen -W \"${o_fixed_values}\" -- \"${current}\") )\n            return 0\n            ;;\n        \n\n        *)\n            COMPREPLY=()\n            ;;\n    esac\n\n    \n    COMPREPLY=( $(compgen -W \"${opts}\" -- \"${current}\") )\n    \n    \n    return 0\n}\n\ncomplete -F _foo_completions -o bashdefault -o default foo"
    );
    assert!(script.contains("local o_fixed_values=\"a b\""));
    assert!(script.contains("\t-o)\n"));
    assert!(script.contains("\t--output)\n"));
    assert_eq!(
        script
            .matches("COMPREPLY=( $(compgen -W \"${o_fixed_values}\" -- \"${current}\") )")
            .count(),
        2
    );
}

#[test]
fn bash_script_with_descriptions() {
    let cfg = config(
        "",
        "prog",
        vec![
            ProgramOption {
                description: "Show the version".to_string(),
                accepts_value: false,
                ..option("-v", "--version")
            },
            ProgramOption {
                description: "Input file".to_string(),
                accepts_files: true,
                ..option("", "--input")
            },
            ProgramOption {
                fixed_values: values(&["low", "high"]),
                ..option("-l", "--level")
            },
            ProgramOption {
                description: "Where it\\'s at".to_string(),
                accepts_multiple: true,
                ..option("-I", "--include")
            },
            ProgramOption {
                accepts_value: false,
                ..option("-h", "--help")
            },
        ],
    );
    assert_eq!(
        generate_bash(&cfg),
        "#!/usr/bin/bash\n_prog_completions() {\n    COMPREPLY=()\n    local current=${COMP_WORDS[COMP_CWORD]}\n    local previous=${COMP_WORDS[COMP_CWORD-1]}\n    local opts=\"\n-v        -- Show the version\n--version -- Show the version\n--input   -- Input file\n-l --level\n-I        -- Where it\\'s at\n--include -- Where it\\'s at\n-h --help\"\n    local l_fixed_values=\"low high\"\n\n    if [[ ${current} == -* || ${COMP_CWORD} -eq 1 ]]; then\n        \n        local OLDIFS=\"$IFS\"\n        local IFS=$'\\n'\n        COMPREPLY=( $(compgen -W \"${opts}\" -- \"${current}\") )\n        IFS=\"$OLDIFS\"\n        \n        if [[ ${#COMPREPLY[*]} -eq 1 ]]; then\n            COMPREPLY=(${COMPREPLY[0]%% -- *})\n        fi\n        return 0\n    fi\n\n    case \"${previous}\" in\n    \n\t\t--input)\n\n            COMPREPLY=( $(compgen -f \"${current}\") )\n            return 0\n            ;;\n        \t-l)\n\n            COMPREPLY=( $(compgen -W \"${l_fixed_values}\" -- \"${current}\") )\n            return 0\n            ;;\n        \n\t\t--level)\n\n            COMPREPLY=( $(compgen -W \"${l_fixed_values}\" -- \"${current}\") )\n            return 0\n            ;;\n        \n\n        *)\n            COMPREPLY=()\n            ;;\n    esac\n\n    \n        local OLDIFS=\"$IFS\"\n        local IFS=$'\\n'\n    COMPREPLY=( $(compgen -W \"${opts}\" -- \"${current}\") )\n    IFS=\"$OLDIFS\"\n    \n        if [[ ${#COMPREPLY[*]} -eq 1 ]]; then\n            COMPREPLY=(${COMPREPLY[0]%% -- *})\n        fi\n    return 0\n}\n\ncomplete -F _prog_completions -o bashdefault -o default prog"
    );
}

#[test]
fn bash_script_holds_every_fixed_value_as_the_description_holds_it() {
    let cfg = config(
        "bash",
        "prog",
        vec![
            ProgramOption {
                fixed_values: values(&["don\\'t", "it\\'s", "plain"]),
                ..option("-m", "--mode")
            },
            ProgramOption {
                fixed_values: values(&["x"]),
                accepts_files: true,
                ..option("", "--other")
            },
        ],
    );
    let script = generate_bash(&cfg);
    assert!(script.contains("local m_fixed_values=\"don\\'t it\\'s plain\""));
    assert!(script.contains("local other_fixed_values=\"x\""));
    for option in &cfg.program_options {
        for value in &option.fixed_values {
            assert!(script.contains(value.as_str()));
        }
    }
}

#[test]
fn bash_script_is_the_same_each_time() {
    let cfg = config(
        "",
        "prog",
        vec![
            ProgramOption {
                description: "Show the version".to_string(),
                accepts_value: false,
                ..option("-v", "--version")
            },
            ProgramOption {
                description: "Input file".to_string(),
                accepts_files: true,
                ..option("", "--input")
            },
            ProgramOption {
                fixed_values: values(&["low", "high"]),
                ..option("-l", "--level")
            },
            ProgramOption {
                description: "Where it\\'s at".to_string(),
                accepts_multiple: true,
                ..option("-I", "--include")
            },
            ProgramOption {
                accepts_value: false,
                ..option("-h", "--help")
            },
        ],
    );
    assert_eq!(generate_bash(&cfg), generate_bash(&cfg));
    assert_eq!(generate_bash(&cfg), generate_bash(&cfg.clone()));
}

#[test]
fn option_whose_argument_is_a_path_completes_to_paths() {
    let cfg = config(
        "bash",
        "prog",
        vec![ProgramOption {
            accepts_files: true,
            ..option("-i", "")
        }],
    );
    let script = generate_bash(&cfg);
    assert!(script.contains(
        "\t-i)\n\n            COMPREPLY=( $(compgen -f \"${current}\") )\n            return 0\n            ;;\n        \n\t"
    ));
}
