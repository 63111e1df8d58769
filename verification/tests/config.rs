use autocshell::config::{Config, ProgramOption};
use autocshell::error::ConfigError;

#[test]
fn empty_config_should_fail() {
    let cfg_str = "";
    let cfg = Config::from_string(cfg_str);
    assert!(cfg.is_err());
    assert_eq!(cfg.unwrap_err().message(), "Configuration is empty");
}

#[test]
fn config_with_unknown_field_should_fail() {
    let cfg_str = "\
            shell: bash
            program_name: test
            foo: foo_value
        ";

    let cfg = Config::from_string(cfg_str);
    assert!(cfg.is_err());
    assert_eq!(cfg.unwrap_err().message(), "Unknown field 'foo' in line 3")
}

#[test]
fn config_with_missing_field_should_fail() {
    let cfg_str = "\
            shell: bash
            : value
        ";

    let cfg = Config::from_string(cfg_str);
    assert!(cfg.is_err());
    assert_eq!(cfg.unwrap_err().message(), "Missing field in line 2");
}

#[test]
fn config_with_missing_value_should_fail() {
    let cfg_str = "\
            shell:
            program_name: _invalid_
        ";

    let cfg = Config::from_string(cfg_str);
    assert!(cfg.is_err());
    assert_eq!(cfg.unwrap_err().message(), "Missing value in line 1");
}

#[test]
fn config_without_options_should_fail() {
    let cfg_str = "\
            shell: zsh
            program_name: prog
        ";

    let cfg = Config::from_string(cfg_str);
    assert!(cfg.is_err());
    assert_eq!(
        cfg.unwrap_err().message(),
        "Configuration has no program options defined"
    );
}

#[test]
fn config_with_missing_program_name_should_fail() {
    let cfg_str = "\
            shell: zsh
            option:
                short: -h
                long: --help
        ";

    let cfg = Config::from_string(cfg_str);
    assert!(cfg.is_err());
    assert_eq!(
        cfg.unwrap_err().message(),
        "Configuration is missing mandatory field 'program_name'"
    );
}

#[test]
fn option_field_not_allowed_outside_of_option() {
    let cfg_str = "\
            shell: bash
            program_name: test
            short: -v
            option:
                short: -v
                long: --version
        ";

    let cfg = Config::from_string(cfg_str);
    assert!(cfg.is_err());
    assert_eq!(
        cfg.unwrap_err().message(),
        "Unknown field 'short' in line 3"
    );
}

#[test]
fn unknown_field_inside_option_should_fail() {
    let cfg_str = "\
            shell: zsh
            program_name: test
            option:
                invalid: -s
                long: --crash
        ";

    let cfg = Config::from_string(cfg_str);
    assert!(cfg.is_err());
    assert_eq!(cfg.unwrap_err().message(), "Unknown field 'invalid' in line 4");
}

#[test]
fn boolean_fields_should_accept_only_true_or_false() {
    let cfg_str = "\
            program_name: test
            use_equals_sign: true
            option:
                short: -h
                accepts_value: blah
        ";

    let cfg = Config::from_string(cfg_str);
    assert!(cfg.is_err());
    assert_eq!(
        cfg.unwrap_err().message(),
        "'accepts_value' accepts only true or false (line 5)"
    );
}

#[test]
fn missing_fields_are_set_to_default() {
    let cfg_str = "\
            shell: bash
            program_name: test
            option:
                short: -v
                long: --version
                description: Some description
        ";

    let cfg = Config::from_string(cfg_str);
    assert!(cfg.is_ok());
    let cfg = cfg.unwrap();
    assert_eq!(cfg.use_equals_sign, true);
    assert_eq!(cfg.program_options.len(), 1);
    let prog_opt = &cfg.program_options[0];
    assert_eq!(prog_opt.accepts_value, true);
    assert_eq!(prog_opt.accepts_files, false);
    assert_eq!(prog_opt.accepts_multiple, false);
}

#[test]
fn missing_fields_are_set_to_default_extra() {
    let cfg_str = "\
            program_name: test
            option:
                long: --help
            option:
                short: -h
                accepts_value: false
        ";

    let cfg = Config::from_string(cfg_str);
    assert!(cfg.is_ok());

    let cfg = cfg.unwrap();
    assert_eq!(cfg.use_equals_sign, true);
    assert_eq!(cfg.program_options.len(), 2);

    let opt_0 = &cfg.program_options[0];
    assert_eq!(opt_0.accepts_value, true);
    assert_eq!(opt_0.accepts_files, false);
    assert_eq!(opt_0.accepts_multiple, false);
    assert_eq!(opt_0.description, "");
    assert_eq!(opt_0.short, "");
    assert_eq!(opt_0.fixed_values, Vec::<String>::new());

    let opt_1 = &cfg.program_options[1];
    assert_eq!(opt_1.accepts_value, false);
    assert_eq!(opt_1.accepts_files, false);
    assert_eq!(opt_1.accepts_multiple, false);
    assert_eq!(opt_1.description, "");
    assert_eq!(opt_1.long, "");
    assert_eq!(opt_1.fixed_values, Vec::<String>::new());
}

#[test]
fn config_parses_correctly_1() {
    let cfg_str = "\
            program_name: test_2
            use_equals_sign: false
            option:
                short: -v
                long: --version
                description: Display the program version
                accepts_value: false
            option:
                long: --help
                description: Display helpful information
                accepts_value: false
            option:
                short: -o
                long: --output
                description: Specify the output path
                fixed_values: [log_file]
        ";

    let cfg = Config::from_string(cfg_str);
    assert!(cfg.is_ok());

    let cfg = cfg.unwrap();
    assert_eq!(cfg.shell, "");
    assert_eq!(cfg.program_name, "test_2");
    assert_eq!(cfg.program_options.len(), 3);
    assert_eq!(cfg.use_equals_sign, false);

    let opt_0 = &cfg.program_options[0];
    assert_eq!(opt_0.accepts_files, false);
    assert_eq!(opt_0.accepts_value, false);
    assert_eq!(opt_0.accepts_multiple, false);
    assert_eq!(opt_0.description, "Display the program version");
    assert_eq!(opt_0.short, "-v");
    assert_eq!(opt_0.long, "--version");
    assert_eq!(opt_0.fixed_values, Vec::<String>::new());

    let opt_1 = &cfg.program_options[1];
    assert_eq!(opt_1.accepts_files, false);
    assert_eq!(opt_1.accepts_value, false);
    assert_eq!(opt_1.accepts_multiple, false);
    assert_eq!(opt_1.description, "Display helpful information");
    assert_eq!(opt_1.short, "");
    assert_eq!(opt_1.long, "--help");
    assert_eq!(opt_1.fixed_values, Vec::<String>::new());

    let opt_2 = &cfg.program_options[2];
    assert_eq!(opt_2.accepts_files, false);
    assert_eq!(opt_2.accepts_value, true);
    assert_eq!(opt_2.accepts_multiple, false);
    assert_eq!(opt_2.description, "Specify the output path");
    assert_eq!(opt_2.short, "-o");
    assert_eq!(opt_2.long, "--output");
    assert_eq!(opt_2.fixed_values, vec!["log_file"]);
}

#[test]
fn description_and_fixed_values_should_be_escaped() {
    let cfg_str = "\
            program_name: test
            option:
                short: -q
                long: --quiet
                description: Don't display output
            option:
                long: --value
                fixed_values: [don't, it's]
        ";

    let cfg = Config::from_string(cfg_str);
    assert!(cfg.is_ok());
    let cfg = cfg.unwrap();

    assert_eq!(cfg.program_options[0].description, "Don\\'t display output");
    assert_eq!(cfg.program_options[1].fixed_values, vec!["don\\'t", "it\\'s"]);
}

#[test]
fn each_error_names_what_is_wrong_and_where() {
    assert_eq!(Config::from_string(""), Err(ConfigError::EmptyInput));
    assert_eq!(
        Config::from_string("program_name: p\n  : value"),
        Err(ConfigError::MissingFieldName(2))
    );
    assert_eq!(
        Config::from_string("program_name: p\n\nshell:   \n"),
        Err(ConfigError::MissingValue(3))
    );
    assert_eq!(
        Config::from_string("program_name: p\nprogram: q"),
        Err(ConfigError::UnknownField("program".to_string(), 2))
    );
    assert_eq!(
        Config::from_string("use_equals_sign: True"),
        Err(ConfigError::InvalidBoolean("use_equals_sign".to_string(), 1))
    );
    assert_eq!(
        Config::from_string("program_name: p\noption:\nfixed_values: a, b"),
        Err(ConfigError::MalformedFixedValues(3))
    );
    assert_eq!(
        Config::from_string("shell: zsh\noption:\nshort: -x"),
        Err(ConfigError::MissingProgramName)
    );
    assert_eq!(
        Config::from_string("program_name: p"),
        Err(ConfigError::NoOptionsDefined)
    );
}

#[test]
fn each_error_has_its_sentence() {
    assert_eq!(ConfigError::EmptyInput.message(), "Configuration is empty");
    assert_eq!(
        ConfigError::MissingFieldName(7).message(),
        "Missing field in line 7"
    );
    assert_eq!(
        ConfigError::MissingValue(10).message(),
        "Missing value in line 10"
    );
    assert_eq!(
        ConfigError::UnknownField("colour".to_string(), 120).message(),
        "Unknown field 'colour' in line 120"
    );
    assert_eq!(
        ConfigError::InvalidBoolean("accepts_files".to_string(), 4096).message(),
        "'accepts_files' accepts only true or false (line 4096)"
    );
    assert_eq!(
        ConfigError::MalformedFixedValues(305).message(),
        "'fixed_values' has incorrect format. Expected [<fixed_value>, ...] (line 305)"
    );
    assert_eq!(
        ConfigError::MissingProgramName.message(),
        "Configuration is missing mandatory field 'program_name'"
    );
    assert_eq!(
        ConfigError::NoOptionsDefined.message(),
        "Configuration has no program options defined"
    );
    assert_eq!(
        ConfigError::MissingValue(usize::MAX).message(),
        format!("Missing value in line {}", usize::MAX)
    );
    assert_eq!(ConfigError::MissingValue(0).message(), "Missing value in line 0");
}

#[test]
fn the_first_wrong_line_decides() {
    assert_eq!(
        Config::from_string("program_name: p\nbad: 1\n: 2\nworse: 3"),
        Err(ConfigError::UnknownField("bad".to_string(), 2))
    );
    assert_eq!(
        Config::from_string("shell:\nbad: 1"),
        Err(ConfigError::MissingValue(1))
    );
}

#[test]
fn a_wrong_line_outweighs_a_missing_name() {
    assert_eq!(
        Config::from_string("option:\nshort: -x\naccepts_files: yes"),
        Err(ConfigError::InvalidBoolean("accepts_files".to_string(), 3))
    );
}

#[test]
fn a_missing_name_outweighs_missing_options() {
    assert_eq!(
        Config::from_string("shell: bash"),
        Err(ConfigError::MissingProgramName)
    );
}

#[test]
fn lines_without_a_colon_say_nothing() {
    let cfg = Config::from_string(
        "# a remark\nprogram_name: p\n\noption\n   \noption:\njust words\nshort: -x\n",
    )
    .unwrap();
    assert_eq!(cfg.program_name, "p");
    assert_eq!(cfg.program_options.len(), 1);
    assert_eq!(cfg.program_options[0].short, "-x");
}

#[test]
fn lines_are_counted_with_those_that_say_nothing() {
    assert_eq!(
        Config::from_string("\n\nno colon here\nprogram_name: p\n\nwhat: x"),
        Err(ConfigError::UnknownField("what".to_string(), 6))
    );
}

#[test]
fn a_value_is_all_that_follows_the_first_colon() {
    let cfg = Config::from_string(
        "program_name: p\noption:\nlong: --url\ndescription:  see http://host:80/ : now  ",
    )
    .unwrap();
    assert_eq!(cfg.program_options[0].description, "see http://host:80/ : now");
}

#[test]
fn white_space_of_any_kind_is_trimmed() {
    let cfg = Config::from_string(
        "\t program_name \u{a0}:\u{2003}p q\u{3000}\r\n option :\r\n\u{2028}short\u{85}: -x \u{205f}\r\n",
    )
    .unwrap();
    assert_eq!(cfg.program_name, "p q");
    assert_eq!(cfg.program_options[0].short, "-x");
}

#[test]
fn the_last_line_for_a_field_wins() {
    let cfg = Config::from_string(
        "shell: bash\nprogram_name: first\nshell: zsh\nprogram_name: second\nuse_equals_sign: false\nuse_equals_sign: true\noption:\nshort: -a\nshort: -b\naccepts_files: true\naccepts_files: false",
    )
    .unwrap();
    assert_eq!(cfg.shell, "zsh");
    assert_eq!(cfg.program_name, "second");
    assert_eq!(cfg.use_equals_sign, true);
    assert_eq!(cfg.program_options.len(), 1);
    assert_eq!(cfg.program_options[0].short, "-b");
    assert_eq!(cfg.program_options[0].accepts_files, false);
}

#[test]
fn fields_of_the_description_are_unknown_once_an_option_is_open() {
    assert_eq!(
        Config::from_string("program_name: p\noption:\nshort: -x\nshell: bash"),
        Err(ConfigError::UnknownField("shell".to_string(), 4))
    );
}

#[test]
fn an_option_line_opens_an_option_whatever_follows_its_colon() {
    let cfg = Config::from_string("program_name: p\noption: first\noption:\nlong: --second").unwrap();
    assert_eq!(cfg.program_options.len(), 2);
    assert_eq!(cfg.program_options[0], ProgramOption::default());
    assert_eq!(cfg.program_options[1].long, "--second");
}

#[test]
fn an_option_may_have_no_spelling() {
    let cfg = Config::from_string("program_name: p\noption:").unwrap();
    assert_eq!(cfg.program_options, vec![ProgramOption::default()]);
}

#[test]
fn all_fields_of_an_option_are_read() {
    let cfg = Config::from_string(
        "program_name: p\noption:\nshort: -o\nlong: --out\ndescription: Where to\naccepts_files: true\naccepts_multiple: true\naccepts_value: false\nfixed_values: [a, b , c]",
    )
    .unwrap();
    assert_eq!(
        cfg,
        Config {
            shell: String::new(),
            program_name: "p".to_string(),
            program_options: vec![ProgramOption {
                short: "-o".to_string(),
                long: "--out".to_string(),
                description: "Where to".to_string(),
                fixed_values: vec!["a".to_string(), "b".to_string(), "c".to_string()],
                accepts_files: true,
                accepts_multiple: true,
                accepts_value: false,
            }],
            use_equals_sign: true,
        }
    );
}

#[test]
fn fixed_values_stand_between_the_first_brackets() {
    let values = |text: &str| {
        Config::from_string(&format!("program_name: p\noption:\nfixed_values: {}", text))
            .map(|cfg| cfg.program_options[0].fixed_values.clone())
    };
    assert_eq!(values("[a,b]"), Ok(vec!["a".to_string(), "b".to_string()]));
    assert_eq!(values("[]"), Ok(vec!["".to_string()]));
    assert_eq!(values("[ one ]"), Ok(vec!["one".to_string()]));
    assert_eq!(
        values("[a,, b]"),
        Ok(vec!["a".to_string(), "".to_string(), "b".to_string()])
    );
    assert_eq!(values("x [a] y] z"), Ok(vec!["a".to_string()]));
    assert_eq!(values("[a[b]"), Ok(vec!["a[b".to_string()]));
    assert_eq!(values("[a"), Err(ConfigError::MalformedFixedValues(3)));
    assert_eq!(values("a]"), Err(ConfigError::MalformedFixedValues(3)));
    assert_eq!(values("a"), Err(ConfigError::MalformedFixedValues(3)));
    assert_eq!(values("]a["), Err(ConfigError::MalformedFixedValues(3)));
}

#[test]
fn truth_values_are_spelled_in_small_letters() {
    let parsed = |text: &str| {
        Config::from_string(&format!("program_name: p\nuse_equals_sign: {}\noption:", text))
            .map(|cfg| cfg.use_equals_sign)
    };
    assert_eq!(parsed("true"), Ok(true));
    assert_eq!(parsed("false"), Ok(false));
    assert_eq!(
        parsed("TRUE"),
        Err(ConfigError::InvalidBoolean("use_equals_sign".to_string(), 2))
    );
    assert_eq!(
        parsed("1"),
        Err(ConfigError::InvalidBoolean("use_equals_sign".to_string(), 2))
    );
    assert_eq!(
        parsed("true false"),
        Err(ConfigError::InvalidBoolean("use_equals_sign".to_string(), 2))
    );
}

#[test]
fn unknown_field_inside_an_option_is_named_with_its_line() {
    let result = Config::from_string("program_name: p\noption:\nshort: -x\ninvalid: true");
    assert_eq!(
        result,
        Err(ConfigError::UnknownField("invalid".to_string(), 4))
    );
}

#[test]
fn description_without_a_program_name_is_not_accepted() {
    let result = Config::from_string("shell: zsh\noption:\nshort: -h\nlong: --help");
    assert_eq!(result, Err(ConfigError::MissingProgramName));
}

#[test]
fn a_description_written_out_plainly_reads_as_the_same_description() {
    let cfg = Config::from_string(
        "  shell :zsh\n\nuse_equals_sign: false\nprogram_name:   tool  \noption:\n  long: --mode\n  fixed_values: x [ don't ,it's,, z ] y\n  description: Don't ask\n  accepts_multiple: false\noption: \n short: -q\n accepts_value: false\n",
    )
    .unwrap();
    let written = "shell: zsh\nprogram_name: tool\nuse_equals_sign: false\noption:\nlong: --mode\ndescription: Don't ask\naccepts_files: false\naccepts_multiple: false\naccepts_value: true\nfixed_values: [don't,it's,,z]\noption:\nshort: -q\naccepts_files: false\naccepts_multiple: false\naccepts_value: false";
    let again = Config::from_string(written).unwrap();
    assert_eq!(cfg, again);
    assert_eq!(again.program_options[0].description, "Don\\'t ask");
    assert_eq!(
        again.program_options[0].fixed_values,
        vec!["don\\'t", "it\\'s", "", "z"]
    );
}

#[test]
fn the_shell_is_taken_from_outside_only_where_the_description_names_none() {
    let mut named = Config::from_string("shell: zsh\nprogram_name: p\noption:").unwrap();
    assert!(named.resolve_shell(Some("bash".to_string())));
    assert_eq!(named.shell, "zsh");
    assert!(named.resolve_shell(None));
    assert_eq!(named.shell, "zsh");

    let mut unnamed = Config::from_string("program_name: p\noption:").unwrap();
    let before = unnamed.clone();
    assert!(!unnamed.resolve_shell(None));
    assert_eq!(unnamed, before);
    assert!(unnamed.resolve_shell(Some("bash".to_string())));
    assert_eq!(unnamed.shell, "bash");
    assert_eq!(unnamed.program_name, before.program_name);
    assert_eq!(unnamed.program_options, before.program_options);
    assert_eq!(unnamed.use_equals_sign, before.use_equals_sign);
}

#[test]
fn option_says_whether_it_has_one_spelling_and_whether_it_is_help() {
    let spelled = |short: &str, long: &str| ProgramOption {
        short: short.to_string(),
        long: long.to_string(),
        ..ProgramOption::default()
    };
    assert!(spelled("-a", "").has_one_representation());
    assert!(spelled("", "--a").has_one_representation());
    assert!(!spelled("-a", "--a").has_one_representation());
    assert!(!spelled("", "").has_one_representation());
    assert!(spelled("-h", "").is_help());
    assert!(spelled("-h", "--host").is_help());
    assert!(spelled("", "--help").is_help());
    assert!(spelled("-x", "--help").is_help());
    assert!(!spelled("-H", "--Help").is_help());
    assert!(!spelled("", "").is_help());
}

#[test]
fn untouched_values_are_the_defaults() {
    let option = ProgramOption::default();
    assert_eq!(option.short, "");
    assert_eq!(option.long, "");
    assert_eq!(option.description, "");
    assert!(option.fixed_values.is_empty());
    assert!(!option.accepts_files);
    assert!(!option.accepts_multiple);
    assert!(option.accepts_value);
    let cfg = Config::default();
    assert_eq!(cfg.shell, "");
    assert_eq!(cfg.program_name, "");
    assert!(cfg.program_options.is_empty());
    assert!(cfg.use_equals_sign);
}

#[test]
fn a_description_is_written_in_its_plain_form() {
    let cfg = Config::from_string(
        "  shell :zsh\n\nuse_equals_sign: false\nprogram_name:   tool  \noption:\n  long: --mode\n  fixed_values: x [ don't ,it's,, z ] y\n  description: Don't ask\n  accepts_multiple: false\noption: \n short: -q\n accepts_value: false\n",
    )
    .unwrap();
    assert_eq!(
        cfg.description(),
        "shell: zsh\nprogram_name: tool\nuse_equals_sign: false\noption:\nlong: --mode\ndescription: Don't ask\naccepts_files: false\naccepts_multiple: false\naccepts_value: true\nfixed_values: [don't,it's,,z]\noption:\nshort: -q\naccepts_files: false\naccepts_multiple: false\naccepts_value: false"
    );
}

#[test]
fn what_is_written_reads_back_as_the_same_description() {
    let texts = [
        "program_name: p\noption:",
        "program_name: p\noption:\noption:\noption:",
        "shell: bash\nprogram_name: my prog\nuse_equals_sign: false\noption:\nshort: -a\nlong: --all\ndescription: it's \\' : all\naccepts_files: true\naccepts_multiple: true\naccepts_value: false\nfixed_values: []",
        "program_name: p: q\noption:\ndescription: 'quoted'\nfixed_values: ['a', b'c ,'',  [d , \\']\nshort: -x: y",
        "program_name: \u{e9}t\u{e9}\noption:\nlong: --na\u{ef}ve\nfixed_values: [\u{fc}ber, \u{2003}x\u{2003}]",
    ];
    for text in texts {
        let cfg = Config::from_string(text).unwrap();
        let written = cfg.description();
        assert_eq!(Config::from_string(&written), Ok(cfg.clone()), "{}", written);
        assert_eq!(Config::from_string(&written).unwrap().description(), written);
    }
}
