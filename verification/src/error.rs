//! What can be wrong with a description.

use crate::text::{append_decimal, decimal};
use vstd::prelude::*;
use vstd::string::*;

verus! {

/// Why a description was not accepted. Lines are counted from 1.
#[derive(Debug, Clone, PartialEq, Eq)]
pub enum ConfigError {
    /// The description is the empty text.
    EmptyInput,
    /// The line starts with its colon: nothing names the field.
    MissingFieldName(usize),
    /// The line names a field other than `option` and gives it no value.
    MissingValue(usize),
    /// The line names a field that does not exist where the line stands.
    UnknownField(String, usize),
    /// The line gives the named field, which is either `true` or `false`, another value.
    InvalidBoolean(String, usize),
    /// The line's list of fixed values does not stand between `[` and `]`.
    MalformedFixedValues(usize),
    /// No line names the program.
    MissingProgramName,
    /// No line opens an option.
    NoOptionsDefined,
}

/// What a [`ConfigError`] holds, as mathematical values.
pub enum ConfigErrorView {
    EmptyInput,
    MissingFieldName(nat),
    MissingValue(nat),
    UnknownField(Seq<char>, nat),
    InvalidBoolean(Seq<char>, nat),
    MalformedFixedValues(nat),
    MissingProgramName,
    NoOptionsDefined,
}

impl View for ConfigError {
    type V = ConfigErrorView;

    open spec fn view(&self) -> ConfigErrorView {
        match *self {
            ConfigError::EmptyInput => ConfigErrorView::EmptyInput,
            ConfigError::MissingFieldName(line) => ConfigErrorView::MissingFieldName(line as nat),
            ConfigError::MissingValue(line) => ConfigErrorView::MissingValue(line as nat),
            ConfigError::UnknownField(name, line) => ConfigErrorView::UnknownField(
                name@,
                line as nat,
            ),
            ConfigError::InvalidBoolean(field, line) => ConfigErrorView::InvalidBoolean(
                field@,
                line as nat,
            ),
            ConfigError::MalformedFixedValues(line) => ConfigErrorView::MalformedFixedValues(
                line as nat,
            ),
            ConfigError::MissingProgramName => ConfigErrorView::MissingProgramName,
            ConfigError::NoOptionsDefined => ConfigErrorView::NoOptionsDefined,
        }
    }
}

/// The sentence that tells a person what is wrong.
pub open spec fn message_text(error: ConfigErrorView) -> Seq<char> {
    match error {
        ConfigErrorView::EmptyInput => "Configuration is empty"@,
        ConfigErrorView::MissingFieldName(line) => "Missing field in line "@ + decimal(line),
        ConfigErrorView::MissingValue(line) => "Missing value in line "@ + decimal(line),
        ConfigErrorView::UnknownField(name, line) => "Unknown field '"@ + name + "' in line "@
            + decimal(line),
        ConfigErrorView::InvalidBoolean(field, line) => "'"@ + field
            + "' accepts only true or false (line "@ + decimal(line) + ")"@,
        ConfigErrorView::MalformedFixedValues(line) =>
            "'fixed_values' has incorrect format. Expected [<fixed_value>, ...] (line "@
            + decimal(line) + ")"@,
        ConfigErrorView::MissingProgramName =>
            "Configuration is missing mandatory field 'program_name'"@,
        ConfigErrorView::NoOptionsDefined => "Configuration has no program options defined"@,
    }
}

impl ConfigError {
    /// The sentence that tells a person what is wrong.
    pub fn message(&self) -> (text: String)
        ensures
            text@ == message_text(self@),
    {
        match self {
            ConfigError::EmptyInput => String::from_str("Configuration is empty"),
            ConfigError::MissingFieldName(line) => {
                let mut text = String::from_str("Missing field in line ");
                append_decimal(&mut text, *line);
                text
            },
            ConfigError::MissingValue(line) => {
                let mut text = String::from_str("Missing value in line ");
                append_decimal(&mut text, *line);
                text
            },
            ConfigError::UnknownField(name, line) => {
                let mut text = String::from_str("Unknown field '");
                text.append(name.as_str());
                text.append("' in line ");
                append_decimal(&mut text, *line);
                text
            },
            ConfigError::InvalidBoolean(field, line) => {
                let mut text = String::from_str("'");
                text.append(field.as_str());
                text.append("' accepts only true or false (line ");
                append_decimal(&mut text, *line);
                text.append(")");
                text
            },
            ConfigError::MalformedFixedValues(line) => {
                let mut text = String::from_str(
                    "'fixed_values' has incorrect format. Expected [<fixed_value>, ...] (line ",
                );
                append_decimal(&mut text, *line);
                text.append(")");
                text
            },
            ConfigError::MissingProgramName => String::from_str(
                "Configuration is missing mandatory field 'program_name'",
            ),
            ConfigError::NoOptionsDefined => String::from_str(
                "Configuration has no program options defined",
            ),
        }
    }
}

} // verus!
