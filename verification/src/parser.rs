//! Reading a description.
//!
//! A description is a text of lines. A line with a colon gives a field a value: the field's
//! name is what stands before the first colon, the value what stands after it, both without
//! the white space around them. A line without a colon says nothing. Before the first
//! `option` line the fields are those of the description itself: `shell`, `program_name`,
//! `use_equals_sign`. Every `option` line opens a new option, whatever follows its colon, and
//! the fields after it are that option's: `short`, `long`, `description`, `accepts_files`,
//! `accepts_multiple`, `accepts_value`, `fixed_values`. A field may be given more than once;
//! the last line for it counts.
//!
//! Reading stops at the first line that is wrong, and says which line it is. An option is
//! not asked to have a spelling: one that is left without any is read as it stands.

use crate::config::{Config, ConfigView, ProgramOption, ProgramOptionView};
use crate::error::{ConfigError, ConfigErrorView};
use crate::text::{
    chars_of, escape_quotes, escaped, find_from, first_index, free_of, is_trimmed, is_word,
    lemma_escape_keeps_trimmed, lemma_first_index, lemma_split_keeps_free, lemma_split_pieces,
    lemma_trim_is_trimmed, lemma_trim_keeps_free, lemma_unescape_of_escape, slice_of, split,
    split_at_each, string_of, texts, trim, trimmed, unescape_quotes, views,
};
use vstd::prelude::*;

verus! {

// ---------------------------------------------------------------------------------------
// The grammar
// ---------------------------------------------------------------------------------------

/// The field and the value that a line gives, if it has a colon.
pub open spec fn line_fields(line: Seq<char>) -> Option<(Seq<char>, Seq<char>)> {
    let colon = first_index(line, ':');
    if 0 <= colon < line.len() {
        Some((trim(line.take(colon)), trim(line.skip(colon + 1))))
    } else {
        None
    }
}

/// The truth value that `value` spells: `true` or `false`, and nothing else.
pub open spec fn bool_value(value: Seq<char>) -> Option<bool> {
    if value == "true"@ {
        Some(true)
    } else if value == "false"@ {
        Some(false)
    } else {
        None
    }
}

/// The fixed values that `value` lists: what stands between the first `[` and the first `]`,
/// cut at the commas, each piece without the white space around it and with its single
/// quotes escaped. Nothing where a bracket is missing or `]` comes first.
pub open spec fn fixed_values_of(value: Seq<char>) -> Option<Seq<Seq<char>>> {
    let open = first_index(value, '[');
    let close = first_index(value, ']');
    if 0 <= open < close < value.len() {
        Some(
            split(value.subrange(open + 1, close), ',').map_values(
                |piece: Seq<char>| escape_quotes(trim(piece)),
            ),
        )
    } else {
        None
    }
}

/// The option after one of its fields is given a value on line `line`, or what is wrong
/// with that line.
pub open spec fn option_field(
    option: ProgramOptionView,
    field: Seq<char>,
    value: Seq<char>,
    line: nat,
) -> Result<ProgramOptionView, ConfigErrorView> {
    if field == "short"@ {
        Ok(ProgramOptionView { short: value, ..option })
    } else if field == "long"@ {
        Ok(ProgramOptionView { long: value, ..option })
    } else if field == "description"@ {
        Ok(ProgramOptionView { description: escape_quotes(value), ..option })
    } else if field == "accepts_files"@ {
        match bool_value(value) {
            Some(b) => Ok(ProgramOptionView { accepts_files: b, ..option }),
            None => Err(ConfigErrorView::InvalidBoolean(field, line)),
        }
    } else if field == "accepts_multiple"@ {
        match bool_value(value) {
            Some(b) => Ok(ProgramOptionView { accepts_multiple: b, ..option }),
            None => Err(ConfigErrorView::InvalidBoolean(field, line)),
        }
    } else if field == "accepts_value"@ {
        match bool_value(value) {
            Some(b) => Ok(ProgramOptionView { accepts_value: b, ..option }),
            None => Err(ConfigErrorView::InvalidBoolean(field, line)),
        }
    } else if field == "fixed_values"@ {
        match fixed_values_of(value) {
            Some(values) => Ok(ProgramOptionView { fixed_values: values, ..option }),
            None => Err(ConfigErrorView::MalformedFixedValues(line)),
        }
    } else {
        Err(ConfigErrorView::UnknownField(field, line))
    }
}

/// The description after one of its own fields is given a value on line `line`, or what is
/// wrong with that line.
pub open spec fn top_level_field(
    cfg: ConfigView,
    field: Seq<char>,
    value: Seq<char>,
    line: nat,
) -> Result<ConfigView, ConfigErrorView> {
    if field == "shell"@ {
        Ok(ConfigView { shell: value, ..cfg })
    } else if field == "program_name"@ {
        Ok(ConfigView { program_name: value, ..cfg })
    } else if field == "use_equals_sign"@ {
        match bool_value(value) {
            Some(b) => Ok(ConfigView { use_equals_sign: b, ..cfg }),
            None => Err(ConfigErrorView::InvalidBoolean(field, line)),
        }
    } else {
        Err(ConfigErrorView::UnknownField(field, line))
    }
}

/// The field and the value that line number `number` gives, once they are found in order:
/// a line with a colon names its field, and gives it a value unless the field is `option`.
pub open spec fn checked_line_fields(line: Seq<char>, number: nat) -> Result<
    Option<(Seq<char>, Seq<char>)>,
    ConfigErrorView,
> {
    match line_fields(line) {
        Some((field, value)) => if field.len() == 0 {
            Err(ConfigErrorView::MissingFieldName(number))
        } else if value.len() == 0 && field != "option"@ {
            Err(ConfigErrorView::MissingValue(number))
        } else {
            Ok(Some((field, value)))
        },
        None => Ok(None),
    }
}

/// `cfg` with one more option at the end.
pub open spec fn with_option(cfg: ConfigView, option: ProgramOptionView) -> ConfigView {
    ConfigView { program_options: cfg.program_options.push(option), ..cfg }
}

/// The description after the field `field` is given `value` on line `line`. `option` opens
/// a new option. Any other field belongs to the description while no option is open, and to
/// the option opened last from then on.
pub open spec fn apply_field(
    cfg: ConfigView,
    field: Seq<char>,
    value: Seq<char>,
    line: nat,
) -> Result<ConfigView, ConfigErrorView> {
    if field == "option"@ {
        Ok(with_option(cfg, ProgramOptionView::new()))
    } else if cfg.program_options.len() == 0 {
        top_level_field(cfg, field, value, line)
    } else {
        match option_field(cfg.program_options.last(), field, value, line) {
            Ok(option) => Ok(
                ConfigView {
                    program_options: cfg.program_options.drop_last().push(option),
                    ..cfg
                },
            ),
            Err(error) => Err(error),
        }
    }
}

/// Whether a line opens an option.
pub open spec fn is_option_line(line: Seq<char>) -> bool {
    line_fields(line) matches Some(fields) && fields.0 == "option"@
}

/// The description after line number `number` is read, or what is wrong with that line. A
/// line without a colon changes nothing.
pub open spec fn apply_line(cfg: ConfigView, line: Seq<char>, number: nat) -> Result<
    ConfigView,
    ConfigErrorView,
> {
    match checked_line_fields(line, number) {
        Ok(Some((field, value))) => apply_field(cfg, field, value, number),
        Ok(None) => Ok(cfg),
        Err(error) => Err(error),
    }
}

/// What the lines say when read from the first to the last, or what is wrong with the first
/// line that something is wrong with.
pub open spec fn read_lines(lines: Seq<Seq<char>>) -> Result<ConfigView, ConfigErrorView>
    decreases lines.len(),
{
    if lines.len() == 0 {
        Ok(ConfigView::new())
    } else {
        match read_lines(lines.drop_last()) {
            Ok(cfg) => apply_line(cfg, lines.last(), lines.len()),
            Err(error) => Err(error),
        }
    }
}

/// What the text describes, or why it is not accepted. The empty text is not accepted;
/// neither is a text that names no program or opens no option.
pub open spec fn parse(text: Seq<char>) -> Result<ConfigView, ConfigErrorView> {
    if text.len() == 0 {
        Err(ConfigErrorView::EmptyInput)
    } else {
        match read_lines(split(text, '\n')) {
            Ok(cfg) => if cfg.program_name.len() == 0 {
                Err(ConfigErrorView::MissingProgramName)
            } else if cfg.program_options.len() == 0 {
                Err(ConfigErrorView::NoOptionsDefined)
            } else {
                Ok(cfg)
            },
            Err(error) => Err(error),
        }
    }
}

/// What a result of reading holds, as mathematical values.
pub open spec fn outcome(result: Result<Config, ConfigError>) -> Result<
    ConfigView,
    ConfigErrorView,
> {
    match result {
        Ok(cfg) => Ok(cfg@),
        Err(error) => Err(error@),
    }
}

/// Once a line is wrong, the lines after it change nothing.
pub proof fn lemma_first_error_stays(lines: Seq<Seq<char>>, read: int)
    requires
        0 <= read <= lines.len(),
    ensures
        read_lines(lines.take(read)) is Err ==> read_lines(lines) == read_lines(lines.take(read)),
    decreases lines.len() - read,
{
    if read == lines.len() {
        assert(lines.take(read) =~= lines);
    } else {
        assert(lines.drop_last().take(read) =~= lines.take(read));
        lemma_first_error_stays(lines.drop_last(), read);
    }
}

// ---------------------------------------------------------------------------------------
// What the reader leaves
// ---------------------------------------------------------------------------------------

/// Whether `value` can be a line's value: it has no white space at its ends and no line
/// break.
pub open spec fn is_plain(value: Seq<char>) -> bool {
    is_trimmed(value) && free_of(value, '\n')
}

/// Whether `text` is a plain value with its quotes escaped.
pub open spec fn is_quoted(text: Seq<char>) -> bool {
    escape_quotes(unescape_quotes(text)) == text && is_plain(unescape_quotes(text))
}

/// Whether `text` can be an item of a list of fixed values: a quoted value that holds
/// neither a comma nor a closing bracket.
pub open spec fn is_item(text: Seq<char>) -> bool {
    is_quoted(text) && free_of(unescape_quotes(text), ',') && free_of(unescape_quotes(text), ']')
}

/// Whether an option is as the reader leaves options.
pub open spec fn is_read_option(option: ProgramOptionView) -> bool {
    &&& is_plain(option.short)
    &&& is_plain(option.long)
    &&& is_quoted(option.description)
    &&& forall|k: int|
        0 <= k < option.fixed_values.len() ==> is_item(#[trigger] option.fixed_values[k])
}

/// Whether a description is as the reader leaves descriptions.
pub open spec fn is_read(cfg: ConfigView) -> bool {
    &&& is_plain(cfg.shell)
    &&& is_plain(cfg.program_name)
    &&& forall|i: int|
        0 <= i < cfg.program_options.len() ==> is_read_option(#[trigger] cfg.program_options[i])
}

// ---------------------------------------------------------------------------------------
// Why the reader leaves it so
// ---------------------------------------------------------------------------------------

/// The value that a line without a line break gives is plain.
proof fn lemma_line_value_is_plain(line: Seq<char>)
    requires
        free_of(line, '\n'),
    ensures
        line_fields(line) matches Some(fields) ==> is_plain(fields.1),
{
    if line_fields(line) is Some {
        lemma_first_index(line, ':');
        let colon = first_index(line, ':');
        let rest = line.skip(colon + 1);
        assert(free_of(rest, '\n')) by {
            assert forall|j: int| 0 <= j < rest.len() implies rest[j] != '\n' by {
                assert(rest[j] == line[colon + 1 + j]);
            }
        }
        lemma_trim_is_trimmed(rest);
        lemma_trim_keeps_free(rest, '\n');
    }
}

/// The items that a plain value lists are items as the reader leaves them.
proof fn lemma_fixed_values_are_items(value: Seq<char>)
    requires
        is_plain(value),
        fixed_values_of(value) is Some,
    ensures
        forall|k: int|
            0 <= k < fixed_values_of(value)->0.len() ==> is_item(
                #[trigger] fixed_values_of(value)->0[k],
            ),
{
    let open = first_index(value, '[');
    let close = first_index(value, ']');
    let inner = value.subrange(open + 1, close);
    let pieces = split(inner, ',');
    let values = fixed_values_of(value)->0;
    lemma_first_index(value, ']');
    assert(free_of(inner, ']') && free_of(inner, '\n')) by {
        assert forall|j: int| 0 <= j < inner.len() implies inner[j] != ']' && inner[j] != '\n' by {
            assert(inner[j] == value[open + 1 + j]);
        }
    }
    lemma_split_pieces(inner, ',');
    lemma_split_keeps_free(inner, ',', ']');
    lemma_split_keeps_free(inner, ',', '\n');
    assert forall|k: int| 0 <= k < values.len() implies is_item(#[trigger] values[k]) by {
        let piece = pieces[k];
        assert(values[k] == escape_quotes(trim(piece)));
        lemma_unescape_of_escape(trim(piece));
        lemma_trim_is_trimmed(piece);
        assert(free_of(piece, ','));
        assert(free_of(piece, ']'));
        assert(free_of(piece, '\n'));
        lemma_trim_keeps_free(piece, ',');
        lemma_trim_keeps_free(piece, ']');
        lemma_trim_keeps_free(piece, '\n');
    }
}

/// The option that a description opens is as the reader leaves options.
proof fn lemma_new_option_is_read()
    ensures
        is_read_option(ProgramOptionView::new()),
{
    let empty = Seq::<char>::empty();
    assert(unescape_quotes(empty) =~= empty);
    assert(escape_quotes(empty) =~= empty);
}

/// Giving a plain value to a field of an option that is as the reader leaves options
/// leaves it so.
proof fn lemma_option_field_keeps(
    option: ProgramOptionView,
    field: Seq<char>,
    value: Seq<char>,
    number: nat,
)
    requires
        is_read_option(option),
        is_plain(value),
        option_field(option, field, value, number) is Ok,
    ensures
        is_read_option(option_field(option, field, value, number)->Ok_0),
{
    reveal_strlit("short");
    reveal_strlit("long");
    reveal_strlit("description");
    reveal_strlit("accepts_files");
    reveal_strlit("accepts_multiple");
    reveal_strlit("accepts_value");
    reveal_strlit("fixed_values");
    if field == "description"@ {
        lemma_unescape_of_escape(value);
    } else if field == "fixed_values"@ {
        assert(field.len() != "short"@.len() && field.len() != "long"@.len() && field.len()
            != "description"@.len() && field.len() != "accepts_files"@.len() && field.len()
            != "accepts_multiple"@.len() && field.len() != "accepts_value"@.len());
        lemma_fixed_values_are_items(value);
    }
}

/// Reading one line without a line break leaves a description as the reader leaves
/// descriptions.
proof fn lemma_apply_line_keeps(cfg: ConfigView, line: Seq<char>, number: nat)
    requires
        is_read(cfg),
        free_of(line, '\n'),
        apply_line(cfg, line, number) is Ok,
    ensures
        is_read(apply_line(cfg, line, number)->Ok_0),
{
    let next = apply_line(cfg, line, number)->Ok_0;
    if line_fields(line) is Some {
        let (field, value) = line_fields(line)->0;
        lemma_line_value_is_plain(line);
        if field == "option"@ {
            lemma_new_option_is_read();
            assert forall|i: int| 0 <= i < next.program_options.len() implies is_read_option(
                #[trigger] next.program_options[i],
            ) by {
                if i < cfg.program_options.len() {
                    assert(next.program_options[i] == cfg.program_options[i]);
                }
            }
        } else if cfg.program_options.len() == 0 {
        } else {
            let last = cfg.program_options.last();
            assert(is_read_option(last));
            lemma_option_field_keeps(last, field, value, number);
            assert forall|i: int| 0 <= i < next.program_options.len() implies is_read_option(
                #[trigger] next.program_options[i],
            ) by {
                if i < cfg.program_options.len() - 1 {
                    assert(next.program_options[i] == cfg.program_options[i]);
                }
            }
        }
    }
}

/// What is read from lines without line breaks is as the reader leaves descriptions.
proof fn lemma_read_lines_keeps(lines: Seq<Seq<char>>)
    requires
        forall|k: int| 0 <= k < lines.len() ==> free_of(#[trigger] lines[k], '\n'),
        read_lines(lines) is Ok,
    ensures
        is_read(read_lines(lines)->Ok_0),
    decreases lines.len(),
{
    if lines.len() == 0 {
        let empty = Seq::<char>::empty();
        assert(is_plain(empty));
    } else {
        let front = lines.drop_last();
        assert forall|k: int| 0 <= k < front.len() implies free_of(#[trigger] front[k], '\n') by {
            assert(front[k] == lines[k]);
        }
        lemma_read_lines_keeps(front);
        assert(free_of(lines.last(), '\n'));
        lemma_apply_line_keeps(read_lines(front)->Ok_0, lines.last(), lines.len());
    }
}

/// An option as the reader leaves options has no white space at the ends of its spellings
/// or of its description.
pub proof fn lemma_read_option_is_trimmed(option: ProgramOptionView)
    requires
        is_read_option(option),
    ensures
        is_trimmed(option.short),
        is_trimmed(option.long),
        is_trimmed(option.description),
{
    lemma_escape_keeps_trimmed(unescape_quotes(option.description));
}

/// Whatever description the reader makes of a text is as the reader leaves descriptions:
/// its values have no white space at their ends and no line break, and its description
/// texts and fixed values are such values with their single quotes escaped.
pub proof fn lemma_parsed_is_read(text: Seq<char>, cfg: ConfigView)
    requires
        parse(text) == Ok::<ConfigView, ConfigErrorView>(cfg),
    ensures
        is_read(cfg),
        cfg.is_complete(),
{
    lemma_split_pieces(text, '\n');
    lemma_read_lines_keeps(split(text, '\n'));
}

// ---------------------------------------------------------------------------------------
// The reader
// ---------------------------------------------------------------------------------------

/// The truth value that `value` spells.
fn check_bool(value: &Vec<char>) -> (b: Option<bool>)
    ensures
        b == bool_value(value@),
{
    if is_word(value, "true") {
        Some(true)
    } else if is_word(value, "false") {
        Some(false)
    } else {
        None
    }
}

/// The error for a truth value that is neither `true` nor `false`.
fn boolean_value_error(field: &Vec<char>, line_num: usize) -> (error: ConfigError)
    ensures
        error@ == ConfigErrorView::InvalidBoolean(field@, line_num as nat),
{
    ConfigError::InvalidBoolean(string_of(field), line_num)
}

/// The error for a field that does not exist where the line stands.
fn unknown_field_error(field: &Vec<char>, line_num: usize) -> (error: ConfigError)
    ensures
        error@ == ConfigErrorView::UnknownField(field@, line_num as nat),
{
    ConfigError::UnknownField(string_of(field), line_num)
}

/// The field and the value that line number `line_num` gives, if it has a colon, or what
/// is wrong with the line.
fn next_field_and_value(line: &Vec<char>, line_num: usize) -> (result: Result<
    Option<(Vec<char>, Vec<char>)>,
    ConfigError,
>)
    ensures
        match result {
            Ok(Some((field, value))) => checked_line_fields(line@, line_num as nat) == Ok::<
                Option<(Seq<char>, Seq<char>)>,
                ConfigErrorView,
            >(Some((field@, value@))),
            Ok(None) => checked_line_fields(line@, line_num as nat) == Ok::<
                Option<(Seq<char>, Seq<char>)>,
                ConfigErrorView,
            >(None),
            Err(error) => checked_line_fields(line@, line_num as nat) == Err::<
                Option<(Seq<char>, Seq<char>)>,
                ConfigErrorView,
            >(error@),
        },
{
    let colon = find_from(line, 0, ':');
    proof {
        assert(line@.skip(0) =~= line@);
    }
    if colon < line.len() {
        let field = trimmed(line, 0, colon);
        let value = trimmed(line, colon + 1, line.len());
        proof {
            assert(line@.subrange(0, colon as int) =~= line@.take(colon as int));
            assert(line@.subrange(colon + 1, line.len() as int) =~= line@.skip(colon + 1));
        }
        if field.len() == 0 {
            return Err(ConfigError::MissingFieldName(line_num));
        } else if value.len() == 0 && !is_word(&field, "option") {
            return Err(ConfigError::MissingValue(line_num));
        }
        Ok(Some((field, value)))
    } else {
        Ok(None)
    }
}

/// The fixed values that `fixed_values` lists.
fn parse_fixed_values(fixed_values: &Vec<char>, line_num: usize) -> (result: Result<
    Vec<String>,
    ConfigError,
>)
    ensures
        match result {
            Ok(values) => fixed_values_of(fixed_values@) == Some(texts(values@)),
            Err(error) => fixed_values_of(fixed_values@) is None && error@
                == ConfigErrorView::MalformedFixedValues(line_num as nat),
        },
{
    let open = find_from(fixed_values, 0, '[');
    let close = find_from(fixed_values, 0, ']');
    proof {
        assert(fixed_values@.skip(0) =~= fixed_values@);
    }
    if open < close && close < fixed_values.len() {
        let inner = slice_of(fixed_values, open + 1, close);
        let pieces = split_at_each(&inner, ',');
        let mut values: Vec<String> = Vec::new();
        let mut i: usize = 0;
        while i < pieces.len()
            invariant
                i <= pieces.len(),
                values.len() == i,
                forall|j: int| 0 <= j < i ==> values@[j]@ == escape_quotes(trim(pieces@[j]@)),
            decreases pieces.len() - i,
        {
            let piece = &pieces[i];
            let kept = trimmed(piece, 0, piece.len());
            assert(piece@.subrange(0, piece.len() as int) =~= piece@);
            let safe = escaped(&kept);
            values.push(string_of(&safe));
            i += 1;
        }
        proof {
            let expected = split(inner@, ',').map_values(
                |piece: Seq<char>| escape_quotes(trim(piece)),
            );
            assert(texts(values@) =~= expected) by {
                assert forall|j: int| 0 <= j < expected.len() implies texts(values@)[j]
                    == expected[j] by {
                    assert(views(pieces@)[j] == pieces@[j]@);
                }
            }
        }
        Ok(values)
    } else {
        Err(ConfigError::MalformedFixedValues(line_num))
    }
}

/// The option after one of its fields is given a value.
fn parse_option_field(
    option: ProgramOption,
    field: &Vec<char>,
    value: &Vec<char>,
    line_num: usize,
) -> (result: Result<ProgramOption, ConfigError>)
    ensures
        match result {
            Ok(changed) => option_field(option@, field@, value@, line_num as nat) == Ok::<
                ProgramOptionView,
                ConfigErrorView,
            >(changed@),
            Err(error) => option_field(option@, field@, value@, line_num as nat) == Err::<
                ProgramOptionView,
                ConfigErrorView,
            >(error@),
        },
{
    let mut option = option;
    if is_word(field, "short") {
        option.short = string_of(value);
        Ok(option)
    } else if is_word(field, "long") {
        option.long = string_of(value);
        Ok(option)
    } else if is_word(field, "description") {
        let safe = escaped(value);
        option.description = string_of(&safe);
        Ok(option)
    } else if is_word(field, "accepts_files") {
        match check_bool(value) {
            Some(b) => {
                option.accepts_files = b;
                Ok(option)
            },
            None => Err(boolean_value_error(field, line_num)),
        }
    } else if is_word(field, "accepts_multiple") {
        match check_bool(value) {
            Some(b) => {
                option.accepts_multiple = b;
                Ok(option)
            },
            None => Err(boolean_value_error(field, line_num)),
        }
    } else if is_word(field, "accepts_value") {
        match check_bool(value) {
            Some(b) => {
                option.accepts_value = b;
                Ok(option)
            },
            None => Err(boolean_value_error(field, line_num)),
        }
    } else if is_word(field, "fixed_values") {
        match parse_fixed_values(value, line_num) {
            Ok(values) => {
                option.fixed_values = values;
                Ok(option)
            },
            Err(error) => Err(error),
        }
    } else {
        Err(unknown_field_error(field, line_num))
    }
}

/// The description after one of its own fields is given a value.
fn parse_top_level_field(
    cfg: Config,
    field: &Vec<char>,
    value: &Vec<char>,
    line_num: usize,
) -> (result: Result<Config, ConfigError>)
    ensures
        outcome(result) == top_level_field(cfg@, field@, value@, line_num as nat),
{
    let mut cfg = cfg;
    if is_word(field, "shell") {
        cfg.shell = string_of(value);
        Ok(cfg)
    } else if is_word(field, "program_name") {
        cfg.program_name = string_of(value);
        Ok(cfg)
    } else if is_word(field, "use_equals_sign") {
        match check_bool(value) {
            Some(b) => {
                cfg.use_equals_sign = b;
                Ok(cfg)
            },
            None => Err(boolean_value_error(field, line_num)),
        }
    } else {
        Err(unknown_field_error(field, line_num))
    }
}

impl Config {
    /// Reads a description. The result is the description that `cfg_str` spells out, or
    /// the first thing that is wrong with it.
    pub fn from_string(cfg_str: &str) -> (result: Result<Config, ConfigError>)
        ensures
            outcome(result) == parse(cfg_str@),
            result matches Ok(cfg) ==> cfg@.is_complete() && is_read(cfg@),
    {
        let text = chars_of(cfg_str);
        if text.len() == 0 {
            return Err(ConfigError::EmptyInput);
        }
        let lines = split_at_each(&text, '\n');
        let mut cfg = Config::default();
        let mut i: usize = 0;
        assert(views(lines@).take(0) =~= Seq::empty());
        while i < lines.len()
            invariant
                i <= lines.len(),
                cfg_str@.len() > 0,
                views(lines@) == split(cfg_str@, '\n'),
                read_lines(views(lines@).take(i as int)) == Ok::<ConfigView, ConfigErrorView>(cfg@),
                cfg@.program_options.len() > 0 && i < lines.len() ==> is_option_line(
                    views(lines@)[i as int],
                ),
            decreases lines.len() - i,
        {
            let ghost before = cfg@;
            proof {
                assert(views(lines@).take(i + 1).drop_last() =~= views(lines@).take(i as int));
                lemma_first_error_stays(views(lines@), i + 1);
            }
            match next_field_and_value(&lines[i], i + 1) {
                Err(error) => {
                    return Err(error);
                },
                Ok(None) => {
                    i += 1;
                },
                Ok(Some((field, value))) => {
                    if is_word(&field, "option") {
                        match Config::parse_program_option(&lines, i + 1, Ghost(before)) {
                            Ok((program_option, next)) => {
                                cfg.program_options.push(program_option);
                                assert(cfg@ == with_option(before, program_option@)) by {
                                    assert(cfg@.program_options
                                        =~= before.program_options.push(program_option@));
                                }
                                i = next;
                            },
                            Err(error) => {
                                return Err(error);
                            },
                        }
                    } else {
                        match parse_top_level_field(cfg, &field, &value, i + 1) {
                            Ok(changed) => {
                                cfg = changed;
                            },
                            Err(error) => {
                                return Err(error);
                            },
                        }
                        i += 1;
                    }
                },
            }
        }
        assert(views(lines@).take(lines.len() as int) =~= views(lines@));
        if cfg.program_name.as_str().is_empty() {
            return Err(ConfigError::MissingProgramName);
        }
        if cfg.program_options.len() == 0 {
            return Err(ConfigError::NoOptionsDefined);
        }
        proof {
            lemma_parsed_is_read(cfg_str@, cfg@);
        }
        Ok(cfg)
    }

    /// Reads the fields of the option that the line before line `start` opened, up to the
    /// next line that opens an option or to the last line. `before` is the description as
    /// it was when the option was opened. The result is the option and the index of the
    /// line at which reading stopped, or the first thing that is wrong.
    fn parse_program_option(
        lines: &Vec<Vec<char>>,
        start: usize,
        Ghost(before): Ghost<ConfigView>,
    ) -> (result: Result<(ProgramOption, usize), ConfigError>)
        requires
            start <= lines.len(),
            read_lines(views(lines@).take(start as int)) == Ok::<ConfigView, ConfigErrorView>(
                with_option(before, ProgramOptionView::new()),
            ),
        ensures
            match result {
                Ok((option, next)) => {
                    &&& start <= next <= lines.len()
                    &&& read_lines(views(lines@).take(next as int)) == Ok::<
                        ConfigView,
                        ConfigErrorView,
                    >(with_option(before, option@))
                    &&& next < lines.len() ==> is_option_line(views(lines@)[next as int])
                },
                Err(error) => read_lines(views(lines@)) == Err::<ConfigView, ConfigErrorView>(
                    error@,
                ),
            },
    {
        let mut program_option = ProgramOption::default();
        let mut i: usize = start;
        while i < lines.len()
            invariant
                start <= i <= lines.len(),
                read_lines(views(lines@).take(i as int)) == Ok::<ConfigView, ConfigErrorView>(
                    with_option(before, program_option@),
                ),
            ensures
                start <= i <= lines.len(),
                read_lines(views(lines@).take(i as int)) == Ok::<ConfigView, ConfigErrorView>(
                    with_option(before, program_option@),
                ),
                i < lines.len() ==> is_option_line(views(lines@)[i as int]),
            decreases lines.len() - i,
        {
            let ghost opened = with_option(before, program_option@);
            proof {
                assert(views(lines@).take(i + 1).drop_last() =~= views(lines@).take(i as int));
                assert(opened.program_options.last() == program_option@);
                lemma_first_error_stays(views(lines@), i + 1);
            }
            match next_field_and_value(&lines[i], i + 1) {
                Err(error) => {
                    return Err(error);
                },
                Ok(None) => {},
                Ok(Some((field, value))) => {
                    if is_word(&field, "option") {
                        break ;
                    }
                    match parse_option_field(program_option, &field, &value, i + 1) {
                        Ok(changed) => {
                            program_option = changed;
                            assert(opened.program_options.drop_last().push(changed@)
                                =~= before.program_options.push(changed@));
                        },
                        Err(error) => {
                            return Err(error);
                        },
                    }
                },
            }
            i += 1;
        }
        Ok((program_option, i))
    }
}

} // verus!
